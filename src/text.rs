//! Text helpers over std and unicode-segmentation.

use vstd::prelude::*;

use unicode_segmentation::UnicodeSegmentation;

verus! {

/// The extended grapheme clusters of a text, in order.
pub uninterp spec fn grapheme_clusters(s: Seq<char>) -> Seq<Seq<char>>;

/// Relies on `UnicodeSegmentation::graphemes(s, true)`: the extended grapheme
/// clusters of `s`, in order, which together make up `s`.
#[verifier::external_body]
fn graphemes(s: &str) -> (r: Vec<String>)
    ensures
        r@.map_values(|g: String| g@) == grapheme_clusters(s@),
        r@.map_values(|g: String| g@).flatten() == s@,
{
    s.graphemes(true).map(|g| g.to_string()).collect()
}

/// Relies on `String::push_str`: appends `t`.
#[verifier::external_body]
fn push_str(s: &mut String, t: &str)
    ensures
        final(s)@ == old(s)@ + t@,
{
    s.push_str(t)
}

/// Relies on `String: FromIterator<char>`: the characters, in order.
#[verifier::external_body]
pub(crate) fn string_from_chars(v: &Vec<char>) -> (r: String)
    ensures
        r@ == v@,
{
    v.iter().collect()
}

/// The text with its grapheme clusters in reverse order, each cluster kept
/// as it is.
pub open spec fn reversed_clusters(s: Seq<char>) -> Seq<char> {
    grapheme_clusters(s).reverse().flatten()
}

/// Reverses the order of the grapheme clusters of `s`, so that combining
/// marks stay with their base characters.
pub fn reverse_utf8_string_inplace(s: &mut String)
    ensures
        final(s)@ == reversed_clusters(old(s)@),
{
    let clusters = graphemes(s.as_str());
    let ghost gs = clusters@.map_values(|g: String| g@);
    let mut r = String::new();
    let mut i: usize = clusters.len();
    assert(gs.subrange(i as int, gs.len() as int).reverse() =~= Seq::<Seq<char>>::empty());
    while i > 0
        invariant
            i <= clusters@.len(),
            gs == clusters@.map_values(|g: String| g@),
            r@ == gs.subrange(i as int, gs.len() as int).reverse().flatten(),
        decreases i,
    {
        let ghost before = gs.subrange(i as int, gs.len() as int).reverse();
        i -= 1;
        push_str(&mut r, clusters[i].as_str());
        proof {
            let after = gs.subrange(i as int, gs.len() as int).reverse();
            assert(after =~= before.push(gs[i as int]));
            before.lemma_flatten_push(gs[i as int]);
        }
    }
    assert(gs.subrange(0, gs.len() as int) =~= gs);
    *s = r;
}

} // verus!
