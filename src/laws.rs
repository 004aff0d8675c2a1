//! Laws that relate several operations of the library.

use vstd::math::abs;
use vstd::prelude::*;

use crate::bigint::{
    digit_value, digits_num, int_decimal, nat_decimal, radix_accepts, radix_value, sign_split,
    unsigned_body,
};
use crate::cont::{prog, prog_items, Cont, ContNode, SeqCont};
use crate::interp::{first_word, lemma_first_word};
use crate::lexer::{is_ws, word_split};
use crate::number::{all_radix_digits, first_slash, has_slash, is_ascii_digit, literal, minus_split, radix_split, single_number};

verus! {

/// Sequencing is associative: `a; (b; c)` and `(a; b); c` stand for the same
/// steps. As every step of a sequence or list node keeps what is left to run
/// unchanged, both shapes run the same way.
pub proof fn lemma_seq_associative(
    a: Option<Cont>,
    b: Option<Cont>,
    c: Option<Cont>,
    ab: Cont,
    bc: Cont,
    left: Cont,
    right: Cont,
)
    requires
        *bc == ContNode::Sequence(SeqCont { first: b, second: c }),
        *left == ContNode::Sequence(SeqCont { first: a, second: Some(bc) }),
        *ab == ContNode::Sequence(SeqCont { first: a, second: b }),
        *right == ContNode::Sequence(SeqCont { first: Some(ab), second: c }),
    ensures
        prog(left) == prog(right),
{
    let pa = match a {
        Some(x) => prog(x),
        None => Seq::empty(),
    };
    let pb = match b {
        Some(x) => prog(x),
        None => Seq::empty(),
    };
    let pc = match c {
        Some(x) => prog(x),
        None => Seq::empty(),
    };
    assert(prog(bc) == pb + pc);
    assert(prog(ab) == pa + pb);
    assert(prog(left) =~= prog(right));
}

/// The steps of the items `items[i..]`, each item's steps in turn.
pub open spec fn items_steps(items: Seq<Cont>, i: int) -> Seq<Seq<ContNode>> {
    items.subrange(i, items.len() as int).map_values(|x: Cont| prog(x))
}

proof fn lemma_prog_items_flatten(items: Seq<Cont>, i: int)
    requires
        0 <= i <= items.len(),
    ensures
        prog_items(items, i) == items_steps(items, i).flatten(),
    decreases items.len() - i,
{
    if i < items.len() {
        lemma_prog_items_flatten(items, i + 1);
        assert(items_steps(items, i).drop_first() =~= items_steps(items, i + 1));
        assert(items_steps(items, i)[0] == prog(items[i]));
    } else {
        assert(items_steps(items, i) =~= Seq::<Seq<ContNode>>::empty());
    }
}

/// The items of the word list that a list node plays.
pub open spec fn list_items(c: Cont) -> Seq<Cont> {
    (*c)->List_0.list.items@
}

/// Playing a word list `[x1 ... xn]` from its start, with nothing after it,
/// stands for the steps of `x1`, then those of `x2`, and so on to `xn`.
pub proof fn lemma_list_playback(c: Cont)
    requires
        *c is List,
        (*c)->List_0.pos == 0,
        (*c)->List_0.after is None,
    ensures
        prog(c) == items_steps(list_items(c), 0).flatten(),
{
    let items = list_items(c);
    lemma_prog_items_flatten(items, 0);
    if items.len() == 0 {
        assert(items_steps(items, 0) =~= Seq::<Seq<ContNode>>::empty());
    } else {
        assert(prog(c) =~= prog_items(items, 0));
    }
}

proof fn lemma_nat_decimal_digits(n: nat)
    ensures
        nat_decimal(n).len() > 0,
        forall|i: int| 0 <= i < nat_decimal(n).len() ==> is_ascii_digit(#[trigger] nat_decimal(n)[i]),
        digits_num(nat_decimal(n), 10) == n,
    decreases n,
{
    if n >= 10 {
        lemma_nat_decimal_digits(n / 10);
        let s = nat_decimal(n / 10);
        let d = ((n % 10) + '0' as nat) as char;
        assert(nat_decimal(n) == s + seq![d]);
        assert((s + seq![d]).drop_last() =~= s);
        assert(digit_value(d) == n % 10);
        assert((n / 10) * 10 + n % 10 == n) by (nonlinear_arith);
        assert((s + seq![d]).last() == d);
        assert(digits_num(s, 10) == n / 10);
        assert(digits_num(nat_decimal(n), 10) == digits_num(s, 10) * 10 + digit_value(d));
        assert forall|i: int| 0 <= i < nat_decimal(n).len() implies is_ascii_digit(
            #[trigger] nat_decimal(n)[i],
        ) by {
            if i < s.len() {
                assert(nat_decimal(n)[i] == s[i]);
            }
        }
    } else {
        let d = (n + '0' as nat) as char;
        assert(nat_decimal(n) == seq![d]);
        assert(seq![d].drop_last() =~= Seq::<char>::empty());
        assert(digit_value(d) == n);
        assert(seq![d].last() == d);
        assert(digits_num(seq![d].drop_last(), 10) == 0);
        assert(digits_num(seq![d], 10) == digits_num(seq![d].drop_last(), 10) * 10 + digit_value(d));
    }
}

proof fn lemma_nat_decimal_reads_back(n: nat)
    ensures
        single_number(nat_decimal(n)) == Some(Some(n as int)),
        !has_slash(nat_decimal(n)),
{
    lemma_nat_decimal_digits(n);
    let s = nat_decimal(n);
    assert(minus_split(s) == (false, s));
    assert(!(s.len() >= 2 && s[0] == '0' && s[1] == 'x')) by {
        if s.len() >= 2 {
            assert(is_ascii_digit(s[1]));
        }
    }
    assert(!(s.len() >= 2 && s[0] == '0' && s[1] == 'b')) by {
        if s.len() >= 2 {
            assert(is_ascii_digit(s[1]));
        }
    }
    assert(radix_split(s) == (10u32, s));
    assert(is_ascii_digit(s[0]));
    assert(sign_split(s) == (false, s));
    assert(unsigned_body(s) == s);
    assert forall|i: int| 0 <= i < s.len() implies #[trigger] s[i] == '_' || digit_value(s[i])
        < 10u32 by {
        assert(is_ascii_digit(s[i]));
    }
    assert(radix_accepts(s, 10));
    assert(radix_value(s, 10) == n);
    assert(!has_slash(s)) by {
        if has_slash(s) {
            let i = choose|i: int| 0 <= i < s.len() && s[i] == '/';
            assert(is_ascii_digit(s[i]));
        }
    }
}

proof fn lemma_int_decimal_reads_back(n: int)
    ensures
        single_number(int_decimal(n)) == Some(Some(n)),
        forall|i: int| 0 <= i < int_decimal(n).len() ==> #[trigger] int_decimal(n)[i] != '/',
        int_decimal(n).len() > 0,
{
    if n >= 0 {
        lemma_nat_decimal_reads_back(n as nat);
        lemma_nat_decimal_digits(n as nat);
        let s = nat_decimal(n as nat);
        assert forall|i: int| 0 <= i < s.len() implies #[trigger] s[i] != '/' by {
            assert(is_ascii_digit(s[i]));
        }
    } else {
        let m = (-n) as nat;
        lemma_nat_decimal_reads_back(m);
        lemma_nat_decimal_digits(m);
        let s = nat_decimal(m);
        let t = seq!['-'] + s;
        assert(t.drop_first() =~= s);
        assert(minus_split(t) == (true, s));
        assert(int_decimal(n) == t);
        assert forall|i: int| 0 <= i < t.len() implies #[trigger] t[i] != '/' by {
            if i > 0 {
                assert(t[i] == s[i - 1]);
                assert(is_ascii_digit(s[i - 1]));
            }
        }
    }
}

/// Every integer written in decimal reads back as itself.
pub proof fn lemma_decimal_round_trip(n: int)
    ensures
        literal(int_decimal(n)) == Some(Some((n, None::<int>))),
{
    lemma_int_decimal_reads_back(n);
    let t = int_decimal(n);
    assert(!has_slash(t)) by {
        if has_slash(t) {
            let i = choose|i: int| 0 <= i < t.len() && t[i] == '/';
            assert(t[i] != '/');
        }
    }
}

/// A rational written as decimal numerator, `/`, decimal denominator reads
/// back as that numerator and denominator.
pub proof fn lemma_rational_round_trip(n: int, d: int)
    ensures
        literal(int_decimal(n) + seq!['/'] + int_decimal(d)) == Some(Some((n, Some(d)))),
{
    lemma_int_decimal_reads_back(n);
    lemma_int_decimal_reads_back(d);
    let a = int_decimal(n);
    let b = int_decimal(d);
    let s = a + seq!['/'] + b;
    let l = a.len() as int;
    assert(s[l] == '/');
    assert(has_slash(s));
    assert(first_slash(s, l)) by {
        assert forall|j: int| 0 <= j < l implies s[j] != '/' by {
            assert(s[j] == a[j]);
        }
    }
    let i = choose|i: int| first_slash(s, i);
    if i < l {
        assert(s[i] == a[i]);
    }
    assert(i == l);
    assert(s.subrange(0, l) =~= a);
    assert(s.subrange(l + 1, s.len() as int) =~= b);
}

/// The digit character of a value below 16, in upper or lower case.
pub open spec fn digit_char(v: nat, upper: bool) -> char {
    if v < 10 {
        (v + '0' as nat) as char
    } else if upper {
        ((v - 10) + 'A' as nat) as char
    } else {
        ((v - 10) + 'a' as nat) as char
    }
}

/// The digits of `n` in base `radix`, from 2 to 16.
pub open spec fn nat_radix(n: nat, radix: nat, upper: bool) -> Seq<char>
    decreases n,
    via lemma_nat_radix_decreases
{
    if radix < 2 || radix > 16 || n < radix {
        seq![digit_char(n % 16, upper)]
    } else {
        nat_radix(n / radix, radix, upper) + seq![digit_char(n % radix, upper)]
    }
}

#[via_fn]
proof fn lemma_nat_radix_decreases(n: nat, radix: nat, upper: bool) {
    if !(radix < 2 || radix > 16 || n < radix) {
        assert(n / radix < n) by (nonlinear_arith)
            requires
                radix >= 2,
                n >= radix,
        ;
    }
}

proof fn lemma_nat_radix(n: nat, radix: nat, upper: bool)
    requires
        2 <= radix <= 16,
    ensures
        nat_radix(n, radix, upper).len() > 0,
        forall|i: int|
            0 <= i < nat_radix(n, radix, upper).len() ==> digit_value(
                #[trigger] nat_radix(n, radix, upper)[i],
            ) < radix && nat_radix(n, radix, upper)[i] != '/',
        digits_num(nat_radix(n, radix, upper), radix as u32) == n,
    decreases n,
{
    let r32 = radix as u32;
    assert(r32 as int == radix);
    if n >= radix {
        assert(n / radix < n) by (nonlinear_arith)
            requires
                radix >= 2,
                n >= radix,
        ;
        lemma_nat_radix(n / radix, radix, upper);
        let s = nat_radix(n / radix, radix, upper);
        let v = n % radix;
        let c = digit_char(v, upper);
        assert(nat_radix(n, radix, upper) == s + seq![c]);
        assert((s + seq![c]).drop_last() =~= s);
        assert((s + seq![c]).last() == c);
        assert(v < radix) by (nonlinear_arith)
            requires
                radix >= 2,
                v == n % radix,
        ;
        assert(digit_value(c) == v);
        assert((n / radix) * radix + n % radix == n) by (nonlinear_arith)
            requires
                radix >= 2,
        ;
        assert(digits_num(s + seq![c], r32) == digits_num(s, r32) * r32 + digit_value(c));
        assert forall|i: int| 0 <= i < nat_radix(n, radix, upper).len() implies digit_value(
            #[trigger] nat_radix(n, radix, upper)[i],
        ) < radix && nat_radix(n, radix, upper)[i] != '/' by {
            if i < s.len() {
                assert(nat_radix(n, radix, upper)[i] == s[i]);
            }
        }
    } else {
        let c = digit_char(n % 16, upper);
        assert(n % 16 == n);
        assert(nat_radix(n, radix, upper) == seq![c]);
        assert(seq![c].drop_last() =~= Seq::<char>::empty());
        assert(seq![c].last() == c);
        assert(digit_value(c) == n);
        assert(digits_num(seq![c].drop_last(), r32) == 0);
        assert(digits_num(seq![c], r32) == digits_num(seq![c].drop_last(), r32) * r32
            + digit_value(c));
    }
}

/// The sign of a literal: `-` for a negative value, nothing otherwise.
pub open spec fn sign_text(n: int) -> Seq<char> {
    if n < 0 {
        seq!['-']
    } else {
        Seq::empty()
    }
}

/// Every integer written with its sign, then `0x` and its hex digits in
/// either case, or `0b` and its binary digits, reads back as itself.
pub proof fn lemma_prefixed_round_trip(n: int, upper: bool)
    ensures
        literal(sign_text(n) + seq!['0', 'x'] + nat_radix(abs(n) as nat, 16, upper)) == Some(
            Some((n, None::<int>)),
        ),
        literal(sign_text(n) + seq!['0', 'b'] + nat_radix(abs(n) as nat, 2, upper)) == Some(
            Some((n, None::<int>)),
        ),
{
    lemma_prefix_reads_back(n, 16, 'x', upper);
    lemma_prefix_reads_back(n, 2, 'b', upper);
}

proof fn lemma_prefix_reads_back(n: int, radix: nat, mark: char, upper: bool)
    requires
        (radix == 16 && mark == 'x') || (radix == 2 && mark == 'b'),
    ensures
        literal(sign_text(n) + seq!['0', mark] + nat_radix(abs(n) as nat, radix, upper)) == Some(
            Some((n, None::<int>)),
        ),
{
    let m = abs(n) as nat;
    lemma_nat_radix(m, radix, upper);
    let d = nat_radix(m, radix, upper);
    let t = seq!['0', mark] + d;
    let s = sign_text(n) + t;
    assert(sign_text(n) + seq!['0', mark] + d =~= s);
    assert(t[0] == '0' && t[1] == mark);
    if n < 0 {
        assert(s.drop_first() =~= t);
        assert(minus_split(s) == (true, t));
    } else {
        assert(s =~= t);
        assert(minus_split(s) == (false, t));
    }
    assert(t.subrange(2, t.len() as int) =~= d);
    assert(radix_split(t) == (radix as u32, d));
    assert(all_radix_digits(d, radix as u32));
    assert(single_number(s) == Some(Some(n)));
    assert(!has_slash(s)) by {
        if has_slash(s) {
            let i = choose|i: int| 0 <= i < s.len() && s[i] == '/';
            let o = sign_text(n).len() as int;
            if i >= o + 2 {
                assert(s[i] == d[i - o - 2]);
            }
        }
    }
}

/// Backing the lexer up by `d` characters of the word it just read
/// (`0 < d <= |t|`) makes the next word read exactly those `d` characters,
/// followed by the same input as before.
pub proof fn lemma_rewind_rescan(before: Seq<char>, t: Seq<char>, after: Seq<char>, d: int)
    requires
        word_split(before, t, after),
        0 < d <= t.len(),
    ensures
        first_word(t.subrange(t.len() - d, t.len() as int) + after) == (
            t.subrange(t.len() - d, t.len() as int),
            after,
        ),
{
    let u = t.subrange(t.len() - d, t.len() as int);
    let b = u + after;
    assert(b.subrange(0, 0) + u + after =~= b);
    assert forall|i: int| 0 <= i < u.len() implies !is_ws(#[trigger] u[i]) by {
        assert(u[i] == t[t.len() - d + i]);
    }
    assert(word_split(b, u, after));
    lemma_first_word(b, u, after);
}

} // verus!
