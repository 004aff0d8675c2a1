//! Names, dumps and bounded backtraces of continuations.

use vstd::prelude::*;

use crate::bigint::{nat_decimal, to_decimal};
use crate::bigint::{int_decimal, int_value};
use crate::cont::{Cont, ContNode, StackValue, WhileCont};
use crate::context::{resolve_in, Dictionary};
use crate::lexer::copy_range;
use crate::text::string_from_chars;

verus! {

broadcast use vstd::std_specs::vec::group_vec_axioms;

/// The most levels that a backtrace shows.
pub const MAX_LEVELS: usize = 16;

/// How many items a list dump shows on each side of the current one.
pub const WINDOW: usize = 16;

/// Appends `t` to `v`.
fn append(v: &mut Vec<char>, t: &Vec<char>)
    ensures
        final(v)@ == old(v)@ + t@,
{
    let mut i: usize = 0;
    while i < t.len()
        invariant
            i <= t@.len(),
            v@ == old(v)@ + t@.subrange(0, i as int),
        decreases t@.len() - i,
    {
        v.push(t[i]);
        i += 1;
        assert(v@ =~= old(v)@ + t@.subrange(0, i as int));
    }
    assert(t@.subrange(0, i as int) =~= t@);
}

/// Appends the characters of `t`.
fn append_str(v: &mut Vec<char>, t: &str)
    ensures
        final(v)@ == old(v)@ + t@,
{
    let n = t.unicode_len();
    let mut i: usize = 0;
    while i < n
        invariant
            n == t@.len(),
            i <= n,
            v@ == old(v)@ + t@.subrange(0, i as int),
        decreases n - i,
    {
        v.push(t.get_char(i));
        i += 1;
        assert(v@ =~= old(v)@ + t@.subrange(0, i as int));
    }
    assert(t@.subrange(0, i as int) =~= t@);
}

/// The decimal digits of `n`.
pub fn usize_decimal(n: usize) -> (r: Vec<char>)
    ensures
        r@ == nat_decimal(n as nat),
    decreases n,
{
    let d = ((n % 10) as u32 + '0' as u32) as u8 as char;
    assert(d == ((n % 10) as nat + '0' as nat) as char);
    if n < 10 {
        vec![d]
    } else {
        let mut r = usize_decimal(n / 10);
        r.push(d);
        r
    }
}

/// The continuation that runs after this one, where there is one to show.
pub open spec fn up(c: Cont) -> Option<Cont> {
    match *c {
        ContNode::Sequence(s) => s.second,
        ContNode::List(l) => l.after,
        ContNode::Times(t) => t.after,
        ContNode::Until(u) => u.after,
        ContNode::While(w) => w.after,
        _ => None,
    }
}

/// How many continuations the chain of `up` links from `c` holds, `c`
/// included.
pub open spec fn up_depth(c: Cont) -> nat
    decreases c,
{
    match up(c) {
        Some(n) => 1 + up_depth(n),
        None => 1,
    }
}

/// The backtrace text: the frames, one per line, then the marker where
/// levels were left out.
pub open spec fn render(frames: Seq<Seq<char>>, more: bool) -> Seq<char>
    decreases frames.len(),
{
    if frames.len() == 0 {
        if more {
            "... more levels ..."@
        } else {
            Seq::empty()
        }
    } else if frames.len() == 1 && !more {
        frames[0]
    } else {
        frames[0] + seq!['\n'] + render(frames.drop_first(), more)
    }
}


/// The phase name of a while loop.
pub open spec fn stage_text(w: WhileCont) -> Seq<char> {
    if w.running_body {
        "body"@
    } else {
        "condition"@
    }
}

/// The text without its trailing spaces.
pub open spec fn trim_spaces(s: Seq<char>) -> Seq<char>
    decreases s.len(),
{
    if s.len() > 0 && s.last() == ' ' {
        trim_spaces(s.drop_last())
    } else {
        s
    }
}

/// The dictionary name of a built-in word without trailing spaces, or
/// `<continuation>`.
pub open spec fn cont_name_spec(c: Cont, d: Dictionary) -> Seq<char> {
    match *c {
        ContNode::Word(p) => match resolve_in(d.words@, p) {
            Some(n) => trim_spaces(n),
            None => "<continuation>"@,
        },
        _ => "<continuation>"@,
    }
}

/// The short name of a continuation.
pub open spec fn name_spec(c: Cont, d: Dictionary) -> Seq<char>
    decreases c, 0nat,
{
    match *c {
        ContNode::Interpreter(_) => "<text interpreter continuation>"@,
        ContNode::CompileExecute(_) => "<compile execute continuation>"@,
        ContNode::Sequence(s) => match s.first {
            Some(f) => name_spec(f, d),
            None => Seq::empty(),
        },
        ContNode::Times(t) => "<repeat "@ + nat_decimal(t.count as nat) + " times>"@,
        ContNode::Until(_) => "<until loop continuation>"@,
        ContNode::While(w) => "<while loop "@ + stage_text(w) + ">"@,
        ContNode::IntLit(l) => int_decimal(int_value(*l.0)),
        ContNode::Lit(l) => lit_name_spec(l.0, d),
        ContNode::MultiLit(m) => multi_names(m.0@, d, m.0@.len() as int),
        _ => cont_name_spec(c, d),
    }
}

/// The names of the first `i` literal values, separated by spaces.
pub open spec fn multi_names(vals: Seq<StackValue>, d: Dictionary, i: int) -> Seq<char>
    decreases vals, i,
{
    if i <= 0 || i > vals.len() {
        Seq::empty()
    } else if i == 1 {
        lit_name_spec(vals[0], d)
    } else {
        multi_names(vals, d, i - 1) + seq![' '] + lit_name_spec(vals[i - 1], d)
    }
}

/// The names of the first `i` items, each after a space.
pub open spec fn items_names(items: Seq<Cont>, d: Dictionary, i: int) -> Seq<char>
    decreases items, i,
{
    if i <= 0 || i > items.len() {
        Seq::empty()
    } else {
        items_names(items, d, i - 1) + seq![' '] + name_spec(items[i - 1], d)
    }
}

/// The names of the items `start..i`, each followed by a space, the one at
/// `pos` marked `**HERE** `.
pub open spec fn window_text(items: Seq<Cont>, d: Dictionary, pos: int, start: int, i: int) -> Seq<
    char,
>
    decreases items, i - start,
{
    if i <= start || i <= 0 || i > items.len() {
        Seq::empty()
    } else {
        window_text(items, d, pos, start, i - 1) + (if i - 1 == pos {
            "**HERE** "@
        } else {
            Seq::empty()
        }) + name_spec(items[i - 1], d) + seq![' ']
    }
}

/// Where the window of a list dump starts.
pub open spec fn window_start(pos: int, len: int) -> int {
    let s = if pos >= WINDOW {
        pos - WINDOW
    } else {
        0
    };
    if s > len {
        len
    } else {
        s
    }
}

/// Where the window of a list dump ends.
pub open spec fn window_end(pos: int, len: int) -> int {
    if pos < len && len - pos > WINDOW {
        pos + WINDOW
    } else {
        len
    }
}

/// The dump of a continuation.
pub open spec fn dump_spec(c: Cont, d: Dictionary) -> Seq<char>
    decreases c, 1nat,
{
    match *c {
        ContNode::List(l) => {
            let items = l.list.items@;
            let len = items.len() as int;
            let pos = l.pos as int;
            if pos == 0 {
                seq!['{'] + items_names(items, d, len) + " }"@
            } else {
                let start = window_start(pos, len);
                let end = window_end(pos, len);
                (if pos > WINDOW {
                    "... "@
                } else {
                    Seq::empty()
                }) + window_text(items, d, pos, start, end) + (if end < len {
                    "..."@
                } else {
                    Seq::empty()
                })
            }
        },
        ContNode::Sequence(s) => match s.first {
            Some(f) => dump_spec(f, d),
            None => Seq::empty(),
        },
        ContNode::Times(t) => "<repeat "@ + nat_decimal(t.count as nat) + " times:> "@ + (
        match t.body {
            Some(b) => dump_spec(b, d),
            None => Seq::empty(),
        }),
        ContNode::Until(u) => "<until loop continuation:> "@ + (match u.body {
            Some(b) => dump_spec(b, d),
            None => Seq::empty(),
        }),
        ContNode::While(w) => "<while loop "@ + stage_text(w) + ":>"@ + (match (if w.running_body {
            w.body
        } else {
            w.condition
        }) {
            Some(b) => dump_spec(b, d),
            None => Seq::empty(),
        }),
        _ => name_spec(c, d),
    }
}

/// The name of a literal value.
pub open spec fn lit_name_spec(v: StackValue, d: Dictionary) -> Seq<char>
    decreases v, 1nat,
{
    match v {
        StackValue::Int(b) => int_decimal(int_value(*b)),
        StackValue::Str(t) => seq!['"'] + t@ + seq!['"'],
        StackValue::Cont(c) => "{ "@ + dump_spec(c, d) + " }"@,
        StackValue::WordList(_) => "<literal of type WordList>"@,
        StackValue::Null => "<literal of type Null>"@,
    }
}

/// The continuation `i` links up the chain from `c`.
pub open spec fn nth_up(c: Cont, i: nat) -> Cont
    decreases i,
{
    if i == 0 {
        c
    } else {
        match up(nth_up(c, (i - 1) as nat)) {
            Some(n) => n,
            None => nth_up(c, (i - 1) as nat),
        }
    }
}

/// Frame `i` of a backtrace: `level i+1: ` and the dump of the continuation
/// `i` links up.
pub open spec fn frame_text(c: Cont, d: Dictionary, i: nat) -> Seq<char> {
    "level "@ + nat_decimal(i + 1) + ": "@ + dump_spec(nth_up(c, i), d)
}

/// How many frames a backtrace shows.
pub open spec fn frame_count(c: Cont) -> nat {
    if up_depth(c) <= MAX_LEVELS {
        up_depth(c)
    } else {
        MAX_LEVELS as nat
    }
}

/// The frames of the backtrace from `c`.
pub open spec fn frame_texts(c: Cont, d: Dictionary) -> Seq<Seq<char>> {
    Seq::new(frame_count(c), |i: int| frame_text(c, d, i as nat))
}

/// `t` renders at most `MAX_LEVELS` frames, with the marker where `more`.
pub open spec fn rendered_within(t: Seq<char>, more: bool) -> bool {
    exists|frames: Seq<Seq<char>>| frames.len() <= MAX_LEVELS && #[trigger] render(frames, more) == t
}

impl ContNode {
    fn up_exec(c: &Cont) -> (r: Option<Cont>)
        ensures
            r == up(*c),
    {
        match &**c {
            ContNode::Sequence(s) => crate::cont::dup_opt(&s.second),
            ContNode::List(l) => crate::cont::dup_opt(&l.after),
            ContNode::Times(t) => crate::cont::dup_opt(&t.after),
            ContNode::Until(u) => crate::cont::dup_opt(&u.after),
            ContNode::While(w) => crate::cont::dup_opt(&w.after),
            _ => None,
        }
    }

    /// The short name of a continuation.
    pub fn name_chars(c: &Cont, d: &Dictionary) -> (r: Vec<char>)
        ensures
            r@ == name_spec(*c, *d),
        decreases *c, 0nat,
    {
        let mut r: Vec<char> = Vec::new();
        match &**c {
            ContNode::Interpreter(_) => append_str(&mut r, "<text interpreter continuation>"),
            ContNode::CompileExecute(_) => append_str(&mut r, "<compile execute continuation>"),
            ContNode::Sequence(s) => match &s.first {
                Some(f) => {
                    r = ContNode::name_chars(f, d);
                },
                None => {},
            },
            ContNode::Times(t) => {
                append_str(&mut r, "<repeat ");
                append(&mut r, &usize_decimal(t.count));
                append_str(&mut r, " times>");
            },
            ContNode::Until(_) => append_str(&mut r, "<until loop continuation>"),
            ContNode::While(w) => {
                append_str(&mut r, "<while loop ");
                append_str(&mut r, w.stage_name());
                append_str(&mut r, ">");
            },
            ContNode::IntLit(l) => {
                r = to_decimal(&l.0);
            },
            ContNode::Lit(l) => {
                r = write_lit_cont_name(&l.0, d);
            },
            ContNode::MultiLit(m) => {
                let mut i: usize = 0;
                assert(r@ =~= multi_names(m.0@, *d, 0));
                while i < m.0.len()
                    invariant
                        i <= m.0@.len(),
                        **c == ContNode::MultiLit(*m),
                        r@ == multi_names(m.0@, *d, i as int),
                    decreases m.0@.len() - i,
                {
                    if i > 0 {
                        r.push(' ');
                    }
                    proof {
                        assert((**c)->MultiLit_0 == *m);
                        assert(decreases_to!(**c => (**c)->MultiLit_0));
                        assert(decreases_to!(*m => m.0));
                        assert(decreases_to!(*c => m.0));
                        assert(decreases_to!(m.0 => m.0[i as int]));
                        assert(decreases_to!(*c => m.0[i as int]));
                    }
                    append(&mut r, &write_lit_cont_name(&m.0[i], d));
                    i += 1;
                    assert(r@ =~= multi_names(m.0@, *d, i as int));
                }
            },
            ContNode::List(_) | ContNode::Word(_) => {
                r = write_cont_name(c, d);
            },
        }
        r
    }

    /// The dump of a continuation: its name, or for a composite one what it
    /// is running.
    pub fn dump_chars(c: &Cont, d: &Dictionary) -> (r: Vec<char>)
        ensures
            r@ == dump_spec(*c, *d),
        decreases *c, 1nat,
    {
        match &**c {
            ContNode::List(l) => {
                let mut r: Vec<char> = Vec::new();
                let len = l.list.items.len();
                if l.pos == 0 {
                    r.push('{');
                    let mut i: usize = 0;
                    assert(r@ =~= seq!['{'] + items_names(l.list.items@, *d, 0));
                    while i < len
                        invariant
                            i <= len == l.list.items@.len(),
                            **c == ContNode::List(*l),
                            r@ == seq!['{'] + items_names(l.list.items@, *d, i as int),
                        decreases len - i,
                    {
                        r.push(' ');
                        proof {
                            assert((**c)->List_0 == *l);
                            assert(decreases_to!(**c => (**c)->List_0));
                            assert(decreases_to!(*l => l.list));
                            assert(decreases_to!(l.list => l.list.items));
                            assert(decreases_to!(*c => l.list.items));
                            assert(decreases_to!(l.list.items => l.list.items[i as int]));
                            assert(decreases_to!(*c => l.list.items[i as int]));
                        }
                        append(&mut r, &ContNode::name_chars(&l.list.items[i], d));
                        i += 1;
                        assert(r@ =~= seq!['{'] + items_names(l.list.items@, *d, i as int));
                    }
                    append_str(&mut r, " }");
                } else {
                    let start = if l.pos >= WINDOW {
                        l.pos - WINDOW
                    } else {
                        0
                    };
                    let start = if start > len {
                        len
                    } else {
                        start
                    };
                    let end = if l.pos < len && len - l.pos > WINDOW {
                        l.pos + WINDOW
                    } else {
                        len
                    };
                    if l.pos > WINDOW {
                        append_str(&mut r, "... ");
                    }
                    let ghost pre = r@;
                    assert(start as int == window_start(l.pos as int, len as int));
                    assert(end as int == window_end(l.pos as int, len as int));
                    let mut i: usize = start;
                    assert(r@ =~= pre + window_text(l.list.items@, *d, l.pos as int, start as int, i as int));
                    while i < end
                        invariant
                            start <= i <= end,
                            end <= len == l.list.items@.len(),
                            **c == ContNode::List(*l),
                            r@ == pre + window_text(l.list.items@, *d, l.pos as int, start as int, i as int),
                        decreases end - i,
                    {
                        if i == l.pos {
                            append_str(&mut r, "**HERE** ");
                        }
                        proof {
                            assert((**c)->List_0 == *l);
                            assert(decreases_to!(**c => (**c)->List_0));
                            assert(decreases_to!(*l => l.list));
                            assert(decreases_to!(l.list => l.list.items));
                            assert(decreases_to!(*c => l.list.items));
                            assert(decreases_to!(l.list.items => l.list.items[i as int]));
                            assert(decreases_to!(*c => l.list.items[i as int]));
                        }
                        append(&mut r, &ContNode::name_chars(&l.list.items[i], d));
                        r.push(' ');
                        i += 1;
                        assert(r@ =~= pre + window_text(l.list.items@, *d, l.pos as int, start as int, i as int));
                    }
                    if end < len {
                        append_str(&mut r, "...");
                    }
                }
                r
            },
            ContNode::Sequence(s) => match &s.first {
                Some(f) => ContNode::dump_chars(f, d),
                None => Vec::new(),
            },
            ContNode::Times(t) => {
                let mut r: Vec<char> = Vec::new();
                append_str(&mut r, "<repeat ");
                append(&mut r, &usize_decimal(t.count));
                append_str(&mut r, " times:> ");
                match &t.body {
                    Some(b) => append(&mut r, &ContNode::dump_chars(b, d)),
                    None => {},
                }
                r
            },
            ContNode::Until(u) => {
                let mut r: Vec<char> = Vec::new();
                append_str(&mut r, "<until loop continuation:> ");
                match &u.body {
                    Some(b) => append(&mut r, &ContNode::dump_chars(b, d)),
                    None => {},
                }
                r
            },
            ContNode::While(w) => {
                let mut r: Vec<char> = Vec::new();
                append_str(&mut r, "<while loop ");
                append_str(&mut r, w.stage_name());
                append_str(&mut r, ":>");
                let stage = if w.running_body {
                    &w.body
                } else {
                    &w.condition
                };
                match stage {
                    Some(b) => append(&mut r, &ContNode::dump_chars(b, d)),
                    None => {},
                }
                r
            },
            _ => ContNode::name_chars(c, d),
        }
    }

    /// The frames of a backtrace, at most `MAX_LEVELS` of them, each
    /// `level i: ` and a dump; and whether levels were left out.
    pub fn backtrace_frames(c: &Cont, d: &Dictionary) -> (r: (Vec<Vec<char>>, bool))
        ensures
            r.0@.len() <= MAX_LEVELS,
            r.0@.len() == if up_depth(*c) <= MAX_LEVELS {
                up_depth(*c)
            } else {
                MAX_LEVELS as nat
            },
            r.1 == (up_depth(*c) > MAX_LEVELS),
            r.0@.map_values(|f: Vec<char>| f@) == frame_texts(*c, *d),
    {
        let mut frames: Vec<Vec<char>> = Vec::new();
        let mut cur: Cont = c.clone();
        let mut i: usize = 1;
        loop
            invariant
                1 <= i <= MAX_LEVELS + 1,
                frames@.len() == i - 1,
                up_depth(*c) == i - 1 + up_depth(cur),
                cur == nth_up(*c, (i - 1) as nat),
                forall|k: int|
                    0 <= k < frames@.len() ==> #[trigger] frames@[k]@ == frame_text(
                        *c,
                        *d,
                        k as nat,
                    ),
            decreases MAX_LEVELS + 1 - i,
        {
            if i > MAX_LEVELS {
                assert(frames@.map_values(|f: Vec<char>| f@) =~= frame_texts(*c, *d));
                return (frames, true);
            }
            let mut line: Vec<char> = Vec::new();
            append_str(&mut line, "level ");
            append(&mut line, &usize_decimal(i));
            append_str(&mut line, ": ");
            append(&mut line, &ContNode::dump_chars(&cur, d));
            assert(((i - 1) as nat + 1) == i as nat);
            assert(line@ =~= frame_text(*c, *d, (i - 1) as nat));
            frames.push(line);
            match ContNode::up_exec(&cur) {
                Some(n) => {
                    assert(nth_up(*c, i as nat) == n);
                    cur = n;
                },
                None => {
                    assert(frames@.map_values(|f: Vec<char>| f@) =~= frame_texts(*c, *d));
                    return (frames, false);
                },
            }
            i += 1;
        }
    }

    /// The backtrace from `c` along the `up` links: at most `MAX_LEVELS`
    /// frames, then a marker where levels were left out.
    pub fn display_backtrace(c: &Cont, d: &Dictionary) -> (r: String)
        ensures
            r@ == render(frame_texts(*c, *d), up_depth(*c) > MAX_LEVELS),
            rendered_within(r@, up_depth(*c) > MAX_LEVELS),
    {
        let (frames, more) = ContNode::backtrace_frames(c, d);
        let mut out: Vec<char> = Vec::new();
        let ghost fs = frames@.map_values(|f: Vec<char>| f@);
        let mut i: usize = 0;
        assert(fs.subrange(0, fs.len() as int) =~= fs);
        while i < frames.len()
            invariant
                i <= frames@.len() <= MAX_LEVELS,
                fs == frames@.map_values(|f: Vec<char>| f@),
                render(fs, more) == out@ + render(fs.subrange(i as int, fs.len() as int), more),
            decreases frames@.len() - i,
        {
            let ghost rest = fs.subrange(i as int, fs.len() as int);
            append(&mut out, &frames[i]);
            if i + 1 < frames.len() || more {
                out.push('\n');
            }
            proof {
                assert(rest.drop_first() =~= fs.subrange(i + 1, fs.len() as int));
                assert(rest[0] == frames@[i as int]@);
                if i + 1 >= frames.len() && !more {
                    assert(rest.len() == 1);
                    assert(fs.subrange(i + 1, fs.len() as int) =~= Seq::<Seq<char>>::empty());
                }
            }
            i += 1;
        }
        if more {
            append_str(&mut out, "... more levels ...");
        }
        proof {
            assert(fs.subrange(i as int, fs.len() as int) =~= Seq::<Seq<char>>::empty());
        }
        assert(render(fs, up_depth(*c) > MAX_LEVELS) == out@);
        string_from_chars(&out)
    }

    /// The short name of a continuation.
    pub fn display_name(c: &Cont, d: &Dictionary) -> (r: String)
        ensures
            r@ == name_spec(*c, *d),
    {
        string_from_chars(&ContNode::name_chars(c, d))
    }

    /// The dump of a continuation.
    pub fn display_dump(c: &Cont, d: &Dictionary) -> (r: String)
        ensures
            r@ == dump_spec(*c, *d),
    {
        string_from_chars(&ContNode::dump_chars(c, d))
    }
}

/// The name of a literal value: integers in decimal, strings in quotes,
/// continuations as `{ dump }`.
pub fn write_lit_cont_name(v: &StackValue, d: &Dictionary) -> (r: Vec<char>)
    ensures
        r@ == lit_name_spec(*v, *d),
    decreases *v, 1nat,
{
    let mut r: Vec<char> = Vec::new();
    match v {
        StackValue::Int(b) => {
            r = to_decimal(b);
        },
        StackValue::Str(s) => {
            r.push('"');
            append_str(&mut r, s.as_str());
            r.push('"');
        },
        StackValue::Cont(c) => {
            append_str(&mut r, "{ ");
            append(&mut r, &ContNode::dump_chars(c, d));
            append_str(&mut r, " }");
        },
        StackValue::WordList(_) => append_str(&mut r, "<literal of type WordList>"),
        StackValue::Null => append_str(&mut r, "<literal of type Null>"),
    }
    r
}

/// The dictionary name of a continuation, without its trailing space, or
/// `<continuation>` where it has none.
pub fn write_cont_name(c: &Cont, d: &Dictionary) -> (r: Vec<char>)
    ensures
        r@ == cont_name_spec(*c, *d),
{
    match d.resolve_name(c) {
        Some(n) => {
            let mut k: usize = n.len();
            assert(n@.subrange(0, k as int) =~= n@);
            while k > 0 && n[k - 1] == ' '
                invariant
                    k <= n@.len(),
                    trim_spaces(n@) == trim_spaces(n@.subrange(0, k as int)),
                decreases k,
            {
                assert(n@.subrange(0, k as int).drop_last() =~= n@.subrange(0, k - 1));
                k -= 1;
            }
            copy_range(&n, 0, k)
        },
        None => {
            let mut r: Vec<char> = Vec::new();
            append_str(&mut r, "<continuation>");
            r
        },
    }
}

} // verus!
