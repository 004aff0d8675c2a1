//! Line-oriented lexer over a stack of source blocks.

use vstd::prelude::*;

use crate::error::Error;

verus! {

/// The characters of Unicode's `White_Space` property, the set that
/// `char::is_whitespace` tests for.
pub open spec fn is_ws(c: char) -> bool {
    let u = c as u32;
    (0x09 <= u && u <= 0x0d) || u == 0x20 || u == 0x85 || u == 0xa0 || u == 0x1680 || (0x2000
        <= u && u <= 0x200a) || u == 0x2028 || u == 0x2029 || u == 0x202f || u == 0x205f || u
        == 0x3000
}

/// Whether `c` is a whitespace character.
pub fn is_whitespace(c: char) -> (r: bool)
    ensures
        r == is_ws(c),
{
    let u = c as u32;
    (0x09 <= u && u <= 0x0d) || u == 0x20 || u == 0x85 || u == 0xa0 || u == 0x1680 || (0x2000
        <= u && u <= 0x200a) || u == 0x2028 || u == 0x2029 || u == 0x202f || u == 0x205f || u
        == 0x3000
}

/// A predicate on characters that ends or bounds a run of input.
pub trait Delimiter {
    spec fn matches(&self, c: char) -> bool;

    fn delim(&self, c: char) -> (r: bool)
        ensures
            r == self.matches(c),
    ;
}

/// A single character delimits itself.
impl Delimiter for char {
    open spec fn matches(&self, c: char) -> bool {
        *self == c
    }

    fn delim(&self, c: char) -> (r: bool) {
        *self == c
    }
}

/// Matches every whitespace character.
pub struct Whitespace;

impl Delimiter for Whitespace {
    open spec fn matches(&self, c: char) -> bool {
        is_ws(c)
    }

    fn delim(&self, c: char) -> (r: bool) {
        is_whitespace(c)
    }
}

/// Matches every character that the inner delimiter does not.
pub struct Not<P>(pub P);

impl<P: Delimiter> Delimiter for Not<P> {
    open spec fn matches(&self, c: char) -> bool {
        !self.0.matches(c)
    }

    fn delim(&self, c: char) -> (r: bool) {
        !self.0.delim(c)
    }
}

/// Every line is non-empty, and every line but the last ends in a newline.
pub open spec fn lines_wf(ls: Seq<Seq<char>>) -> bool {
    forall|i: int|
        0 <= i < ls.len() ==> #[trigger] ls[i].len() > 0 && (i + 1 < ls.len() ==> ls[i].last()
            == '\n')
}

/// A named unit of input, held as its lines (each with its newline).
pub struct SourceBlock {
    pub name: String,
    pub lines: Vec<Vec<char>>,
}

impl SourceBlock {
    pub open spec fn line_seqs(&self) -> Seq<Seq<char>> {
        self.lines@.map_values(|l: Vec<char>| l@)
    }

    pub open spec fn wf(&self) -> bool {
        lines_wf(self.line_seqs())
    }

    pub open spec fn name_view(&self) -> Seq<char> {
        self.name@
    }

    /// Splits `text` into lines after each newline.
    pub fn from_text(name: String, text: &Vec<char>) -> (r: SourceBlock)
        ensures
            r.wf(),
            r.line_seqs().flatten() == text@,
            r.name_view() == name@,
    {
        let mut lines: Vec<Vec<char>> = Vec::new();
        let mut cur: Vec<char> = Vec::new();
        let mut i: usize = 0;
        while i < text.len()
            invariant
                i <= text.len(),
                forall|j: int|
                    0 <= j < lines@.len() ==> #[trigger] lines@[j]@.len() > 0
                        && lines@[j]@.last() == '\n',
                lines@.map_values(|l: Vec<char>| l@).flatten() + cur@ == text@.subrange(
                    0,
                    i as int,
                ),
            decreases text.len() - i,
        {
            let c = text[i];
            let ghost old_lines = lines@;
            let ghost old_cur = cur@;
            cur.push(c);
            if c == '\n' {
                lines.push(cur);
                cur = Vec::new();
                proof {
                    assert(lines@.map_values(|l: Vec<char>| l@) =~= old_lines.map_values(
                        |l: Vec<char>| l@,
                    ).push(old_cur.push(c)));
                    old_lines.map_values(|l: Vec<char>| l@).lemma_flatten_push(old_cur.push(c));
                }
            }
            i += 1;
            assert(text@.subrange(0, i as int) =~= text@.subrange(0, i - 1) + seq![c]);
        }
        assert(text@.subrange(0, text.len() as int) =~= text@);
        if cur.len() > 0 {
            let ghost old_lines = lines@;
            let ghost old_cur = cur@;
            lines.push(cur);
            proof {
                assert(lines@.map_values(|l: Vec<char>| l@) =~= old_lines.map_values(
                    |l: Vec<char>| l@,
                ).push(old_cur));
                old_lines.map_values(|l: Vec<char>| l@).lemma_flatten_push(old_cur);
            }
        } else {
            assert(cur@ =~= Seq::<char>::empty());
            assert(lines@.map_values(|l: Vec<char>| l@).flatten() + cur@ =~= lines@.map_values(
                |l: Vec<char>| l@,
            ).flatten());
        }
        let r = SourceBlock { name, lines };
        assert(lines_wf(r.line_seqs())) by {
            assert forall|j: int| 0 <= j < r.line_seqs().len() implies #[trigger] r.line_seqs()[j].len()
                > 0 && (j + 1 < r.line_seqs().len() ==> r.line_seqs()[j].last() == '\n') by {
                assert(r.line_seqs()[j] == r.lines@[j]@);
            }
        }
        r
    }

    /// The block's name.
    pub fn name(&self) -> (r: &String)
        ensures
            r@ == self.name_view(),
    {
        &self.name
    }
}


/// The characters `v[start..end]`, copied.
pub fn copy_range(v: &Vec<char>, start: usize, end: usize) -> (r: Vec<char>)
    requires
        start <= end <= v@.len(),
    ensures
        r@ == v@.subrange(start as int, end as int),
{
    let mut r: Vec<char> = Vec::new();
    let mut i: usize = start;
    while i < end
        invariant
            start <= i <= end <= v@.len(),
            r@ == v@.subrange(start as int, i as int),
        decreases end - i,
    {
        r.push(v[i]);
        i += 1;
        assert(r@ =~= v@.subrange(start as int, i as int));
    }
    r
}

/// `before` is a run of whitespace followed by `after`, and `after` is empty
/// or starts with a character that is not whitespace.
pub open spec fn ws_split(before: Seq<char>, after: Seq<char>) -> bool {
    let k = before.len() - after.len();
    &&& 0 <= k
    &&& before == before.subrange(0, k) + after
    &&& forall|i: int| 0 <= i < k ==> is_ws(#[trigger] before[i])
    &&& (after.len() == 0 || !is_ws(after[0]))
}

/// `before` is a run of whitespace, the word `tok` (non-empty, without
/// whitespace), then `after`, which is empty or starts with whitespace.
pub open spec fn word_split(before: Seq<char>, tok: Seq<char>, after: Seq<char>) -> bool {
    let k = before.len() - tok.len() - after.len();
    &&& 0 <= k
    &&& before == before.subrange(0, k) + tok + after
    &&& forall|i: int| 0 <= i < k ==> is_ws(#[trigger] before[i])
    &&& tok.len() > 0
    &&& forall|i: int| 0 <= i < tok.len() ==> !is_ws(#[trigger] tok[i])
    &&& (after.len() == 0 || is_ws(after[0]))
}

/// The first `k` characters of `s` do not match `p`.
pub open spec fn none_match<P: Delimiter>(s: Seq<char>, k: int, p: P) -> bool {
    forall|i: int| 0 <= i < k ==> !p.matches(#[trigger] s[i])
}

/// Reading state of one source block: the current line and the offsets in it.
/// Offsets count characters.
pub struct SourceBlockState {
    pub block: SourceBlock,
    pub line: Vec<char>,
    pub line_offset: usize,
    pub prev_line_offset: usize,
    pub line_number: Option<usize>,
    pub next_line: usize,
}

impl SourceBlockState {
    pub open spec fn wf(&self) -> bool {
        &&& self.block.wf()
        &&& self.line_offset <= self.line@.len()
        &&& self.next_line <= self.block.lines@.len()
        &&& (self.line@.len() == 0 || (self.next_line > 0 && self.line@
            == self.block.line_seqs()[self.next_line - 1]))
        &&& self.line_number == if self.next_line == 0 {
            None::<usize>
        } else {
            Some((self.next_line - 1) as usize)
        }
    }

    /// What is left of the current line.
    pub open spec fn cur(&self) -> Seq<char> {
        self.line@.subrange(self.line_offset as int, self.line@.len() as int)
    }

    /// The lines not read yet, as one text.
    pub open spec fn rest(&self) -> Seq<char> {
        self.block.line_seqs().subrange(self.next_line as int, self.block.lines@.len() as int).flatten()
    }

    /// All input that is still to be read.
    pub open spec fn remaining(&self) -> Seq<char> {
        self.cur() + self.rest()
    }

    pub open spec fn exhausted(&self) -> bool {
        self.line_offset >= self.line@.len()
    }

    /// The text that a delimited scan looks at: the rest of the current line,
    /// or the next line where the current one is used up.
    pub open spec fn scan_text(&self) -> Seq<char> {
        if !self.exhausted() {
            self.cur()
        } else if self.next_line < self.block.lines@.len() {
            self.block.line_seqs()[self.next_line as int]
        } else {
            Seq::empty()
        }
    }

    /// The lines left after the one that `scan_text` looks at.
    pub open spec fn rest_after_scan(&self) -> Seq<char> {
        if self.exhausted() && self.next_line < self.block.lines@.len() {
            self.block.line_seqs().subrange(
                self.next_line + 1,
                self.block.lines@.len() as int,
            ).flatten()
        } else {
            self.rest()
        }
    }

    pub open spec fn same_block(&self, other: &Self) -> bool {
        self.block == other.block
    }

    pub fn new(block: SourceBlock) -> (r: Self)
        requires
            block.wf(),
        ensures
            r.wf(),
            r.block == block,
            r.remaining() == block.line_seqs().flatten(),
            r.line_number.is_none(),
    {
        let r = SourceBlockState {
            block,
            line: Vec::new(),
            line_offset: 0,
            prev_line_offset: 0,
            line_number: None,
            next_line: 0,
        };
        assert(r.block.line_seqs().subrange(0, r.block.lines@.len() as int) =~= r.block.line_seqs());
        assert(r.cur() =~= Seq::<char>::empty());
        assert(r.remaining() =~= r.rest());
        r
    }

    proof fn lemma_rest_unfold(&self)
        requires
            self.wf(),
            self.next_line < self.block.lines@.len(),
        ensures
            self.rest() == self.block.line_seqs()[self.next_line as int]
                + self.block.line_seqs().subrange(
                self.next_line + 1,
                self.block.lines@.len() as int,
            ).flatten(),
    {
        let ls = self.block.line_seqs().subrange(
            self.next_line as int,
            self.block.lines@.len() as int,
        );
        assert(ls.drop_first() =~= self.block.line_seqs().subrange(
            self.next_line + 1,
            self.block.lines@.len() as int,
        ));
    }

    proof fn lemma_rest_empty(&self)
        requires
            self.wf(),
            self.next_line == self.block.lines@.len(),
        ensures
            self.rest().len() == 0,
    {
        assert(self.block.line_seqs().subrange(
            self.next_line as int,
            self.block.lines@.len() as int,
        ) =~= Seq::<Seq<char>>::empty());
    }

    /// Moves to the next line of the block; false when there is none.
    fn read_line(&mut self) -> (r: bool)
        requires
            old(self).wf(),
        ensures
            final(self).wf(),
            final(self).block == old(self).block,
            final(self).line_offset == 0,
            final(self).prev_line_offset == 0,
            r == (old(self).next_line < old(self).block.lines@.len()),
            r ==> final(self).next_line == old(self).next_line + 1,
            r ==> final(self).line@ == old(self).block.line_seqs()[old(self).next_line as int],
            !r ==> final(self).next_line == old(self).next_line && final(self).line@.len() == 0,
            r ==> final(self).cur() + final(self).rest() == old(self).rest(),
            !r ==> old(self).rest().len() == 0,
    {
        self.prev_line_offset = 0;
        self.line_offset = 0;
        let r = if self.next_line < self.block.lines.len() {
            proof {
                self.lemma_rest_unfold();
            }
            self.line = copy_range(
                &self.block.lines[self.next_line],
                0,
                self.block.lines[self.next_line].len(),
            );
            assert(self.block.line_seqs()[self.next_line as int] == self.block.lines@[self.next_line as int]@);
            assert(self.line@ =~= self.block.line_seqs()[self.next_line as int]);
            self.line_number = Some(self.next_line);
            self.next_line = self.next_line + 1;
            assert(self.cur() =~= self.line@);
            true
        } else {
            proof {
                self.lemma_rest_empty();
            }
            self.line = Vec::new();
            false
        };
        r
    }

    /// Advances over the characters of the current line that match `p`.
    fn skip_while<P: Delimiter>(&mut self, p: &P)
        requires
            old(self).wf(),
        ensures
            final(self).wf(),
            final(self).block == old(self).block,
            final(self).line == old(self).line,
            final(self).next_line == old(self).next_line,
            final(self).prev_line_offset == old(self).prev_line_offset,
            final(self).line_number == old(self).line_number,
            old(self).line_offset <= final(self).line_offset,
            forall|i: int|
                old(self).line_offset <= i < final(self).line_offset ==> p.matches(
                    #[trigger] final(self).line@[i],
                ),
            final(self).line_offset == final(self).line@.len() || !p.matches(
                final(self).line@[final(self).line_offset as int],
            ),
            old(self).cur() == final(self).line@.subrange(
                old(self).line_offset as int,
                final(self).line_offset as int,
            ) + final(self).cur(),
    {
        let ghost start = self.line_offset;
        while self.line_offset < self.line.len()
            invariant
                self.wf(),
                self.block == old(self).block,
                self.line == old(self).line,
                self.next_line == old(self).next_line,
                self.prev_line_offset == old(self).prev_line_offset,
                self.line_number == old(self).line_number,
                start == old(self).line_offset,
                start <= self.line_offset,
                forall|i: int| start <= i < self.line_offset ==> p.matches(#[trigger] self.line@[i]),
            ensures
                self.line_offset == self.line@.len() || !p.matches(
                    self.line@[self.line_offset as int],
                ),
            decreases self.line@.len() - self.line_offset,
        {
            if !p.delim(self.line[self.line_offset]) {
                break;
            }
            self.line_offset = self.line_offset + 1;
        }
        assert(old(self).cur() =~= self.line@.subrange(start as int, self.line_offset as int)
            + self.cur());
    }

    /// Advances up to the first character of the current line that matches `p`.
    fn skip_until<P: Delimiter>(&mut self, p: P)
        requires
            old(self).wf(),
        ensures
            final(self).wf(),
            final(self).block == old(self).block,
            final(self).line == old(self).line,
            final(self).next_line == old(self).next_line,
            final(self).prev_line_offset == old(self).prev_line_offset,
            final(self).line_number == old(self).line_number,
            old(self).line_offset <= final(self).line_offset,
            forall|i: int|
                old(self).line_offset <= i < final(self).line_offset ==> !p.matches(
                    #[trigger] final(self).line@[i],
                ),
            final(self).line_offset == final(self).line@.len() || p.matches(
                final(self).line@[final(self).line_offset as int],
            ),
            old(self).cur() == final(self).line@.subrange(
                old(self).line_offset as int,
                final(self).line_offset as int,
            ) + final(self).cur(),
    {
        let q = Not(p);
        self.skip_while(&q);
    }

    /// Advances over one character of the current line, if any is left.
    fn skip_symbol(&mut self)
        requires
            old(self).wf(),
        ensures
            final(self).wf(),
            final(self).block == old(self).block,
            final(self).line == old(self).line,
            final(self).next_line == old(self).next_line,
            final(self).prev_line_offset == old(self).prev_line_offset,
            final(self).line_number == old(self).line_number,
            old(self).exhausted() ==> final(self).line_offset == old(self).line_offset,
            !old(self).exhausted() ==> final(self).line_offset == old(self).line_offset + 1,
    {
        if self.line_offset < self.line.len() {
            self.line_offset = self.line_offset + 1;
        }
    }

    fn skip_line_whitespace(&mut self)
        requires
            old(self).wf(),
        ensures
            final(self).wf(),
            final(self).block == old(self).block,
            final(self).line == old(self).line,
            final(self).next_line == old(self).next_line,
            final(self).prev_line_offset == old(self).prev_line_offset,
            final(self).line_number == old(self).line_number,
            old(self).line_offset <= final(self).line_offset,
            forall|i: int|
                old(self).line_offset <= i < final(self).line_offset ==> is_ws(
                    #[trigger] final(self).line@[i],
                ),
            final(self).line_offset == final(self).line@.len() || !is_ws(
                final(self).line@[final(self).line_offset as int],
            ),
            old(self).cur() == final(self).line@.subrange(
                old(self).line_offset as int,
                final(self).line_offset as int,
            ) + final(self).cur(),
    {
        self.skip_while(&Whitespace);
    }

    /// Backs the offset up by `offset` characters.
    fn rewind(&mut self, offset: usize)
        requires
            old(self).wf(),
            offset <= old(self).line_offset,
        ensures
            final(self).wf(),
            final(self).block == old(self).block,
            final(self).line == old(self).line,
            final(self).next_line == old(self).next_line,
            final(self).prev_line_offset == old(self).prev_line_offset,
            final(self).line_number == old(self).line_number,
            final(self).line_offset == old(self).line_offset - offset,
    {
        self.line_offset = self.line_offset - offset;
    }

    /// Measure that the scanning loops decrease.
    pub open spec fn scan_measure(&self) -> int {
        (self.block.lines@.len() - self.next_line) * 2 + if self.exhausted() {
            0int
        } else {
            1int
        }
    }

    proof fn lemma_last_line(&self)
        requires
            self.wf(),
            self.line@.len() > 0,
            self.line_offset == self.line@.len(),
            !is_ws(self.line@.last()),
        ensures
            self.rest().len() == 0,
            self.cur().len() == 0,
    {
        let ls = self.block.line_seqs();
        assert(ls[self.next_line - 1].len() > 0);
        if self.next_line < self.block.lines@.len() {
            assert(ls[self.next_line - 1].last() == '\n');
        }
        self.lemma_rest_empty();
    }

    /// Skips whitespace, reading lines as needed, and returns the next word.
    fn scan_word(&mut self) -> (r: Option<Vec<char>>)
        requires
            old(self).wf(),
        ensures
            final(self).wf(),
            final(self).block == old(self).block,
            match r {
                Some(tok) => word_split(old(self).remaining(), tok@, final(self).remaining()),
                None => final(self).remaining().len() == 0 && forall|i: int|
                    0 <= i < old(self).remaining().len() ==> is_ws(
                        #[trigger] old(self).remaining()[i],
                    ),
            },
            r matches Some(tok) ==> tok@.len() <= final(self).line_offset && tok@ == final(self).line@.subrange(final(self).line_offset - tok@.len(), final(self).line_offset as int),
    {
        self.prev_line_offset = self.line_offset;
        let ghost orig = self.remaining();
        let ghost mut skipped: Seq<char> = Seq::empty();
        loop
            invariant
                self.wf(),
                self.block == old(self).block,
                orig == old(self).remaining(),
                orig == skipped + self.remaining(),
                forall|i: int| 0 <= i < skipped.len() ==> is_ws(#[trigger] skipped[i]),
            decreases self.scan_measure(),
        {
            let ghost m0 = self.scan_measure();
            if self.line_offset >= self.line.len() {
                assert(self.cur() =~= Seq::<char>::empty());
                if !self.read_line() {
                    assert(self.cur() =~= Seq::<char>::empty());
                    assert(self.remaining() =~= Seq::<char>::empty());
                    assert(orig =~= skipped);
                    return None;
                }
            }
            let ghost off0 = self.line_offset;
            let ghost before = self.remaining();
            self.skip_line_whitespace();
            let start = self.line_offset;
            self.skip_until(Whitespace);
            let end = self.line_offset;
            let ghost ws = self.line@.subrange(off0 as int, start as int);
            let ghost tok = self.line@.subrange(start as int, end as int);
            assert(before =~= ws + tok + self.remaining());
            if start == end {
                proof {
                    assert(tok =~= Seq::<char>::empty());
                    assert(orig =~= (skipped + ws) + self.remaining());
                    assert forall|i: int| 0 <= i < (skipped + ws).len() implies is_ws(
                        #[trigger] (skipped + ws)[i],
                    ) by {
                        if i >= skipped.len() {
                            assert((skipped + ws)[i] == self.line@[off0 + i - skipped.len()]);
                        }
                    }
                    skipped = skipped + ws;
                }
                continue;
            }
            let r = copy_range(&self.line, start, end);
            proof {
                let k = skipped.len() + ws.len();
                assert(orig =~= (skipped + ws) + tok + self.remaining());
                assert(orig.subrange(0, k as int) =~= skipped + ws);
                assert forall|i: int| 0 <= i < k implies is_ws(#[trigger] orig[i]) by {
                    if i >= skipped.len() {
                        assert(orig[i] == self.line@[off0 + i - skipped.len()]);
                    } else {
                        assert(orig[i] == skipped[i]);
                    }
                }
                assert forall|i: int| 0 <= i < tok.len() implies !is_ws(#[trigger] tok[i]) by {
                    assert(tok[i] == self.line@[start + i]);
                }
                if end < self.line@.len() {
                    assert(self.remaining()[0] == self.line@[end as int]);
                } else {
                    assert(self.line@.last() == tok[tok.len() - 1]);
                    self.lemma_last_line();
                    assert(self.remaining() =~= Seq::<char>::empty());
                }
            }
            return Some(r);
        }
    }

    /// Skips whitespace, reading lines as needed.
    fn skip_whitespace(&mut self)
        requires
            old(self).wf(),
        ensures
            final(self).wf(),
            final(self).block == old(self).block,
            ws_split(old(self).remaining(), final(self).remaining()),
    {
        self.prev_line_offset = self.line_offset;
        let ghost orig = self.remaining();
        let ghost mut skipped: Seq<char> = Seq::empty();
        loop
            invariant
                self.wf(),
                self.block == old(self).block,
                orig == old(self).remaining(),
                orig == skipped + self.remaining(),
                forall|i: int| 0 <= i < skipped.len() ==> is_ws(#[trigger] skipped[i]),
            decreases self.scan_measure(),
        {
            if self.line_offset >= self.line.len() {
                assert(self.cur() =~= Seq::<char>::empty());
                if !self.read_line() {
                    assert(self.cur() =~= Seq::<char>::empty());
                    assert(self.remaining() =~= Seq::<char>::empty());
                    assert(orig =~= skipped);
                    assert(orig.subrange(0, orig.len() as int) =~= orig);
                    return;
                }
            }
            let ghost off0 = self.line_offset;
            let ghost before = self.remaining();
            self.skip_line_whitespace();
            let ghost ws = self.line@.subrange(off0 as int, self.line_offset as int);
            proof {
                assert(before =~= ws + self.remaining());
                assert(orig =~= (skipped + ws) + self.remaining());
                assert forall|i: int| 0 <= i < (skipped + ws).len() implies is_ws(
                    #[trigger] (skipped + ws)[i],
                ) by {
                    if i >= skipped.len() {
                        assert((skipped + ws)[i] == self.line@[off0 + i - skipped.len()]);
                    }
                }
                skipped = skipped + ws;
            }
            if self.line_offset < self.line.len() {
                assert(orig.subrange(0, skipped.len() as int) =~= skipped);
                assert(self.remaining()[0] == self.line@[self.line_offset as int]);
                return;
            }
        }
    }

    /// Returns the run of the current line (or, where it is used up, of the
    /// next line) up to the first character that matches `p`, and consumes
    /// that character; `None` where the line holds no such character.
    fn scan_until<P: Delimiter>(&mut self, p: P) -> (r: Option<Vec<char>>)
        requires
            old(self).wf(),
        ensures
            final(self).wf(),
            final(self).block == old(self).block,
            final(self).rest() == old(self).rest_after_scan(),
            match r {
                Some(tok) => {
                    let l = old(self).scan_text();
                    &&& tok@.len() < l.len()
                    &&& tok@ == l.subrange(0, tok@.len() as int)
                    &&& none_match(l, tok@.len() as int, p)
                    &&& p.matches(l[tok@.len() as int])
                    &&& final(self).cur() == l.subrange(tok@.len() as int + 1, l.len() as int)
                },
                None => none_match(old(self).scan_text(), old(self).scan_text().len() as int, p)
                    && final(self).cur().len() == 0,
            },
    {
        self.prev_line_offset = self.line_offset;
        let ghost l = self.scan_text();
        let ghost rest_after = self.rest_after_scan();
        if self.line_offset >= self.line.len() {
            if !self.read_line() {
                assert(self.cur() =~= Seq::<char>::empty());
                return None;
            }
        }
        assert(self.cur() =~= l);
        assert(self.rest() == rest_after);
        let start = self.line_offset;
        self.skip_until(p);
        let end = self.line_offset;
        proof {
            assert forall|i: int| 0 <= i < end - start implies !p.matches(#[trigger] l[i]) by {
                assert(l[i] == self.line@[start + i]);
            }
        }
        if end < self.line.len() {
            self.skip_symbol();
            let r = copy_range(&self.line, start, end);
            assert(r@ =~= l.subrange(0, r@.len() as int));
            assert(l[end - start] == self.line@[end as int]);
            assert(self.cur() =~= l.subrange(r@.len() as int + 1, l.len() as int));
            Some(r)
        } else {
            assert(self.cur() =~= Seq::<char>::empty());
            None
        }
    }
}

/// A scanned run of characters.
pub struct Token {
    pub data: Vec<char>,
}

impl Token {
    /// The prefixes of the token, longest first.
    pub fn subtokens(&self) -> (r: Subtokens)
        ensures
            r.rest@ == self.data@,
    {
        Subtokens { rest: copy_range(&self.data, 0, self.data.len()) }
    }

    /// How many characters `subtoken` lacks of the whole token.
    pub fn delta(&self, subtoken: &Vec<char>) -> (r: usize)
        requires
            subtoken@.len() <= self.data@.len(),
        ensures
            r == self.data@.len() - subtoken@.len(),
    {
        self.data.len() - subtoken.len()
    }
}

/// Yields the prefixes of a token from the longest to the shortest, each
/// one character shorter than the one before.
pub struct Subtokens {
    pub rest: Vec<char>,
}

impl Subtokens {
    pub fn next(&mut self) -> (r: Option<Vec<char>>)
        ensures
            old(self).rest@.len() == 0 ==> r.is_none() && final(self).rest@.len() == 0,
            old(self).rest@.len() > 0 ==> r.is_some() && r.unwrap()@ == old(self).rest@
                && final(self).rest@ == old(self).rest@.drop_last(),
    {
        if self.rest.len() == 0 {
            None
        } else {
            let r = copy_range(&self.rest, 0, self.rest.len());
            self.rest.pop();
            Some(r)
        }
    }
}

/// Where the lexer stands, for error reports.
pub struct LexerPosition {
    /// How many source blocks are open.
    pub offset: usize,
    pub source_block_name: String,
    pub line: Vec<char>,
    pub line_offset_start: usize,
    pub line_offset_end: usize,
    pub line_number: usize,
}

/// A stack of source blocks; reading happens in the last one.
pub struct Lexer {
    pub blocks: Vec<SourceBlockState>,
}

impl Lexer {
    pub open spec fn wf(&self) -> bool {
        forall|i: int| 0 <= i < self.blocks@.len() ==> (#[trigger] self.blocks@[i]).wf()
    }

    pub open spec fn top(&self) -> SourceBlockState {
        self.blocks@.last()
    }

    /// Only the last block may differ from `old`.
    pub open spec fn keeps_lower(&self, old: &Lexer) -> bool {
        &&& self.blocks@.len() == old.blocks@.len()
        &&& self.blocks@.drop_last() == old.blocks@.drop_last()
        &&& (self.blocks@.len() > 0 ==> self.top().block == old.top().block)
    }

    /// The input still to be read from the last block, or nothing.
    pub open spec fn remaining(&self) -> Seq<char> {
        if self.blocks@.len() == 0 {
            Seq::empty()
        } else {
            self.top().remaining()
        }
    }

    pub fn new() -> (r: Lexer)
        ensures
            r.wf(),
            r.blocks@.len() == 0,
    {
        Lexer { blocks: Vec::new() }
    }

    pub fn push_source_block(&mut self, block: SourceBlock)
        requires
            old(self).wf(),
            block.wf(),
        ensures
            final(self).wf(),
            final(self).blocks@.len() == old(self).blocks@.len() + 1,
            final(self).blocks@.drop_last() == old(self).blocks@,
            final(self).top().block == block,
            final(self).remaining() == block.line_seqs().flatten(),
            final(self).top().line_number is None,
    {
        let st = SourceBlockState::new(block);
        self.blocks.push(st);
        assert(self.blocks@.drop_last() =~= old(self).blocks@);
    }

    pub fn pop_source_block(&mut self) -> (r: bool)
        requires
            old(self).wf(),
        ensures
            final(self).wf(),
            r == (old(self).blocks@.len() > 0),
            final(self).blocks@ == if r {
                old(self).blocks@.drop_last()
            } else {
                old(self).blocks@
            },
    {
        match self.blocks.pop() {
            Some(_) => true,
            None => false,
        }
    }

    /// The block count, the last block's name and line, the span of what was
    /// last scanned and the line number; `None` where no block is open.
    pub fn get_position(&self) -> (r: Option<LexerPosition>)
        requires
            self.wf(),
        ensures
            self.blocks@.len() == 0 <==> r.is_none(),
            r matches Some(p) ==> {
                let t = self.top();
                &&& p.offset == self.blocks@.len()
                &&& p.source_block_name@ == t.block.name@
                &&& p.line@ == t.line@
                &&& p.line_offset_end == t.line_offset
                &&& p.line_offset_start == if t.prev_line_offset < t.line_offset {
                    t.prev_line_offset + 1
                } else {
                    t.line_offset as int
                }
                &&& p.line_number == match t.line_number {
                    Some(n) => n,
                    None => 0,
                }
                &&& p.line_number == if t.next_line == 0 {
                    0
                } else {
                    t.next_line - 1
                }
            },
    {
        let n = self.blocks.len();
        if n == 0 {
            return None;
        }
        let input = &self.blocks[n - 1];
        let start = if input.prev_line_offset < input.line_offset {
            input.prev_line_offset + 1
        } else {
            input.line_offset
        };
        let name = input.block.name.clone();
        Some(
            LexerPosition {
                offset: n,
                source_block_name: name,
                line: copy_range(&input.line, 0, input.line.len()),
                line_offset_start: start,
                line_offset_end: input.line_offset,
                line_number: match input.line_number {
                    Some(k) => k,
                    None => 0,
                },
            },
        )
    }

    /// The next whitespace-delimited word of the last block; `None` at its end
    /// or where no block is open.
    pub fn scan_word(&mut self) -> (r: Option<Token>)
        requires
            old(self).wf(),
        ensures
            final(self).wf(),
            final(self).keeps_lower(old(self)),
            match r {
                Some(tok) => word_split(old(self).remaining(), tok.data@, final(self).remaining()),
                None => final(self).remaining().len() == 0 && forall|i: int|
                    0 <= i < old(self).remaining().len() ==> is_ws(
                        #[trigger] old(self).remaining()[i],
                    ),
            },
            r matches Some(tok) ==> final(self).blocks@.len() > 0 && tok.data@.len() <= final(self).top().line_offset && tok.data@ == final(self).top().line@.subrange(
                final(self).top().line_offset - tok.data@.len(),
                final(self).top().line_offset as int,
            ),
    {
        match self.blocks.pop() {
            None => None,
            Some(mut b) => {
                assert(self.blocks@ =~= old(self).blocks@.drop_last());
                let r = b.scan_word();
                self.blocks.push(b);
                assert(self.blocks@.drop_last() =~= old(self).blocks@.drop_last());
                match r {
                    Some(data) => Some(Token { data }),
                    None => None,
                }
            },
        }
    }

    /// The next word, or an empty token where there is none.
    pub fn scan_until_space_or_eof(&mut self) -> (r: Token)
        requires
            old(self).wf(),
        ensures
            final(self).wf(),
            final(self).keeps_lower(old(self)),
            r.data@.len() > 0 ==> word_split(
                old(self).remaining(),
                r.data@,
                final(self).remaining(),
            ),
            r.data@.len() == 0 ==> final(self).remaining().len() == 0 && forall|i: int|
                0 <= i < old(self).remaining().len() ==> is_ws(
                    #[trigger] old(self).remaining()[i],
                ),
    {
        match self.scan_word() {
            Some(tok) => tok,
            None => Token { data: Vec::new() },
        }
    }

    /// The run of the line up to `delimiter`, which is consumed. Where the
    /// line holds no such character the line is used up, and the result is an
    /// empty token for the null character and `UnexpectedEof` for any other.
    pub fn scan_until_delimiter(&mut self, delimiter: char) -> (r: Result<Token, Error>)
        requires
            old(self).wf(),
        ensures
            final(self).wf(),
            final(self).keeps_lower(old(self)),
            old(self).blocks@.len() == 0 ==> r == Err::<Token, Error>(Error::UnexpectedEof),
            old(self).blocks@.len() > 0 ==> {
                let l = old(self).top().scan_text();
                &&& final(self).top().rest() == old(self).top().rest_after_scan()
                &&& match r {
                    Ok(tok) => if none_match(l, l.len() as int, delimiter) {
                        delimiter == '\0' && tok.data@.len() == 0 && final(self).top().cur().len()
                            == 0
                    } else {
                        &&& tok.data@.len() < l.len()
                        &&& tok.data@ == l.subrange(0, tok.data@.len() as int)
                        &&& none_match(l, tok.data@.len() as int, delimiter)
                        &&& l[tok.data@.len() as int] == delimiter
                        &&& final(self).top().cur() == l.subrange(
                            tok.data@.len() as int + 1,
                            l.len() as int,
                        )
                    },
                    Err(e) => e == Error::UnexpectedEof && delimiter != '\0' && none_match(
                        l,
                        l.len() as int,
                        delimiter,
                    ) && final(self).top().cur().len() == 0,
                }
            },
    {
        match self.blocks.pop() {
            None => Err(Error::UnexpectedEof),
            Some(mut b) => {
                assert(self.blocks@ =~= old(self).blocks@.drop_last());
                let r = b.scan_until(delimiter);
                self.blocks.push(b);
                assert(self.blocks@.drop_last() =~= old(self).blocks@.drop_last());
                match r {
                    Some(data) => Ok(Token { data }),
                    None => if delimiter == '\0' {
                        Ok(Token { data: Vec::new() })
                    } else {
                        Err(Error::UnexpectedEof)
                    },
                }
            },
        }
    }

    /// The run of the line up to the first character that matches `p`, which
    /// is consumed; `UnexpectedEof` where the line holds none.
    pub fn scan_until<P: Delimiter>(&mut self, p: P) -> (r: Result<Token, Error>)
        requires
            old(self).wf(),
        ensures
            final(self).wf(),
            final(self).keeps_lower(old(self)),
            old(self).blocks@.len() == 0 ==> r == Err::<Token, Error>(Error::UnexpectedEof),
            old(self).blocks@.len() > 0 ==> {
                let l = old(self).top().scan_text();
                &&& final(self).top().rest() == old(self).top().rest_after_scan()
                &&& match r {
                    Ok(tok) => {
                        &&& tok.data@.len() < l.len()
                        &&& tok.data@ == l.subrange(0, tok.data@.len() as int)
                        &&& none_match(l, tok.data@.len() as int, p)
                        &&& p.matches(l[tok.data@.len() as int])
                        &&& final(self).top().cur() == l.subrange(
                            tok.data@.len() as int + 1,
                            l.len() as int,
                        )
                    },
                    Err(e) => e == Error::UnexpectedEof && none_match(l, l.len() as int, p)
                        && final(self).top().cur().len() == 0,
                }
            },
    {
        match self.blocks.pop() {
            None => Err(Error::UnexpectedEof),
            Some(mut b) => {
                assert(self.blocks@ =~= old(self).blocks@.drop_last());
                let r = b.scan_until(p);
                self.blocks.push(b);
                assert(self.blocks@.drop_last() =~= old(self).blocks@.drop_last());
                match r {
                    Some(data) => Ok(Token { data }),
                    None => Err(Error::UnexpectedEof),
                }
            },
        }
    }

    /// Backs the last block up by `offset` characters.
    pub fn rewind(&mut self, offset: usize)
        requires
            old(self).wf(),
            old(self).blocks@.len() > 0 ==> offset <= old(self).top().line_offset,
        ensures
            final(self).wf(),
            final(self).keeps_lower(old(self)),
            final(self).blocks@.len() > 0 ==> {
                &&& final(self).top().line == old(self).top().line
                &&& final(self).top().next_line == old(self).top().next_line
                &&& final(self).top().line_offset == old(self).top().line_offset - offset
            },
    {
        match self.blocks.pop() {
            None => {},
            Some(mut b) => {
                assert(self.blocks@ =~= old(self).blocks@.drop_last());
                b.rewind(offset);
                self.blocks.push(b);
                assert(self.blocks@.drop_last() =~= old(self).blocks@.drop_last());
            },
        }
    }

    /// Skips whitespace in the last block, reading lines as needed.
    pub fn scan_skip_whitespace(&mut self)
        requires
            old(self).wf(),
        ensures
            final(self).wf(),
            final(self).keeps_lower(old(self)),
            ws_split(old(self).remaining(), final(self).remaining()),
    {
        match self.blocks.pop() {
            None => {
                assert(old(self).remaining().subrange(0, 0) =~= Seq::<char>::empty());
                assert(old(self).remaining() =~= Seq::<char>::empty());
            },
            Some(mut b) => {
                assert(self.blocks@ =~= old(self).blocks@.drop_last());
                b.skip_whitespace();
                self.blocks.push(b);
                assert(self.blocks@.drop_last() =~= old(self).blocks@.drop_last());
            },
        }
    }

    /// Skips whitespace on the current line only.
    pub fn skip_line_whitespace(&mut self)
        requires
            old(self).wf(),
        ensures
            final(self).blocks@.len() > 0 ==> final(self).top().line == old(self).top().line
                && final(self).top().next_line == old(self).top().next_line,
            final(self).blocks@.len() > 0 ==> final(self).top().line_offset == old(self).top().line_offset
                + (old(self).top().cur().len() - final(self).top().cur().len()),
            final(self).wf(),
            final(self).keeps_lower(old(self)),
            final(self).blocks@.len() > 0 ==> final(self).top().rest() == old(self).top().rest(),
            final(self).blocks@.len() > 0 ==> ws_split(
                old(self).top().cur(),
                final(self).top().cur(),
            ),
    {
        self.skip_while(Whitespace);
    }

    /// Skips characters of the current line up to one that matches `p`.
    pub fn skip_until<P: Delimiter>(&mut self, p: P)
        requires
            old(self).wf(),
        ensures
            final(self).blocks@.len() > 0 ==> final(self).top().line == old(self).top().line
                && final(self).top().next_line == old(self).top().next_line,
            final(self).blocks@.len() > 0 ==> final(self).top().line_offset == old(self).top().line_offset
                + (old(self).top().cur().len() - final(self).top().cur().len()),
            final(self).wf(),
            final(self).keeps_lower(old(self)),
            final(self).blocks@.len() > 0 ==> {
                let k = old(self).top().cur().len() - final(self).top().cur().len();
                &&& final(self).top().rest() == old(self).top().rest()
                &&& 0 <= k
                &&& old(self).top().cur() == old(self).top().cur().subrange(0, k)
                    + final(self).top().cur()
                &&& none_match(old(self).top().cur(), k, p)
                &&& (final(self).top().cur().len() == 0 || p.matches(final(self).top().cur()[0]))
            },
    {
        self.skip_while(Not(p));
    }

    /// Skips one character of the current line, if any is left.
    pub fn skip_symbol(&mut self)
        requires
            old(self).wf(),
        ensures
            final(self).blocks@.len() > 0 ==> final(self).top().line == old(self).top().line
                && final(self).top().next_line == old(self).top().next_line,
            final(self).blocks@.len() > 0 ==> final(self).top().line_offset == if old(self).top().exhausted() {
                old(self).top().line_offset as int
            } else {
                old(self).top().line_offset + 1
            },
            final(self).wf(),
            final(self).keeps_lower(old(self)),
            final(self).blocks@.len() > 0 ==> {
                &&& final(self).top().rest() == old(self).top().rest()
                &&& final(self).top().cur() == if old(self).top().cur().len() == 0 {
                    old(self).top().cur()
                } else {
                    old(self).top().cur().drop_first()
                }
            },
    {
        match self.blocks.pop() {
            None => {},
            Some(mut b) => {
                assert(self.blocks@ =~= old(self).blocks@.drop_last());
                let ghost b0 = b;
                b.skip_symbol();
                proof {
                    if b0.line_offset < b0.line@.len() {
                        assert(b.line@ == b0.line@);
                        assert(b.line_offset == b0.line_offset + 1);
                        assert(b.cur() =~= b0.cur().drop_first());
                    } else {
                        assert(b.cur() =~= b0.cur());
                    }
                }
                self.blocks.push(b);
                assert(self.blocks@.drop_last() =~= old(self).blocks@.drop_last());
            },
        }
    }

    /// Skips characters of the current line while they match `p`.
    pub fn skip_while<P: Delimiter>(&mut self, p: P)
        requires
            old(self).wf(),
        ensures
            final(self).blocks@.len() > 0 ==> final(self).top().line == old(self).top().line
                && final(self).top().next_line == old(self).top().next_line,
            final(self).blocks@.len() > 0 ==> final(self).top().line_offset == old(self).top().line_offset
                + (old(self).top().cur().len() - final(self).top().cur().len()),
            final(self).wf(),
            final(self).keeps_lower(old(self)),
            final(self).blocks@.len() > 0 ==> {
                let k = old(self).top().cur().len() - final(self).top().cur().len();
                &&& final(self).top().rest() == old(self).top().rest()
                &&& 0 <= k
                &&& old(self).top().cur() == old(self).top().cur().subrange(0, k)
                    + final(self).top().cur()
                &&& forall|i: int| 0 <= i < k ==> p.matches(#[trigger] old(self).top().cur()[i])
                &&& (final(self).top().cur().len() == 0 || !p.matches(
                    final(self).top().cur()[0],
                ))
            },
    {
        match self.blocks.pop() {
            None => {},
            Some(mut b) => {
                assert(self.blocks@ =~= old(self).blocks@.drop_last());
                let ghost b0 = b;
                b.skip_while(&p);
                proof {
                    let k = b0.cur().len() - b.cur().len();
                    assert(b0.cur().subrange(0, k) =~= b.line@.subrange(
                        b0.line_offset as int,
                        b.line_offset as int,
                    ));
                    assert forall|i: int| 0 <= i < k implies p.matches(#[trigger] b0.cur()[i]) by {
                        assert(b0.cur()[i] == b.line@[b0.line_offset + i]);
                    }
                    if b.cur().len() > 0 {
                        assert(b.cur()[0] == b.line@[b.line_offset as int]);
                    }
                }
                self.blocks.push(b);
                assert(self.blocks@.drop_last() =~= old(self).blocks@.drop_last());
            },
        }
    }
}

} // verus!
