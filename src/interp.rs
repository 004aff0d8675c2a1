//! The text interpreter, the compile-or-execute shim, one step of any
//! continuation, and the trampoline that runs them.

use std::rc::Rc;

use vstd::prelude::*;

use crate::cont::{
    Prim, StackValue, made_seq, prog, prog_opt, CompileExecuteCont, Cont, ContNode, InterpreterCont, SeqCont,
};
use crate::context::{int_of, is_int, Context, Dictionary, DictionaryEntry};
use crate::error::Error;
use crate::lexer::{copy_range, is_ws, word_split, SourceBlockState, Token};
use crate::number::{literal, ImmediateInt};
use crate::words::prim_post;
use crate::step::{
    compiling_error, exec_error, keeps_all_but_next_stack, list_post, seq_post, times_post,
    until_post, while_post, compiled_stack, compile_shape, exec_shape, is_literal, keeps_all_but_next, lit_values, run_literal};

verus! {

/// Whether the prefix of `t` that lacks its last `k` characters is a word.
pub open spec fn prefix_hit(d: &Dictionary, t: Seq<char>, k: int) -> bool {
    d.lookup_spec(t.subrange(0, t.len() - k)) is Some
}

/// Looks the prefixes of the token up from the longest down; gives the
/// entry of the first one that is a word, and how many characters it lacks.
pub fn find_entry(d: &Dictionary, tok: &Token) -> (r: Option<(DictionaryEntry, usize)>)
    ensures
        r matches Some((e, k)) ==> {
            &&& k < tok.data@.len()
            &&& d.lookup_spec(tok.data@.subrange(0, tok.data@.len() - k)) == Some(e)
            &&& forall|j: int| 0 <= j < k ==> !prefix_hit(d, tok.data@, j)
        },
        r is None ==> forall|j: int| 0 <= j < tok.data@.len() ==> !prefix_hit(d, tok.data@, j),
{
    let mut subs = tok.subtokens();
    let mut k: usize = 0;
    assert(tok.data@.subrange(0, tok.data@.len() as int) =~= tok.data@);
    loop
        invariant
            k <= tok.data@.len(),
            subs.rest@ == tok.data@.subrange(0, tok.data@.len() - k),
            forall|j: int| 0 <= j < k ==> !prefix_hit(d, tok.data@, j),
        decreases subs.rest@.len(),
    {
        match subs.next() {
            None => return None,
            Some(st) => {
                match d.lookup(&st) {
                    Some(e) => {
                        let delta = tok.delta(&st);
                        return Some((e, delta));
                    },
                    None => {},
                }
                assert(k < tok.data@.len());
                assert(tok.data@.len() == tok.data.len());
                assert(subs.rest@ =~= tok.data@.subrange(0, tok.data@.len() - (k + 1)));
                k += 1;
            },
        }
    }
}

/// The fewest characters that the token must lose, from `k` on, for a prefix
/// to be a word; `None` where no prefix is.
pub open spec fn first_hit_from(d: &Dictionary, t: Seq<char>, k: int) -> Option<int>
    decreases t.len() - k,
{
    if k < 0 || k >= t.len() {
        None
    } else if prefix_hit(d, t, k) {
        Some(k)
    } else {
        first_hit_from(d, t, k + 1)
    }
}

proof fn lemma_first_hit(d: &Dictionary, t: Seq<char>, i: int, k: int)
    requires
        0 <= i <= k <= t.len(),
        forall|j: int| i <= j < k ==> !prefix_hit(d, t, j),
        k < t.len() ==> prefix_hit(d, t, k),
    ensures
        first_hit_from(d, t, i) == if k < t.len() {
            Some(k)
        } else {
            None::<int>
        },
    decreases k - i,
{
    if i < k {
        lemma_first_hit(d, t, i + 1, k);
    }
}

proof fn lemma_first_hit_some(d: &Dictionary, t: Seq<char>, i: int, j: int)
    requires
        0 <= i <= j < t.len(),
        prefix_hit(d, t, j),
    ensures
        first_hit_from(d, t, i) is Some,
    decreases j - i,
{
    if i < j && !prefix_hit(d, t, i) {
        lemma_first_hit_some(d, t, i + 1, j);
    }
}

/// Finds the entry for a scanned token: the longest prefix that is a word,
/// with the lexer backed up over the characters the prefix lacks; failing
/// that, the token with a space appended, with the lexer left as it is.
pub fn resolve_token(ctx: &mut Context, tok: &Token) -> (r: Option<DictionaryEntry>)
    requires
        old(ctx).wf(),
        old(ctx).input.blocks@.len() > 0,
        tok.data@.len() <= old(ctx).input.top().line_offset,
        tok.data@ == old(ctx).input.top().line@.subrange(
            old(ctx).input.top().line_offset - tok.data@.len(),
            old(ctx).input.top().line_offset as int,
        ),
    ensures
        final(ctx).wf(),
        final(ctx).stack == old(ctx).stack,
        final(ctx).dictionary == old(ctx).dictionary,
        final(ctx).next == old(ctx).next,
        final(ctx).state == old(ctx).state,
        final(ctx).exit_interpret == old(ctx).exit_interpret,
        final(ctx).input.keeps_lower(&old(ctx).input),
        final(ctx).input.top().line == old(ctx).input.top().line,
        final(ctx).input.top().next_line == old(ctx).input.top().next_line,
        match first_hit_from(&old(ctx).dictionary, tok.data@, 0) {
            Some(k) => {
                &&& r == old(ctx).dictionary.lookup_spec(
                    tok.data@.subrange(0, tok.data@.len() - k),
                )
                &&& r is Some
                &&& final(ctx).input.top().line_offset == old(ctx).input.top().line_offset - k
                &&& final(ctx).input.remaining() == tok.data@.subrange(
                    tok.data@.len() - k,
                    tok.data@.len() as int,
                ) + old(ctx).input.remaining()
            },
            None => {
                &&& r == old(ctx).dictionary.lookup_spec(spaced(tok.data@))
                &&& final(ctx).input.top().line_offset == old(ctx).input.top().line_offset
                &&& final(ctx).input.remaining() == old(ctx).input.remaining()
            },
        },
{
    match find_entry(&ctx.dictionary, tok) {
        Some((e, k)) => {
            proof {
                lemma_first_hit(&ctx.dictionary, tok.data@, 0, k as int);
            }
            let ghost t0 = ctx.input.top();
            ctx.input.rewind(k);
            proof {
                let t1 = ctx.input.top();
                let off = t0.line_offset as int;
                let n = tok.data@.len() as int;
                assert(t1.rest() == t0.rest());
                assert(t1.cur() =~= tok.data@.subrange(n - k, n) + t0.cur()) by {
                    assert forall|i: int| 0 <= i < k implies t1.cur()[i] == tok.data@[n - k + i] by {
                        assert(tok.data@[n - k + i] == t0.line@[off - n + n - k + i]);
                    }
                }
            }
            Some(e)
        },
        None => {
            proof {
                lemma_first_hit(&ctx.dictionary, tok.data@, 0, tok.data@.len() as int);
            }
            let ghost t0 = ctx.input.top();
            ctx.input.rewind(0);
            assert(ctx.input.top().cur() =~= t0.cur());
            let mut w = copy_range(&tok.data, 0, tok.data.len());
            w.push(' ');
            assert(w@ == spaced(tok.data@));
            ctx.dictionary.lookup(&w)
        },
    }
}

/// `n` runs the interpreter step, then `tail`.
pub open spec fn interp_then(n: Option<Cont>, tail: Option<Cont>) -> bool {
    match n {
        Some(x) => match *x {
            ContNode::Sequence(s) => s.second == tail && (s.first matches Some(f)
                && *f is Interpreter) && tail is Some,
            ContNode::Interpreter(_) => tail is None,
            _ => false,
        },
        None => false,
    }
}

/// `n` runs the compile-or-execute shim, then the interpreter step, then `tail`.
pub open spec fn shim_interp_then(n: Option<Cont>, tail: Option<Cont>) -> bool {
    match n {
        Some(x) => match *x {
            ContNode::Sequence(s) => (s.first matches Some(f) && *f is CompileExecute)
                && interp_then(s.second, tail),
            _ => false,
        },
        None => false,
    }
}

/// The exit handle holds the tail, or the word that does nothing where the
/// tail is empty.
pub open spec fn exit_handle(h: Option<Cont>, tail: Option<Cont>) -> bool {
    match tail {
        Some(t) => h == Some(t),
        None => h matches Some(n) && *n == ContNode::Word(crate::cont::Prim::Nop),
    }
}

/// Every character is whitespace.
pub open spec fn all_ws(s: Seq<char>) -> bool {
    forall|i: int| 0 <= i < s.len() ==> is_ws(#[trigger] s[i])
}

/// The index of the last source block with a word left, or -1.
pub open spec fn word_block(bs: Seq<SourceBlockState>) -> int
    decreases bs.len(),
{
    if bs.len() == 0 {
        -1
    } else if !all_ws(bs.last().remaining()) {
        bs.len() - 1
    } else {
        word_block(bs.drop_last())
    }
}

/// The first word of a text, and what follows it.
pub open spec fn first_word(s: Seq<char>) -> (Seq<char>, Seq<char>) {
    choose|p: (Seq<char>, Seq<char>)| word_split(s, p.0, p.1)
}

/// A text has at most one split into leading whitespace, a word, and the rest.
pub proof fn lemma_word_split_unique(b: Seq<char>, t1: Seq<char>, a1: Seq<char>, t2: Seq<char>, a2: Seq<char>)
    requires
        word_split(b, t1, a1),
        word_split(b, t2, a2),
    ensures
        t1 == t2,
        a1 == a2,
{
    let k1 = b.len() - t1.len() - a1.len();
    let k2 = b.len() - t2.len() - a2.len();
    assert(b[k1] == t1[0]);
    assert(b[k2] == t2[0]);
    if k1 < k2 {
        assert(is_ws(b[k1]));
    }
    if k2 < k1 {
        assert(is_ws(b[k2]));
    }
    let l1 = t1.len();
    let l2 = t2.len();
    if l1 < l2 {
        assert(b[k1 + l1] == t2[l1 as int]);
        assert(b[k1 + l1] == a1[0]);
    }
    if l2 < l1 {
        assert(b[k1 + l2] == t1[l2 as int]);
        assert(b[k1 + l2] == a2[0]);
    }
    assert(t1 =~= b.subrange(k1, k1 + l1));
    assert(t2 =~= b.subrange(k1, k1 + l1));
    assert(a1 =~= b.subrange(k1 + l1, b.len() as int));
    assert(a2 =~= b.subrange(k1 + l1, b.len() as int));
}

/// The split that a scan reports is the one `first_word` names.
pub proof fn lemma_first_word(b: Seq<char>, t: Seq<char>, a: Seq<char>)
    requires
        word_split(b, t, a),
    ensures
        first_word(b) == (t, a),
        !all_ws(b),
{
    let p = first_word(b);
    assert(word_split(b, (t, a).0, (t, a).1));
    lemma_word_split_unique(b, p.0, p.1, t, a);
    let k = b.len() - t.len() - a.len();
    assert(b[k] == t[0]);
}

/// A number and its optional denominator pushed onto `s`, then the argument
/// count and the word that does nothing.
pub open spec fn pushed_number(s: Seq<StackValue>, f: Seq<StackValue>, n: int, dn: Option<int>) -> bool {
    let m = s.len() as int;
    let c: int = if dn is Some {
        2
    } else {
        1
    };
    &&& f.len() == m + c + 2
    &&& f.subrange(0, m) == s
    &&& is_int(f[m]) && int_of(f[m]) == n
    &&& (dn matches Some(x) ==> is_int(f[m + 1]) && int_of(f[m + 1]) == x)
    &&& is_int(f[m + c]) && int_of(f[m + c]) == c
    &&& (f[m + c + 1] matches StackValue::Cont(z) && *z == ContNode::Word(Prim::Nop))
}

/// The entry a token finds: its longest prefix that is a word, or failing
/// that the token with a space appended.
pub open spec fn token_entry(d: &Dictionary, t: Seq<char>) -> Option<DictionaryEntry> {
    match first_hit_from(d, t, 0) {
        Some(k) => d.lookup_spec(t.subrange(0, t.len() - k)),
        None => d.lookup_spec(spaced(t)),
    }
}

/// The input left after a token is handled: what the found prefix lacks,
/// then what followed the token.
pub open spec fn token_rest(d: &Dictionary, t: Seq<char>, after: Seq<char>) -> Seq<char> {
    match first_hit_from(d, t, 0) {
        Some(k) => t.subrange(t.len() - k, t.len() as int) + after,
        None => after,
    }
}

/// What one interpreter step does with the token `t`, followed by `after`.
pub open spec fn token_step(
    o: &Context,
    f: &Context,
    r: Result<Option<Cont>, Error>,
    t: Seq<char>,
    after: Seq<char>,
) -> bool {
    match token_entry(&o.dictionary, t) {
        Some(e) => {
            &&& f.input.remaining() == token_rest(&o.dictionary, t, after)
            &&& if e.active {
                &&& r == Ok::<Option<Cont>, Error>(Some(e.definition))
                &&& f.stack == o.stack
                &&& f.exit_interpret == o.exit_interpret
                &&& shim_interp_then(f.next, o.next)
            } else {
                &&& f.stack.items@.len() == o.stack.items@.len() + 2
                &&& f.stack.items@.subrange(0, o.stack.items@.len() as int) == o.stack.items@
                &&& is_int(f.stack.items@[o.stack.items@.len() as int])
                &&& int_of(f.stack.items@[o.stack.items@.len() as int]) == 0
                &&& f.stack.items@.last() == StackValue::Cont(e.definition)
                &&& (r matches Ok(Some(x)) && *x is CompileExecute)
                &&& interp_then(f.next, o.next)
                &&& exit_handle(f.exit_interpret, o.next)
            }
        },
        None => {
            &&& f.input.remaining() == after
            &&& match literal(t) {
                None => r == Err::<Option<Cont>, Error>(Error::InvalidNumber) && f.stack == o.stack
                    && f.next == o.next && f.exit_interpret == o.exit_interpret,
                Some(None) => (r matches Err(Error::UndefinedWord(w)) && w@ == t) && f.stack
                    == o.stack && f.next == o.next && f.exit_interpret == o.exit_interpret,
                Some(Some((n, dn))) => {
                    &&& pushed_number(o.stack.items@, f.stack.items@, n, dn)
                    &&& (r matches Ok(Some(x)) && *x is CompileExecute)
                    &&& interp_then(f.next, o.next)
                    &&& exit_handle(f.exit_interpret, o.next)
                },
            }
        },
    }
}

/// The token with a space appended.
pub open spec fn spaced(t: Seq<char>) -> Seq<char> {
    t.push(' ')
}

/// What one step of the text interpreter does: reads the next word of the
/// last block that has one, dropping the blocks used up, and handles it.
pub open spec fn interp_post(o: &Context, f: &Context, r: Result<Option<Cont>, Error>) -> bool {
    &&& f.wf()
    &&& f.dictionary == o.dictionary
    &&& f.state == o.state
    &&& ({
                let bs = o.input.blocks@;
                let j = word_block(bs);
                if j < 0 {
                    &&& r == Ok::<Option<Cont>, Error>(None)
                    &&& f.input.blocks@.len() == 0
                    &&& f.stack == o.stack
                    &&& f.next == o.next
                    &&& f.exit_interpret == o.exit_interpret
                } else {
                    &&& f.input.blocks@.len() == j + 1
                    &&& f.input.blocks@.drop_last() == bs.subrange(0, j)
                    &&& token_step(
                        o,
                        f,
                        r,
                        first_word(bs[j].remaining()).0,
                        first_word(bs[j].remaining()).1,
                    )
                }
            })
}

impl InterpreterCont {
    /// Reads the next word and arranges for it to be compiled or executed;
    /// gives nothing once the input is used up.
    pub fn run(ctx: &mut Context) -> (r: Result<Option<Cont>, Error>)
        requires
            old(ctx).wf(),
        ensures
            interp_post(old(ctx), final(ctx), r),
    {
        loop
            invariant
                ctx.wf(),
                ctx.dictionary == old(ctx).dictionary,
                ctx.state == old(ctx).state,
                ctx.next == old(ctx).next,
                ctx.stack == old(ctx).stack,
                ctx.exit_interpret == old(ctx).exit_interpret,
                ctx.input.blocks@.len() <= old(ctx).input.blocks@.len(),
                ctx.input.blocks@ == old(ctx).input.blocks@.subrange(
                    0,
                    ctx.input.blocks@.len() as int,
                ),
                word_block(ctx.input.blocks@) == word_block(old(ctx).input.blocks@),
            decreases ctx.input.blocks@.len(),
        {
            let ghost pre = ctx.input.blocks@;
            let tok = match ctx.input.scan_word() {
                Some(t) => t,
                None => {
                    proof {
                        if pre.len() > 0 {
                            assert(ctx.input.blocks@.drop_last() == pre.drop_last());
                            assert(all_ws(pre.last().remaining()));
                        }
                    }
                    if ctx.input.pop_source_block() {
                        assert(ctx.input.blocks@ =~= old(ctx).input.blocks@.subrange(
                            0,
                            ctx.input.blocks@.len() as int,
                        ));
                        continue ;
                    }
                    return Ok(None);
                },
            };
            let ghost j = pre.len() - 1;
            let ghost after = ctx.input.remaining();
            proof {
                lemma_first_word(pre.last().remaining(), tok.data@, after);
                assert(pre.last() == old(ctx).input.blocks@[j]);
                assert(pre.subrange(0, j) =~= old(ctx).input.blocks@.subrange(0, j));
                assert(ctx.input.blocks@.drop_last() == pre.drop_last());
                assert(pre.drop_last() =~= pre.subrange(0, j));
            }
            let entry = resolve_token(ctx, &tok);
            let ghost s0 = ctx.stack.items@;
            match entry {
                Some(e) => {
                    if e.active {
                        let shim = Rc::new(ContNode::CompileExecute(CompileExecuteCont));
                        let me = Rc::new(ContNode::Interpreter(InterpreterCont));
                        let next = ctx.next.take();
                        let rest = SeqCont::make(Some(me), next);
                        ctx.next = SeqCont::make(Some(shim), rest);
                        return Ok(Some(e.definition));
                    }
                    ctx.stack.push_argcount(0, e.definition);
                },
                None => {
                    match ImmediateInt::try_from_str(&tok.data) {
                        Err(e) => return Err(e),
                        Ok(None) => return Err(Error::UndefinedWord(tok.data)),
                        Ok(Some(v)) => {
                            let ghost m = s0.len() as int;
                            ctx.stack.push_int(v.num);
                            let ghost s1 = ctx.stack.items@;
                            let nop = ctx.dictionary.make_nop();
                            match v.denom {
                                Some(d) => {
                                    ctx.stack.push_int(d);
                                    let ghost s2 = ctx.stack.items@;
                                    ctx.stack.push_argcount(2, nop);
                                    proof {
                                        assert(ctx.stack.items@[m] == s2[m]);
                                        assert(s2[m] == s1[m]);
                                        assert(ctx.stack.items@[m + 1] == s2[m + 1]);
                                        assert(ctx.stack.items@.subrange(0, m) =~= s0);
                                    }
                                },
                                None => {
                                    ctx.stack.push_argcount(1, nop);
                                    proof {
                                        assert(ctx.stack.items@[m] == s1[m]);
                                        assert(ctx.stack.items@.subrange(0, m) =~= s0);
                                    }
                                },
                            }
                        },
                    }
                },
            }
            ctx.exit_interpret = match &ctx.next {
                Some(n) => Some(n.clone()),
                None => Some(ctx.dictionary.make_nop()),
            };
            let me = Rc::new(ContNode::Interpreter(InterpreterCont));
            let next = ctx.next.take();
            ctx.next = SeqCont::make(Some(me), next);
            return Ok(Some(Rc::new(ContNode::CompileExecute(CompileExecuteCont))));
        }
    }
}

/// What one step of the compile-or-execute shim does: while compiling, it
/// appends the definition on top of the stack to the word list under
/// construction; otherwise it yields that definition to be executed.
pub open spec fn shim_post(o: &Context, f: &Context, r: Result<Option<Cont>, Error>) -> bool {
    let s = o.stack.items@;
    &&& f.input == o.input
    &&& f.dictionary == o.dictionary
    &&& f.state == o.state
    &&& f.next == o.next
    &&& f.exit_interpret == o.exit_interpret
    &&& if o.state > 0 {
        if compile_shape(s) {
            r == Ok::<Option<Cont>, Error>(None) && compiled_stack(s, f.stack.items@)
        } else {
            r == Err::<Option<Cont>, Error>(compiling_error(s))
        }
    } else {
        if exec_shape(s) {
            r == Ok::<Option<Cont>, Error>(Some(s.last()->Cont_0)) && f.stack.items@ == s.subrange(
                0,
                s.len() - 2,
            )
        } else {
            r == Err::<Option<Cont>, Error>(exec_error(s))
        }
    }
}

/// What one step of the continuation `c` does, by its kind.
pub open spec fn step_post(c: Cont, o: Context, f: Context, r: Result<Option<Cont>, Error>) -> bool {
    &&& f.wf()
    &&& f.dictionary == o.dictionary
    &&& match *c {
        ContNode::Interpreter(_) => interp_post(&o, &f, r),
        ContNode::CompileExecute(_) => shim_post(&o, &f, r),
        ContNode::Sequence(x) => r matches Ok(y) && seq_post(x, &o, &f, y),
        ContNode::List(x) => r matches Ok(y) && list_post(x, &o, &f, y),
        ContNode::Times(x) => r matches Ok(y) && times_post(x, &o, &f, y),
        ContNode::Until(x) => until_post(x, &o, &f, r),
        ContNode::While(x) => while_post(x, &o, &f, r),
        ContNode::Word(p) => {
            &&& prim_post(p, &o, &f, r)
            &&& f.exit_interpret == o.exit_interpret
            &&& (!(p is OpenBrace || p is CloseBrace) ==> f.state == o.state)
            &&& (!(p is Quote) ==> f.input == o.input)
        },
        _ => {
            &&& r == Ok::<Option<Cont>, Error>(None)
            &&& f.next == o.next
            &&& f.stack.items@ == o.stack.items@ + lit_values(*c)
            &&& keeps_all_but_next_stack(&f, &o)
        },
    }
}

impl CompileExecuteCont {
    /// While compiling, appends the definition on top of the stack to the
    /// word list under construction; otherwise yields it to be executed.
    pub fn run(ctx: &mut Context) -> (r: Result<Option<Cont>, Error>)
        ensures
            shim_post(old(ctx), final(ctx), r),
    {
        if ctx.is_compile() {
            match ctx.compile_stack_top() {
                Ok(()) => Ok(None),
                Err(e) => Err(e),
            }
        } else {
            match ctx.execute_stack_top() {
                Ok(c) => Ok(Some(c)),
                Err(e) => Err(e),
            }
        }
    }
}

/// Runs one step of `c`: gives the continuation to jump to, or nothing to
/// fall through to the tail slot.
pub fn run(c: Cont, ctx: &mut Context) -> (r: Result<Option<Cont>, Error>)
    requires
        old(ctx).wf(),
    ensures
        final(ctx).wf(),
        final(ctx).dictionary == old(ctx).dictionary,
        (*c is Sequence || *c is List) ==> keeps_all_but_next(final(ctx), old(ctx)) && (
        r matches Ok(x) && prog_opt(x) + prog_opt(final(ctx).next) == prog(c) + prog_opt(
            old(ctx).next,
        )),
        is_literal(*c) ==> r == Ok::<Option<Cont>, Error>(None) && final(ctx).next == old(
            ctx,
        ).next && final(ctx).stack.items@ == old(ctx).stack.items@ + lit_values(*c),
        step_post(c, *old(ctx), *final(ctx), r),
{
    if is_literal_node(&c) {
        run_literal(c, ctx);
        return Ok(None);
    }
    if is_seq_or_list(&c) {
        return Ok(run_seq_or_list(c, ctx));
    }
    match &*c {
        ContNode::Interpreter(_) => InterpreterCont::run(ctx),
        ContNode::CompileExecute(_) => CompileExecuteCont::run(ctx),
        ContNode::Times(t) => Ok(t.run(ctx)),
        ContNode::Until(u) => u.run(ctx),
        ContNode::While(w) => w.run(ctx),
        ContNode::Word(p) => p.run(ctx),
        _ => Ok(None),
    }
}

fn is_seq_or_list(c: &Cont) -> (r: bool)
    ensures
        r == (**c is Sequence || **c is List),
{
    match &**c {
        ContNode::Sequence(_) | ContNode::List(_) => true,
        _ => false,
    }
}

/// One step of a sequence or list node. A node held only here gives its
/// fields up; a shared one is copied. Both ways meet the same contract of
/// the node's kind, so they leave the same result and tail.
pub fn run_seq_or_list(c: Cont, ctx: &mut Context) -> (r: Option<Cont>)
    requires
        *c is Sequence || *c is List,
    ensures
        keeps_all_but_next(final(ctx), old(ctx)),
        prog_opt(r) + prog_opt(final(ctx).next) == prog(c) + prog_opt(old(ctx).next),
        *c is Sequence ==> seq_post((*c)->Sequence_0, old(ctx), final(ctx), r),
        *c is List ==> list_post((*c)->List_0, old(ctx), final(ctx), r),
{
    match Rc::try_unwrap(c) {
        Ok(node) => match node {
            ContNode::Sequence(s) => s.run_owned(ctx),
            ContNode::List(l) => l.run_owned(ctx),
            _ => None,
        },
        Err(shared) => match &*shared {
            ContNode::Sequence(s) => s.run(ctx),
            ContNode::List(l) => l.run(ctx),
            _ => None,
        },
    }
}

fn is_literal_node(c: &Cont) -> (r: bool)
    ensures
        r == is_literal(**c),
{
    match &**c {
        ContNode::IntLit(_) | ContNode::Lit(_) | ContNode::MultiLit(_) => true,
        _ => false,
    }
}

/// How a bounded run of the trampoline ended.
pub enum RunOutcome {
    /// No continuation was left, after this many steps.
    Finished(usize),
    /// The step budget ran out; this continuation was to run next.
    Paused(Cont),
}

/// The context with an empty tail slot.
pub open spec fn cleared(o: Context) -> Context {
    Context { next: None, ..o }
}

/// Running from `cur` in the context `o`, with at most `budget` more steps
/// and `taken` steps run before, ends in the context `f` with `r`: each step
/// of a continuation does what `step_post` says; where a step yields nothing,
/// the tail slot is taken next; the run finishes when nothing is left, pauses
/// when the budget is used up, and fails with the first error a step gives.
pub open spec fn runs(
    o: Context,
    cur: Option<Cont>,
    f: Context,
    budget: nat,
    taken: nat,
    r: Result<RunOutcome, Error>,
) -> bool
    decreases budget, if cur is None {
        1nat
    } else {
        0nat
    },
{
    match cur {
        None => if o.next is None {
            r == Ok::<RunOutcome, Error>(RunOutcome::Finished(taken as usize)) && f == o
        } else {
            runs(cleared(o), o.next, f, budget, taken, r)
        },
        Some(c) => if budget == 0 {
            r == Ok::<RunOutcome, Error>(RunOutcome::Paused(c)) && f == o
        } else {
            exists|mid: Context, res: Result<Option<Cont>, Error>|
                #[trigger] step_post(c, o, mid, res) && match res {
                    Err(e) => r == Err::<RunOutcome, Error>(e) && f == mid,
                    Ok(x) => runs(mid, x, f, (budget - 1) as nat, taken + 1, r),
                }
        },
    }
}

/// The trampoline: runs `start`, then whatever each step yields or, where it
/// yields nothing, what the tail slot holds, until nothing is left or
/// `budget` steps have run. Every step runs at the top of this one loop.
pub fn run_steps(ctx: &mut Context, start: Cont, budget: usize) -> (r: Result<RunOutcome, Error>)
    requires
        old(ctx).wf(),
    ensures
        final(ctx).wf(),
        final(ctx).dictionary == old(ctx).dictionary,
        r matches Ok(RunOutcome::Finished(n)) ==> n <= budget && final(ctx).next is None,
        runs(*old(ctx), Some(start), *final(ctx), budget as nat, 0, r),
{
    let ghost c_start = start;
    let mut current: Option<Cont> = Some(start.clone());
    let mut steps: usize = 0;
    loop
        invariant
            ctx.wf(),
            ctx.dictionary == old(ctx).dictionary,
            steps <= budget,
            current is None ==> ctx.next is None,
            c_start == start,
            forall|f: Context, r: Result<RunOutcome, Error>|
                #[trigger] runs(*ctx, current, f, (budget - steps) as nat, steps as nat, r) ==> runs(
                    *old(ctx),
                    Some(c_start),
                    f,
                    budget as nat,
                    0,
                    r,
                ),
        decreases budget - steps,
    {
        let ghost cur0 = current;
        let ghost ctx0 = *ctx;
        let ghost b = (budget - steps) as nat;
        let c = match current {
            None => {
                let ghost out = Ok::<RunOutcome, Error>(RunOutcome::Finished(steps));
                assert(runs(ctx0, cur0, ctx0, b, steps as nat, out));
                return Ok(RunOutcome::Finished(steps));
            },
            Some(c) => c,
        };
        if steps == budget {
            let ghost out = Ok::<RunOutcome, Error>(RunOutcome::Paused(c));
            assert(runs(ctx0, cur0, ctx0, b, steps as nat, out));
            return Ok(RunOutcome::Paused(c));
        }
        let res = run(c, ctx);
        let ghost ctx1 = *ctx;
        assert(step_post(c, ctx0, ctx1, res));
        current = match res {
            Ok(n) => n,
            Err(e) => {
                assert(runs(ctx0, cur0, ctx1, b, steps as nat, Err::<RunOutcome, Error>(e)));
                return Err(e);
            },
        };
        let ghost x = current;
        steps += 1;
        if current.is_none() {
            current = ctx.next.take();
            assert(*ctx == cleared(ctx1));
        }
        proof {
            assert forall|f: Context, r: Result<RunOutcome, Error>|
                #[trigger] runs(*ctx, current, f, (budget - steps) as nat, steps as nat, r) implies runs(
                    *old(ctx),
                    Some(c_start),
                    f,
                    budget as nat,
                    0,
                    r,
                ) by {
                if x is None && ctx1.next is None {
                    assert(cleared(ctx1) == ctx1);
                }
                assert(runs(ctx1, x, f, (b - 1) as nat, steps as nat, r));
                assert(step_post(c, ctx0, ctx1, Ok::<Option<Cont>, Error>(x)));
                assert(runs(ctx0, cur0, f, b, (steps - 1) as nat, r));
            }
        }
    }
}

} // verus!
