//! One step of each kind of continuation.

use std::rc::Rc;

use vstd::prelude::*;

use crate::cont::{
    dup_opt, folded, fold_into, made_seq, prog, prog_items, prog_opt, Cont, ContNode, ListCont, SeqCont,
    TimesCont, UntilCont, WhileCont, WordList,
};
use crate::context::{flag_of, int_of, is_int, Context};
use crate::cont::{IntLitCont, LitCont, MultiLitCont, Prim, StackValue};
use crate::error::Error;

verus! {

broadcast use vstd::std_specs::vec::group_vec_axioms;

/// Only the tail slot of the context may have changed.
pub open spec fn keeps_all_but_next(a: &Context, b: &Context) -> bool {
    &&& a.stack == b.stack
    &&& a.input == b.input
    &&& a.dictionary == b.dictionary
    &&& a.state == b.state
    &&& a.exit_interpret == b.exit_interpret
}

/// Only the tail slot and the stack of the context may have changed.
pub open spec fn keeps_all_but_next_stack(a: &Context, b: &Context) -> bool {
    &&& a.input == b.input
    &&& a.dictionary == b.dictionary
    &&& a.state == b.state
    &&& a.exit_interpret == b.exit_interpret
}

/// The stack lost its top, as popping a flag does.
pub open spec fn popped_flag(a: &Context, b: &Context, r: Result<bool, Error>) -> bool {
    if a.stack.items@.len() == 0 {
        r == Err::<bool, Error>(Error::StackUnderflow) && b.stack.items@ == a.stack.items@
    } else {
        &&& b.stack.items@ == a.stack.items@.drop_last()
        &&& r == if is_int(a.stack.items@.last()) {
            Ok::<bool, Error>(flag_of(a.stack.items@.last()))
        } else {
            Err::<bool, Error>(Error::TypeMismatch)
        }
    }
}


/// `n` is a list node over `list` at `pos`, its `after` being `after` with `tail` folded in.
pub open spec fn is_list_node(
    n: Option<Cont>,
    list: Rc<WordList>,
    pos: int,
    after: Option<Cont>,
    tail: Option<Cont>,
) -> bool {
    match n {
        Some(x) => match *x {
            ContNode::List(l) => l.list == list && l.pos == pos && folded(l.after, after, tail),
            _ => false,
        },
        None => false,
    }
}

/// `n` is a repeat node of `body`, `count` times, its `after` being `after`
/// with `tail` folded in.
pub open spec fn is_times_node(
    n: Option<Cont>,
    body: Option<Cont>,
    count: int,
    after: Option<Cont>,
    tail: Option<Cont>,
) -> bool {
    match n {
        Some(x) => match *x {
            ContNode::Times(t) => t.body == body && t.count == count && folded(t.after, after, tail),
            _ => false,
        },
        None => false,
    }
}

/// `n` is an until loop over `body`, its `after` being `after` with `tail`
/// folded in.
pub open spec fn is_until_node(
    n: Option<Cont>,
    body: Option<Cont>,
    after: Option<Cont>,
    tail: Option<Cont>,
) -> bool {
    match n {
        Some(x) => match *x {
            ContNode::Until(u) => u.body == body && folded(u.after, after, tail),
            _ => false,
        },
        None => false,
    }
}

/// `n` is a while loop in the given phase, its `after` being `after` with
/// `tail` folded in.
pub open spec fn is_while_node(
    n: Option<Cont>,
    condition: Option<Cont>,
    body: Option<Cont>,
    running_body: bool,
    after: Option<Cont>,
    tail: Option<Cont>,
) -> bool {
    match n {
        Some(x) => match *x {
            ContNode::While(w) => w.condition == condition && w.body == body && w.running_body
                == running_body && folded(w.after, after, tail),
            _ => false,
        },
        None => false,
    }
}

/// What one step of a `SeqCont` does: it runs `first` and puts `second` in front of the tail.
pub open spec fn seq_post(x: SeqCont, o: &Context, f: &Context, r: Option<Cont>) -> bool {
    &&& (r == x.first)
    &&& (made_seq(f.next, x.second, o.next))
    &&& (keeps_all_but_next(f, o))
}

/// What one step of a `ListCont` does: it plays the item at `pos`.
pub open spec fn list_post(x: ListCont, o: &Context, f: &Context, r: Option<Cont>) -> bool {
    &&& (keeps_all_but_next(f, o))
    &&& (x.pos >= x.list.items@.len() ==> r == o.next && f.next is None)
    &&& (x.pos < x.list.items@.len() ==> {
                &&& r == Some(x.list.items@[x.pos as int])
                &&& x.pos + 1 >= x.list.items@.len() ==> folded(
                    f.next,
                    x.after,
                    o.next,
                )
                &&& x.pos + 1 < x.list.items@.len() ==> is_list_node(
                    f.next,
                    x.list,
                    x.pos + 1,
                    x.after,
                    o.next,
                )
                &&& prog_opt(r) + prog_opt(f.next) == prog_items(
                    x.list.items@,
                    x.pos as int,
                ) + prog_opt(x.after) + prog_opt(o.next)
            })
}

/// What one step of a `TimesCont` does: it runs `body` once more.
pub open spec fn times_post(x: TimesCont, o: &Context, f: &Context, r: Option<Cont>) -> bool {
    &&& (r == x.body)
    &&& (keeps_all_but_next(f, o))
    &&& (x.count <= 1 ==> folded(f.next, x.after, o.next))
    &&& (x.count > 1 ==> is_times_node(
                f.next,
                x.body,
                x.count - 1,
                x.after,
                o.next,
            ))
}

/// What one step of a `UntilCont` does: it tests the flag and loops or leaves.
pub open spec fn until_post(x: UntilCont, o: &Context, f: &Context, r: Result<Option<Cont>, Error>) -> bool {
    &&& (keeps_all_but_next_stack(f, o))
    &&& (({
                let flag = if o.stack.items@.len() == 0 {
                    Err::<bool, Error>(Error::StackUnderflow)
                } else if is_int(o.stack.items@.last()) {
                    Ok::<bool, Error>(flag_of(o.stack.items@.last()))
                } else {
                    Err::<bool, Error>(Error::TypeMismatch)
                };
                &&& popped_flag(o, f, flag)
                &&& match flag {
                    Err(e) => r == Err::<Option<Cont>, Error>(e) && f.next == o.next,
                    Ok(true) => r == Ok::<Option<Cont>, Error>(x.after) && f.next
                        == o.next,
                    Ok(false) => r == Ok::<Option<Cont>, Error>(x.body) && is_until_node(
                        f.next,
                        x.body,
                        x.after,
                        o.next,
                    ),
                }
            }))
}

/// What one step of a `WhileCont` does: it alternates condition and body.
pub open spec fn while_post(x: WhileCont, o: &Context, f: &Context, r: Result<Option<Cont>, Error>) -> bool {
    &&& (keeps_all_but_next_stack(f, o))
    &&& (!x.running_body ==> f.stack == o.stack && r == Ok::<Option<Cont>, Error>(x.condition) && is_while_node(
                f.next,
                x.condition,
                x.body,
                true,
                x.after,
                o.next,
            ))
    &&& (x.running_body ==> ({
                let flag = if o.stack.items@.len() == 0 {
                    Err::<bool, Error>(Error::StackUnderflow)
                } else if is_int(o.stack.items@.last()) {
                    Ok::<bool, Error>(flag_of(o.stack.items@.last()))
                } else {
                    Err::<bool, Error>(Error::TypeMismatch)
                };
                &&& popped_flag(o, f, flag)
                &&& match flag {
                    Err(e) => r == Err::<Option<Cont>, Error>(e) && f.next == o.next,
                    Ok(false) => r == Ok::<Option<Cont>, Error>(x.after) && f.next
                        == o.next,
                    Ok(true) => r == Ok::<Option<Cont>, Error>(x.body) && is_while_node(
                        f.next,
                        x.condition,
                        x.body,
                        false,
                        x.after,
                        o.next,
                    ),
                }
            }))
}

impl SeqCont {
    /// Yields `first` and puts `second` in front of the tail.
    pub fn run(&self, ctx: &mut Context) -> (r: Option<Cont>)
        ensures
            seq_post(*self, old(ctx), final(ctx), r),
            prog_opt(r) + prog_opt(final(ctx).next) == prog_opt(self.first) + prog_opt(
                self.second,
            ) + prog_opt(old(ctx).next),
    {
        let next = ctx.next.take();
        ctx.next = SeqCont::make(dup_opt(&self.second), next);
        let r = dup_opt(&self.first);
        assert(prog_opt(r) + prog_opt(ctx.next) =~= prog_opt(self.first) + prog_opt(self.second)
            + prog_opt(old(ctx).next));
        r
    }

    /// As `run`, for a node held only here: its fields move instead of
    /// being copied.
    pub fn run_owned(self, ctx: &mut Context) -> (r: Option<Cont>)
        ensures
            r == self.first,
            made_seq(final(ctx).next, self.second, old(ctx).next),
            keeps_all_but_next(final(ctx), old(ctx)),
            prog_opt(r) + prog_opt(final(ctx).next) == prog_opt(self.first) + prog_opt(
                self.second,
            ) + prog_opt(old(ctx).next),
    {
        let ghost me = self;
        let next = ctx.next.take();
        ctx.next = SeqCont::make(self.second, next);
        let r = self.first;
        assert(prog_opt(r) + prog_opt(ctx.next) =~= prog_opt(me.first) + prog_opt(me.second)
            + prog_opt(old(ctx).next));
        r
    }
}

impl ListCont {
    /// Yields the item at `pos` and leaves the rest of the list, with the tail
    /// folded into `after`, as the new tail; past the end, yields the tail.
    pub fn run(&self, ctx: &mut Context) -> (r: Option<Cont>)
        ensures
            list_post(*self, old(ctx), final(ctx), r),
    {
        let len = self.list.items.len();
        if self.pos >= len {
            return ctx.next.take();
        }
        let current = self.list.items[self.pos].clone();
        let mut after = dup_opt(&self.after);
        ctx.insert_before_next(&mut after);
        let ghost items = self.list.items@;
        let ghost pos = self.pos as int;
        if self.pos + 1 >= len {
            ctx.next = after;
            proof {
                assert(prog_items(items, pos + 1) =~= Seq::empty());
                assert(prog_opt(Some(current)) + prog_opt(ctx.next) =~= prog_items(items, pos)
                    + prog_opt(self.after) + prog_opt(old(ctx).next));
            }
        } else {
            let node = Rc::new(
                ContNode::List(ListCont { list: self.list.clone(), after, pos: self.pos + 1 }),
            );
            proof {
                let x = node;
                assert(prog(x) == prog_items(items, pos + 1) + prog_opt(after));
            }
            ctx.next = Some(node);
            assert(prog_opt(Some(current)) + prog_opt(ctx.next) =~= prog_items(items, pos)
                + prog_opt(self.after) + prog_opt(old(ctx).next));
        }
        Some(current)
    }

    /// As `run`, for a node held only here: its list and `after` move
    /// instead of being copied.
    pub fn run_owned(self, ctx: &mut Context) -> (r: Option<Cont>)
        ensures
            keeps_all_but_next(final(ctx), old(ctx)),
            self.pos >= self.list.items@.len() ==> r == old(ctx).next && final(ctx).next is None,
            self.pos < self.list.items@.len() ==> {
                &&& r == Some(self.list.items@[self.pos as int])
                &&& self.pos + 1 >= self.list.items@.len() ==> folded(
                    final(ctx).next,
                    self.after,
                    old(ctx).next,
                )
                &&& self.pos + 1 < self.list.items@.len() ==> is_list_node(
                    final(ctx).next,
                    self.list,
                    self.pos + 1,
                    self.after,
                    old(ctx).next,
                )
                &&& prog_opt(r) + prog_opt(final(ctx).next) == prog_items(
                    self.list.items@,
                    self.pos as int,
                ) + prog_opt(self.after) + prog_opt(old(ctx).next)
            },
    {
        let len = self.list.items.len();
        if self.pos >= len {
            return ctx.next.take();
        }
        let current = self.list.items[self.pos].clone();
        let ghost me = self;
        let mut after = self.after;
        ctx.insert_before_next(&mut after);
        let ghost items = self.list.items@;
        let ghost pos = self.pos as int;
        if self.pos + 1 >= len {
            ctx.next = after;
            proof {
                assert(prog_items(items, pos + 1) =~= Seq::empty());
                assert(prog_opt(Some(current)) + prog_opt(ctx.next) =~= prog_items(items, pos)
                    + prog_opt(me.after) + prog_opt(old(ctx).next));
            }
        } else {
            let node = Rc::new(
                ContNode::List(ListCont { list: self.list, after, pos: self.pos + 1 }),
            );
            proof {
                let x = node;
                assert(prog(x) == prog_items(items, pos + 1) + prog_opt(after));
            }
            ctx.next = Some(node);
            assert(prog_opt(Some(current)) + prog_opt(ctx.next) =~= prog_items(items, pos)
                + prog_opt(me.after) + prog_opt(old(ctx).next));
        }
        Some(current)
    }
}

impl TimesCont {
    /// Yields `body`; leaves itself with one run fewer as the new tail, or
    /// `after` on the last run, the tail folded in either way.
    pub fn run(&self, ctx: &mut Context) -> (r: Option<Cont>)
        ensures
            times_post(*self, old(ctx), final(ctx), r),
    {
        let mut after = dup_opt(&self.after);
        ctx.insert_before_next(&mut after);
        if self.count > 1 {
            ctx.next = Some(
                Rc::new(
                    ContNode::Times(
                        TimesCont { body: dup_opt(&self.body), after, count: self.count - 1 },
                    ),
                ),
            );
        } else {
            ctx.next = after;
        }
        dup_opt(&self.body)
    }
}

impl UntilCont {
    /// Pops a flag: where it is true, yields `after`; otherwise yields `body`
    /// and leaves the loop, the tail folded into its `after`, as the new tail.
    pub fn run(&self, ctx: &mut Context) -> (r: Result<Option<Cont>, Error>)
        ensures
            until_post(*self, old(ctx), final(ctx), r),
    {
        let flag = match ctx.stack.pop_bool() {
            Ok(f) => f,
            Err(e) => return Err(e),
        };
        if flag {
            return Ok(dup_opt(&self.after));
        }
        let mut after = dup_opt(&self.after);
        ctx.insert_before_next(&mut after);
        ctx.next = Some(Rc::new(ContNode::Until(UntilCont { body: dup_opt(&self.body), after })));
        Ok(dup_opt(&self.body))
    }
}

impl WhileCont {
    /// In the body phase, pops the condition's flag and yields `after` where it
    /// is false, `body` otherwise; in the condition phase, yields `condition`.
    /// Unless it left, the loop with its phase flipped and the tail folded into
    /// its `after` becomes the new tail.
    pub fn run(&self, ctx: &mut Context) -> (r: Result<Option<Cont>, Error>)
        ensures
            while_post(*self, old(ctx), final(ctx), r),
    {
        let cont = if self.running_body {
            let flag = match ctx.stack.pop_bool() {
                Ok(f) => f,
                Err(e) => return Err(e),
            };
            if !flag {
                return Ok(dup_opt(&self.after));
            }
            dup_opt(&self.body)
        } else {
            dup_opt(&self.condition)
        };
        let mut after = dup_opt(&self.after);
        ctx.insert_before_next(&mut after);
        ctx.next = Some(
            Rc::new(
                ContNode::While(
                    WhileCont {
                        condition: dup_opt(&self.condition),
                        body: dup_opt(&self.body),
                        after,
                        running_body: !self.running_body,
                    },
                ),
            ),
        );
        Ok(cont)
    }

    /// The phase the loop is in.
    pub fn stage_name(&self) -> (r: &'static str)
        ensures
            r@ == if self.running_body {
                "body"@
            } else {
                "condition"@
            },
    {
        if self.running_body {
            "body"
        } else {
            "condition"
        }
    }
}

/// The values that a literal continuation pushes.
pub open spec fn lit_values(n: ContNode) -> Seq<StackValue> {
    match n {
        ContNode::IntLit(l) => seq![StackValue::Int(l.0)],
        ContNode::Lit(l) => seq![l.0],
        ContNode::MultiLit(m) => m.0@,
        _ => Seq::empty(),
    }
}

pub open spec fn is_literal(n: ContNode) -> bool {
    n is IntLit || n is Lit || n is MultiLit
}

/// Pushes the literal's values. A node held only here gives its payload up;
/// a shared one is copied. Both leave the same stack.
pub fn run_literal(c: Cont, ctx: &mut Context)
    requires
        is_literal(*c),
    ensures
        final(ctx).stack.items@ == old(ctx).stack.items@ + lit_values(*c),
        final(ctx).next == old(ctx).next,
        keeps_all_but_next_stack(final(ctx), old(ctx)),
{
    let ghost c0: Cont = c;
    match Rc::try_unwrap(c) {
        Ok(node) => match node {
            ContNode::IntLit(IntLitCont(b)) => {
                ctx.stack.push(StackValue::Int(b));
                assert(ctx.stack.items@ =~= old(ctx).stack.items@ + lit_values(*c0));
            },
            ContNode::Lit(LitCont(v)) => {
                ctx.stack.push(v);
                assert(ctx.stack.items@ =~= old(ctx).stack.items@ + lit_values(*c0));
            },
            ContNode::MultiLit(MultiLitCont(v)) => {
                let mut v = v;
                let ghost all = v@;
                while v.len() > 0
                    invariant
                        ctx.stack.items@ + v@ == old(ctx).stack.items@ + all,
                        ctx.next == old(ctx).next,
                        keeps_all_but_next_stack(ctx, old(ctx)),
                    decreases v@.len(),
                {
                    let ghost before = v@;
                    let x = v.remove(0);
                    ctx.stack.push(x);
                    assert(ctx.stack.items@ + v@ =~= old(ctx).stack.items@ + all) by {
                        assert(before =~= seq![x] + v@);
                    }
                }
                assert(ctx.stack.items@ =~= old(ctx).stack.items@ + all);
            },
            _ => {},
        },
        Err(shared) => match &*shared {
            ContNode::IntLit(l) => {
                ctx.stack.push(StackValue::Int(l.0.clone()));
                assert(ctx.stack.items@ =~= old(ctx).stack.items@ + lit_values(*c0));
            },
            ContNode::Lit(l) => {
                ctx.stack.push(l.0.dup());
                assert(ctx.stack.items@ =~= old(ctx).stack.items@ + lit_values(*c0));
            },
            ContNode::MultiLit(m) => {
                let mut i: usize = 0;
                while i < m.0.len()
                    invariant
                        i <= m.0@.len(),
                        ctx.stack.items@ == old(ctx).stack.items@ + m.0@.subrange(0, i as int),
                        ctx.next == old(ctx).next,
                        keeps_all_but_next_stack(ctx, old(ctx)),
                    decreases m.0@.len() - i,
                {
                    ctx.stack.push(m.0[i].dup());
                    i += 1;
                    assert(ctx.stack.items@ =~= old(ctx).stack.items@ + m.0@.subrange(0, i as int));
                }
                assert(m.0@.subrange(0, i as int) =~= m.0@);
            },
            _ => {},
        },
    }
}

/// The count below the top of a stack laid out for compiling or executing.
pub open spec fn arg_count(s: Seq<StackValue>) -> int {
    int_of(s[s.len() - 2])
}

/// A continuation on top, below it an argument count from 0 to 255, below
/// that at least that many arguments.
pub open spec fn exec_shape(s: Seq<StackValue>) -> bool {
    &&& s.len() >= 2
    &&& s.last() is Cont
    &&& is_int(s[s.len() - 2])
    &&& 0 <= arg_count(s) <= 255
    &&& arg_count(s) <= s.len() - 2
}

/// The error that executing or compiling the top reports on a stack that
/// is not laid out for it.
pub open spec fn exec_error(s: Seq<StackValue>) -> Error {
    let n = s.len() as int;
    if n == 0 {
        Error::StackUnderflow
    } else if !(s.last() is Cont) {
        Error::TypeMismatch
    } else if n < 2 {
        Error::StackUnderflow
    } else if !is_int(s[n - 2]) {
        Error::TypeMismatch
    } else if !(0 <= int_of(s[n - 2]) <= 255) {
        Error::IntegerOutOfRange
    } else {
        Error::StackUnderflow
    }
}

/// The error that compiling the top reports on a stack without a word list
/// below the arguments.
pub open spec fn compiling_error(s: Seq<StackValue>) -> Error {
    if !exec_shape(s) {
        exec_error(s)
    } else if s.len() - 3 - arg_count(s) < 0 {
        Error::StackUnderflow
    } else {
        Error::TypeMismatch
    }
}

/// As `exec_shape`, with a word list under construction below the arguments.
pub open spec fn compile_shape(s: Seq<StackValue>) -> bool {
    &&& exec_shape(s)
    &&& s.len() - 3 - arg_count(s) >= 0
    &&& s[s.len() - 3 - arg_count(s)] is WordList
}

/// The continuation that pushes one value.
pub open spec fn lit_node(v: StackValue) -> ContNode {
    match v {
        StackValue::Int(b) => ContNode::IntLit(IntLitCont(b)),
        _ => ContNode::Lit(LitCont(v)),
    }
}

/// `l` pushes `args`: nothing for none, one node otherwise.
pub open spec fn pushes(l: Option<Cont>, args: Seq<StackValue>) -> bool {
    if args.len() == 0 {
        l is None
    } else if args.len() == 1 {
        l matches Some(x) && *x == lit_node(args[0])
    } else {
        match l {
            Some(x) => match *x {
                ContNode::MultiLit(m) => m.0@ == args,
                _ => false,
            },
            None => false,
        }
    }
}

/// The words that compiling `def` with `args` appends to a word list: the
/// arguments as a literal, then `def` unless it does nothing.
pub open spec fn compiled_tail(tail: Seq<Cont>, args: Seq<StackValue>, def: Cont) -> bool {
    let lits = if args.len() == 0 {
        0int
    } else {
        1int
    };
    let defs = if *def == ContNode::Word(Prim::Nop) {
        0int
    } else {
        1int
    };
    &&& tail.len() == lits + defs
    &&& (lits == 1 ==> pushes(Some(tail[0]), args))
    &&& (defs == 1 ==> tail[lits] == def)
}

/// `f` is the stack `s` after compiling its top: the definition, its count
/// and its arguments are gone, and the word list below them has grown by
/// the arguments as a literal and the definition.
pub open spec fn compiled_stack(s: Seq<StackValue>, f: Seq<StackValue>) -> bool {
    let n = s.len();
    let k = arg_count(s);
    let base = n - 3 - k;
    &&& f.len() == base + 1
    &&& f.subrange(0, base) == s.subrange(0, base)
    &&& match (s[base], f[base]) {
        (StackValue::WordList(w0), StackValue::WordList(w1)) => {
            &&& w1.items@.subrange(0, w0.items@.len() as int) == w0.items@
            &&& compiled_tail(
                w1.items@.subrange(w0.items@.len() as int, w1.items@.len() as int),
                s.subrange(base + 1, n - 2),
                s.last()->Cont_0,
            )
        },
        _ => false,
    }
}

/// Copies a run of continuation handles.
pub fn copy_conts(v: &Vec<Cont>) -> (r: Vec<Cont>)
    ensures
        r@ == v@,
{
    let mut r: Vec<Cont> = Vec::new();
    let mut i: usize = 0;
    while i < v.len()
        invariant
            i <= v@.len(),
            r@ == v@.subrange(0, i as int),
        decreases v@.len() - i,
    {
        r.push(v[i].clone());
        i += 1;
        assert(r@ =~= v@.subrange(0, i as int));
    }
    assert(v@.subrange(0, i as int) =~= v@);
    r
}

impl Context {
    /// Pops the definition on top of the stack, its argument count and its
    /// arguments; these are what the definition runs on.
    pub fn execute_stack_top(&mut self) -> (r: Result<Cont, Error>)
        ensures
            keeps_all_but_next_stack(final(self), old(self)),
            final(self).next == old(self).next,
            r is Ok <==> exec_shape(old(self).stack.items@),
            !exec_shape(old(self).stack.items@) ==> r == Err::<Cont, Error>(
                exec_error(old(self).stack.items@),
            ),
            r matches Ok(c) ==> {
                let s = old(self).stack.items@;
                &&& s.last() == StackValue::Cont(c)
                &&& final(self).stack.items@ == s.subrange(0, s.len() - 2)
            },
    {
        let ghost s = self.stack.items@;
        let def = match self.stack.pop_cont() {
            Ok(d) => d,
            Err(e) => return Err(e),
        };
        let count = match self.stack.pop_smallint(255) {
            Ok(n) => n,
            Err(e) => return Err(e),
        };
        if (self.stack.depth() as u64) < count {
            return Err(Error::StackUnderflow);
        }
        assert(self.stack.items@ =~= s.subrange(0, s.len() - 2));
        Ok(def)
    }

    /// Appends the definition on top of the stack, with its arguments as a
    /// literal, to the word list under construction below them.
    pub fn compile_stack_top(&mut self) -> (r: Result<(), Error>)
        ensures
            keeps_all_but_next_stack(final(self), old(self)),
            final(self).next == old(self).next,
            r is Ok <==> compile_shape(old(self).stack.items@),
            !compile_shape(old(self).stack.items@) ==> r == Err::<(), Error>(
                compiling_error(old(self).stack.items@),
            ),
            r is Ok ==> compiled_stack(old(self).stack.items@, final(self).stack.items@),
    {
        let ghost s = self.stack.items@;
        let def = match self.stack.pop_cont() {
            Ok(d) => d,
            Err(e) => return Err(e),
        };
        let count = match self.stack.pop_smallint(255) {
            Ok(n) => n as usize,
            Err(e) => return Err(e),
        };
        let depth = self.stack.depth();
        if depth < count {
            return Err(Error::StackUnderflow);
        }
        let base = depth - count;
        let mut args: Vec<StackValue> = Vec::new();
        while self.stack.items.len() > base
            invariant
                base <= self.stack.items@.len() <= depth,
                self.stack.items@ == s.subrange(0, self.stack.items@.len() as int),
                args@ == s.subrange(self.stack.items@.len() as int, depth as int),
                depth == s.len() - 2,
                keeps_all_but_next_stack(self, old(self)),
                self.next == old(self).next,
            decreases self.stack.items@.len(),
        {
            let ghost len0 = self.stack.items@.len();
            let x = self.stack.items.pop().unwrap();
            args.insert(0, x);
            assert(self.stack.items@ =~= s.subrange(0, self.stack.items@.len() as int));
            assert(args@ =~= s.subrange(self.stack.items@.len() as int, depth as int));
        }
        let lit: Option<Cont> = if count == 0 {
            None
        } else if count == 1 {
            let v = args.pop().unwrap();
            let node = match v {
                StackValue::Int(b) => ContNode::IntLit(IntLitCont(b)),
                other => ContNode::Lit(LitCont(other)),
            };
            Some(Rc::new(node))
        } else {
            Some(Rc::new(ContNode::MultiLit(MultiLitCont(args))))
        };
        let wl = match self.stack.pop_word_list() {
            Ok(w) => w,
            Err(e) => return Err(e),
        };
        let mut items = copy_conts(&wl.items);
        let ghost w0 = wl.items@;
        let is_nop = match &*def {
            ContNode::Word(Prim::Nop) => true,
            _ => false,
        };
        match lit {
            Some(l) => items.push(l),
            None => {},
        }
        if !is_nop {
            items.push(def);
        }
        proof {
            assert(items@.subrange(0, w0.len() as int) =~= w0);
        }
        self.stack.push(StackValue::WordList(Rc::new(WordList { items })));
        assert(self.stack.items@.subrange(0, base as int - 1) =~= s.subrange(0, base as int - 1));
        Ok(())
    }
}

} // verus!
