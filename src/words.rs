//! The built-in words.

use std::rc::Rc;

use vstd::prelude::*;

use crate::bigint::{
    big_add, big_mul, big_sub, div_floor, floor_div, from_u64, int_value, is_zero, less, negate,
};
use crate::cont::{Cont, ContNode, ListCont, Prim, StackValue, TimesCont, UntilCont, WhileCont, WordList};
use crate::context::{int_of, is_int, Context};
use crate::error::Error;
use crate::lexer::none_match;
use crate::step::keeps_all_but_next_stack;
use crate::text::{reverse_utf8_string_inplace, reversed_clusters, string_from_chars};

verus! {

/// The most times that `times` repeats a body.
pub const MAX_REPEAT: u64 = 1000000000;

pub open spec fn is_binary(p: Prim) -> bool {
    p is Add || p is Sub || p is Mul || p is Div || p is Less
}

/// What a binary word computes from the two integers below the top (`a`)
/// and on top (`b`); a comparison gives -1 for true and 0 for false.
pub open spec fn binary_result(p: Prim, a: int, b: int) -> int {
    match p {
        Prim::Add => a + b,
        Prim::Sub => a - b,
        Prim::Mul => a * b,
        Prim::Div => floor_div(a, b),
        Prim::Less => if a < b {
            -1
        } else {
            0
        },
        _ => 0,
    }
}

/// `r` yields a fresh node equal to `node`.
pub open spec fn yields(r: Result<Option<Cont>, Error>, node: ContNode) -> bool {
    r matches Ok(Some(x)) && *x == node
}

/// `c` holds a node equal to `node`.
pub open spec fn holds(c: Option<Cont>, node: ContNode) -> bool {
    c matches Some(x) && *x == node
}

/// `f` is `s` with its top `k` values replaced by one integer `v`.
pub open spec fn replaced_by_int(s: Seq<StackValue>, f: Seq<StackValue>, k: int, v: int) -> bool {
    &&& f.len() == s.len() - k + 1
    &&& f.drop_last() == s.subrange(0, s.len() - k)
    &&& is_int(f.last())
    &&& int_of(f.last()) == v
}

/// What a run of a built-in word does to the stack and the tail, and what it
/// yields, where it succeeds; and when it succeeds.
pub open spec fn prim_post(
    p: Prim,
    o: &Context,
    f: &Context,
    r: Result<Option<Cont>, Error>,
) -> bool {
    let s = o.stack.items@;
    let n = s.len() as int;
    let t = f.stack.items@;
    match p {
        Prim::Nop => r == Ok::<Option<Cont>, Error>(None) && t == s && f.next == o.next,
        Prim::Add | Prim::Sub | Prim::Mul | Prim::Div | Prim::Less => {
            let ok = n >= 2 && is_int(s[n - 2]) && is_int(s[n - 1]) && !(p is Div && int_of(
                s[n - 1],
            ) == 0);
            &&& r is Ok <==> ok
            &&& ok ==> r == Ok::<Option<Cont>, Error>(None) && f.next == o.next
                && replaced_by_int(s, t, 2, binary_result(p, int_of(s[n - 2]), int_of(s[n - 1])))
        },
        Prim::Inc => {
            &&& r is Ok <==> (n >= 1 && is_int(s[n - 1]))
            &&& r is Ok ==> r == Ok::<Option<Cont>, Error>(None) && f.next == o.next
                && replaced_by_int(s, t, 1, int_of(s[n - 1]) + 1)
        },
        Prim::Dup => {
            &&& r is Ok <==> n >= 1
            &&& r is Ok ==> r == Ok::<Option<Cont>, Error>(None) && f.next == o.next && t
                == s.push(s[n - 1])
        },
        Prim::Drop => {
            &&& r is Ok <==> n >= 1
            &&& r is Ok ==> r == Ok::<Option<Cont>, Error>(None) && f.next == o.next && t
                == s.drop_last()
        },
        Prim::Swap => {
            &&& r is Ok <==> n >= 2
            &&& r is Ok ==> r == Ok::<Option<Cont>, Error>(None) && f.next == o.next && t
                == s.subrange(0, n - 2).push(s[n - 1]).push(s[n - 2])
        },
        Prim::Times => {
            let ok = n >= 2 && s[n - 2] is Cont && is_int(s[n - 1]) && 0 <= int_of(s[n - 1])
                <= MAX_REPEAT;
            &&& r is Ok <==> ok
            &&& ok ==> t == s.subrange(0, n - 2) && if int_of(s[n - 1]) == 0 {
                r == Ok::<Option<Cont>, Error>(None) && f.next == o.next
            } else {
                f.next is None && yields(r, ContNode::Times(
                    TimesCont {
                        body: Some(s[n - 2]->Cont_0),
                        after: o.next,
                        count: int_of(s[n - 1]) as usize,
                    },
                ))
            }
        },
        Prim::While => {
            let ok = n >= 2 && s[n - 2] is Cont && s[n - 1] is Cont;
            &&& r is Ok <==> ok
            &&& ok ==> t == s.subrange(0, n - 2) && f.next is None && yields(r, ContNode::While(
                WhileCont {
                    condition: Some(s[n - 2]->Cont_0),
                    body: Some(s[n - 1]->Cont_0),
                    after: o.next,
                    running_body: false,
                },
            ))
        },
        Prim::Until => {
            let ok = n >= 1 && s[n - 1] is Cont;
            &&& r is Ok <==> ok
            &&& ok ==> t == s.drop_last() && r == Ok::<Option<Cont>, Error>(
                Some(s[n - 1]->Cont_0),
            ) && holds(f.next, ContNode::Until(
                UntilCont { body: Some(s[n - 1]->Cont_0), after: o.next },
            ))
        },
        Prim::OpenBrace => {
            &&& r is Ok <==> o.state < usize::MAX
            &&& r is Ok ==> r == Ok::<Option<Cont>, Error>(None) && f.next == o.next && f.state
                == o.state + 1 && t.len() == n + 3 && t.subrange(0, n) == s && (t[n] matches StackValue::WordList(w) && w.items@.len() == 0)
                && is_int(t[n + 1]) && int_of(t[n + 1]) == 0 && (t[n + 2] matches StackValue::Cont(c) && *c == ContNode::Word(Prim::Nop))
        },
        Prim::CloseBrace => {
            let ok = o.state > 0 && n >= 1 && s[n - 1] is WordList;
            &&& r is Ok <==> ok
            &&& ok ==> r == Ok::<Option<Cont>, Error>(None) && f.next == o.next && f.state
                == o.state - 1 && t.len() == n + 2 && t.subrange(0, n - 1) == s.drop_last() && (t[n - 1] matches StackValue::Cont(c) && *c == ContNode::List(
                ListCont { list: s[n - 1]->WordList_0, after: None, pos: 0 },
            )) && is_int(t[n]) && int_of(t[n]) == 1 && (t[n + 1] matches StackValue::Cont(c) && *c == ContNode::Word(Prim::Nop))
        },
        Prim::Quote => {
            let l = o.input.top().scan_text();
            let ok = o.input.blocks@.len() > 0 && !none_match(l, l.len() as int, '"');
            &&& f.next == o.next
            &&& (r is Ok <==> ok)
            &&& (!ok ==> r == Err::<Option<Cont>, Error>(Error::UnexpectedEof) && t == s)
            &&& (ok ==> r == Ok::<Option<Cont>, Error>(None) && t.len() == n + 3 && t.subrange(0, n)
                == s && is_int(t[n + 1]) && int_of(t[n + 1]) == 1 && (t[n + 2] matches StackValue::Cont(z) && *z == ContNode::Word(Prim::Nop)) && (t[n] matches StackValue::Str(x) && {
                let k = x@.len() as int;
                &&& k < l.len()
                &&& x@ == l.subrange(0, k)
                &&& l[k] == '"'
                &&& none_match(l, k, '"')
            }))
        },
        Prim::ReverseUtf8 => {
            &&& r is Ok <==> (n >= 1 && s[n - 1] is Str)
            &&& r is Ok ==> r == Ok::<Option<Cont>, Error>(None) && f.next == o.next && t.len()
                == n && t.drop_last() == s.drop_last() && (t[n - 1] matches StackValue::Str(x) && x@ == reversed_clusters(s[n - 1]->Str_0@))
        },
    }
}

/// Pops the two integers that a binary word reads.
fn pop_two_ints(ctx: &mut Context) -> (r: Result<(Rc<num_bigint::BigInt>, Rc<num_bigint::BigInt>), Error>)
    ensures
        keeps_all_but_next_stack(final(ctx), old(ctx)),
        final(ctx).next == old(ctx).next,
        ({
            let s = old(ctx).stack.items@;
            let n = s.len();
            &&& r is Ok <==> (n >= 2 && is_int(s[n - 2]) && is_int(s[n - 1]))
            &&& r matches Ok((a, b)) ==> final(ctx).stack.items@ == s.subrange(0, n - 2)
                && int_value(*a) == int_of(s[n - 2]) && int_value(*b) == int_of(s[n - 1])
        }),
{
    let ghost s = ctx.stack.items@;
    let b = match ctx.stack.pop_int() {
        Ok(b) => b,
        Err(e) => return Err(e),
    };
    let a = match ctx.stack.pop_int() {
        Ok(a) => a,
        Err(e) => return Err(e),
    };
    assert(ctx.stack.items@ =~= s.subrange(0, s.len() - 2));
    Ok((a, b))
}

fn push_int_value(ctx: &mut Context, b: num_bigint::BigInt)
    ensures
        keeps_all_but_next_stack(final(ctx), old(ctx)),
        final(ctx).next == old(ctx).next,
        final(ctx).stack.items@ == old(ctx).stack.items@.push(StackValue::Int(Rc::new(b))),
        is_int(final(ctx).stack.items@.last()),
        int_of(final(ctx).stack.items@.last()) == int_value(b),
{
    ctx.stack.push(StackValue::Int(Rc::new(b)));
}

impl Prim {
    /// Runs the word on the context.
    pub fn run(&self, ctx: &mut Context) -> (r: Result<Option<Cont>, Error>)
        requires
            old(ctx).wf(),
        ensures
            final(ctx).wf(),
            final(ctx).dictionary == old(ctx).dictionary,
            final(ctx).exit_interpret == old(ctx).exit_interpret,
            !(*self is OpenBrace || *self is CloseBrace) ==> final(ctx).state == old(ctx).state,
            !(*self is Quote) ==> final(ctx).input == old(ctx).input,
            prim_post(*self, old(ctx), final(ctx), r),
    {
        let ghost s = ctx.stack.items@;
        match self {
            Prim::Nop => Ok(None),
            Prim::Add | Prim::Sub | Prim::Mul | Prim::Div | Prim::Less => {
                let (a, b) = match pop_two_ints(ctx) {
                    Ok(p) => p,
                    Err(e) => return Err(e),
                };
                let v = match self {
                    Prim::Add => big_add(&a, &b),
                    Prim::Sub => big_sub(&a, &b),
                    Prim::Mul => big_mul(&a, &b),
                    Prim::Div => {
                        if is_zero(&b) {
                            return Err(Error::DivisionByZero);
                        }
                        div_floor(&a, &b)
                    },
                    _ => {
                        if less(&a, &b) {
                            negate(from_u64(1))
                        } else {
                            from_u64(0)
                        }
                    },
                };
                push_int_value(ctx, v);
                assert(ctx.stack.items@.drop_last() =~= s.subrange(0, s.len() - 2));
                Ok(None)
            },
            Prim::Inc => {
                let a = match ctx.stack.pop_int() {
                    Ok(a) => a,
                    Err(e) => return Err(e),
                };
                let v = big_add(&a, &from_u64(1));
                push_int_value(ctx, v);
                assert(ctx.stack.items@.drop_last() =~= s.subrange(0, s.len() - 1));
                Ok(None)
            },
            Prim::Dup => {
                let n = ctx.stack.items.len();
                if n == 0 {
                    return Err(Error::StackUnderflow);
                }
                let v = ctx.stack.items[n - 1].dup();
                ctx.stack.push(v);
                Ok(None)
            },
            Prim::Drop => {
                match ctx.stack.pop() {
                    Ok(_) => Ok(None),
                    Err(e) => Err(e),
                }
            },
            Prim::Swap => {
                if ctx.stack.items.len() < 2 {
                    return Err(Error::StackUnderflow);
                }
                let b = ctx.stack.items.pop().unwrap();
                let a = ctx.stack.items.pop().unwrap();
                ctx.stack.push(b);
                ctx.stack.push(a);
                assert(ctx.stack.items@ =~= s.subrange(0, s.len() - 2).push(s[s.len() - 1]).push(
                    s[s.len() - 2],
                ));
                Ok(None)
            },
            Prim::Times => {
                let n = ctx.stack.items.len();
                if n < 2 {
                    return Err(Error::StackUnderflow);
                }
                match &ctx.stack.items[n - 2] {
                    StackValue::Cont(_) => {},
                    _ => return Err(Error::TypeMismatch),
                }
                let count = match ctx.stack.pop_smallint(MAX_REPEAT) {
                    Ok(c) => c,
                    Err(e) => return Err(e),
                };
                let body = match ctx.stack.pop_cont() {
                    Ok(b) => b,
                    Err(e) => return Err(e),
                };
                assert(ctx.stack.items@ =~= s.subrange(0, s.len() - 2));
                if count == 0 {
                        Ok(None)
                } else {
                    let after = ctx.next.take();
                    Ok(
                        Some(
                            Rc::new(
                                ContNode::Times(
                                    TimesCont { body: Some(body), after, count: count as usize },
                                ),
                            ),
                        ),
                    )
                }
            },
            Prim::While => {
                let n = ctx.stack.items.len();
                if n < 2 {
                    return Err(Error::StackUnderflow);
                }
                match &ctx.stack.items[n - 2] {
                    StackValue::Cont(_) => {},
                    _ => return Err(Error::TypeMismatch),
                }
                let body = match ctx.stack.pop_cont() {
                    Ok(b) => b,
                    Err(e) => return Err(e),
                };
                let condition = match ctx.stack.pop_cont() {
                    Ok(c) => c,
                    Err(e) => return Err(e),
                };
                assert(ctx.stack.items@ =~= s.subrange(0, s.len() - 2));
                let after = ctx.next.take();
                Ok(
                    Some(
                        Rc::new(
                            ContNode::While(
                                WhileCont {
                                    condition: Some(condition),
                                    body: Some(body),
                                    after,
                                    running_body: false,
                                },
                            ),
                        ),
                    ),
                )
            },
            Prim::Until => {
                let body = match ctx.stack.pop_cont() {
                    Ok(b) => b,
                    Err(e) => return Err(e),
                };
                let after = ctx.next.take();
                ctx.next = Some(
                    Rc::new(ContNode::Until(UntilCont { body: Some(body.clone()), after })),
                );
                Ok(Some(body))
            },
            Prim::OpenBrace => {
                if ctx.state == usize::MAX {
                    return Err(Error::IntegerOutOfRange);
                }
                ctx.state = ctx.state + 1;
                let wl = Rc::new(WordList { items: Vec::new() });
                assert(wl.items@.len() == 0);
                ctx.stack.push(StackValue::WordList(wl));
                let ghost mid = ctx.stack.items@;
                let nop = ctx.dictionary.make_nop();
                ctx.stack.push_argcount(0, nop);
                assert(ctx.stack.items@[s.len() as int] == mid[s.len() as int]);
                assert(ctx.stack.items@.subrange(0, s.len() as int) =~= s);
                Ok(None)
            },
            Prim::CloseBrace => {
                if ctx.state == 0 {
                    return Err(Error::NotCompiling);
                }
                let list = match ctx.stack.pop_word_list() {
                    Ok(w) => w,
                    Err(e) => return Err(e),
                };
                ctx.state = ctx.state - 1;
                let cont = Rc::new(ContNode::List(ListCont { list, after: None, pos: 0 }));
                ctx.stack.push(StackValue::Cont(cont));
                let ghost mid = ctx.stack.items@;
                let nop = ctx.dictionary.make_nop();
                ctx.stack.push_argcount(1, nop);
                assert(ctx.stack.items@[s.len() - 1] == mid[s.len() - 1]);
                assert(ctx.stack.items@.subrange(0, s.len() - 1) =~= s.drop_last());
                Ok(None)
            },
            Prim::Quote => {
                let tok = match ctx.input.scan_until_delimiter('"') {
                    Ok(t) => t,
                    Err(e) => return Err(e),
                };
                let text = string_from_chars(&tok.data);
                ctx.stack.push(StackValue::Str(Rc::new(text)));
                let ghost mid = ctx.stack.items@;
                let nop = ctx.dictionary.make_nop();
                ctx.stack.push_argcount(1, nop);
                assert(ctx.stack.items@[s.len() as int] == mid[s.len() as int]);
                assert(ctx.stack.items@.subrange(0, s.len() as int) =~= s);
                Ok(None)
            },
            Prim::ReverseUtf8 => {
                let v = match ctx.stack.pop() {
                    Ok(v) => v,
                    Err(e) => return Err(e),
                };
                match v {
                    StackValue::Str(x) => {
                        let mut t: String = (*x).clone();
                        reverse_utf8_string_inplace(&mut t);
                        ctx.stack.push(StackValue::Str(Rc::new(t)));
                        assert(ctx.stack.items@.drop_last() =~= s.drop_last());
                                Ok(None)
                    },
                    _ => Err(Error::TypeMismatch),
                }
            },
        }
    }
}

} // verus!
