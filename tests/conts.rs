use std::rc::Rc;

use fift_core::cont::{
    Cont, ContNode, IntLitCont, LitCont, ListCont, MultiLitCont, Prim, SeqCont, StackValue,
    TimesCont, WordList,
};
use fift_core::context::Context;
use fift_core::interp::{run, run_steps, RunOutcome};
use fift_core::step::run_literal;
use fift_core::vocab::base_dictionary;
use num_bigint::BigInt;

fn lit(n: i64) -> Cont {
    Rc::new(ContNode::IntLit(IntLitCont(Rc::new(BigInt::from(n)))))
}

fn word(p: Prim) -> Cont {
    Rc::new(ContNode::Word(p))
}

fn seq(a: Cont, b: Cont) -> Cont {
    Rc::new(ContNode::Sequence(SeqCont { first: Some(a), second: Some(b) }))
}

fn list(items: Vec<Cont>) -> Cont {
    Rc::new(ContNode::List(ListCont { list: Rc::new(WordList { items }), after: None, pos: 0 }))
}

fn run_to_end(c: Cont) -> Vec<BigInt> {
    let mut ctx = Context::new(base_dictionary());
    match run_steps(&mut ctx, c, 10_000) {
        Ok(RunOutcome::Finished(_)) => {}
        _ => panic!("did not finish"),
    }
    ctx.stack
        .items
        .iter()
        .map(|v| match v {
            StackValue::Int(b) => (**b).clone(),
            _ => panic!("not an integer"),
        })
        .collect()
}

#[test]
fn sequence_shapes_run_alike() {
    let left = seq(lit(1), seq(lit(2), word(Prim::Sub)));
    let right = seq(seq(lit(1), lit(2)), word(Prim::Sub));
    assert_eq!(run_to_end(left), vec![BigInt::from(-1)]);
    assert_eq!(run_to_end(right), vec![BigInt::from(-1)]);
}

#[test]
fn list_plays_like_sequence() {
    let l = list(vec![lit(7), lit(3), word(Prim::Sub), lit(2), word(Prim::Mul)]);
    let s = seq(lit(7), seq(lit(3), seq(word(Prim::Sub), seq(lit(2), word(Prim::Mul)))));
    assert_eq!(run_to_end(l), vec![BigInt::from(8)]);
    assert_eq!(run_to_end(s), vec![BigInt::from(8)]);
}

#[test]
fn shared_list_runs_twice() {
    let body = list(vec![lit(1), word(Prim::Add)]);
    let prog = seq(lit(0), seq(body.clone(), body));
    assert_eq!(run_to_end(prog), vec![BigInt::from(2)]);
}

#[test]
fn times_repeats_body() {
    let body = list(vec![lit(3), word(Prim::Mul)]);
    let t = Rc::new(ContNode::Times(TimesCont { body: Some(body), after: None, count: 4 }));
    assert_eq!(run_to_end(seq(lit(1), t)), vec![BigInt::from(81)]);
}

#[test]
fn list_step_leaves_rest_as_tail() {
    let mut ctx = Context::new(base_dictionary());
    let l = list(vec![lit(1), lit(2)]);
    let r = run(l, &mut ctx).ok().unwrap();
    assert!(matches!(r.as_deref(), Some(ContNode::IntLit(_))));
    match ctx.next.as_deref() {
        Some(ContNode::List(rest)) => assert_eq!(rest.pos, 1),
        _ => panic!("expected the rest of the list"),
    }
}

#[test]
fn literal_pushes_same_whether_shared_or_not() {
    let m: Cont = Rc::new(ContNode::MultiLit(MultiLitCont(vec![
        StackValue::Int(Rc::new(BigInt::from(1))),
        StackValue::Null,
    ])));
    let mut a = Context::new(base_dictionary());
    let keep = m.clone();
    run_literal(m, &mut a);
    let mut b = Context::new(base_dictionary());
    run_literal(keep, &mut b);
    assert_eq!(a.stack.items.len(), 2);
    assert_eq!(b.stack.items.len(), 2);
    let single: Cont = Rc::new(ContNode::Lit(LitCont(StackValue::Null)));
    let mut c = Context::new(base_dictionary());
    run_literal(single, &mut c);
    assert!(matches!(c.stack.items[0], StackValue::Null));
}
