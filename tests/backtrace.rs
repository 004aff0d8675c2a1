use std::rc::Rc;

use fift_core::cont::{
    Cont, ContNode, IntLitCont, ListCont, Prim, TimesCont, UntilCont, WhileCont, WordList,
};
use fift_core::vocab::base_dictionary;
use num_bigint::BigInt;

fn lit(n: i64) -> Cont {
    Rc::new(ContNode::IntLit(IntLitCont(Rc::new(BigInt::from(n)))))
}

fn chain(depth: usize) -> Cont {
    let mut c: Option<Cont> = None;
    for _ in 0..depth {
        c = Some(Rc::new(ContNode::Until(UntilCont { body: Some(lit(1)), after: c })));
    }
    c.unwrap()
}

#[test]
fn names_of_words_and_literals() {
    let d = base_dictionary();
    assert_eq!(ContNode::display_name(&Rc::new(ContNode::Word(Prim::Add)), &d), "+");
    assert_eq!(ContNode::display_name(&lit(-12), &d), "-12");
    let t = Rc::new(ContNode::Times(TimesCont { body: Some(lit(1)), after: None, count: 3 }));
    assert_eq!(ContNode::display_name(&t, &d), "<repeat 3 times>");
    assert_eq!(ContNode::display_dump(&t, &d), "<repeat 3 times:> 1");
    let w = Rc::new(ContNode::While(WhileCont {
        condition: Some(lit(0)),
        body: Some(lit(1)),
        after: None,
        running_body: true,
    }));
    assert_eq!(ContNode::display_name(&w, &d), "<while loop body>");
    assert_eq!(ContNode::display_dump(&w, &d), "<while loop body:>1");
}

#[test]
fn list_dump_marks_position() {
    let d = base_dictionary();
    let items = vec![lit(1), lit(2), Rc::new(ContNode::Word(Prim::Add))];
    let wl = Rc::new(WordList { items });
    let at0 = Rc::new(ContNode::List(ListCont { list: wl.clone(), after: None, pos: 0 }));
    assert_eq!(ContNode::display_dump(&at0, &d), "{ 1 2 + }");
    let at2 = Rc::new(ContNode::List(ListCont { list: wl, after: None, pos: 2 }));
    assert_eq!(ContNode::display_dump(&at2, &d), "1 2 **HERE** + ");
}

#[test]
fn backtrace_short_chain() {
    let d = base_dictionary();
    let bt = ContNode::display_backtrace(&chain(2), &d);
    assert_eq!(
        bt,
        "level 1: <until loop continuation:> 1\nlevel 2: <until loop continuation:> 1"
    );
}

#[test]
fn backtrace_is_bounded() {
    let d = base_dictionary();
    let bt = ContNode::display_backtrace(&chain(40), &d);
    let lines: Vec<&str> = bt.lines().collect();
    assert_eq!(lines.len(), 17);
    assert_eq!(lines[16], "... more levels ...");
    assert!(lines[15].starts_with("level 16: "));
    let exact = ContNode::display_backtrace(&chain(16), &d);
    assert_eq!(exact.lines().count(), 16);
}

#[test]
fn list_dump_past_the_window_keeps_ellipsis() {
    let d = base_dictionary();
    let wl = Rc::new(WordList { items: vec![lit(1), lit(2)] });
    let far = Rc::new(ContNode::List(ListCont { list: wl, after: None, pos: 17 }));
    assert_eq!(ContNode::display_dump(&far, &d), "... 2 ");
    let empty = Rc::new(WordList { items: vec![] });
    let past = Rc::new(ContNode::List(ListCont { list: empty, after: None, pos: 17 }));
    assert_eq!(ContNode::display_dump(&past, &d), "... ");
}
