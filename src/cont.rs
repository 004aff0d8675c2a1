//! The continuation model: what a continuation is, and the program that a
//! chain of continuations stands for.

use std::rc::Rc;

use vstd::prelude::*;

use num_bigint::BigInt;

verus! {

broadcast use vstd::std_specs::vec::group_vec_axioms;

/// A shared continuation node.
pub type Cont = Rc<ContNode>;

/// The read-eval step of the text interpreter.
pub struct InterpreterCont;

/// Compiles or executes the definition on top of the stack.
pub struct CompileExecuteCont;

/// Runs `first`, then `second`.
pub struct SeqCont {
    pub first: Option<Cont>,
    pub second: Option<Cont>,
}

/// Plays `list` from `pos`, then continues with `after`.
pub struct ListCont {
    pub list: Rc<WordList>,
    pub after: Option<Cont>,
    pub pos: usize,
}

/// Runs `body` `count` times, then `after`.
pub struct TimesCont {
    pub body: Option<Cont>,
    pub after: Option<Cont>,
    pub count: usize,
}

/// Runs `body` until it leaves a true flag, then `after`.
pub struct UntilCont {
    pub body: Option<Cont>,
    pub after: Option<Cont>,
}

/// Alternates `condition` and `body` while the condition leaves a true flag.
pub struct WhileCont {
    pub condition: Option<Cont>,
    pub body: Option<Cont>,
    pub after: Option<Cont>,
    pub running_body: bool,
}

/// Pushes an integer.
pub struct IntLitCont(pub Rc<BigInt>);

/// Pushes one stack value.
pub struct LitCont(pub StackValue);

/// Pushes stack values, first to last.
pub struct MultiLitCont(pub Vec<StackValue>);

/// The built-in words.
#[derive(Clone, Copy, PartialEq, Eq, Structural, Debug)]
pub enum Prim {
    Nop,
    Add,
    Sub,
    Mul,
    Div,
    Dup,
    Drop,
    Swap,
    Less,
    Inc,
    Times,
    While,
    Until,
    OpenBrace,
    CloseBrace,
    Quote,
    ReverseUtf8,
}

/// Every kind of continuation.
pub enum ContNode {
    Interpreter(InterpreterCont),
    CompileExecute(CompileExecuteCont),
    Sequence(SeqCont),
    List(ListCont),
    Times(TimesCont),
    Until(UntilCont),
    While(WhileCont),
    IntLit(IntLitCont),
    Lit(LitCont),
    MultiLit(MultiLitCont),
    Word(Prim),
}

/// The compiled body of a word.
pub struct WordList {
    pub items: Vec<Cont>,
}

/// A value on the operand stack.
pub enum StackValue {
    Null,
    Int(Rc<BigInt>),
    Str(Rc<String>),
    Cont(Cont),
    WordList(Rc<WordList>),
}

impl StackValue {
    /// A copy of the value that shares its payload.
    pub fn dup(&self) -> (r: StackValue)
        ensures
            r == *self,
    {
        match self {
            StackValue::Null => StackValue::Null,
            StackValue::Int(b) => StackValue::Int(b.clone()),
            StackValue::Str(s) => StackValue::Str(s.clone()),
            StackValue::Cont(c) => StackValue::Cont(c.clone()),
            StackValue::WordList(w) => StackValue::WordList(w.clone()),
        }
    }
}

/// A second handle on the same continuation, if any.
pub fn dup_opt(c: &Option<Cont>) -> (r: Option<Cont>)
    ensures
        r == *c,
{
    match c {
        Some(x) => Some(x.clone()),
        None => None,
    }
}

/// `r` is a fresh sequence node of `first` and `second`.
pub open spec fn is_seq(r: Option<Cont>, first: Option<Cont>, second: Option<Cont>) -> bool {
    r matches Some(x) && *x == ContNode::Sequence(SeqCont { first, second })
}

/// `r` runs `first` then `second`, without a node where `second` is empty.
pub open spec fn made_seq(r: Option<Cont>, first: Option<Cont>, second: Option<Cont>) -> bool {
    if second is None {
        r == first
    } else {
        is_seq(r, first, second)
    }
}

/// `r` is the slot `slot` with the tail `next` appended behind it.
pub open spec fn folded(r: Option<Cont>, slot: Option<Cont>, next: Option<Cont>) -> bool {
    match next {
        None => r == slot,
        Some(n) => match slot {
            None => r == Some(n),
            Some(p) => is_seq(r, Some(p), Some(n)),
        },
    }
}

/// The steps that a continuation stands for, with sequence nodes and word
/// lists unfolded into what they run.
pub open spec fn prog(c: Cont) -> Seq<ContNode>
    decreases c, 0nat,
{
    match *c {
        ContNode::Sequence(s) => (match s.first {
            Some(f) => prog(f),
            None => Seq::empty(),
        }) + (match s.second {
            Some(g) => prog(g),
            None => Seq::empty(),
        }),
        ContNode::List(l) => if l.pos < l.list.items@.len() {
            prog_items(l.list.items@, l.pos as int) + (match l.after {
                Some(a) => prog(a),
                None => Seq::empty(),
            })
        } else {
            Seq::empty()
        },
        _ => seq![*c],
    }
}

/// The steps of `items[i..]`, one after the other.
pub open spec fn prog_items(items: Seq<Cont>, i: int) -> Seq<ContNode>
    decreases items, items.len() - i,
{
    if 0 <= i < items.len() {
        prog(items[i]) + prog_items(items, i + 1)
    } else {
        Seq::empty()
    }
}

pub open spec fn prog_opt(c: Option<Cont>) -> Seq<ContNode> {
    match c {
        Some(x) => prog(x),
        None => Seq::empty(),
    }
}

/// What is left to run when `current` runs next and `next` after it.
pub open spec fn pending(current: Option<Cont>, next: Option<Cont>) -> Seq<ContNode> {
    prog_opt(current) + prog_opt(next)
}

pub proof fn lemma_made_seq(r: Option<Cont>, first: Option<Cont>, second: Option<Cont>)
    requires
        made_seq(r, first, second),
    ensures
        prog_opt(r) == prog_opt(first) + prog_opt(second),
{
    if second is None {
        assert(prog_opt(first) + prog_opt(second) =~= prog_opt(first));
    }
}

pub proof fn lemma_folded(r: Option<Cont>, slot: Option<Cont>, next: Option<Cont>)
    requires
        folded(r, slot, next),
    ensures
        prog_opt(r) == prog_opt(slot) + prog_opt(next),
{
    match next {
        None => {
            assert(prog_opt(slot) + prog_opt(next) =~= prog_opt(slot));
        },
        Some(n) => match slot {
            None => {
                assert(prog_opt(slot) + prog_opt(next) =~= prog_opt(next));
            },
            Some(p) => {},
        },
    }
}

impl SeqCont {
    /// `first` then `second`; just `first` where `second` is empty.
    pub fn make(first: Option<Cont>, second: Option<Cont>) -> (r: Option<Cont>)
        ensures
            made_seq(r, first, second),
            prog_opt(r) == prog_opt(first) + prog_opt(second),
    {
        let r = if second.is_none() {
            first
        } else {
            Some(Rc::new(ContNode::Sequence(SeqCont { first, second })))
        };
        proof {
            lemma_made_seq(r, first, second);
        }
        r
    }
}

/// `r` holds `slot` with `next` appended behind it.
pub fn fold_into(slot: Option<Cont>, next: Option<Cont>) -> (r: Option<Cont>)
    ensures
        folded(r, slot, next),
        prog_opt(r) == prog_opt(slot) + prog_opt(next),
{
    let r = match next {
        None => slot,
        Some(n) => match slot {
            None => Some(n),
            Some(p) => Some(Rc::new(ContNode::Sequence(SeqCont { first: Some(p), second: Some(n) }))),
        },
    };
    proof {
        lemma_folded(r, slot, next);
    }
    r
}

} // verus!
