//! The operand stack, the dictionary and the interpreter's context.

use std::rc::Rc;

use vstd::prelude::*;

use num_bigint::BigInt;

use crate::bigint::{from_u64, int_value, is_zero, to_u64};
use crate::cont::{folded, fold_into, Cont, ContNode, Prim, StackValue, WordList};
use crate::error::Error;
use crate::lexer::Lexer;

verus! {

/// The operand stack; its top is the end of `items`.
pub struct Stack {
    pub items: Vec<StackValue>,
}

/// Whether the value is an integer.
pub open spec fn is_int(v: StackValue) -> bool {
    v is Int
}

/// The integer that a value holds, where it is one.
pub open spec fn int_of(v: StackValue) -> int {
    match v {
        StackValue::Int(b) => int_value(*b),
        _ => 0,
    }
}

/// The flag that a value holds: an integer other than zero is true.
pub open spec fn flag_of(v: StackValue) -> bool {
    int_of(v) != 0
}

impl Stack {
    pub fn new() -> (r: Stack)
        ensures
            r.items@.len() == 0,
    {
        Stack { items: Vec::new() }
    }

    pub fn depth(&self) -> (r: usize)
        ensures
            r == self.items@.len(),
    {
        self.items.len()
    }

    pub fn push(&mut self, v: StackValue)
        ensures
            final(self).items@ == old(self).items@.push(v),
    {
        self.items.push(v);
    }

    pub fn push_int(&mut self, b: BigInt)
        ensures
            final(self).items@.len() == old(self).items@.len() + 1,
            final(self).items@.drop_last() == old(self).items@,
            final(self).items@.last() matches StackValue::Int(x) && *x == b,
    {
        self.items.push(StackValue::Int(Rc::new(b)));
        assert(self.items@.drop_last() =~= old(self).items@);
    }

    /// Pushes `n` as an integer, then the continuation `cont`.
    pub fn push_argcount(&mut self, n: u8, cont: Cont)
        ensures
            final(self).items@.len() == old(self).items@.len() + 2,
            final(self).items@.subrange(0, old(self).items@.len() as int) == old(self).items@,
            final(self).items@.last() == StackValue::Cont(cont),
            is_int(final(self).items@[old(self).items@.len() as int]),
            int_of(final(self).items@[old(self).items@.len() as int]) == n,
    {
        let b = from_u64(n as u64);
        self.items.push(StackValue::Int(Rc::new(b)));
        self.items.push(StackValue::Cont(cont));
        assert(self.items@.subrange(0, old(self).items@.len() as int) =~= old(self).items@);
    }

    pub fn pop(&mut self) -> (r: Result<StackValue, Error>)
        ensures
            old(self).items@.len() == 0 ==> r == Err::<StackValue, Error>(Error::StackUnderflow)
                && final(self).items@ == old(self).items@,
            old(self).items@.len() > 0 ==> r == Ok::<StackValue, Error>(old(self).items@.last())
                && final(self).items@ == old(self).items@.drop_last(),
    {
        match self.items.pop() {
            Some(v) => Ok(v),
            None => Err(Error::StackUnderflow),
        }
    }

    /// Pops a flag: an integer, true where it is not zero.
    pub fn pop_bool(&mut self) -> (r: Result<bool, Error>)
        ensures
            old(self).items@.len() == 0 ==> r == Err::<bool, Error>(Error::StackUnderflow)
                && final(self).items@ == old(self).items@,
            old(self).items@.len() > 0 ==> final(self).items@ == old(self).items@.drop_last() && r
                == if is_int(old(self).items@.last()) {
                Ok::<bool, Error>(flag_of(old(self).items@.last()))
            } else {
                Err::<bool, Error>(Error::TypeMismatch)
            },
    {
        match self.pop()? {
            StackValue::Int(b) => Ok(!is_zero(&b)),
            _ => Err(Error::TypeMismatch),
        }
    }

    /// Pops an integer.
    pub fn pop_int(&mut self) -> (r: Result<Rc<BigInt>, Error>)
        ensures
            old(self).items@.len() == 0 ==> r == Err::<Rc<BigInt>, Error>(Error::StackUnderflow)
                && final(self).items@ == old(self).items@,
            old(self).items@.len() > 0 ==> final(self).items@ == old(self).items@.drop_last() && (
            match old(self).items@.last() {
                StackValue::Int(b) => r == Ok::<Rc<BigInt>, Error>(b),
                _ => r == Err::<Rc<BigInt>, Error>(Error::TypeMismatch),
            }),
    {
        match self.pop()? {
            StackValue::Int(b) => Ok(b),
            _ => Err(Error::TypeMismatch),
        }
    }

    /// Pops an integer from 0 to `max`.
    pub fn pop_smallint(&mut self, max: u64) -> (r: Result<u64, Error>)
        ensures
            old(self).items@.len() == 0 ==> r == Err::<u64, Error>(Error::StackUnderflow),
            old(self).items@.len() > 0 ==> final(self).items@ == old(self).items@.drop_last(),
            old(self).items@.len() > 0 ==> r == if !is_int(old(self).items@.last()) {
                Err::<u64, Error>(Error::TypeMismatch)
            } else if 0 <= int_of(old(self).items@.last()) <= max {
                Ok::<u64, Error>(int_of(old(self).items@.last()) as u64)
            } else {
                Err::<u64, Error>(Error::IntegerOutOfRange)
            },
    {
        let b = self.pop_int()?;
        match to_u64(&b) {
            Some(v) => if v <= max {
                Ok(v)
            } else {
                Err(Error::IntegerOutOfRange)
            },
            None => Err(Error::IntegerOutOfRange),
        }
    }

    /// Pops a continuation.
    pub fn pop_cont(&mut self) -> (r: Result<Cont, Error>)
        ensures
            old(self).items@.len() == 0 ==> r == Err::<Cont, Error>(Error::StackUnderflow),
            old(self).items@.len() > 0 ==> final(self).items@ == old(self).items@.drop_last() && (
            match old(self).items@.last() {
                StackValue::Cont(c) => r == Ok::<Cont, Error>(c),
                _ => r == Err::<Cont, Error>(Error::TypeMismatch),
            }),
    {
        match self.pop()? {
            StackValue::Cont(c) => Ok(c),
            _ => Err(Error::TypeMismatch),
        }
    }

    /// Pops a word list.
    pub fn pop_word_list(&mut self) -> (r: Result<Rc<WordList>, Error>)
        ensures
            old(self).items@.len() == 0 ==> r == Err::<Rc<WordList>, Error>(
                Error::StackUnderflow,
            ),
            old(self).items@.len() > 0 ==> final(self).items@ == old(self).items@.drop_last() && (
            match old(self).items@.last() {
                StackValue::WordList(w) => r == Ok::<Rc<WordList>, Error>(w),
                _ => r == Err::<Rc<WordList>, Error>(Error::TypeMismatch),
            }),
    {
        match self.pop()? {
            StackValue::WordList(w) => Ok(w),
            _ => Err(Error::TypeMismatch),
        }
    }
}

/// A word's definition, and whether it runs even while compiling.
pub struct DictionaryEntry {
    pub definition: Cont,
    pub active: bool,
}

impl DictionaryEntry {
    pub fn dup(&self) -> (r: DictionaryEntry)
        ensures
            r == *self,
    {
        DictionaryEntry { definition: self.definition.clone(), active: self.active }
    }
}

/// The entry a name finds: the first one under that name.
pub open spec fn lookup_in(words: Seq<(Vec<char>, DictionaryEntry)>, name: Seq<char>) -> Option<
    DictionaryEntry,
>
    decreases words.len(),
{
    if words.len() == 0 {
        None
    } else if words[0].0@ == name {
        Some(words[0].1)
    } else {
        lookup_in(words.drop_first(), name)
    }
}

/// The name of the first entry whose definition is the built-in word `p`.
pub open spec fn resolve_in(words: Seq<(Vec<char>, DictionaryEntry)>, p: Prim) -> Option<Seq<char>>
    decreases words.len(),
{
    if words.len() == 0 {
        None
    } else if *words[0].1.definition == ContNode::Word(p) {
        Some(words[0].0@)
    } else {
        resolve_in(words.drop_first(), p)
    }
}

/// Whether two character runs are equal.
pub fn chars_eq(a: &Vec<char>, b: &Vec<char>) -> (r: bool)
    ensures
        r == (a@ == b@),
{
    if a.len() != b.len() {
        return false;
    }
    let mut i: usize = 0;
    while i < a.len()
        invariant
            a@.len() == b@.len(),
            i <= a@.len(),
            forall|j: int| 0 <= j < i ==> a@[j] == b@[j],
        decreases a.len() - i,
    {
        if a[i] != b[i] {
            return false;
        }
        i += 1;
    }
    assert(a@ =~= b@);
    true
}

/// Names and their entries; a later definition hides an earlier one.
pub struct Dictionary {
    pub words: Vec<(Vec<char>, DictionaryEntry)>,
}

impl Dictionary {
    pub open spec fn lookup_spec(&self, name: Seq<char>) -> Option<DictionaryEntry> {
        lookup_in(self.words@, name)
    }

    pub fn new() -> (r: Dictionary)
        ensures
            forall|n: Seq<char>| r.lookup_spec(n) is None,
    {
        Dictionary { words: Vec::new() }
    }

    /// Defines `name`; the new entry hides any earlier one.
    pub fn define(&mut self, name: Vec<char>, entry: DictionaryEntry)
        ensures
            forall|n: Seq<char>|
                #[trigger] final(self).lookup_spec(n) == if n == name@ {
                    Some(entry)
                } else {
                    old(self).lookup_spec(n)
                },
    {
        let ghost nm = name@;
        self.words.insert(0, (name, entry));
        assert(self.words@.drop_first() =~= old(self).words@);
    }

    pub fn lookup(&self, name: &Vec<char>) -> (r: Option<DictionaryEntry>)
        ensures
            r == self.lookup_spec(name@),
    {
        let mut i: usize = 0;
        assert(self.words@.subrange(0, self.words@.len() as int) =~= self.words@);
        while i < self.words.len()
            invariant
                i <= self.words@.len(),
                lookup_in(self.words@, name@) == lookup_in(
                    self.words@.subrange(i as int, self.words@.len() as int),
                    name@,
                ),
            decreases self.words.len() - i,
        {
            let ghost rest = self.words@.subrange(i as int, self.words@.len() as int);
            if chars_eq(&self.words[i].0, name) {
                return Some(self.words[i].1.dup());
            }
            assert(rest.drop_first() =~= self.words@.subrange(i + 1, self.words@.len() as int));
            i += 1;
        }
        assert(self.words@.subrange(i as int, self.words@.len() as int).len() == 0);
        None
    }

    /// The first name under which the built-in word `cont` is defined, if
    /// any; nothing for other continuations.
    pub fn resolve_name(&self, cont: &Cont) -> (r: Option<Vec<char>>)
        ensures
            match **cont {
                ContNode::Word(p) => match resolve_in(self.words@, p) {
                    Some(n) => r matches Some(x) && x@ == n,
                    None => r is None,
                },
                _ => r is None,
            },
    {
        let p = match &**cont {
            ContNode::Word(p) => *p,
            _ => return None,
        };
        let mut i: usize = 0;
        assert(self.words@.subrange(0, self.words@.len() as int) =~= self.words@);
        while i < self.words.len()
            invariant
                i <= self.words@.len(),
                **cont == ContNode::Word(p),
                resolve_in(self.words@, p) == resolve_in(
                    self.words@.subrange(i as int, self.words@.len() as int),
                    p,
                ),
            decreases self.words.len() - i,
        {
            let ghost rest = self.words@.subrange(i as int, self.words@.len() as int);
            assert(rest[0] == self.words@[i as int]);
            match &*self.words[i].1.definition {
                ContNode::Word(q) => if *q == p {
                    let n = crate::lexer::copy_range(&self.words[i].0, 0, self.words[i].0.len());
                    return Some(n);
                },
                _ => {},
            }
            assert(rest.drop_first() =~= self.words@.subrange(i + 1, self.words@.len() as int));
            i += 1;
        }
        None
    }

    /// The word that does nothing.
    pub fn make_nop(&self) -> (r: Cont)
        ensures
            *r == ContNode::Word(Prim::Nop),
    {
        Rc::new(ContNode::Word(Prim::Nop))
    }
}

/// Everything a continuation step may read or change.
pub struct Context {
    pub input: Lexer,
    pub stack: Stack,
    pub dictionary: Dictionary,
    /// What runs after the current continuation returns nothing.
    pub next: Option<Cont>,
    /// Compile depth; zero while interpreting.
    pub state: usize,
    /// What would run if the current interpret step returned.
    pub exit_interpret: Option<Cont>,
}

impl Context {
    pub open spec fn wf(&self) -> bool {
        self.input.wf()
    }

    pub fn new(dictionary: Dictionary) -> (r: Context)
        ensures
            r.wf(),
            r.dictionary == dictionary,
            r.input.blocks@.len() == 0,
            r.stack.items@.len() == 0,
            r.next is None,
            r.state == 0,
    {
        Context {
            input: Lexer::new(),
            stack: Stack::new(),
            dictionary,
            next: None,
            state: 0,
            exit_interpret: None,
        }
    }

    pub fn is_compile(&self) -> (r: bool)
        ensures
            r == (self.state > 0),
    {
        self.state > 0
    }

    /// Moves the tail `next` behind the continuation in `cont`.
    pub fn insert_before_next(&mut self, cont: &mut Option<Cont>)
        ensures
            folded(*final(cont), *old(cont), old(self).next),
            final(self).next is None,
            final(self).stack == old(self).stack,
            final(self).input == old(self).input,
            final(self).dictionary == old(self).dictionary,
            final(self).state == old(self).state,
            final(self).exit_interpret == old(self).exit_interpret,
    {
        let next = self.next.take();
        let slot = cont.take();
        *cont = fold_into(slot, next);
    }
}

} // verus!
