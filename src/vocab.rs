//! The base vocabulary and the entry point that interprets text.

use std::rc::Rc;

use vstd::prelude::*;

use crate::cont::{Cont, ContNode, InterpreterCont, Prim};
use crate::context::{Context, Dictionary, DictionaryEntry};
use crate::error::Error;
use crate::interp::{run_steps, runs, RunOutcome};
use crate::lexer::SourceBlock;

verus! {

fn define_prim(d: &mut Dictionary, name: Vec<char>, p: Prim, active: bool)
    ensures
        forall|n: Seq<char>|
            #[trigger] final(d).lookup_spec(n) == if n == name@ {
                Some(DictionaryEntry { definition: Rc::new(ContNode::Word(p)), active })
            } else {
                old(d).lookup_spec(n)
            },
{
    d.define(name, DictionaryEntry { definition: Rc::new(ContNode::Word(p)), active });
}

/// The built-in word and activity that a name of the base vocabulary
/// stands for.
pub open spec fn base_word(n: Seq<char>) -> Option<(Prim, bool)> {
    if n == seq!['"'] {
        Some((Prim::Quote, true))
    } else     if n == seq!['}', ' '] {
        Some((Prim::CloseBrace, true))
    } else     if n == seq!['{', ' '] {
        Some((Prim::OpenBrace, true))
    } else     if n == seq!['r', 'e', 'v', 'e', 'r', 's', 'e', '-', 'u', 't', 'f', '8', ' '] {
        Some((Prim::ReverseUtf8, false))
    } else     if n == seq!['u', 'n', 't', 'i', 'l', ' '] {
        Some((Prim::Until, false))
    } else     if n == seq!['w', 'h', 'i', 'l', 'e', ' '] {
        Some((Prim::While, false))
    } else     if n == seq!['t', 'i', 'm', 'e', 's', ' '] {
        Some((Prim::Times, false))
    } else     if n == seq!['s', 'w', 'a', 'p', ' '] {
        Some((Prim::Swap, false))
    } else     if n == seq!['d', 'r', 'o', 'p', ' '] {
        Some((Prim::Drop, false))
    } else     if n == seq!['d', 'u', 'p', ' '] {
        Some((Prim::Dup, false))
    } else     if n == seq!['1', '+', ' '] {
        Some((Prim::Inc, false))
    } else     if n == seq!['<', ' '] {
        Some((Prim::Less, false))
    } else     if n == seq!['/', ' '] {
        Some((Prim::Div, false))
    } else     if n == seq!['*', ' '] {
        Some((Prim::Mul, false))
    } else     if n == seq!['-', ' '] {
        Some((Prim::Sub, false))
    } else     if n == seq!['+', ' '] {
        Some((Prim::Add, false))
    } else     if n == seq!['n', 'o', 'p', ' '] {
        Some((Prim::Nop, false))
    } else {
        None
    }
}

/// The dictionary of built-in words: `nop + - * / < 1+ dup drop swap times
/// while until reverse-utf8`, and the active words `{ }`, each stored with a
/// trailing space, so that only a whole token finds it; and the active
/// prefix word `"`, stored bare, so that it also starts a longer token.
#[verifier::rlimit(50)]
pub fn base_dictionary() -> (r: Dictionary)
    ensures
        forall|n: Seq<char>|
            #[trigger] r.lookup_spec(n) == match base_word(n) {
                Some((p, a)) => Some(
                    DictionaryEntry { definition: Rc::new(ContNode::Word(p)), active: a },
                ),
                None => None,
            },
{
    let mut d = Dictionary::new();
    let nm = vec!['n', 'o', 'p', ' '];
    assert(nm@ =~= seq!['n', 'o', 'p', ' ']);
    define_prim(&mut d, nm, Prim::Nop, false);
    let nm = vec!['+', ' '];
    assert(nm@ =~= seq!['+', ' ']);
    define_prim(&mut d, nm, Prim::Add, false);
    let nm = vec!['-', ' '];
    assert(nm@ =~= seq!['-', ' ']);
    define_prim(&mut d, nm, Prim::Sub, false);
    let nm = vec!['*', ' '];
    assert(nm@ =~= seq!['*', ' ']);
    define_prim(&mut d, nm, Prim::Mul, false);
    let nm = vec!['/', ' '];
    assert(nm@ =~= seq!['/', ' ']);
    define_prim(&mut d, nm, Prim::Div, false);
    let nm = vec!['<', ' '];
    assert(nm@ =~= seq!['<', ' ']);
    define_prim(&mut d, nm, Prim::Less, false);
    let nm = vec!['1', '+', ' '];
    assert(nm@ =~= seq!['1', '+', ' ']);
    define_prim(&mut d, nm, Prim::Inc, false);
    let nm = vec!['d', 'u', 'p', ' '];
    assert(nm@ =~= seq!['d', 'u', 'p', ' ']);
    define_prim(&mut d, nm, Prim::Dup, false);
    let nm = vec!['d', 'r', 'o', 'p', ' '];
    assert(nm@ =~= seq!['d', 'r', 'o', 'p', ' ']);
    define_prim(&mut d, nm, Prim::Drop, false);
    let nm = vec!['s', 'w', 'a', 'p', ' '];
    assert(nm@ =~= seq!['s', 'w', 'a', 'p', ' ']);
    define_prim(&mut d, nm, Prim::Swap, false);
    let nm = vec!['t', 'i', 'm', 'e', 's', ' '];
    assert(nm@ =~= seq!['t', 'i', 'm', 'e', 's', ' ']);
    define_prim(&mut d, nm, Prim::Times, false);
    let nm = vec!['w', 'h', 'i', 'l', 'e', ' '];
    assert(nm@ =~= seq!['w', 'h', 'i', 'l', 'e', ' ']);
    define_prim(&mut d, nm, Prim::While, false);
    let nm = vec!['u', 'n', 't', 'i', 'l', ' '];
    assert(nm@ =~= seq!['u', 'n', 't', 'i', 'l', ' ']);
    define_prim(&mut d, nm, Prim::Until, false);
    let nm = vec!['r', 'e', 'v', 'e', 'r', 's', 'e', '-', 'u', 't', 'f', '8', ' '];
    assert(nm@ =~= seq!['r', 'e', 'v', 'e', 'r', 's', 'e', '-', 'u', 't', 'f', '8', ' ']);
    define_prim(&mut d, nm, Prim::ReverseUtf8, false);
    let nm = vec!['{', ' '];
    assert(nm@ =~= seq!['{', ' ']);
    define_prim(&mut d, nm, Prim::OpenBrace, true);
    let nm = vec!['}', ' '];
    assert(nm@ =~= seq!['}', ' ']);
    define_prim(&mut d, nm, Prim::CloseBrace, true);
    let nm = vec!['"'];
    assert(nm@ =~= seq!['"']);
    define_prim(&mut d, nm, Prim::Quote, true);
    d
}

/// `c` is `o` with a new source block holding `text` pushed onto its input.
pub open spec fn started_on(c: Context, o: Context, text: Seq<char>) -> bool {
    &&& c == Context { input: c.input, ..o }
    &&& c.input.blocks@.len() == o.input.blocks@.len() + 1
    &&& c.input.blocks@.drop_last() == o.input.blocks@
    &&& c.input.remaining() == text
    &&& c.input.top().line_number is None
}

/// Interprets `text` as a new source block, running at most `budget` steps.
pub fn interpret_text(ctx: &mut Context, name: String, text: &Vec<char>, budget: usize) -> (r:
    Result<RunOutcome, Error>)
    requires
        old(ctx).wf(),
    ensures
        final(ctx).wf(),
        final(ctx).dictionary == old(ctx).dictionary,
        r matches Ok(RunOutcome::Finished(n)) ==> n <= budget && final(ctx).next is None,
        exists|c0: Context, i: Cont|
            #[trigger] runs(c0, Some(i), *final(ctx), budget as nat, 0, r) && *i
                == ContNode::Interpreter(InterpreterCont) && started_on(c0, *old(ctx), text@),
{
    let block = SourceBlock::from_text(name, text);
    let ghost b0 = block;
    ctx.input.push_source_block(block);
    let ghost c0 = *ctx;
    let i = Rc::new(ContNode::Interpreter(InterpreterCont));
    let ghost gi = i;
    let r = run_steps(ctx, i, budget);
    assert(started_on(c0, *old(ctx), text@));
    assert(runs(c0, Some(gi), *ctx, budget as nat, 0, r));
    r
}

} // verus!
