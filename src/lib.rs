//! Execution core of a stack-oriented, concatenative interpreter.
//!
//! - `lexer`: source blocks, words and delimited runs of input.
//! - `number`: integer and rational literals.
//! - `cont`: the continuation model and the steps a continuation stands for.
//! - `context`: the operand stack, the dictionary and the interpreter's context.
//! - `step`, `words`, `interp`: one step of each kind of continuation, the
//!   built-in words, the text interpreter and the trampoline.
//! - `vocab`: the base vocabulary and the entry point that interprets text.
//! - `backtrace`: names, dumps and bounded backtraces.
//! - `laws`: laws that relate several operations.
//! - `bitstring`, `text`, `bigint`, `byte_runs`: literals stored into cells,
//!   text helpers and arbitrary-precision integers.

pub mod backtrace;
pub mod bigint;
pub mod bitstring;
pub mod byte_runs;
pub mod cont;
pub mod context;
pub mod error;
pub mod interp;
pub mod laws;
pub mod lexer;
pub mod number;
pub mod step;
pub mod text;
pub mod vocab;
pub mod words;
