//! Front end of the Rollok language: a lexer that turns source text into
//! tokens and a Pratt parser that turns tokens into a syntax tree.
use vstd::prelude::*;

pub mod text;
pub mod token;
pub mod lexer;
pub mod lexer2;
pub mod ast;
pub mod grammar;
pub mod parser;

verus! {

} // verus!
