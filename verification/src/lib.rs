//! A small computer-algebra core: textual polynomial expressions over the
//! variables `x`, `y`, `z` are tokenized, parsed by recursive descent, and
//! kept in a canonical, term-merged, totally ordered representation that
//! supports ring arithmetic and deterministic rendering back to text.
use vstd::prelude::*;

pub mod coef;
pub mod digits;
pub mod laws;
pub mod lexer;
pub mod monomial;
pub mod parser;
pub mod polynomial;
pub mod powers;
pub mod rational;


