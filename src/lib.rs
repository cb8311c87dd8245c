//! A small lambda-calculus engine: a term model with a textual codec, a
//! compiler from arithmetic token strings to Church-encoded terms, stepwise
//! beta-reduction and a Tromp-diagram layout.

pub mod combinators;
pub mod decoding;
pub mod diagrams;
pub mod expr;
pub mod numerals;
pub mod reduction;
