//! A JSON pretty-printer: a tokenizer, a recursive-descent parser, and a
//! formatter that re-emits a parsed document as canonically indented text.
//!
//! Data flows text -> tokens -> tree -> text.  The tokenizer turns the input
//! characters into a token sequence, the parser builds a single syntax tree
//! whose root is an object or an array, and the formatter walks the tree and
//! renders it with configurable indentation and trailing-comma style.

use vstd::prelude::*;

pub mod error;
pub mod format;
pub mod laws;
pub mod node;
pub mod number;
pub mod text;
pub mod token;

verus! {

} // verus!
