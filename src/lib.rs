//! A small JSON reader: a recursive-descent parser from source text to a
//! tree of values, and an indented renderer back to text.

pub mod grammar;
pub mod json;
pub mod laws;
pub mod number;
pub mod parser;
pub mod text;
