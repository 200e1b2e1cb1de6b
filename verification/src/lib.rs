//! Front-end for Mini-PL, a small imperative language: a character-level
//! scanner producing tokens and a token-level parser producing statements.

pub mod parser;
pub mod scanner;
pub mod util;
