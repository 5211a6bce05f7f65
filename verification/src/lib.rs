//! A small query-filter language: a lexer that turns a filter such as
//! `name:elmer,age>=18,category=(a|b)` into tokens, a parser that groups the
//! tokens into predicates, and a `Filter` that looks predicates up by field
//! name and by resource.

pub mod filter;
pub mod lexer;
pub mod parser;
pub mod report;
pub mod text;
