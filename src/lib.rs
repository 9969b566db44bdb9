//! Parser for a small calculator language: numbers annotated with physical
//! units (`32.5 kg m_1 s_-2`), variables, assignment, function calls,
//! binary arithmetic with the usual precedence, and unit conversion.
//!
//! `grammar` states the language over the characters of a text, `parser`
//! implements it and is proved to follow it exactly, and `laws` proves
//! properties of the language.
pub mod ast;
pub mod grammar;
pub mod laws;
pub mod parser;

pub use parser::{parse, ParseError, StatementParser};
