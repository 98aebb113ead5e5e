//! A lexical scanner for a small C-like scripting language: source text in,
//! an ordered stream of classified tokens out, with every step proved against
//! a mathematical model of the scan.

pub mod token;
pub mod lexical;
pub mod scanner;
pub mod laws;
