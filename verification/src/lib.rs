//! A tiny hardware-description language: chips are compositions of other chips,
//! bottoming out in a single built-in NAND gate.
//!
//! Source text is scanned into words, classified into flat tokens, grouped into
//! call trees, normalised, and finally evaluated against a chip library.

pub mod text;
pub mod token;
pub mod scanner;
pub mod lexer;
pub mod grouper;
pub mod signals;
pub mod parser;
pub mod evaluator;
pub mod writing;
pub mod composition;
