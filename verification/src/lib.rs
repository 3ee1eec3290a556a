//! A tape machine for an eight-symbol instruction language.
//!
//! Source text is scanned into tokens ([`token::lexer`]), the tokens are
//! nested into a tree whose loops own their bodies ([`ast::parser`]), and the
//! tree is executed one instruction at a time against a tape of byte cells
//! ([`machine::RuntimeEnvironment`], with a [`cursor::Cursor`] into the
//! tree). The machine never touches a terminal: each step says what the host
//! has to do next, and the host hands back the characters that it reads.
//!
//! [`semantics`] states what an execution is, and [`nesting`] how brackets
//! and loops answer each other; both hold the laws that are proved of them.

pub mod error;
pub mod token;
pub mod ast;
pub mod nesting;
pub mod semantics;
pub mod cursor;
pub mod machine;
