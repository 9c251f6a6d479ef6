//! A small compiler for arithmetic and assignment expressions.
//!
//! A program is a sequence of statements that end in `;`. A statement is an
//! expression over integer literals, variables named by one letter, the
//! operators `+ - * / == != < <= > >= =` and parentheses. The value of a
//! program is the value of its last statement.
//!
//! Source text goes through three stages:
//!
//! - [`tokenizer`] splits it into tokens;
//! - [`parser`] builds one syntax tree for each statement, by the rules of
//!   [`grammar`], and enters every variable in a symbol table ([`table`]);
//! - [`generator`] lowers every tree to instructions for a stack machine
//!   with an accumulator.
//!
//! [`compiler`] runs the three in a row. [`machine`] says what the
//! instructions do and what a tree means, proves that generated code
//! computes what the tree means, and holds a machine that can be run.
//! [`assembly`] writes the instructions out as x86-64 assembly text.

pub mod assembly;
pub mod compiler;
pub mod error;
pub mod generator;
pub mod grammar;
pub mod machine;
pub mod parser;
pub mod table;
pub mod text;
pub mod tokenizer;
