//! The front end of Huck, a small expression language: a scanner, a parser
//! and a type checker, with what each of them does stated and proved.
//!
//! A program is one expression. It is made of 64-bit unsigned numbers, the
//! booleans, the four arithmetic operators, groups in brackets, `let`
//! declarations, blocks in braces, whose value is that of their last
//! expression, and conditionals with two branches.
//!
//! - [`scanner`] turns source text into tokens; [`chars`], [`text`] and
//!   [`number`] hold what it and the parser know of characters, strings and
//!   number literals.
//! - [`grammar`] says which tree a sequence of tokens stands for, and
//!   [`parser`] builds that tree from the tokens of a scanner.
//! - [`typing`] says which type each node of a tree has, and [`typecheck`]
//!   builds the tree with its types, in the scopes of [`scopes`].
//! - [`codegen`] writes the assembly text of a checked program.
//! - [`theorems`] states what holds of scanning and parsing taken together;
//!   [`spelling`] and [`printing`] show that scanning and parsing give back
//!   every program that is written down.

pub mod ast;
pub mod chars;
pub mod codegen;
pub mod grammar;
pub mod number;
pub mod parser;
pub mod precedence;
pub mod printing;
pub mod scanner;
pub mod scopes;
pub mod spelling;
pub mod text;
pub mod theorems;
pub mod typecheck;
pub mod typing;
