//! An interpreter for a small stack-based (postfix) language.
//!
//! Values are pushed onto and consumed from an explicit stack; a line of
//! tokens is applied all-or-nothing ([`stack::Stack::parse`]). Floating-point
//! values are carried as their IEEE-754 binary64 bit patterns: the library
//! does no floating-point arithmetic of its own and asks its
//! [`host::Host`] for every such operation, as it does for reading and
//! printing lines.
//!
//! Choices where the language leaves room:
//! - `if { T } { F }` takes blocks whose `{` and `}` tokens nest; the
//!   chosen block runs like the rest of its line and what it leaves on the
//!   stack stays there.
//! - `append` puts the list on top first and the list below it after.
//! - Integer results that do not fit in 32 bits are arithmetic errors.
//! - `==` compares floats by their bit patterns.
//! - Closures and blocks nest at most [`stack::MAX_DEPTH`] deep.

pub mod eval;
pub mod grammar;
pub mod host;
pub mod lexical;
pub mod ops;
pub mod parser;
pub mod render;
pub mod stack;
pub mod text;
pub mod tokenizer;
pub mod value;
