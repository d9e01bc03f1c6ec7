//! Typed system-call arguments, a small line-oriented script language of
//! `syscall` statements, and the planning of the calls those statements make.
//!
//! The raw invocation itself is left to the caller: this crate decides what
//! is called, with which machine words, and in which order.

use vstd::prelude::*;

pub mod cast;
pub mod cli;
pub mod error;
pub mod laws;
pub mod lexer;
pub mod number;
pub mod script;
pub mod statement;
pub mod sysno;
