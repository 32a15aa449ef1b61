//! A small expression language: a parser for its surface syntax, a bound
//! tree with explicit variable identifiers, a type checker, the lowering of
//! the surface syntax to the bound tree, and a small-step evaluator.
#![allow(unused_imports)]

pub mod abt;
pub mod ast;
pub mod calls;
pub mod ctx;
pub mod debug;
pub mod fn_lang;
pub mod grammar;
pub mod let_lang;
pub mod literal;
pub mod naive;
pub mod renaming;
pub mod translation;
pub mod typecheck;
