//! A small stack-oriented scripting language: a scanner from source text to
//! tokens, a structural parser that turns the token stream into an
//! instruction tree, and an evaluator that runs the tree over a collection of
//! named value stacks. Each stage is stated as spec functions over plain
//! values and proved against them; `laws` holds the general properties.
#![allow(non_snake_case)]
#![allow(non_camel_case_types)]

pub mod globals;
pub mod parser;
pub mod serialize;
pub mod runtime;
pub mod laws;
pub mod colorize;
pub mod lex;
