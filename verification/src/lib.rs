//! A small Scheme-like language: a tokenizer, a reader that builds
//! quotation-tracking data trees, a lexically scoped environment chain, an
//! evaluator with special forms, and a library of built-in procedures —
//! together with a few self-contained exercises: two variants of the
//! counting game, a sign-magnitude big integer, a digit-grouping renderer,
//! and a reversible stack machine.

pub mod bigint;
pub mod bigint_display;
pub mod builtins;
pub mod data;
pub mod digits;
pub mod fizzbuzz;
pub mod fizzbuzz_iter;
pub mod interpreter;
pub mod laws;
pub mod machine;
pub mod numeric;
pub mod parser;
pub mod text;
