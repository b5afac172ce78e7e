//! A toolchain for a minimal tape language of eight one-byte instructions:
//! a run-length compressor, a bracket resolver, two interpreters over one
//! tape machine, and a transpiler to native source text.
//!
//! - `instruction`: the eight instruction bytes and their classes.
//! - `compressor`: raw programs to runs of repeated instructions.
//! - `brackets`: nesting depth, matching pairs, bracket maps.
//! - `machine`: the tape machine and the effect of one instruction.
//! - `semantics`: steps and runs of a machine on a program.
//! - `interpreters`: the plain interpreter and the optimized one.
//! - `compilers`: the transpiler.
//! - `alignment` and `equivalence`: why the two interpreters cannot be told
//!   apart.
//!
//! Beside it lives a small deck-of-cards model with a poker hand classifier:
//! `cards` and `poker_probability`.

pub mod alignment;
pub mod brackets;
pub mod cards;
pub mod compilers;
pub mod compressor;
pub mod equivalence;
pub mod instruction;
pub mod interpreters;
pub mod machine;
pub mod poker_probability;
pub mod semantics;
