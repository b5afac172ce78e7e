//! Compilation by way of native source text.

pub mod optimized;
