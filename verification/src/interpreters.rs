//! The two interpreters: one over the raw program, one over its compressed
//! form.

pub mod basic;
pub mod optimized;
