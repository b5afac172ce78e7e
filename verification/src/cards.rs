//! Playing cards: ranks and suits, a deck that shuffles itself, and hands of
//! five with their poker category.

pub mod card;
pub mod deck;
pub mod hand;
pub mod xorshift;
