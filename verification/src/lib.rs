//! A spaced-repetition flashcard scheduler.

pub mod card;
pub mod deck;
pub mod clock;
pub mod nums;
pub mod rng;
pub mod suite;
pub mod strutil;
