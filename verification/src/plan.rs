//! Plans for parts of a transaction.

pub mod clue;
