//! Text for the terminal: styled strings and the running totals of a batch.

pub mod colors;
pub mod progress;
