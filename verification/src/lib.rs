//! A five-letter word-guessing game: scoring guesses against a hidden answer, and
//! inferring the answer from the scores.

pub mod feedback;
pub mod inference;
pub mod server;
pub mod solver;
pub mod soundness;
pub mod util;
pub mod word;

pub use feedback::{GuessOutcome, LetterOutcome};
pub use word::{Letter, Word};
