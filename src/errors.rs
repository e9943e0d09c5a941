use vstd::prelude::*;

verus! {

/// Raised when a word cannot be used for training.
#[derive(Debug, PartialEq, Eq)]
pub enum WordError {
    /// The word has `length` characters, fewer than the `minimum` that one
    /// prefix window and one suffix window need together.
    TooSmall { length: usize, minimum: usize },
}

/// Raised when a requested word length lies outside what the model can produce.
#[derive(Debug)]
pub enum RequestedLengthError {
    TooSmall(String),
    TooBig(String),
}

/// Raised when a word cannot be sampled.
#[derive(Debug)]
pub enum ChainError {
    /// No word was ever trained, so there is no starting prefix to draw.
    Empty(String),
}

} // verus!
