//! Place-name generation with a variable-order n-gram Markov model.
//!
//! A [`CityGenerator`] is trained on a list of words and then samples new
//! words by walking the learned prefix-to-suffix transitions.
pub mod city_generator;
pub mod errors;
mod random;
pub mod table;

pub use city_generator::CityGenerator;
pub use errors::{ChainError, RequestedLengthError, WordError};
