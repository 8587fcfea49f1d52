//! Greedy full text justification: split a text into space-separated words,
//! pack the words into lines bounded by a fixed width, and pad every line to
//! exactly that width by widening the inter-word gaps, leftmost gaps first.

pub mod justify;
pub mod laws;
pub mod model;

pub use justify::Error;
pub use justify::transform;
