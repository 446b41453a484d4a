//! Scoring of conversions by a language model: prompts, and the search that the
//! scores steer.

pub mod laws;
pub mod prompt;
pub mod speculative;

pub use prompt::{build_prompt, find_subsequence};
