//! Input sessions: from keys to text.

pub mod input;
pub mod keys;
pub mod laws;
pub mod model;
pub mod types;

pub use input::{cyclic_index, is_romaji_input, Composition, InputSession};
pub use types::{
    AsyncCandidateRequest, AsyncGhostRequest, CandidateAction, ConversionMode,
    KeyResponse, MarkedText, SideEffects, Submode, TabAction,
};
