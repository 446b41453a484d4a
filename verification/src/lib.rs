//! Lexime: the conversion engine of a Japanese input method.

pub mod api;
pub mod arith;
pub mod bytes;
pub mod candidate_laws;
pub mod candidates;
pub mod converter;
pub mod dict;
pub mod encoding;
pub mod history_laws;
pub mod line_laws;
pub mod lines;
pub mod neural;
pub mod ordering;
pub mod romaji;
pub mod seqs;
pub mod session;
pub mod text;
pub mod unicode;
pub mod user_history;
