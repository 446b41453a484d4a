//! Conversion of kana to kanji: lattice, search, ranking.

pub mod constrained;
pub mod convert;
pub mod cost;
pub mod explain;
pub mod explain_laws;
pub mod lattice;
pub mod lattice_laws;
pub mod path_laws;
pub mod postprocess;
pub mod prefix_laws;
pub mod ranking_laws;
pub mod reranker;
pub mod rewriter;
pub mod snapshot;
pub mod snapshot_laws;
pub mod viterbi;

pub use convert::{
    convert, convert_nbest, convert_nbest_with_cost, convert_nbest_with_history, convert_with_cost,
    convert_with_history,
};
pub use lattice::{build_lattice, Lattice, LatticeNode};
pub use viterbi::ConvertedSegment;
