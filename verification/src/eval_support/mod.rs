//! Shared eval-instrument machinery: the apportionment every
//! stratified sample re-runs, the frozen-doc naming and the graph
//! family's corpus anchors.

pub mod auditgen;
pub mod corpus;
pub mod graph;
pub mod mention;
pub mod tally;
pub mod universe;

pub use auditgen::largest_remainder;
pub use corpus::{corpus_doc_pairs, corpus_doc_pairs_frozen, doc_corpus_name, doc_suffix, pinned_root};
pub use graph::{assert_corpus_set, assert_frozen_corpus_set, assert_nonzero_seats};
pub use universe::doc_stem;
