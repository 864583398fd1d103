//! A boolean information-retrieval engine, verified with Verus.
//!
//! The engine builds an in-memory inverted index — a posting store mapping
//! each term to the documents and positions where it occurs, and a catalog
//! of document details — from a directory's text files, and answers two
//! query forms over it: boolean term queries combined with AND/OR, and
//! positional proximity queries constrained by a term-distance window.
//!
//! Indexing and the two evaluators are specified by spec-level functions
//! (`index_spec`, `query_boolean_eval`, `query_positional_eval`) that pin
//! down every result exactly; the merge primitives carry proved set-semantic
//! laws, and the snapshot codec carries a proved round trip.

pub mod codec;
pub mod model;
pub mod order;
pub mod postings;
pub mod query;
pub mod store;
pub mod terms;
pub mod text;

pub use model::{BooleanModel, DocumentDetails};
pub use order::FileEntry;
pub use postings::Document;
