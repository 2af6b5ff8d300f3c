//! A composite, content-addressed document container: free-text and binary
//! content, a brute-force vector index, and an embedded property graph are
//! bundled into one queryable unit whose identity is a cryptographic digest
//! over the whole serialized state.

pub mod digest;
pub mod document;
pub mod encoding;
pub mod graph;
pub mod ident;
pub mod numerals;
pub mod props;
pub mod ranking;
pub mod text;

pub use document::MadDocument;
pub use graph::GraphDatabase;
pub use numerals::u64_to_dec;
