//! Brute-force nearest-neighbor search over an immutable in-memory table of
//! embedding vectors, ranked by cosine similarity.
//!
//! Coordinates are fixed-point numbers: an `i64` coordinate `c` stands for the
//! real value `c / SCALE`, and a similarity score of `SCALE` means a cosine of
//! exactly one. Cosine similarity is scale-invariant, so callers may use any
//! consistent scale when they convert their vectors to fixed point.

pub mod cosine;
pub mod rank;
pub mod search;

pub use cosine::cosine_similarity;
pub use search::SearchResult;
pub use search::VectorSearch;
