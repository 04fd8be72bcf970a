//! Flat, brute-force nearest-neighbour index over fixed-length vectors.
//!
//! The index keeps every inserted vector together with its id and answers
//! top-`k` queries by ranking all stored entries. Scores are single-precision
//! numbers handed over as their bit patterns (`f32::to_bits`); the index
//! orders them exactly as the numbers they encode (a NaN compares equal to
//! every score: it neither pushes an entry out of the top `k` nor is pushed
//! out, and its hits are placed by id), decides which entries are
//! the best `k`, and reports them best first, equal scores by ascending id.

pub mod error;
pub mod index;
pub mod matrix;
pub mod metric;
pub mod order;
pub mod rank;
pub mod score_key;
pub mod sort;

pub use error::AnnFlatError;
pub use index::{Hit, Index, IndexView};
pub use matrix::{Matrix, MatrixView};
pub use metric::Metric;
pub use score_key::score_key;
