//! Core of an image-similarity service: named records carrying fixed-dimension
//! feature vectors, exact cosine-similarity ranking, and whole-state snapshot
//! persistence.
//!
//! Feature vectors are held in a fixed-point representation (`i16` components,
//! caller-chosen scale). Cosine similarity is scale-invariant per vector, so
//! ranking over fixed-point vectors agrees with ranking over the real-valued
//! vectors they stand for; the exact integer arithmetic in [`ranking`] avoids
//! the undefined comparisons that floating-point similarity scores would bring.
//! The embedding collaborator that turns an image into a vector stays outside
//! this crate and hands finished vectors to the store operations.

pub mod embedding;
pub mod ranking;
pub mod requests;
pub mod snapshot;
pub mod store;
