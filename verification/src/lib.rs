//! Host side of ArcFace w600k_r50 face embedding. Aligned inputs are 112 by 112 pixels of packed
//! 8-bit RGB; embeddings are 512 single-precision numbers, not normalized.
//!
//! The device runs the network; this library decides what it is asked and what its answers mean.
//! Requests that alternate between the two are state machines: `loading` for a model, `runs` for
//! batches of crops, for the faces of an image, and for timings.
//!
//! Alignment and similarity compute in floating point on the host. Numbers are held as their
//! encodings (`encoding`) and computed with in integers (`arithmetic`, `conversion`, `division`),
//! against what `number` says each operation returns. `operations` tells the operations by how their
//! results lie among all numbers; `bilinear` and `cosine` say in exact numbers what a crop and a
//! similarity are.
use vstd::prelude::*;

pub mod alignment;
pub mod arcface;
pub mod arithmetic;
pub mod batches;
pub mod bilinear;
pub mod bytes;
pub mod conversion;
pub mod cosine;
pub mod division;
pub mod encoding;
pub mod error;
pub mod inference;
pub mod loading;
pub mod number;
pub mod operations;
pub mod rounding;
pub mod runs;
pub mod similarity;
pub mod tensor;
pub mod whole;

pub use arcface::{ArcFace, Options};
pub use bytes::Embedding;
pub use error::Error;
pub use inference::{AlignedFaces, FaceInference};
pub use similarity::similarity;

verus! {

/// Side of an aligned crop, in pixels.
pub const SIZE: usize = 112;

/// Components of an embedding.
pub const EMBEDDING: usize = 512;

} // verus!
