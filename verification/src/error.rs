//! What the library refuses, and in which words.
use vstd::prelude::*;

verus! {

/// A refused request.
#[derive(Clone, Copy, Debug, PartialEq, Eq, Structural)]
pub enum Error {
    /// The largest batch is not in `1..=64`.
    MaxBatch,
    /// Crops on the device are not a contiguous batch of aligned RGB images.
    CropTensor,
    /// Landmarks are not those of `1..=max_batch` faces.
    FaceCount,
    /// Some face has no usable landmarks.
    Landmarks,
    /// The bytes do not divide into crops.
    IncompleteCrops,
    /// The crops to time are none, or more than one batch.
    BenchmarkBatch,
    /// Too few timings were asked for.
    BenchmarkSamples,
    /// The image is empty, or its length is not that of a packed RGB image of its size.
    ImageSize,
    /// A component of an embedding is infinite or not a number.
    NonFinite,
    /// An embedding has length zero.
    ZeroEmbedding,
}

impl Error {
    pub fn message(self) -> (r: &'static str)
        ensures
            r@ == match self {
                Error::MaxBatch => "max_batch must be 1..=64"@,
                Error::CropTensor => "expected contiguous NHWC uint8 112×112 RGB crops"@,
                Error::FaceCount => "alignment requires 1..=max_batch faces"@,
                Error::Landmarks => "invalid or degenerate alignment landmarks"@,
                Error::IncompleteCrops => "expected complete 112×112 RGB crops"@,
                Error::BenchmarkBatch => "benchmark requires one nonempty batch"@,
                Error::BenchmarkSamples => "use at least ten timing samples"@,
                Error::ImageSize => "invalid RGB image size"@,
                Error::NonFinite => "non-finite embedding"@,
                Error::ZeroEmbedding => "zero embedding"@,
            },
    {
        match self {
            Error::MaxBatch => "max_batch must be 1..=64",
            Error::CropTensor => "expected contiguous NHWC uint8 112×112 RGB crops",
            Error::FaceCount => "alignment requires 1..=max_batch faces",
            Error::Landmarks => "invalid or degenerate alignment landmarks",
            Error::IncompleteCrops => "expected complete 112×112 RGB crops",
            Error::BenchmarkBatch => "benchmark requires one nonempty batch",
            Error::BenchmarkSamples => "use at least ten timing samples",
            Error::ImageSize => "invalid RGB image size",
            Error::NonFinite => "non-finite embedding",
            Error::ZeroEmbedding => "zero embedding",
        }
    }
}

} // verus!
