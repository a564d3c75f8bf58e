//! The model as its callers see it: which requests it takes, and how it serves them.
use crate::alignment::TEMPLATE;
use crate::encoding::Binary32;
use crate::error::Error;
use crate::loading::{Loading, Step};
use crate::runs::{Benchmark, EmbedRun, EmbeddingRun, ImageRun};
use crate::tensor::{DType, Layout, TensorDesc};
use crate::SIZE;
use vstd::prelude::*;

verus! {

/// How to load the model.
#[derive(Clone, Copy, Debug, PartialEq, Eq, Structural)]
pub struct Options {
    /// Index of the device.
    pub device: i32,
    /// Most faces that go to the device together.
    pub max_batch: usize,
}

impl Default for Options {
    fn default() -> (r: Options)
        ensures
            r == (Options { device: 0, max_batch: 16 }),
    {
        Options { device: 0, max_batch: 16 }
    }
}

/// Bytes of one aligned RGB crop.
pub const CROP: usize = 37632;

/// Largest batches that a model can be loaded for.
pub open spec fn valid_max_batch(max_batch: nat) -> bool {
    1 <= max_batch <= 64
}

/// A loaded model, and the context `C` that its device inputs and outputs live in.
pub struct ArcFace<C> {
    max_batch: usize,
    context: C,
}

/// How the device samples pixels.
#[derive(Clone, Copy, Debug, PartialEq, Eq, Structural)]
pub enum Sampling {
    /// Bilinear, black outside the image, rounded to the nearest byte with ties to even.
    BlackTiesEven,
}

/// What aligning a batch of faces asks of the device: to fit the landmarks of each face to these
/// points, and to sample crops of this size from the image by the fitted transforms.
#[derive(Clone, Copy, Debug, PartialEq, Eq)]
pub struct Alignment {
    pub faces: usize,
    /// Single-precision encodings of the points to fit to.
    pub template: [[u32; 2]; 5],
    pub width: usize,
    pub height: usize,
    pub sampling: Sampling,
}

impl Alignment {
    /// The request for this many faces: fitted to the template of an aligned crop, and sampled at
    /// its size as crops on the host are.
    pub open spec fn of_faces(faces: usize) -> Alignment {
        Alignment {
            faces,
            template: TEMPLATE,
            width: SIZE,
            height: SIZE,
            sampling: Sampling::BlackTiesEven,
        }
    }
}

impl<C> ArcFace<C> {
    /// Most faces that go to the device together.
    pub closed spec fn limit(self) -> nat {
        self.max_batch as nat
    }

    /// Scheduling and allocation domain for the model's device inputs and outputs.
    pub closed spec fn domain(self) -> C {
        self.context
    }

    pub open spec fn wf(self) -> bool {
        valid_max_batch(self.limit())
    }

    /// A model whose loading has gone through every step.
    pub(crate) fn loaded(max_batch: usize, context: C) -> (r: ArcFace<C>)
        requires
            valid_max_batch(max_batch as nat),
        ensures
            r.wf(),
            r.limit() == max_batch,
            r.domain() == context,
    {
        ArcFace { max_batch, context }
    }

    /// Scheduling and allocation domain for the model's device inputs and outputs.
    pub fn context(&self) -> (r: &C)
        ensures
            *r == self.domain(),
    {
        &self.context
    }

    /// Begins to load the pretrained model. The largest batch is checked before the weights are
    /// fetched.
    pub fn from_pretrained(options: Options) -> (r: Result<Loading, Error>)
        ensures
            r is Ok <==> 1 <= options.max_batch <= 64,
            r matches Ok(l) ==> l.wf() && l.step() == Step::FetchWeights && l.options() == options,
            r matches Err(e) ==> e == Error::MaxBatch,
    {
        if 1 <= options.max_batch && options.max_batch <= 64 {
            Ok(Loading::begin(Step::FetchWeights, options))
        } else {
            Err(Error::MaxBatch)
        }
    }

    /// Begins to load a model from a file, on the device that the options name.
    pub fn load(options: Options) -> (r: Loading)
        ensures
            r.wf(),
            r.step() == (Step::OpenContext { device: options.device }),
            r.options() == options,
    {
        Loading::begin(Step::OpenContext { device: options.device }, options)
    }

    /// Begins to load a model from a file into a context that is shared with other models.
    pub fn load_in(max_batch: usize) -> (r: Result<Loading, Error>)
        ensures
            r is Ok <==> 1 <= max_batch <= 64,
            r matches Ok(l) ==> l.wf() && l.step() == (Step::LoadModel { max_batch })
                && l.options().max_batch == max_batch,
            r matches Err(e) ==> e == Error::MaxBatch,
    {
        if 1 <= max_batch && max_batch <= 64 {
            Ok(Loading::begin(Step::LoadModel { max_batch }, Options { device: 0, max_batch }))
        } else {
            Err(Error::MaxBatch)
        }
    }

    /// Checks aligned crops on the device; their number is the batch to prepare for.
    pub fn submit(&self, crops: &TensorDesc) -> (r: Result<usize, Error>)
        ensures
            r is Ok <==> crops.is_crops(),
            r is Ok <==> crops.dtype == DType::U8 && crops.layout == Layout::Nhwc
                && crops.contiguous && crops.shape@.len() == 4 && crops.shape@.skip(1) == seq![
                SIZE,
                SIZE,
                3usize,
            ],
            r matches Ok(batch) ==> batch == crops.shape@[0],
            r matches Err(e) ==> e == Error::CropTensor,
    {
        proof {
            let s = crops.shape@;
            if s.len() == 4 {
                assert(s.skip(1)[0] == s[1] && s.skip(1)[1] == s[2] && s.skip(1)[2] == s[3]);
                if s[1] == SIZE && s[2] == SIZE && s[3] == 3 {
                    assert(s.skip(1) =~= seq![SIZE, SIZE, 3usize]);
                }
            }
        }
        if crops.dtype == DType::U8 && crops.layout == Layout::Nhwc && crops.contiguous
            && crops.shape.len() == 4 && crops.shape[1] == SIZE && crops.shape[2] == SIZE
            && crops.shape[3] == 3 {
            Ok(crops.shape[0])
        } else {
            Err(Error::CropTensor)
        }
    }

    /// Checks landmarks on the device: one nonempty batch up to the largest is accepted.
    pub fn align(&self, landmarks: &TensorDesc) -> (r: Result<Alignment, Error>)
        requires
            self.wf(),
        ensures
            r is Ok <==> landmarks.is_landmarks(self.limit()),
            r matches Ok(a) ==> a == Alignment::of_faces(landmarks.shape@[0]),
            r matches Ok(a) ==> a.faces == landmarks.shape@[0] && a.template == TEMPLATE && a.width
                == SIZE && a.height == SIZE && a.sampling == Sampling::BlackTiesEven,
            r is Ok <==> landmarks.shape@.len() == 3 && landmarks.shape@.skip(1) == seq![
                5usize,
                2usize,
            ] && 1 <= landmarks.shape@[0] <= self.limit(),
            r matches Err(e) ==> e == Error::FaceCount,
    {
        proof {
            let s = landmarks.shape@;
            if s.len() == 3 {
                assert(s.skip(1)[0] == s[1] && s.skip(1)[1] == s[2]);
                if s[1] == 5 && s[2] == 2 {
                    assert(s.skip(1) =~= seq![5usize, 2usize]);
                }
            }
        }
        if landmarks.shape.len() == 3 && landmarks.shape[1] == 5 && landmarks.shape[2] == 2 && 1
            <= landmarks.shape[0] && landmarks.shape[0] <= self.max_batch {
            Ok(
                Alignment {
                    faces: landmarks.shape[0],
                    template: TEMPLATE,
                    width: SIZE,
                    height: SIZE,
                    sampling: Sampling::BlackTiesEven,
                },
            )
        } else {
            Err(Error::FaceCount)
        }
    }

    /// Begins to align and submit the faces of a resident image, in the context of the model.
    pub fn submit_image<T>(&self) -> (r: ImageRun<T, C>) where C: Clone
        ensures
            r.wf(),
            r.alignment() is None,
            cloned(self.domain(), r.context()),
    {
        ImageRun::begin(self.context.clone())
    }

    /// Begins to encode packed aligned RGB crops, in batches as needed.
    pub fn embeddings(&self, crops: &[u8]) -> (r: Result<EmbeddingRun, Error>)
        requires
            self.wf(),
        ensures
            r is Ok <==> crops@.len() % (CROP as nat) == 0,
            r matches Ok(run) ==> {
                &&& run.wf()
                &&& run.limit() == self.limit()
                &&& run.faces() == crops@.len() / (CROP as nat)
                &&& run.rows() == Seq::<crate::bytes::Embedding>::empty()
            },
            r matches Err(e) ==> e == Error::IncompleteCrops,
    {
        if crops.len() % CROP == 0 {
            Ok(EmbeddingRun::begin(self.max_batch, crops.len() / CROP))
        } else {
            Err(Error::IncompleteCrops)
        }
    }

    /// Begins to time the encoding of one batch of packed aligned RGB crops.
    pub fn benchmark(&self, crops: &[u8], samples: usize) -> (r: Result<Benchmark, Error>)
        requires
            self.wf(),
        ensures
            r == Err::<Benchmark, Error>(Error::BenchmarkBatch) <==> !(0 < crops@.len()
                <= self.limit() * CROP),
            r == Err::<Benchmark, Error>(Error::BenchmarkSamples) <==> 0 < crops@.len()
                <= self.limit() * CROP && samples < 10,
            r is Ok <==> 0 < crops@.len() <= self.limit() * CROP && samples >= 10,
            r matches Ok(b) ==> b.wf() && b.samples() == samples && b.warm() == 0 && b.timed()
                == 0,
    {
        if crops.len() == 0 || crops.len() > self.max_batch * CROP {
            Err(Error::BenchmarkBatch)
        } else if samples < 10 {
            Err(Error::BenchmarkSamples)
        } else {
            Ok(Benchmark::begin(samples))
        }
    }

    /// Begins to align and encode the faces of a packed RGB image, by five landmarks for each.
    /// Without faces there is nothing to do, whatever the image.
    pub fn embed(
        &self,
        width: usize,
        height: usize,
        landmarks: Vec<[[Binary32; 2]; 5]>,
    ) -> (r: Result<EmbedRun, Error>)
        requires
            self.wf(),
        ensures
            r is Ok <==> landmarks@.len() == 0 || (width > 0 && height > 0),
            r matches Ok(run) ==> {
                &&& run.wf()
                &&& run.limit() == self.limit()
                &&& run.landmarks() == landmarks@
                &&& run.width() == width
                &&& run.height() == height
                &&& !run.uploaded()
                &&& run.rows() == Seq::<crate::bytes::Embedding>::empty()
            },
            r matches Err(e) ==> e == Error::ImageSize,
    {
        if landmarks.len() == 0 || (width > 0 && height > 0) {
            Ok(EmbedRun::begin(self.max_batch, width, height, landmarks))
        } else {
            Err(Error::ImageSize)
        }
    }
}

/// Every request to align fits to the same points, which are those that crops on the host are
/// aligned to, and samples crops of the same size in the same way: requests differ in the number of
/// faces alone.
pub proof fn requests_differ_in_faces_alone(m: usize, n: usize)
    ensures
        Alignment::of_faces(m).template == TEMPLATE,
        Alignment::of_faces(m).width == 112,
        Alignment::of_faces(m).height == 112,
        Alignment::of_faces(m).sampling == Sampling::BlackTiesEven,
        Alignment::of_faces(m).faces == m,
        Alignment::of_faces(m) == (Alignment { faces: m, ..Alignment::of_faces(n) }),
{
}

/// Crops that the device sampled for accepted landmarks are accepted in turn, and make one batch
/// of as many faces, no larger than the largest.
pub proof fn aligned_crops_are_accepted<C>(
    model: ArcFace<C>,
    landmarks: TensorDesc,
    alignment: Alignment,
    crops: TensorDesc,
)
    requires
        landmarks.is_landmarks(model.limit()),
        alignment == Alignment::of_faces(landmarks.shape@[0]),
        crops.is(
            DType::U8,
            Layout::Nhwc,
            seq![alignment.faces, alignment.height, alignment.width, 3usize],
        ),
    ensures
        crops.is_crops(),
        crops.shape@[0] == landmarks.shape@[0],
        1 <= crops.shape@[0] <= model.limit(),
{
}

} // verus!
