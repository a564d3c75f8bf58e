//! Loading, as steps for the device and the file system to take and the checks between them.
use crate::arcface::{valid_max_batch, ArcFace, Options};
use crate::error::Error;
use vstd::prelude::*;

verus! {

/// What is to be done next.
#[derive(Clone, Copy, Debug, PartialEq, Eq, Structural)]
pub enum Step {
    /// Find the pretrained weights.
    FetchWeights,
    /// Open a scheduling and allocation domain on a device.
    OpenContext { device: i32 },
    /// Validate and pack the model, compile its kernels, and allocate storage for a batch.
    LoadModel { max_batch: usize },
    /// Create the image operations with this many requests in flight.
    CreateImageOps { slots: usize },
    /// All is done.
    Ready,
}

/// Image requests in flight.
pub const IMAGE_SLOTS: usize = 8;

/// A model that is being loaded.
pub struct Loading {
    step: Step,
    options: Options,
}

impl Loading {
    pub closed spec fn step(self) -> Step {
        self.step
    }

    pub closed spec fn options(self) -> Options {
        self.options
    }

    /// The largest batch is valid wherever a model is loaded by it.
    pub open spec fn wf(self) -> bool {
        match self.step() {
            Step::OpenContext { device } => device == self.options().device,
            Step::LoadModel { max_batch } => max_batch == self.options().max_batch
                && valid_max_batch(max_batch as nat),
            Step::CreateImageOps { slots } => slots == IMAGE_SLOTS && valid_max_batch(
                self.options().max_batch as nat,
            ),
            Step::Ready => valid_max_batch(self.options().max_batch as nat),
            Step::FetchWeights => valid_max_batch(self.options().max_batch as nat),
        }
    }

    pub(crate) fn begin(step: Step, options: Options) -> (r: Loading)
        ensures
            r.step() == step,
            r.options() == options,
    {
        Loading { step, options }
    }

    /// What is to be done next.
    pub fn current(&self) -> (r: Step)
        ensures
            r == self.step(),
    {
        self.step
    }

    /// Goes on once the current step has been taken. The largest batch is checked once the
    /// context is open.
    pub fn advance(self) -> (r: Result<Loading, Error>)
        requires
            self.wf(),
        ensures
            r is Err <==> self.step() is OpenContext && !valid_max_batch(
                self.options().max_batch as nat,
            ),
            r is Err <==> self.step() is OpenContext && !(1 <= self.options().max_batch <= 64),
            r matches Err(e) ==> e == Error::MaxBatch,
            r matches Ok(next) ==> {
                &&& next.wf()
                &&& next.options() == self.options()
                &&& next.step() == match self.step() {
                    Step::FetchWeights => Step::OpenContext { device: self.options().device },
                    Step::OpenContext { .. } => Step::LoadModel {
                        max_batch: self.options().max_batch,
                    },
                    Step::LoadModel { .. } => Step::CreateImageOps { slots: IMAGE_SLOTS },
                    Step::CreateImageOps { .. } => Step::Ready,
                    Step::Ready => Step::Ready,
                }
            },
    {
        let options = self.options;
        match self.step {
            Step::FetchWeights => Ok(
                Loading { step: Step::OpenContext { device: options.device }, options },
            ),
            Step::OpenContext { .. } => if 1 <= options.max_batch && options.max_batch <= 64 {
                Ok(Loading { step: Step::LoadModel { max_batch: options.max_batch }, options })
            } else {
                Err(Error::MaxBatch)
            },
            Step::LoadModel { .. } => Ok(
                Loading { step: Step::CreateImageOps { slots: IMAGE_SLOTS }, options },
            ),
            Step::CreateImageOps { .. } => Ok(Loading { step: Step::Ready, options }),
            Step::Ready => Ok(self),
        }
    }

    /// The model in the context that it was loaded into, once all is done.
    pub fn finish<C>(self, context: C) -> (r: Option<ArcFace<C>>)
        requires
            self.wf(),
        ensures
            r is Some <==> self.step() == Step::Ready,
            r matches Some(model) ==> {
                &&& model.wf()
                &&& model.limit() == self.options().max_batch
                &&& 1 <= model.limit() <= 64
                &&& model.domain() == context
            },
    {
        if self.step == Step::Ready {
            Some(ArcFace::loaded(self.options.max_batch, context))
        } else {
            None
        }
    }
}

/// Every state that loading passes through holds a largest batch that is either still to be checked,
/// while the context is opened, or from one to 64.
pub proof fn unchecked_batches_are_not_loaded(l: Loading)
    requires
        l.wf(),
    ensures
        l.step() is OpenContext || 1 <= l.options().max_batch <= 64,
        l.step() matches Step::LoadModel { max_batch } ==> max_batch == l.options().max_batch,
        l.step() matches Step::OpenContext { device } ==> device == l.options().device,
        l.step() matches Step::CreateImageOps { slots } ==> slots == 8,
{
}

} // verus!
