//! Results that stay on the device. `T` is a tensor there, `K` tells when a request is complete,
//! and `C` is the context that requests run in.
use crate::bytes::{embeddings_from_wire, on_wire, Embedding};
use crate::error::Error;
use vstd::prelude::*;

verus! {

/// A submitted request and its output tensors.
pub struct Inference<T, K> {
    pub outputs: Vec<T>,
    pub completion: K,
}

impl<T, K> Inference<T, K> {
    /// There is an output.
    pub open spec fn wf(self) -> bool {
        self.outputs@.len() >= 1
    }
}

/// Aligned RGB crops on the device, and whether each face had usable landmarks. Where it had
/// none its pixels are black, and that is an error, not an aligned face.
pub struct AlignedFaces<T> {
    pub crops: Vec<T>,
    pub status: T,
}

impl<T> AlignedFaces<T> {
    /// There are crops.
    pub open spec fn wf(self) -> bool {
        self.crops@.len() >= 1
    }

    /// The transforms from crop to image among the outputs of a fit.
    pub fn transforms(fit: &Vec<T>) -> (r: &T)
        requires
            fit@.len() >= 3,
        ensures
            *r == fit@[1],
    {
        &fit[1]
    }

    /// Joins the outputs of a fit with the crops that were sampled by it.
    pub fn new(fit: Vec<T>, crops: Vec<T>) -> (r: AlignedFaces<T>)
        requires
            fit@.len() >= 3,
        ensures
            crops@.len() >= 1 ==> r.wf(),
            r.crops@ == crops@,
            r.status == fit@[2],
    {
        let mut fit = fit;
        let status = fit.remove(2);
        AlignedFaces { crops, status }
    }

    /// The crops.
    pub fn crops(&self) -> (r: &T)
        requires
            self.wf(),
        ensures
            *r == self.crops@[0],
    {
        &self.crops[0]
    }

    /// Status of each face.
    pub fn status(&self) -> (r: &T)
        ensures
            *r == self.status,
    {
        &self.status
    }
}

/// Embeddings on the device, with the status of each face as aligned there.
pub struct FaceInference<T, K, C> {
    pub inference: Inference<T, K>,
    pub status: T,
    pub context: C,
}

/// Every complete status, of four bytes, is zero.
pub open spec fn all_aligned(status: Seq<u8>) -> bool {
    forall|i: int| 0 <= i < 4 * (status.len() / 4) ==> #[trigger] status[i] == 0
}

/// Faces are aligned where the four bytes of every complete status are zero, and nowhere else.
pub proof fn statuses_are_zero(status: Seq<u8>)
    ensures
        all_aligned(status) <==> forall|face: int|
            0 <= face < status.len() / 4 ==> #[trigger] status.subrange(4 * face, 4 * face + 4)
                == seq![0u8, 0u8, 0u8, 0u8],
{
    let zeros = seq![0u8, 0u8, 0u8, 0u8];
    if all_aligned(status) {
        assert forall|face: int| 0 <= face < status.len() / 4 implies #[trigger] status.subrange(
            4 * face,
            4 * face + 4,
        ) == zeros by {
            assert(status.subrange(4 * face, 4 * face + 4) =~= zeros);
        }
    }
    if forall|face: int|
        0 <= face < status.len() / 4 ==> #[trigger] status.subrange(4 * face, 4 * face + 4)
            == zeros {
        assert forall|i: int| 0 <= i < 4 * (status.len() / 4) implies #[trigger] status[i] == 0 by {
            let face = i / 4;
            assert(status.subrange(4 * face, 4 * face + 4) == zeros);
            assert(status[i] == status.subrange(4 * face, 4 * face + 4)[i - 4 * face]);
        }
    }
}

/// Whether every complete status is zero.
fn is_all_aligned(status: &[u8]) -> (r: bool)
    ensures
        r == all_aligned(status@),
{
    let n: usize = status.len() / 4 * 4;
    let mut i: usize = 0;
    while i < n
        invariant
            i <= n,
            n == 4 * (status@.len() / 4),
            n <= status@.len(),
            forall|j: int| 0 <= j < i ==> #[trigger] status@[j] == 0,
        decreases n - i,
    {
        if status[i] != 0 {
            return false;
        }
        i = i + 1;
    }
    true
}

impl<T, K, C> FaceInference<T, K, C> {
    pub open spec fn wf(self) -> bool {
        self.inference.wf()
    }

    /// The embeddings.
    pub fn embeddings(&self) -> (r: &T)
        requires
            self.wf(),
        ensures
            *r == self.inference.outputs@[0],
    {
        &self.inference.outputs[0]
    }

    /// Status of each face.
    pub fn status(&self) -> (r: &T)
        ensures
            *r == self.status,
    {
        &self.status
    }

    /// When the request is complete.
    pub fn completion(&self) -> (r: &K)
        ensures
            *r == self.inference.completion,
    {
        &self.inference.completion
    }

    /// Checks the geometry and returns the embeddings, from the downloaded status and outputs.
    /// Bytes after the last complete status or embedding are left out.
    pub fn wait(self, status: &[u8], outputs: &Vec<Vec<u8>>) -> (r: Result<Vec<Embedding>, Error>)
        requires
            outputs@.len() >= 1,
        ensures
            r is Ok <==> all_aligned(status@),
            r is Ok <==> forall|face: int|
                0 <= face < status@.len() / 4 ==> #[trigger] status@.subrange(
                    4 * face,
                    4 * face + 4,
                ) == seq![0u8, 0u8, 0u8, 0u8],
            r matches Ok(rows) ==> on_wire(outputs@[0]@, rows@),
            r matches Err(e) ==> e == Error::Landmarks,
    {
        proof {
            statuses_are_zero(status@);
        }
        if is_all_aligned(status) {
            Ok(embeddings_from_wire(outputs[0].as_slice()))
        } else {
            Err(Error::Landmarks)
        }
    }
}

} // verus!
