//! What the library reads of tensors on the device.
use crate::SIZE;
use vstd::prelude::*;

verus! {

/// Type of the elements.
#[derive(Clone, Copy, Debug, PartialEq, Eq, Structural)]
pub enum DType {
    U8,
    F32,
    Other,
}

/// Meaning of the axes.
#[derive(Clone, Copy, Debug, PartialEq, Eq, Structural)]
pub enum Layout {
    /// Batch, height, width, channels.
    Nhwc,
    /// No meaning is given.
    Plain,
    Other,
}

/// Description of a tensor.
#[derive(Debug)]
pub struct TensorDesc {
    pub dtype: DType,
    pub layout: Layout,
    pub contiguous: bool,
    pub shape: Vec<usize>,
}

impl TensorDesc {
    /// Elements of a type in a shape, contiguous.
    pub open spec fn is(self, dtype: DType, layout: Layout, shape: Seq<usize>) -> bool {
        self.dtype == dtype && self.layout == layout && self.contiguous && self.shape@ == shape
    }

    /// A contiguous batch of aligned RGB crops.
    pub open spec fn is_crops(self) -> bool {
        &&& self.dtype == DType::U8
        &&& self.layout == Layout::Nhwc
        &&& self.contiguous
        &&& self.shape@.len() == 4
        &&& self.shape@[1] == SIZE
        &&& self.shape@[2] == SIZE
        &&& self.shape@[3] == 3
    }

    /// Five points for each of at most `limit` faces, and at least one face.
    pub open spec fn is_landmarks(self, limit: nat) -> bool {
        &&& self.shape@.len() == 3
        &&& self.shape@[1] == 5
        &&& self.shape@[2] == 2
        &&& 1 <= self.shape@[0] <= limit
    }

    /// One packed RGB image.
    pub fn image(width: usize, height: usize) -> (r: TensorDesc)
        ensures
            r.is(DType::U8, Layout::Nhwc, seq![1usize, height, width, 3usize]),
            r.dtype == DType::U8,
            r.layout == Layout::Nhwc,
            r.contiguous,
            r.shape@ == seq![1usize, height, width, 3usize],
    {
        let r = TensorDesc {
            dtype: DType::U8,
            layout: Layout::Nhwc,
            contiguous: true,
            shape: vec![1, height, width, 3],
        };
        assert(r.shape@ =~= seq![1usize, height, width, 3usize]);
        r
    }

    /// Five points for each face.
    pub fn landmarks(faces: usize) -> (r: TensorDesc)
        ensures
            r.is(DType::F32, Layout::Plain, seq![faces, 5usize, 2usize]),
            r.dtype == DType::F32,
            r.layout == Layout::Plain,
            r.contiguous,
            r.shape@ == seq![faces, 5usize, 2usize],
    {
        let r = TensorDesc {
            dtype: DType::F32,
            layout: Layout::Plain,
            contiguous: true,
            shape: vec![faces, 5, 2],
        };
        assert(r.shape@ =~= seq![faces, 5usize, 2usize]);
        r
    }
}

/// A description names its elements' type, its layout and its shape, and nothing else fits it.
pub proof fn description_is_exact(
    d: TensorDesc,
    dtype: DType,
    layout: Layout,
    shape: Seq<usize>,
)
    requires
        d.is(dtype, layout, shape),
    ensures
        d.dtype == dtype,
        d.layout == layout,
        d.shape@ == shape,
        d.contiguous,
{
}

/// Crops are accepted for any number of faces, and by their size, type and layout alone.
pub proof fn crops_are_told_by_their_shape(d: TensorDesc, faces: usize)
    requires
        d.shape@ == seq![faces, 112usize, 112usize, 3usize],
    ensures
        d.is_crops() <==> d.dtype == DType::U8 && d.layout == Layout::Nhwc && d.contiguous,
{
}

/// No other shape is that of crops.
pub proof fn crops_have_one_shape(d: TensorDesc)
    requires
        d.is_crops(),
    ensures
        d.shape@ == seq![d.shape@[0], 112usize, 112usize, 3usize],
{
    assert(d.shape@ =~= seq![d.shape@[0], 112usize, 112usize, 3usize]);
}

/// Landmarks are accepted for every number of faces up to the limit, and for no other.
pub proof fn landmarks_are_told_by_their_faces(d: TensorDesc, faces: usize, limit: nat)
    requires
        d.shape@ == seq![faces, 5usize, 2usize],
    ensures
        d.is_landmarks(limit) <==> 0 < faces <= limit,
{
}

/// No other shape is that of landmarks.
pub proof fn landmarks_have_one_shape(d: TensorDesc, limit: nat)
    requires
        d.is_landmarks(limit),
    ensures
        d.shape@ == seq![d.shape@[0], 5usize, 2usize],
{
    assert(d.shape@ =~= seq![d.shape@[0], 5usize, 2usize]);
}

} // verus!
