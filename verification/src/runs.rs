//! Requests that alternate between the library and the device: what goes to the device next, and
//! what is kept of what comes back.
use crate::arcface::CROP;
use crate::batches::{
    batch_size, batched, batching_is_transparent, face_by_face, next_batch, requests_join, Batch,
};
use crate::bytes::{
    bytes_hold_one_reading, embedding_words, embeddings_from_memory, embeddings_lie_in_order,
    laid_out, landmark_bytes, landmark_memory, landmark_words, landmarks_lie_in_order,
    memory_reading, on_wire, wire_holds_one_reading, wire_reading, word_at, words_have_one_layout,
    Embedding, ROW,
};
use crate::encoding::Binary32;
use crate::inference::{AlignedFaces, FaceInference, Inference};
use crate::tensor::{DType, Layout, TensorDesc};
use vstd::prelude::*;

verus! {

/// Encoding of packed aligned crops.
pub struct EmbeddingRun {
    max_batch: usize,
    faces: usize,
    rows: Vec<Embedding>,
}

impl EmbeddingRun {
    pub closed spec fn limit(self) -> nat {
        self.max_batch as nat
    }

    pub closed spec fn faces(self) -> nat {
        self.faces as nat
    }

    /// The embeddings so far.
    pub closed spec fn rows(self) -> Seq<Embedding> {
        self.rows@
    }

    pub open spec fn wf(self) -> bool {
        1 <= self.limit() <= 64 && self.rows().len() <= self.faces() && self.faces()
            <= usize::MAX
    }

    /// The pixels of the next faces.
    pub open spec fn next_pixels(self, crops: Seq<u8>) -> Seq<u8> {
        let done = self.rows().len();
        crops.subrange(
            done * CROP,
            (done + batch_size(done, self.faces(), self.limit())) * CROP,
        )
    }

    /// The run after it took the next faces' embeddings from bytes in memory.
    pub open spec fn takes(self, bytes: Seq<u8>, after: EmbeddingRun) -> bool {
        let done = self.rows().len();
        &&& after.wf()
        &&& after.limit() == self.limit()
        &&& after.faces() == self.faces()
        &&& after.rows().len() == done + batch_size(done, self.faces(), self.limit())
        &&& after.rows().take(done as int) == self.rows()
        &&& laid_out(bytes, embedding_words(after.rows().skip(done as int)))
    }

    pub(crate) fn begin(max_batch: usize, faces: usize) -> (r: EmbeddingRun)
        requires
            1 <= max_batch <= 64,
        ensures
            r.wf(),
            r.limit() == max_batch,
            r.faces() == faces,
            r.rows() == Seq::<Embedding>::empty(),
    {
        EmbeddingRun { max_batch, faces, rows: Vec::new() }
    }

    /// The next faces for the device; none once all are done.
    pub fn next(&self) -> (r: Option<Batch>)
        requires
            self.wf(),
        ensures
            r is None <==> self.rows().len() == self.faces(),
            r matches Some(b) ==> b.start == self.rows().len() && b.count == batch_size(
                self.rows().len(),
                self.faces(),
                self.limit(),
            ),
    {
        next_batch(self.rows.len(), self.faces, self.max_batch)
    }

    /// The pixels of the next faces.
    pub fn input<'a>(&self, crops: &'a [u8]) -> (r: &'a [u8])
        requires
            self.wf(),
            crops@.len() == self.faces() * CROP,
        ensures
            r@ == self.next_pixels(crops@),
    {
        let start: usize = self.rows.len();
        let count: usize = match next_batch(start, self.faces, self.max_batch) {
            Some(b) => b.count,
            None => 0,
        };
        assert(crops@.len() == crops.len());
        vstd::slice::slice_subrange(crops, start * CROP, (start + count) * CROP)
    }

    /// Takes the embeddings of the next faces, as the device wrote them into memory.
    pub fn accept(&mut self, bytes: &[u8])
        requires
            old(self).wf(),
            bytes@.len() == ROW * batch_size(
                old(self).rows().len(),
                old(self).faces(),
                old(self).limit(),
            ),
        ensures
            old(self).takes(bytes@, *final(self)),
    {
        let mut new = embeddings_from_memory(bytes);
        let ghost added = new@;
        self.rows.append(&mut new);
        assert(self.rows@.take(old(self).rows@.len() as int) =~= old(self).rows@);
        assert(self.rows@.skip(old(self).rows@.len() as int) =~= added);
    }

    /// The embeddings of all faces, once they are done.
    pub fn finish(self) -> (r: Option<Vec<Embedding>>)
        ensures
            r is Some <==> self.rows().len() == self.faces(),
            r matches Some(rows) ==> rows@ == self.rows(),
    {
        if self.rows.len() == self.faces {
            Some(self.rows)
        } else {
            None
        }
    }
}

/// What encoding the faces of an image asks of the device next.
pub enum EmbedStep {
    /// Upload the image.
    UploadImage { desc: TensorDesc },
    /// Upload these landmarks, then align and encode their faces.
    Faces { desc: TensorDesc, bytes: Vec<u8> },
    /// All faces are done.
    Finished,
}

/// Alignment and encoding of the faces of an image.
pub struct EmbedRun {
    max_batch: usize,
    width: usize,
    height: usize,
    landmarks: Vec<[[Binary32; 2]; 5]>,
    uploaded: bool,
    rows: Vec<Embedding>,
}

impl EmbedRun {
    pub closed spec fn limit(self) -> nat {
        self.max_batch as nat
    }

    pub closed spec fn width(self) -> usize {
        self.width
    }

    pub closed spec fn height(self) -> usize {
        self.height
    }

    pub closed spec fn landmarks(self) -> Seq<[[Binary32; 2]; 5]> {
        self.landmarks@
    }

    /// The image is on the device.
    pub closed spec fn uploaded(self) -> bool {
        self.uploaded
    }

    /// The embeddings so far.
    pub closed spec fn rows(self) -> Seq<Embedding> {
        self.rows@
    }

    pub open spec fn wf(self) -> bool {
        1 <= self.limit() <= 64 && self.rows().len() <= self.landmarks().len()
    }

    /// The landmarks of the next faces.
    pub open spec fn next_landmarks(self) -> Seq<[[Binary32; 2]; 5]> {
        let done = self.rows().len();
        self.landmarks().subrange(
            done as int,
            (done + batch_size(done, self.landmarks().len(), self.limit())) as int,
        )
    }

    /// The bytes that upload the landmarks of the next faces.
    pub open spec fn hands(self, bytes: Seq<u8>) -> bool {
        laid_out(bytes, landmark_words(self.next_landmarks()))
    }

    /// The run after it took the next faces' embeddings.
    pub open spec fn takes(self, rows: Seq<Embedding>, after: EmbedRun) -> bool {
        &&& after.wf()
        &&& after.limit() == self.limit()
        &&& after.width() == self.width()
        &&& after.height() == self.height()
        &&& after.landmarks() == self.landmarks()
        &&& after.uploaded() == self.uploaded()
        &&& rows.len() == self.next_landmarks().len()
        &&& after.rows() == self.rows() + rows
    }

    pub(crate) fn begin(
        max_batch: usize,
        width: usize,
        height: usize,
        landmarks: Vec<[[Binary32; 2]; 5]>,
    ) -> (r: EmbedRun)
        requires
            1 <= max_batch <= 64,
        ensures
            r.wf(),
            r.limit() == max_batch,
            r.width() == width,
            r.height() == height,
            r.landmarks() == landmarks@,
            !r.uploaded(),
            r.rows() == Seq::<Embedding>::empty(),
    {
        EmbedRun { max_batch, width, height, landmarks, uploaded: false, rows: Vec::new() }
    }

    /// What is to be done next: nothing once all faces are done, the upload of the image before
    /// the first faces, and then the faces in batches.
    pub fn step(&self) -> (r: EmbedStep)
        requires
            self.wf(),
        ensures
            r is Finished <==> self.rows().len() == self.landmarks().len(),
            r is UploadImage <==> self.rows().len() < self.landmarks().len() && !self.uploaded(),
            r matches EmbedStep::UploadImage { desc } ==> desc.is(
                DType::U8,
                Layout::Nhwc,
                seq![1usize, self.height(), self.width(), 3usize],
            ),
            r matches EmbedStep::UploadImage { desc } ==> desc.dtype == DType::U8 && desc.layout
                == Layout::Nhwc && desc.contiguous && desc.shape@ == seq![
                1usize,
                self.height(),
                self.width(),
                3usize,
            ],
            r matches EmbedStep::Faces { desc, bytes } ==> desc.dtype == DType::F32 && desc.layout
                == Layout::Plain && desc.contiguous && desc.shape@ == seq![
                least(
                    (self.landmarks().len() - self.rows().len()) as int,
                    self.limit() as int,
                ) as usize,
                5usize,
                2usize,
            ],
            r matches EmbedStep::Faces { desc, bytes } ==> {
                &&& desc.is(
                    DType::F32,
                    Layout::Plain,
                    seq![self.next_landmarks().len() as usize, 5usize, 2usize],
                )
                &&& desc.is_landmarks(self.limit())
                &&& self.hands(bytes@)
            },
    {
        match next_batch(self.rows.len(), self.landmarks.len(), self.max_batch) {
            None => EmbedStep::Finished,
            Some(b) => if !self.uploaded {
                EmbedStep::UploadImage { desc: TensorDesc::image(self.width, self.height) }
            } else {
                let next = vstd::slice::slice_subrange(
                    self.landmarks.as_slice(),
                    b.start,
                    b.start + b.count,
                );
                EmbedStep::Faces {
                    desc: TensorDesc::landmarks(b.count),
                    bytes: landmark_bytes(next),
                }
            },
        }
    }

    /// Notes that the image is on the device.
    pub fn image_uploaded(&mut self)
        ensures
            final(self).uploaded(),
            final(self).limit() == old(self).limit(),
            final(self).width() == old(self).width(),
            final(self).height() == old(self).height(),
            final(self).landmarks() == old(self).landmarks(),
            final(self).rows() == old(self).rows(),
    {
        self.uploaded = true;
    }

    /// Takes the embeddings of the next faces.
    pub fn accept(&mut self, rows: Vec<Embedding>)
        requires
            old(self).wf(),
            rows@.len() == old(self).next_landmarks().len(),
        ensures
            old(self).takes(rows@, *final(self)),
    {
        let mut rows = rows;
        self.rows.append(&mut rows);
    }

    /// The embeddings of all faces, once they are done.
    pub fn finish(self) -> (r: Option<Vec<Embedding>>)
        ensures
            r is Some <==> self.rows().len() == self.landmarks().len(),
            r matches Some(rows) ==> rows@ == self.rows(),
    {
        if self.rows.len() == self.landmarks.len() {
            Some(self.rows)
        } else {
            None
        }
    }
}

/// What aligning and submitting the faces of a resident image asks of the device next.
pub enum ImageStep<'a, T> {
    /// Fit the landmarks and sample the crops.
    Align,
    /// Submit these crops.
    Submit { crops: &'a T },
}

/// Alignment and submission of the faces of a resident image. `T` is a tensor on the device, and
/// `C` is the context that requests run in.
pub struct ImageRun<T, C> {
    context: C,
    aligned: Option<AlignedFaces<T>>,
}

impl<T, C> ImageRun<T, C> {
    pub closed spec fn context(self) -> C {
        self.context
    }

    /// The aligned faces, once there are any.
    pub closed spec fn alignment(self) -> Option<AlignedFaces<T>> {
        self.aligned
    }

    /// Aligned faces have crops.
    pub open spec fn wf(self) -> bool {
        self.alignment() matches Some(a) ==> a.wf()
    }

    pub(crate) fn begin(context: C) -> (r: ImageRun<T, C>)
        ensures
            r.wf(),
            r.context() == context,
            r.alignment() is None,
    {
        ImageRun { context, aligned: None }
    }

    /// What is to be done next: the alignment, and then the submission of exactly its crops.
    pub fn step(&self) -> (r: ImageStep<'_, T>)
        requires
            self.wf(),
        ensures
            match self.alignment() {
                None => r is Align,
                Some(a) => r matches ImageStep::Submit { crops } && *crops == a.crops@[0],
            },
    {
        match &self.aligned {
            None => ImageStep::Align,
            Some(aligned) => ImageStep::Submit { crops: aligned.crops() },
        }
    }

    /// Takes the outcome of the alignment; where it failed, so has the run.
    pub fn aligned<E>(self, outcome: Result<AlignedFaces<T>, E>) -> (r: Result<ImageRun<T, C>, E>)
        ensures
            match outcome {
                Err(e) => r == Err::<ImageRun<T, C>, E>(e),
                Ok(a) => {
                    &&& r is Ok
                    &&& r->Ok_0.alignment() == Some(a)
                    &&& r->Ok_0.context() == self.context()
                    &&& a.wf() ==> r->Ok_0.wf()
                },
            },
    {
        match outcome {
            Err(e) => Err(e),
            Ok(a) => Ok(ImageRun { context: self.context, aligned: Some(a) }),
        }
    }

    /// Takes the outcome of the submission of the crops; where it failed, so has the run. The
    /// result keeps the status of the alignment that the crops are from. Before the alignment there
    /// is nothing to join.
    pub fn submitted<K, E>(self, outcome: Result<Inference<T, K>, E>) -> (r: Result<
        Option<FaceInference<T, K, C>>,
        E,
    >)
        ensures
            match (outcome, self.alignment()) {
                (Err(e), _) => r == Err::<Option<FaceInference<T, K, C>>, E>(e),
                (Ok(_), None) => r == Ok::<Option<FaceInference<T, K, C>>, E>(None),
                (Ok(inference), Some(a)) => {
                    let joined = FaceInference {
                        inference,
                        status: a.status,
                        context: self.context(),
                    };
                    &&& r == Ok::<Option<FaceInference<T, K, C>>, E>(Some(joined))
                    &&& inference.wf() ==> joined.wf()
                },
            },
    {
        match outcome {
            Err(e) => Err(e),
            Ok(inference) => Ok(
                match self.aligned {
                    None => None,
                    Some(a) => Some(
                        FaceInference { inference, status: a.status, context: self.context },
                    ),
                },
            ),
        }
    }
}

/// What a benchmark asks for next.
#[derive(Clone, Copy, Debug, PartialEq, Eq, Structural)]
pub enum BenchmarkStep {
    /// Encode the crops without timing it.
    Warm,
    /// Encode the crops and keep the time.
    Timed,
    /// All timings are taken.
    Finished,
}

/// Untimed runs before the first timing.
pub const WARM_RUNS: usize = 10;

/// Timing of one batch.
pub struct Benchmark {
    samples: usize,
    warm: usize,
    timed: usize,
}

impl Benchmark {
    /// Timings asked for.
    pub closed spec fn samples(self) -> nat {
        self.samples as nat
    }

    /// Untimed runs so far.
    pub closed spec fn warm(self) -> nat {
        self.warm as nat
    }

    /// Timings so far.
    pub closed spec fn timed(self) -> nat {
        self.timed as nat
    }

    /// Runs still to be made, untimed and timed.
    pub open spec fn remaining(self) -> int {
        (WARM_RUNS - self.warm()) + (self.samples() - self.timed())
    }

    /// Timings follow only after all untimed runs.
    pub open spec fn wf(self) -> bool {
        &&& self.samples() >= 10
        &&& self.warm() <= WARM_RUNS
        &&& self.timed() <= self.samples()
        &&& self.timed() > 0 ==> self.warm() == WARM_RUNS
    }

    pub(crate) fn begin(samples: usize) -> (r: Benchmark)
        requires
            samples >= 10,
        ensures
            r.wf(),
            r.samples() == samples,
            r.warm() == 0,
            r.timed() == 0,
    {
        Benchmark { samples, warm: 0, timed: 0 }
    }

    /// What is to be run next.
    pub fn step(&self) -> (r: BenchmarkStep)
        requires
            self.wf(),
        ensures
            r == BenchmarkStep::Warm <==> self.warm() < WARM_RUNS,
            r == BenchmarkStep::Timed <==> self.warm() == WARM_RUNS && self.timed()
                < self.samples(),
            r == BenchmarkStep::Finished <==> self.warm() == WARM_RUNS && self.timed()
                == self.samples(),
            r == BenchmarkStep::Finished <==> self.remaining() == 0,
    {
        if self.warm < WARM_RUNS {
            BenchmarkStep::Warm
        } else if self.timed < self.samples {
            BenchmarkStep::Timed
        } else {
            BenchmarkStep::Finished
        }
    }

    /// Goes on once the current run has been made.
    pub fn advance(&mut self)
        requires
            old(self).wf(),
        ensures
            final(self).wf(),
            final(self).samples() == old(self).samples(),
            final(self).remaining() == if old(self).remaining() == 0 {
                0
            } else {
                old(self).remaining() - 1
            },
            final(self).warm() == if old(self).warm() < WARM_RUNS {
                old(self).warm() + 1
            } else {
                old(self).warm()
            },
            final(self).timed() == if old(self).warm() == WARM_RUNS && old(self).timed() < old(
                self,
            ).samples() {
                old(self).timed() + 1
            } else {
                old(self).timed()
            },
    {
        if self.warm < WARM_RUNS {
            self.warm = self.warm + 1;
        } else if self.timed < self.samples {
            self.timed = self.timed + 1;
        }
    }
}

/// The embeddings so far, followed by what the device returns for the batches still to come, are
/// what it returns for all batches put together.
pub open spec fn on_course<F>(
    faces: Seq<F>,
    device: spec_fn(Seq<F>) -> Seq<Embedding>,
    limit: nat,
    rows: Seq<Embedding>,
) -> bool {
    rows + batched(faces, device, rows.len(), limit) == batched(faces, device, 0, limit)
}

/// What the device returns for the next faces.
pub open spec fn next_rows<F>(
    faces: Seq<F>,
    device: spec_fn(Seq<F>) -> Seq<Embedding>,
    limit: nat,
    rows: Seq<Embedding>,
) -> Seq<Embedding> {
    let n = batch_size(rows.len(), faces.len(), limit);
    device(faces.subrange(rows.len() as int, (rows.len() + n) as int))
}

/// A run is on course before its first batch, stays on course where it keeps what the device
/// returns for the next batch, and then ends with what the device returns for all batches put
/// together.
pub proof fn run_stays_on_course<F>(
    faces: Seq<F>,
    device: spec_fn(Seq<F>) -> Seq<Embedding>,
    limit: nat,
    rows: Seq<Embedding>,
)
    requires
        limit >= 1,
        rows.len() <= faces.len(),
    ensures
        on_course(faces, device, limit, Seq::empty()),
        ({
            let new = next_rows(faces, device, limit, rows);
            rows.len() < faces.len() && on_course(faces, device, limit, rows) && new.len()
                == batch_size(rows.len(), faces.len(), limit) ==> on_course(
                faces,
                device,
                limit,
                rows + new,
            )
        }),
        rows.len() == faces.len() && on_course(faces, device, limit, rows) ==> rows == batched(
            faces,
            device,
            0,
            limit,
        ),
{
    let all = batched(faces, device, 0, limit);
    assert(Seq::<Embedding>::empty() + all =~= all);
    let n = batch_size(rows.len(), faces.len(), limit);
    let new = next_rows(faces, device, limit, rows);
    let rest = batched(faces, device, rows.len() + n, limit);
    assert((rows + new) + rest =~= rows + (new + rest));
    assert(rows + Seq::<Embedding>::empty() =~= rows);
}

/// The embeddings that a run holds before its first batch, after each batch, and when all faces
/// are done.
pub open spec fn is_history<F>(
    history: Seq<Seq<Embedding>>,
    faces: Seq<F>,
    device: spec_fn(Seq<F>) -> Seq<Embedding>,
    limit: nat,
) -> bool {
    &&& limit >= 1
    &&& history.len() >= 1
    &&& history[0] == Seq::<Embedding>::empty()
    &&& history.last().len() == faces.len()
    &&& forall|k: int|
        #![trigger history[k]]
        0 <= k < history.len() - 1 ==> {
            let new = next_rows(faces, device, limit, history[k]);
            &&& history[k].len() < faces.len()
            &&& new.len() == batch_size(history[k].len(), faces.len(), limit)
            &&& history[k + 1] == history[k] + new
        }
}

/// A run ends with what the device returns for all batches put together.
proof fn lemma_history<F>(
    history: Seq<Seq<Embedding>>,
    faces: Seq<F>,
    device: spec_fn(Seq<F>) -> Seq<Embedding>,
    limit: nat,
    k: int,
)
    requires
        is_history(history, faces, device, limit),
        0 <= k < history.len(),
    ensures
        on_course(faces, device, limit, history[k]),
        history[k].len() <= faces.len(),
        k == history.len() - 1 ==> history[k] == batched(faces, device, 0, limit),
    decreases k,
{
    if k == 0 {
        run_stays_on_course(faces, device, limit, Seq::empty());
    } else {
        lemma_history(history, faces, device, limit, k - 1);
        assert(history[k] == history[k - 1] + next_rows(faces, device, limit, history[k - 1]));
        run_stays_on_course(faces, device, limit, history[k - 1]);
    }
    run_stays_on_course(faces, device, limit, history[k]);
}

/// The faces of packed crops.
pub open spec fn faces_of(crops: Seq<u8>) -> Seq<Seq<u8>> {
    Seq::new(crops.len() / (CROP as nat), |i: int| crops.subrange(i * CROP, (i + 1) * CROP))
}

/// The states of a run on packed crops: as it begins, after each batch of the next faces' pixels
/// that the device encodes, and when all faces are done.
pub open spec fn encodes(
    run: Seq<EmbeddingRun>,
    crops: Seq<u8>,
    device: spec_fn(Seq<Seq<u8>>) -> Seq<Embedding>,
) -> bool {
    &&& run.len() >= 1
    &&& run[0].wf()
    &&& run[0].faces() * CROP == crops.len()
    &&& run[0].rows() == Seq::<Embedding>::empty()
    &&& run.last().rows().len() == run.last().faces()
    &&& forall|k: int|
        #![trigger run[k]]
        0 <= k < run.len() - 1 ==> {
            let done = run[k].rows().len();
            let n = batch_size(done, run[k].faces(), run[k].limit());
            let new = run[k + 1].rows().skip(done as int);
            &&& done < run[k].faces()
            &&& run[k + 1].limit() == run[k].limit()
            &&& run[k + 1].faces() == run[k].faces()
            &&& run[k + 1].rows().len() == done + n
            &&& run[k + 1].rows().take(done as int) == run[k].rows()
            &&& new == device(faces_of(crops.subrange(done * CROP, (done + n) * CROP)))
        }
}

/// The states of a run on the faces of an image: as it begins, after each batch of the next
/// faces that the device aligns and encodes, and when all faces are done.
pub open spec fn embeds(
    run: Seq<EmbedRun>,
    device: spec_fn(Seq<[[Binary32; 2]; 5]>) -> Seq<Embedding>,
) -> bool {
    &&& run.len() >= 1
    &&& run[0].wf()
    &&& run[0].rows() == Seq::<Embedding>::empty()
    &&& run.last().rows().len() == run.last().landmarks().len()
    &&& forall|k: int|
        #![trigger run[k]]
        0 <= k < run.len() - 1 ==> {
            let new = device(run[k].next_landmarks());
            &&& run[k].rows().len() < run[k].landmarks().len()
            &&& run[k + 1].limit() == run[k].limit()
            &&& run[k + 1].landmarks() == run[k].landmarks()
            &&& new.len() == run[k].next_landmarks().len()
            &&& run[k + 1].rows() == run[k].rows() + new
        }
}

/// The faces of consecutive crops are consecutive faces.
proof fn lemma_faces_of_part(crops: Seq<u8>, start: nat, end: nat)
    requires
        start <= end,
        end * CROP <= crops.len(),
    ensures
        faces_of(crops.subrange(start * CROP, end * CROP)) == faces_of(crops).subrange(
            start as int,
            end as int,
        ),
{
    let part = crops.subrange(start * CROP, end * CROP);
    let all = faces_of(crops).subrange(start as int, end as int);
    assert(faces_of(part).len() == end - start);
    assert forall|i: int| 0 <= i < end - start implies faces_of(part)[i] == all[i] by {
        assert(faces_of(part)[i] =~= all[i]);
    }
    assert(faces_of(part) =~= all);
}

/// A run on packed crops ends with what the device returns for all batches of faces put together.
pub proof fn embeddings_follow_batches(
    run: Seq<EmbeddingRun>,
    crops: Seq<u8>,
    device: spec_fn(Seq<Seq<u8>>) -> Seq<Embedding>,
)
    requires
        encodes(run, crops, device),
    ensures
        run.last().rows() == batched(faces_of(crops), device, 0, run[0].limit()),
        run.last().rows().len() == faces_of(crops).len(),
{
    let faces = faces_of(crops);
    let limit = run[0].limit();
    let history = run.map_values(|r: EmbeddingRun| r.rows());
    lemma_encodes_constant(run, crops, device, run.len() - 1);
    assert forall|k: int| #![trigger history[k]] 0 <= k < history.len() - 1 implies {
        let new = next_rows(faces, device, limit, history[k]);
        &&& history[k].len() < faces.len()
        &&& new.len() == batch_size(history[k].len(), faces.len(), limit)
        &&& history[k + 1] == history[k] + new
    } by {
        lemma_encodes_constant(run, crops, device, k);
        let done = run[k].rows().len();
        let n = batch_size(done, faces.len(), limit);
        lemma_faces_of_part(crops, done, done + n);
        let rows = run[k + 1].rows();
        assert(rows =~= rows.take(done as int) + rows.skip(done as int));
    }
    lemma_history(history, faces, device, limit, history.len() - 1);
}

proof fn lemma_encodes_constant(
    run: Seq<EmbeddingRun>,
    crops: Seq<u8>,
    device: spec_fn(Seq<Seq<u8>>) -> Seq<Embedding>,
    k: int,
)
    requires
        encodes(run, crops, device),
        0 <= k < run.len(),
    ensures
        run[k].limit() == run[0].limit(),
        run[k].faces() == faces_of(crops).len(),
    decreases k,
{
    if k > 0 {
        lemma_encodes_constant(run, crops, device, k - 1);
        assert(run[k - 1 + 1] == run[k]);
    }
}

/// A run on the faces of an image ends with what the device returns for all batches put together.
pub proof fn embed_follows_batches(
    run: Seq<EmbedRun>,
    device: spec_fn(Seq<[[Binary32; 2]; 5]>) -> Seq<Embedding>,
)
    requires
        embeds(run, device),
    ensures
        run.last().rows() == batched(run[0].landmarks(), device, 0, run[0].limit()),
        run.last().rows().len() == run[0].landmarks().len(),
{
    let faces = run[0].landmarks();
    let limit = run[0].limit();
    let history = run.map_values(|r: EmbedRun| r.rows());
    lemma_embeds_constant(run, device, run.len() - 1);
    assert forall|k: int| #![trigger history[k]] 0 <= k < history.len() - 1 implies {
        let new = next_rows(faces, device, limit, history[k]);
        &&& history[k].len() < faces.len()
        &&& new.len() == batch_size(history[k].len(), faces.len(), limit)
        &&& history[k + 1] == history[k] + new
    } by {
        lemma_embeds_constant(run, device, k);
        assert(run[k + 1].rows() == run[k].rows() + device(run[k].next_landmarks()));
    }
    lemma_history(history, faces, device, limit, history.len() - 1);
}

proof fn lemma_embeds_constant(
    run: Seq<EmbedRun>,
    device: spec_fn(Seq<[[Binary32; 2]; 5]>) -> Seq<Embedding>,
    k: int,
)
    requires
        embeds(run, device),
        0 <= k < run.len(),
    ensures
        run[k].limit() == run[0].limit(),
        run[k].landmarks() == run[0].landmarks(),
    decreases k,
{
    if k > 0 {
        lemma_embeds_constant(run, device, k - 1);
        assert(run[k - 1 + 1] == run[k]);
    }
}

/// The states of a run on packed crops: as it begins, after each batch of embeddings that it takes
/// from memory, and when all faces are done.
pub open spec fn accepts(
    run: Seq<EmbeddingRun>,
    crops: Seq<u8>,
    bytes: Seq<Seq<u8>>,
) -> bool {
    &&& run.len() == bytes.len() + 1
    &&& run[0].wf()
    &&& run[0].faces() * CROP == crops.len()
    &&& run[0].rows() == Seq::<Embedding>::empty()
    &&& run.last().rows().len() == run.last().faces()
    &&& forall|k: int|
        #![trigger run[k]]
        0 <= k < bytes.len() ==> run[k].rows().len() < run[k].faces() && run[k].takes(
            bytes[k],
            run[k + 1],
        )
}

/// Runs that took the same bytes hold the same embeddings, batch by batch and at the end: nothing
/// else of an earlier run or of the machine's state shows in them.
pub proof fn same_bytes_give_same_embeddings(
    first: Seq<EmbeddingRun>,
    second: Seq<EmbeddingRun>,
    crops: Seq<u8>,
    bytes: Seq<Seq<u8>>,
)
    requires
        accepts(first, crops, bytes),
        accepts(second, crops, bytes),
    ensures
        forall|k: int|
            0 <= k <= bytes.len() ==> (#[trigger] first[k]).rows() == second[k].rows(),
        first.last().rows() == second.last().rows(),
{
    assert forall|k: int| 0 <= k <= bytes.len() implies (#[trigger] first[k]).rows()
        == second[k].rows() by {
        lemma_same_rows(first, second, crops, bytes, k);
    }
}

proof fn lemma_same_rows(
    first: Seq<EmbeddingRun>,
    second: Seq<EmbeddingRun>,
    crops: Seq<u8>,
    bytes: Seq<Seq<u8>>,
    k: int,
)
    requires
        accepts(first, crops, bytes),
        accepts(second, crops, bytes),
        0 <= k <= bytes.len(),
    ensures
        first[k].rows() == second[k].rows(),
    decreases k,
{
    if k > 0 {
        let j = k - 1;
        lemma_same_rows(first, second, crops, bytes, j);
        assert(first[j].takes(bytes[j], first[j + 1]));
        assert(second[j].takes(bytes[j], second[j + 1]));
        let done = first[j].rows().len() as int;
        let a = first[k].rows();
        let b = second[k].rows();
        bytes_hold_one_reading(bytes[j], a.skip(done), b.skip(done));
        assert(a =~= a.take(done) + a.skip(done));
        assert(b =~= b.take(done) + b.skip(done));
    }
}

/// The embeddings of faces, by a device that writes bytes for them into memory.
pub open spec fn read_back(
    writes: spec_fn(Seq<Seq<u8>>) -> Seq<u8>,
) -> spec_fn(Seq<Seq<u8>>) -> Seq<Embedding> {
    |faces: Seq<Seq<u8>>| memory_reading(writes(faces))
}

/// The states of a run on packed crops that hands the device the pixels of the next faces, and
/// takes the bytes that the device writes for them.
pub open spec fn served(
    run: Seq<EmbeddingRun>,
    crops: Seq<u8>,
    writes: spec_fn(Seq<Seq<u8>>) -> Seq<u8>,
) -> bool {
    accepts(
        run,
        crops,
        Seq::new(
            (run.len() - 1) as nat,
            |k: int| writes(faces_of(run[k].next_pixels(crops))),
        ),
    )
}

/// A run that hands the device the next pixels, and takes the bytes that come back, keeps with each
/// batch what those bytes hold.
pub proof fn served_run_encodes(
    run: Seq<EmbeddingRun>,
    crops: Seq<u8>,
    writes: spec_fn(Seq<Seq<u8>>) -> Seq<u8>,
)
    requires
        served(run, crops, writes),
    ensures
        encodes(run, crops, read_back(writes)),
{
    let device = read_back(writes);
    let bytes = Seq::new(
        (run.len() - 1) as nat,
        |k: int| writes(faces_of(run[k].next_pixels(crops))),
    );
    assert forall|k: int| #![trigger run[k]] 0 <= k < run.len() - 1 implies {
        let done = run[k].rows().len();
        let n = batch_size(done, run[k].faces(), run[k].limit());
        let new = run[k + 1].rows().skip(done as int);
        &&& done < run[k].faces()
        &&& run[k + 1].limit() == run[k].limit()
        &&& run[k + 1].faces() == run[k].faces()
        &&& run[k + 1].rows().len() == done + n
        &&& run[k + 1].rows().take(done as int) == run[k].rows()
        &&& new == device(faces_of(crops.subrange(done * CROP, (done + n) * CROP)))
    } by {
        let done = run[k].rows().len();
        assert(run[k].takes(bytes[k], run[k + 1]));
        let new = run[k + 1].rows().skip(done as int);
        assert(laid_out(bytes[k], embedding_words(new)));
        bytes_hold_one_reading(bytes[k], new, memory_reading(bytes[k]));
    }
}

/// A request is answered again as before: two runs on the same crops, of models with the same
/// largest batch, end with the same embeddings where the device writes the same bytes for the same
/// pixels.
pub proof fn embeddings_replay(
    first: Seq<EmbeddingRun>,
    second: Seq<EmbeddingRun>,
    crops: Seq<u8>,
    writes: spec_fn(Seq<Seq<u8>>) -> Seq<u8>,
)
    requires
        served(first, crops, writes),
        served(second, crops, writes),
        first[0].limit() == second[0].limit(),
    ensures
        first.last().rows() == second.last().rows(),
{
    served_run_encodes(first, crops, writes);
    served_run_encodes(second, crops, writes);
    embeddings_follow_batches(first, crops, read_back(writes));
    embeddings_follow_batches(second, crops, read_back(writes));
}

/// A crop gives the same embedding alone as among others, and in its place, whatever the largest
/// batches of the two runs are, where the device encodes each face by itself.
pub proof fn crops_encode_alone_as_among_others(
    all: Seq<EmbeddingRun>,
    one: Seq<EmbeddingRun>,
    crops: Seq<u8>,
    i: int,
    writes: spec_fn(Seq<Seq<u8>>) -> Seq<u8>,
)
    requires
        served(all, crops, writes),
        0 <= i < faces_of(crops).len(),
        served(one, crops.subrange(i * CROP, (i + 1) * CROP), writes),
        face_by_face(read_back(writes), all[0].limit()),
        face_by_face(read_back(writes), one[0].limit()),
    ensures
        all.last().rows().len() == faces_of(crops).len(),
        one.last().rows() == seq![all.last().rows()[i]],
{
    let device = read_back(writes);
    let crop = crops.subrange(i * CROP, (i + 1) * CROP);
    served_run_encodes(all, crops, writes);
    served_run_encodes(one, crop, writes);
    embeddings_follow_batches(all, crops, device);
    embeddings_follow_batches(one, crop, device);
    batching_is_transparent(faces_of(crops), device, all[0].limit());
    batching_is_transparent(faces_of(crop), device, one[0].limit());
    assert(faces_of(crop).len() == 1);
    assert(faces_of(crop)[0] =~= crop);
    assert(one.last().rows() =~= seq![all.last().rows()[i]]);
}

/// Crops that are encoded together give what the first and the rest give, one after the other,
/// whatever the largest batches of the three runs are, where the device encodes each face by
/// itself.
pub proof fn joined_crops_encode_as_their_parts(
    both: Seq<EmbeddingRun>,
    first: Seq<EmbeddingRun>,
    rest: Seq<EmbeddingRun>,
    a: Seq<u8>,
    b: Seq<u8>,
    writes: spec_fn(Seq<Seq<u8>>) -> Seq<u8>,
)
    requires
        served(both, a + b, writes),
        served(first, a, writes),
        served(rest, b, writes),
        face_by_face(read_back(writes), both[0].limit()),
        face_by_face(read_back(writes), first[0].limit()),
        face_by_face(read_back(writes), rest[0].limit()),
    ensures
        both.last().rows() == first.last().rows() + rest.last().rows(),
{
    let device = read_back(writes);
    served_run_encodes(both, a + b, writes);
    served_run_encodes(first, a, writes);
    served_run_encodes(rest, b, writes);
    embeddings_follow_batches(both, a + b, device);
    embeddings_follow_batches(first, a, device);
    embeddings_follow_batches(rest, b, device);
    let x = a.len() / (CROP as nat);
    let y = b.len() / (CROP as nat);
    lemma_faces_of_part(a + b, 0, x);
    lemma_faces_of_part(a + b, x, x + y);
    assert((a + b).subrange(0, a.len() as int) =~= a);
    assert((a + b).subrange(a.len() as int, (a + b).len() as int) =~= b);
    assert(faces_of(a + b) =~= faces_of(a) + faces_of(b));
    requests_join(
        faces_of(a),
        faces_of(b),
        device,
        both[0].limit(),
        first[0].limit(),
        rest[0].limit(),
    );
}

/// Runs with the same next landmarks hand the device the same bytes for them.
pub proof fn same_landmarks_hand_same_bytes(a: EmbedRun, b: EmbedRun, x: Seq<u8>, y: Seq<u8>)
    requires
        a.next_landmarks() == b.next_landmarks(),
        a.hands(x),
        b.hands(y),
    ensures
        x == y,
{
    words_have_one_layout(landmark_words(a.next_landmarks()), x, y);
}

/// The embeddings of faces, by a device that answers the bytes of their landmarks with bytes.
pub open spec fn answered(
    answers: spec_fn(Seq<u8>) -> Seq<u8>,
) -> spec_fn(Seq<[[Binary32; 2]; 5]>) -> Seq<Embedding> {
    |landmarks: Seq<[[Binary32; 2]; 5]>| wire_reading(answers(landmark_memory(landmarks)))
}

/// The states of a run on the faces of an image, from when the image is on the device: it hands
/// out the bytes of the next landmarks, and takes the embeddings that the device's answers to those
/// bytes hold on the wire.
pub open spec fn served_image(
    run: Seq<EmbedRun>,
    handed: Seq<Seq<u8>>,
    answers: spec_fn(Seq<u8>) -> Seq<u8>,
) -> bool {
    &&& run.len() == handed.len() + 1
    &&& run[0].wf()
    &&& run[0].rows() == Seq::<Embedding>::empty()
    &&& run.last().rows().len() == run.last().landmarks().len()
    &&& forall|k: int|
        #![trigger run[k]]
        0 <= k < handed.len() ==> {
            let new = run[k + 1].rows().skip(run[k].rows().len() as int);
            &&& run[k].rows().len() < run[k].landmarks().len()
            &&& run[k].hands(handed[k])
            &&& on_wire(answers(handed[k]), new)
            &&& run[k].takes(new, run[k + 1])
        }
}

/// A run that hands the device the bytes of the next landmarks, and takes the embeddings in its
/// answer, keeps with each batch what a function of those landmarks gives.
pub proof fn served_image_embeds(
    run: Seq<EmbedRun>,
    handed: Seq<Seq<u8>>,
    answers: spec_fn(Seq<u8>) -> Seq<u8>,
)
    requires
        served_image(run, handed, answers),
    ensures
        embeds(run, answered(answers)),
{
    let device = answered(answers);
    assert forall|k: int| #![trigger run[k]] 0 <= k < run.len() - 1 implies {
        let new = device(run[k].next_landmarks());
        &&& run[k].rows().len() < run[k].landmarks().len()
        &&& run[k + 1].limit() == run[k].limit()
        &&& run[k + 1].landmarks() == run[k].landmarks()
        &&& new.len() == run[k].next_landmarks().len()
        &&& run[k + 1].rows() == run[k].rows() + new
    } by {
        let new = run[k + 1].rows().skip(run[k].rows().len() as int);
        let landmarks = run[k].next_landmarks();
        assert(run[k].hands(handed[k]));
        words_have_one_layout(landmark_words(landmarks), handed[k], landmark_memory(landmarks));
        assert(on_wire(answers(handed[k]), new));
        wire_holds_one_reading(answers(handed[k]), new, wire_reading(answers(handed[k])));
    }
}

/// A request is answered again as before: two runs on the same landmarks, of models with the same
/// largest batch, hand the device the same bytes and end with the same embeddings, where the device
/// gives the same answers to the same bytes.
pub proof fn embed_replays(
    first: Seq<EmbedRun>,
    second: Seq<EmbedRun>,
    handed_first: Seq<Seq<u8>>,
    handed_second: Seq<Seq<u8>>,
    answers: spec_fn(Seq<u8>) -> Seq<u8>,
)
    requires
        served_image(first, handed_first, answers),
        served_image(second, handed_second, answers),
        first[0].landmarks() == second[0].landmarks(),
        first[0].limit() == second[0].limit(),
    ensures
        handed_first == handed_second,
        first.last().rows() == second.last().rows(),
{
    served_image_embeds(first, handed_first, answers);
    served_image_embeds(second, handed_second, answers);
    embed_follows_batches(first, answered(answers));
    embed_follows_batches(second, answered(answers));
    let (n, m) = (handed_first.len(), handed_second.len());
    let least = if n < m {
        n
    } else {
        m
    };
    assert forall|k: int| 0 <= k <= least implies first[k].rows() == second[k].rows() by {
        lemma_same_image_rows(first, second, handed_first, handed_second, answers, k);
    }
    lemma_embeds_constant(first, answered(answers), least as int);
    lemma_embeds_constant(second, answered(answers), least as int);
    // The shorter run is done, so the longer one has no next batch either.
    if n < m {
        assert(first.last() == first[least as int]);
        assert(second[least as int].rows().len() < second[least as int].landmarks().len());
    }
    if m < n {
        assert(second.last() == second[least as int]);
        assert(first[least as int].rows().len() < first[least as int].landmarks().len());
    }
    assert forall|k: int| 0 <= k < n implies handed_first[k] == handed_second[k] by {
        lemma_embeds_constant(first, answered(answers), k);
        lemma_embeds_constant(second, answered(answers), k);
        assert(first[k].hands(handed_first[k]) && second[k].hands(handed_second[k]));
        assert(first[k].rows() == second[k].rows());
        same_landmarks_hand_same_bytes(first[k], second[k], handed_first[k], handed_second[k]);
    }
    assert(handed_first =~= handed_second);
}

proof fn lemma_same_image_rows(
    first: Seq<EmbedRun>,
    second: Seq<EmbedRun>,
    handed_first: Seq<Seq<u8>>,
    handed_second: Seq<Seq<u8>>,
    answers: spec_fn(Seq<u8>) -> Seq<u8>,
    k: int,
)
    requires
        served_image(first, handed_first, answers),
        served_image(second, handed_second, answers),
        first[0].landmarks() == second[0].landmarks(),
        first[0].limit() == second[0].limit(),
        0 <= k <= handed_first.len(),
        k <= handed_second.len(),
    ensures
        first[k].rows() == second[k].rows(),
    decreases k,
{
    if k > 0 {
        let j = k - 1;
        let device = answered(answers);
        lemma_same_image_rows(first, second, handed_first, handed_second, answers, j);
        served_image_embeds(first, handed_first, answers);
        served_image_embeds(second, handed_second, answers);
        lemma_embeds_constant(first, device, j);
        lemma_embeds_constant(second, device, j);
        assert(first[j + 1].rows() == first[j].rows() + device(first[j].next_landmarks()));
        assert(second[j + 1].rows() == second[j].rows() + device(second[j].next_landmarks()));
    }
}

/// A face of an image gives the same embedding alone as among others, and in its place, whatever
/// the largest batches of the two runs are, where the device aligns and encodes each face by
/// itself.
pub proof fn faces_embed_alone_as_among_others(
    all: Seq<EmbedRun>,
    one: Seq<EmbedRun>,
    handed_all: Seq<Seq<u8>>,
    handed_one: Seq<Seq<u8>>,
    i: int,
    answers: spec_fn(Seq<u8>) -> Seq<u8>,
)
    requires
        served_image(all, handed_all, answers),
        0 <= i < all[0].landmarks().len(),
        served_image(one, handed_one, answers),
        one[0].landmarks() == seq![all[0].landmarks()[i]],
        face_by_face(answered(answers), all[0].limit()),
        face_by_face(answered(answers), one[0].limit()),
    ensures
        all.last().rows().len() == all[0].landmarks().len(),
        one.last().rows() == seq![all.last().rows()[i]],
{
    let device = answered(answers);
    served_image_embeds(all, handed_all, answers);
    served_image_embeds(one, handed_one, answers);
    embed_follows_batches(all, device);
    embed_follows_batches(one, device);
    batching_is_transparent(all[0].landmarks(), device, all[0].limit());
    batching_is_transparent(one[0].landmarks(), device, one[0].limit());
    assert(one.last().rows() =~= seq![all.last().rows()[i]]);
}

/// How many faces the next batch has: as many as are left, and no more than the largest batch.
pub open spec fn least(a: int, b: int) -> int {
    if a < b {
        a
    } else {
        b
    }
}

/// What goes to the device next are the pixels from the first crop that is not done on, unchanged
/// and in order, of as many whole crops as fit a batch.
pub proof fn input_is_the_next_crops(run: EmbeddingRun, crops: Seq<u8>, i: int)
    requires
        run.wf(),
        crops.len() == run.faces() * 37632,
        0 <= i,
        i < least((run.faces() - run.rows().len()) as int, run.limit() as int) * 37632,
    ensures
        run.next_pixels(crops).len() == least(
            (run.faces() - run.rows().len()) as int,
            run.limit() as int,
        ) * 37632,
        run.next_pixels(crops)[i] == crops[run.rows().len() * 37632 + i],
{
}

/// The faces of packed crops are consecutive runs of the bytes of one crop.
pub proof fn faces_are_consecutive_crops(crops: Seq<u8>, face: int, i: int)
    requires
        0 <= face < crops.len() / 37632,
        0 <= i < 37632,
    ensures
        faces_of(crops).len() == crops.len() / 37632,
        faces_of(crops)[face].len() == 37632,
        faces_of(crops)[face][i] == crops[face * 37632 + i],
{
}

/// A run takes embeddings in the order of the faces: those it has stay, and row `row` of the batch
/// is the next but `row`, component by component as the bytes hold it.
pub proof fn run_takes_rows_in_order(
    before: EmbeddingRun,
    after: EmbeddingRun,
    bytes: Seq<u8>,
    row: int,
    component: int,
)
    requires
        before.wf(),
        before.takes(bytes, after),
        0 <= row,
        row < least((before.faces() - before.rows().len()) as int, before.limit() as int),
        0 <= component < 512,
    ensures
        after.rows().len() == before.rows().len() + least(
            (before.faces() - before.rows().len()) as int,
            before.limit() as int,
        ),
        after.rows().take(before.rows().len() as int) == before.rows(),
        after.rows()[before.rows().len() + row]@[component].bits == word_at(
            bytes,
            4 * (512 * row + component),
        ),
        after.limit() == before.limit(),
        after.faces() == before.faces(),
{
    let new = after.rows().skip(before.rows().len() as int);
    embeddings_lie_in_order(bytes, new, row, component);
}

/// A run hands out the landmarks of the next faces as they were given: face by face, point by
/// point, `x` before `y`, of as many faces as fit a batch.
pub proof fn run_hands_landmarks_in_order(
    run: EmbedRun,
    bytes: Seq<u8>,
    face: int,
    point: int,
    axis: int,
)
    requires
        run.wf(),
        run.hands(bytes),
        0 <= face,
        face < least((run.landmarks().len() - run.rows().len()) as int, run.limit() as int),
        0 <= point < 5,
        0 <= axis < 2,
    ensures
        bytes.len() == 40 * least(
            (run.landmarks().len() - run.rows().len()) as int,
            run.limit() as int,
        ),
        word_at(bytes, 4 * (10 * face + 2 * point + axis)) == run.landmarks()[run.rows().len()
            + face]@[point]@[axis].bits,
{
    landmarks_lie_in_order(run.next_landmarks(), bytes, face, point, axis);
}

/// A run on an image takes the embeddings of a batch after those it has, in order.
pub proof fn embed_run_takes_rows_in_order(
    before: EmbedRun,
    after: EmbedRun,
    rows: Seq<Embedding>,
    i: int,
)
    requires
        before.wf(),
        before.takes(rows, after),
        0 <= i < before.rows().len() + rows.len(),
    ensures
        rows.len() == least(
            (before.landmarks().len() - before.rows().len()) as int,
            before.limit() as int,
        ),
        after.rows().len() == before.rows().len() + rows.len(),
        after.rows()[i] == if i < before.rows().len() {
            before.rows()[i]
        } else {
            rows[i - before.rows().len()]
        },
        after.landmarks() == before.landmarks(),
        after.limit() == before.limit(),
        after.uploaded() == before.uploaded(),
        after.width() == before.width(),
        after.height() == before.height(),
{
}

} // verus!
