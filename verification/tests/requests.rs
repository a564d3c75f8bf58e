//! Requests against a stand-in for the device.
use arcface_hrx::alignment::TEMPLATE;
use arcface_hrx::arcface::{Alignment, Sampling, CROP};
use arcface_hrx::batches::{next_batch, Batch};
use arcface_hrx::bytes::{embeddings_from_memory, embeddings_from_wire, landmark_bytes, ROW};
use arcface_hrx::encoding::Binary32;
use arcface_hrx::inference::Inference;
use arcface_hrx::loading::{Loading, Step};
use arcface_hrx::runs::{BenchmarkStep, EmbedStep, ImageRun, ImageStep};
use arcface_hrx::tensor::{DType, Layout, TensorDesc};
use arcface_hrx::{AlignedFaces, ArcFace, Embedding, Error, FaceInference, Options};
use arcface_hrx::{EMBEDDING, SIZE};

fn steps(mut loading: Loading) -> (Vec<Step>, Result<ArcFace<&'static str>, Error>) {
    let mut seen = vec![];
    loop {
        let step = loading.current();
        seen.push(step);
        if step == Step::Ready {
            return (seen, Ok(loading.finish("context").unwrap()));
        }
        loading = match loading.advance() {
            Ok(next) => next,
            Err(e) => return (seen, Err(e)),
        };
    }
}

fn model(max_batch: usize) -> ArcFace<&'static str> {
    steps(ArcFace::<&str>::load_in(max_batch).ok().unwrap()).1.ok().unwrap()
}

fn bits(x: f32) -> Binary32 {
    Binary32 { bits: x.to_bits() }
}

/// An embedding whose components can be told apart.
fn row(face: u32) -> Embedding {
    std::array::from_fn(|i| Binary32 { bits: 0x0102_0304 + face * 0x0010_0000 + i as u32 })
}

fn in_memory(rows: &[Embedding]) -> Vec<u8> {
    rows.iter().flatten().flat_map(|x| x.bits.to_ne_bytes()).collect()
}

fn desc(dtype: DType, layout: Layout, contiguous: bool, shape: &[usize]) -> TensorDesc {
    TensorDesc { dtype, layout, contiguous, shape: shape.to_vec() }
}

#[test]
fn options_default_to_the_first_device_and_batches_of_sixteen() {
    assert_eq!(Options::default(), Options { device: 0, max_batch: 16 });
    assert_eq!((SIZE, EMBEDDING, CROP, ROW), (112, 512, 112 * 112 * 3, 512 * 4));
}

#[test]
fn messages() {
    for (error, message) in [
        (Error::MaxBatch, "max_batch must be 1..=64"),
        (Error::CropTensor, "expected contiguous NHWC uint8 112×112 RGB crops"),
        (Error::FaceCount, "alignment requires 1..=max_batch faces"),
        (Error::Landmarks, "invalid or degenerate alignment landmarks"),
        (Error::IncompleteCrops, "expected complete 112×112 RGB crops"),
        (Error::BenchmarkBatch, "benchmark requires one nonempty batch"),
        (Error::BenchmarkSamples, "use at least ten timing samples"),
        (Error::ImageSize, "invalid RGB image size"),
        (Error::NonFinite, "non-finite embedding"),
        (Error::ZeroEmbedding, "zero embedding"),
    ] {
        assert_eq!(error.message(), message);
    }
}

#[test]
fn loading_takes_its_steps_in_order() {
    let options = Options { device: 3, max_batch: 64 };
    let rest = [
        Step::OpenContext { device: 3 },
        Step::LoadModel { max_batch: 64 },
        Step::CreateImageOps { slots: 8 },
        Step::Ready,
    ];
    let (seen, loaded) = steps(ArcFace::<&str>::from_pretrained(options).ok().unwrap());
    assert_eq!(seen[0], Step::FetchWeights);
    assert_eq!(seen[1..], rest);
    assert_eq!(*loaded.ok().unwrap().context(), "context");
    let (seen, loaded) = steps(ArcFace::<&str>::load(options));
    assert_eq!(seen, rest);
    assert!(loaded.is_ok());
    let (seen, loaded) = steps(ArcFace::<&str>::load_in(64).ok().unwrap());
    assert_eq!(seen, rest[1..]);
    assert!(loaded.is_ok());
    assert!(ArcFace::<&str>::load(options).finish("too early").is_none());
}

#[test]
fn largest_batches_are_checked() {
    for max_batch in [0, 65, usize::MAX] {
        let options = Options { device: 0, max_batch };
        // Before anything is fetched or opened, but after the context where the file is given.
        assert_eq!(ArcFace::<&str>::from_pretrained(options).err(), Some(Error::MaxBatch));
        assert_eq!(ArcFace::<&str>::load_in(max_batch).err(), Some(Error::MaxBatch));
        let (seen, loaded) = steps(ArcFace::<&str>::load(options));
        assert_eq!(seen, [Step::OpenContext { device: 0 }]);
        assert_eq!(loaded.err(), Some(Error::MaxBatch));
    }
    for max_batch in [1, 64] {
        assert!(ArcFace::<&str>::load_in(max_batch).is_ok());
    }
}

#[test]
fn crops_on_the_device_are_checked() {
    let model = model(4);
    let good = desc(DType::U8, Layout::Nhwc, true, &[7, 112, 112, 3]);
    assert_eq!(model.submit(&good), Ok(7));
    for bad in [
        desc(DType::F32, Layout::Nhwc, true, &[7, 112, 112, 3]),
        desc(DType::U8, Layout::Plain, true, &[7, 112, 112, 3]),
        desc(DType::U8, Layout::Other, true, &[7, 112, 112, 3]),
        desc(DType::U8, Layout::Nhwc, false, &[7, 112, 112, 3]),
        desc(DType::U8, Layout::Nhwc, true, &[112, 112, 3]),
        desc(DType::U8, Layout::Nhwc, true, &[7, 112, 112, 3, 1]),
        desc(DType::U8, Layout::Nhwc, true, &[7, 111, 112, 3]),
        desc(DType::U8, Layout::Nhwc, true, &[7, 112, 113, 3]),
        desc(DType::U8, Layout::Nhwc, true, &[7, 112, 112, 4]),
    ] {
        assert_eq!(model.submit(&bad), Err(Error::CropTensor));
    }
}

#[test]
fn landmarks_on_the_device_are_checked() {
    let model = model(2);
    for faces in [1, 2] {
        let landmarks = desc(DType::F32, Layout::Plain, true, &[faces, 5, 2]);
        let alignment = model.align(&landmarks).unwrap();
        let want = Alignment {
            faces,
            template: TEMPLATE,
            width: 112,
            height: 112,
            sampling: Sampling::BlackTiesEven,
        };
        assert_eq!(alignment, want);
        // The crops sampled for them are accepted in turn.
        let shape = [alignment.faces, alignment.height, alignment.width, 3];
        assert_eq!(model.submit(&desc(DType::U8, Layout::Nhwc, true, &shape)), Ok(faces));
    }
    for shape in [vec![0, 5, 2], vec![3, 5, 2], vec![1, 4, 2], vec![1, 5, 3], vec![1, 5]] {
        let landmarks = desc(DType::F32, Layout::Plain, true, &shape);
        assert_eq!(model.align(&landmarks), Err(Error::FaceCount));
    }
}

#[test]
fn outputs_of_a_fit_are_told_apart() {
    let fit = vec!["forward", "inverse", "status", "more"];
    assert_eq!(*AlignedFaces::transforms(&fit), "inverse");
    let aligned = AlignedFaces::new(fit, vec!["crops", "more"]);
    assert_eq!((*aligned.crops(), *aligned.status()), ("crops", "status"));
    let inference = Inference { outputs: vec!["embeddings", "more"], completion: 5 };
    let run: ImageRun<&str, &str> = model(1).submit_image();
    assert!(matches!(run.step(), ImageStep::Align));
    let run = run.aligned(Ok::<_, u8>(aligned)).ok().unwrap();
    assert!(matches!(run.step(), ImageStep::Submit { crops } if *crops == "crops"));
    let faces = run.submitted(Ok::<_, u8>(inference)).ok().unwrap().unwrap();
    assert_eq!((*faces.embeddings(), *faces.status()), ("embeddings", "status"));
    assert_eq!((*faces.completion(), faces.context), (5, "context"));
}

fn submitted() -> FaceInference<(), (), ()> {
    FaceInference {
        inference: Inference { outputs: vec![()], completion: () },
        status: (),
        context: (),
    }
}

#[test]
fn geometry_is_checked_before_embeddings_are_returned() {
    let rows = [row(0), row(1)];
    let wire: Vec<u8> = rows.iter().flatten().flat_map(|x| x.bits.to_le_bytes()).collect();
    assert_eq!(submitted().wait(&[0; 8], &vec![wire.clone()]).unwrap(), rows);
    for place in 0..8 {
        let mut status = [0; 8];
        status[place] = 1;
        assert_eq!(submitted().wait(&status, &vec![wire.clone()]), Err(Error::Landmarks));
    }
    // Later outputs, and bytes after the last complete status or embedding, are left out.
    let mut longer = wire.clone();
    longer.extend([9; ROW - 1]);
    assert_eq!(submitted().wait(&[0, 0, 0, 0, 1, 1, 1], &vec![longer, vec![1]]).unwrap(), rows);
    assert_eq!(submitted().wait(&[], &vec![vec![]]).unwrap(), Vec::<Embedding>::new());
}

#[test]
fn bytes_in_memory_and_on_the_wire() {
    let faces = [[[bits(1.5), bits(-2.)]; 5], [[bits(3.25), bits(0.)]; 5]];
    let mut want = vec![];
    for face in &faces {
        for point in face {
            for x in point {
                want.extend(x.bits.to_ne_bytes());
            }
        }
    }
    assert_eq!(landmark_bytes(&faces), want);
    assert_eq!(landmark_bytes(&[]), Vec::<u8>::new());
    let rows = [row(3), row(4), row(5)];
    assert_eq!(embeddings_from_memory(&in_memory(&rows)), rows);
    assert_eq!(embeddings_from_memory(&[]), Vec::<Embedding>::new());
    let mut wire = vec![0u8; ROW];
    wire[..4].copy_from_slice(&[0x04, 0x03, 0x02, 0x81]);
    assert_eq!(embeddings_from_wire(&wire)[0][0], Binary32 { bits: 0x8102_0304 });
}

#[test]
fn batches_cover_a_request() {
    for (total, max_batch) in [(0, 3), (1, 3), (3, 3), (4, 3), (7, 3), (5, 64), (130, 64)] {
        let mut done = 0;
        let mut sizes = vec![];
        while let Some(Batch { start, count }) = next_batch(done, total, max_batch) {
            assert_eq!(start, done);
            assert!(1 <= count && count <= max_batch);
            sizes.push(count);
            done += count;
        }
        assert_eq!(done, total);
        assert_eq!(sizes.len(), total.div_ceil(max_batch));
        for count in sizes.iter().rev().skip(1) {
            assert_eq!(*count, max_batch);
        }
    }
}

#[test]
fn crops_are_encoded_in_batches() {
    // The stand-in names each face by its first pixel.
    let crops: Vec<u8> = (0..7 * CROP).map(|i| (i / CROP) as u8).collect();
    let want: Vec<Embedding> = (0..7).map(row).collect();
    for max_batch in [1, 2, 3, 6, 7, 16, 64] {
        let mut run = model(max_batch).embeddings(&crops).ok().unwrap();
        let mut sizes = vec![];
        while let Some(batch) = run.next() {
            let input = run.input(&crops);
            assert_eq!(input.len(), batch.count * CROP);
            sizes.push(batch.count);
            let rows: Vec<Embedding> = input.chunks(CROP).map(|c| row(c[0] as u32)).collect();
            run.accept(&in_memory(&rows));
        }
        assert_eq!(sizes.iter().sum::<usize>(), 7);
        assert_eq!(sizes.len(), 7usize.div_ceil(max_batch));
        assert_eq!(run.finish().unwrap(), want);
    }
    let none = model(3).embeddings(&[]).ok().unwrap();
    assert_eq!(none.next(), None);
    assert!(none.input(&[]).is_empty());
    assert_eq!(none.finish().unwrap(), Vec::<Embedding>::new());
    assert!(model(3).embeddings(&crops).ok().unwrap().finish().is_none());
    assert_eq!(model(3).embeddings(&[0; 5]).err(), Some(Error::IncompleteCrops));
    assert_eq!(model(3).embeddings(&crops[1..]).err(), Some(Error::IncompleteCrops));
}

#[test]
fn faces_are_aligned_and_encoded_in_batches() {
    let landmarks: Vec<[[Binary32; 2]; 5]> =
        (0..5).map(|i| [[bits(i as f32), bits(0.5)]; 5]).collect();
    let want: Vec<Embedding> = (0..5).map(row).collect();
    for max_batch in [1, 2, 3, 5, 64] {
        let mut run = model(max_batch).embed(20, 10, landmarks.clone()).ok().unwrap();
        let mut uploads = 0;
        let mut sizes = vec![];
        loop {
            match run.step() {
                EmbedStep::UploadImage { desc } => {
                    assert!(sizes.is_empty());
                    uploads += 1;
                    assert_eq!(desc.shape, [1, 10, 20, 3]);
                    assert_eq!(desc.dtype, DType::U8);
                    assert_eq!(desc.layout, Layout::Nhwc);
                    assert!(desc.contiguous);
                    run.image_uploaded();
                }
                EmbedStep::Faces { desc, bytes } => {
                    assert_eq!(desc.dtype, DType::F32);
                    assert_eq!(desc.shape, [bytes.len() / 40, 5, 2]);
                    assert!(model(max_batch).align(&desc).is_ok());
                    let rows: Vec<Embedding> = bytes
                        .chunks(40)
                        .map(|face| f32::from_ne_bytes([face[0], face[1], face[2], face[3]]))
                        .map(|x| row(x as u32))
                        .collect();
                    sizes.push(rows.len());
                    run.accept(rows);
                }
                EmbedStep::Finished => break,
            }
        }
        assert_eq!(uploads, 1);
        assert_eq!(sizes.len(), 5usize.div_ceil(max_batch));
        assert_eq!(run.finish().unwrap(), want);
    }
    // Without faces there is nothing to do, whatever the image.
    let none = model(3).embed(0, 0, vec![]).ok().unwrap();
    assert!(matches!(none.step(), EmbedStep::Finished));
    assert_eq!(none.finish().unwrap(), Vec::<Embedding>::new());
    assert!(model(3).embed(20, 10, landmarks.clone()).ok().unwrap().finish().is_none());
    for (width, height) in [(0, 10), (20, 0), (0, 0)] {
        let refused = model(3).embed(width, height, landmarks.clone());
        assert_eq!(refused.err(), Some(Error::ImageSize));
    }
}

#[test]
fn benchmarks_warm_up_before_they_time() {
    let crops = vec![0u8; 2 * CROP + 1];
    for samples in [10, 23] {
        let mut benchmark = model(2).benchmark(&crops[..2 * CROP], samples).ok().unwrap();
        let mut runs = vec![];
        while benchmark.step() != BenchmarkStep::Finished {
            runs.push(benchmark.step());
            benchmark.advance();
        }
        assert_eq!(runs.len(), 10 + samples);
        assert!(runs[..10].iter().all(|r| *r == BenchmarkStep::Warm));
        assert!(runs[10..].iter().all(|r| *r == BenchmarkStep::Timed));
        benchmark.advance();
        assert_eq!(benchmark.step(), BenchmarkStep::Finished);
    }
    assert_eq!(model(2).benchmark(&[], 10).err(), Some(Error::BenchmarkBatch));
    assert_eq!(model(2).benchmark(&crops, 10).err(), Some(Error::BenchmarkBatch));
    assert_eq!(model(2).benchmark(&[], 0).err(), Some(Error::BenchmarkBatch));
    assert_eq!(model(2).benchmark(&crops[..CROP], 9).err(), Some(Error::BenchmarkSamples));
    // Bytes that do not divide into crops are refused by the first run.
    assert!(model(2).benchmark(&crops[..5], 10).is_ok());
    assert_eq!(model(2).embeddings(&crops[..5]).err(), Some(Error::IncompleteCrops));
}

/// The outcome of a whole request for crops, from a stand-in that names each face by its first
/// pixel.
fn encode_all(max_batch: usize, crops: &[u8]) -> Vec<Embedding> {
    let mut run = model(max_batch).embeddings(crops).ok().unwrap();
    while run.next().is_some() {
        let rows: Vec<Embedding> =
            run.input(crops).chunks(CROP).map(|c| row(c[0] as u32)).collect();
        run.accept(&in_memory(&rows));
    }
    run.finish().unwrap()
}

#[test]
fn crops_give_the_same_alone_as_together() {
    let crops: Vec<u8> = (0..5 * CROP).map(|i| (9 - i / CROP) as u8).collect();
    let all = encode_all(3, &crops);
    for (i, crop) in crops.chunks(CROP).enumerate() {
        assert_eq!(encode_all(2, crop), [all[i]]);
    }
    for split in 0..=5 {
        let (a, b) = crops.split_at(split * CROP);
        assert_eq!([encode_all(1, a), encode_all(4, b)].concat(), all);
    }
}

#[test]
fn requests_without_outputs_are_joined_as_they_are() {
    let aligned = AlignedFaces::new(vec!["forward", "inverse", "status"], vec![]);
    assert!(aligned.crops.is_empty());
    let run: ImageRun<&str, &str> = model(1).submit_image();
    let run = run.aligned(Ok::<_, u8>(aligned)).ok().unwrap();
    let none = Inference { outputs: vec![], completion: 5 };
    let faces = run.submitted(Ok::<_, u8>(none)).ok().unwrap().unwrap();
    assert!(faces.inference.outputs.is_empty());
    assert_eq!((*faces.status(), *faces.completion()), ("status", 5));
}

#[test]
fn a_failed_step_ends_the_submission_of_an_image() {
    let run: ImageRun<&str, &str> = model(1).submit_image();
    assert_eq!(run.aligned(Err("no fit")).err(), Some("no fit"));
    let run: ImageRun<&str, &str> = model(1).submit_image();
    let aligned = AlignedFaces { crops: vec!["crops"], status: "status" };
    let run = run.aligned(Ok::<_, &str>(aligned)).ok().unwrap();
    let outcome: Result<Inference<&str, u8>, &str> = Err("no slot");
    assert_eq!(run.submitted(outcome).err(), Some("no slot"));
    let run: ImageRun<&str, &str> = model(1).submit_image();
    let early = Inference { outputs: vec!["embeddings"], completion: 5 };
    assert!(run.submitted(Ok::<_, u8>(early)).ok().unwrap().is_none());
}

#[test]
fn requests_are_answered_again_as_before() {
    let crops: Vec<u8> = (0..5 * CROP).map(|i| (3 + i / CROP) as u8).collect();
    let model = model(2);
    let replay = |crops: &[u8]| {
        let mut run = model.embeddings(crops).ok().unwrap();
        while run.next().is_some() {
            let rows: Vec<Embedding> =
                run.input(crops).chunks(CROP).map(|c| row(c[0] as u32)).collect();
            run.accept(&in_memory(&rows));
        }
        run.finish().unwrap()
    };
    let first = replay(&crops);
    replay(&crops[CROP..]);
    assert_eq!(replay(&crops), first);
    let landmarks: Vec<[[Binary32; 2]; 5]> =
        (0..5).map(|i| [[bits(i as f32), bits(0.5)]; 5]).collect();
    let handed = || {
        let mut run = model.embed(20, 10, landmarks.clone()).ok().unwrap();
        run.image_uploaded();
        let mut all = vec![];
        while let EmbedStep::Faces { bytes, .. } = run.step() {
            run.accept(vec![row(0); bytes.len() / 40]);
            all.push(bytes);
        }
        all
    };
    assert_eq!(handed(), handed());
}
