//! Numbers as bytes: in the byte order of the wire, and in that of the machine.
use crate::encoding::Binary32;
use crate::EMBEDDING;
use vstd::endian::{endianness, Endian};
use vstd::prelude::*;

verus! {

/// An embedding: single-precision components, not normalized.
pub type Embedding = [Binary32; EMBEDDING];

/// Bytes of one embedding.
pub const ROW: usize = 2048;

/// The word whose bytes are `b`, the least significant first.
pub open spec fn little_endian(b: Seq<u8>) -> u32 {
    (b[0] + 0x100 * b[1] + 0x1_0000 * b[2] + 0x100_0000 * b[3]) as u32
}

/// The word whose bytes are `b`, the most significant first.
pub open spec fn big_endian(b: Seq<u8>) -> u32 {
    (b[3] + 0x100 * b[2] + 0x1_0000 * b[1] + 0x100_0000 * b[0]) as u32
}

/// Each word stands at its place in the bytes, the least significant byte first.
pub open spec fn laid_out_little(bytes: Seq<u8>, words: Seq<u32>) -> bool {
    &&& bytes.len() == 4 * words.len()
    &&& forall|i: int|
        0 <= i < words.len() ==> #[trigger] words[i] == little_endian(
            bytes.subrange(4 * i, 4 * i + 4),
        )
}

/// Each word stands at its place in the bytes, the most significant byte first.
pub open spec fn laid_out_big(bytes: Seq<u8>, words: Seq<u32>) -> bool {
    &&& bytes.len() == 4 * words.len()
    &&& forall|i: int|
        0 <= i < words.len() ==> #[trigger] words[i] == big_endian(
            bytes.subrange(4 * i, 4 * i + 4),
        )
}

/// The bytes are those of the words as the machine holds them in memory.
pub open spec fn laid_out(bytes: Seq<u8>, words: Seq<u32>) -> bool {
    match endianness() {
        Endian::Little => laid_out_little(bytes, words),
        Endian::Big => laid_out_big(bytes, words),
    }
}

/// The number that four bytes in memory make from `at` on: on a little-endian machine the first
/// counts ones, on a big-endian machine the last.
pub open spec fn word_at(bytes: Seq<u8>, at: int) -> int {
    match endianness() {
        Endian::Little => bytes[at] + 0x100 * bytes[at + 1] + 0x1_0000 * bytes[at + 2] + 0x100_0000
            * bytes[at + 3],
        Endian::Big => bytes[at + 3] + 0x100 * bytes[at + 2] + 0x1_0000 * bytes[at + 1]
            + 0x100_0000 * bytes[at],
    }
}

/// Each word is the number that its four bytes make, in order and without gaps.
pub proof fn words_lie_in_order(bytes: Seq<u8>, words: Seq<u32>, i: int)
    requires
        laid_out(bytes, words),
        0 <= i < words.len(),
    ensures
        bytes.len() == 4 * words.len(),
        word_at(bytes, 4 * i) == words[i],
{
    let b = bytes.subrange(4 * i, 4 * i + 4);
    match endianness() {
        Endian::Little => {
            assert(words[i] == little_endian(b));
        },
        Endian::Big => {
            assert(words[i] == big_endian(b));
        },
    }
}

/// Calls `bytemuck::cast_slice` from words to bytes, which views the memory of the words: four
/// bytes for each word, in order, in the byte order of the machine that executes.
#[verifier::external_body]
fn memory_of(words: &[u32]) -> (r: Vec<u8>)
    ensures
        laid_out(r@, words@),
{
    bytemuck::cast_slice::<u32, u8>(words).to_vec()
}

/// Calls `bytemuck::cast_slice_mut` from words to bytes and writes `bytes` through the view: the
/// words then have these bytes in memory, in order, in the byte order of the machine that
/// executes.
#[verifier::external_body]
fn write_memory(words: &mut Vec<u32>, bytes: &[u8])
    requires
        bytes@.len() == 4 * old(words)@.len(),
    ensures
        final(words)@.len() == old(words)@.len(),
        laid_out(bytes@, final(words)@),
{
    bytemuck::cast_slice_mut::<u32, u8>(words).copy_from_slice(bytes)
}

/// A number below two to the power of 32 has one expansion in bytes.
proof fn lemma_digits(a: u8, b: u8, c: u8, d: u8, e: u8, f: u8, g: u8, h: u8)
    requires
        (a + 0x100 * b + 0x1_0000 * c + 0x100_0000 * d) as u32 == (e + 0x100 * f + 0x1_0000 * g
            + 0x100_0000 * h) as u32,
    ensures
        a == e && b == f && c == g && d == h,
{
    let v = a + 0x100 * b + 0x1_0000 * c + 0x100_0000 * d;
    assert(v == e + 0x100 * f + 0x1_0000 * g + 0x100_0000 * h);
    let v1 = b + 0x100 * c + 0x1_0000 * d;
    assert(v == 0x100 * v1 + a);
    assert(a == e && v1 == f + 0x100 * g + 0x1_0000 * h);
    let v2 = c + 0x100 * d;
    assert(v1 == 0x100 * v2 + b);
    assert(b == f && v2 == g + 0x100 * h);
}

/// The bytes of a word are told by the word, in either order.
proof fn lemma_word_bytes(x: Seq<u8>, y: Seq<u8>)
    requires
        x.len() == 4,
        y.len() == 4,
        little_endian(x) == little_endian(y) || big_endian(x) == big_endian(y),
    ensures
        x == y,
{
    if little_endian(x) == little_endian(y) {
        lemma_digits(x[0], x[1], x[2], x[3], y[0], y[1], y[2], y[3]);
    } else {
        lemma_digits(x[3], x[2], x[1], x[0], y[3], y[2], y[1], y[0]);
    }
    assert(x =~= y);
}

/// Words have one layout in memory: the bytes that hold them are the same whenever they are taken.
pub proof fn words_have_one_layout(words: Seq<u32>, a: Seq<u8>, b: Seq<u8>)
    requires
        laid_out(a, words),
        laid_out(b, words),
    ensures
        a == b,
{
    assert forall|i: int| 0 <= i < a.len() implies a[i] == b[i] by {
        let k = i / 4;
        let x = a.subrange(4 * k, 4 * k + 4);
        let y = b.subrange(4 * k, 4 * k + 4);
        match endianness() {
            Endian::Little => {
                assert(words[k] == little_endian(x) && words[k] == little_endian(y));
            },
            Endian::Big => {
                assert(words[k] == big_endian(x) && words[k] == big_endian(y));
            },
        }
        lemma_word_bytes(x, y);
        assert(a[i] == x[i - 4 * k] && b[i] == y[i - 4 * k]);
    }
    assert(a =~= b);
}

/// Bit patterns of landmarks, in order: the faces, their five points, `x` then `y`.
pub open spec fn landmark_words(landmarks: Seq<[[Binary32; 2]; 5]>) -> Seq<u32> {
    Seq::new(10 * landmarks.len(), |i: int| landmarks[i / 10]@[(i % 10) / 2]@[i % 2].bits)
}

/// Landmarks lie in memory as they are given: face by face, point by point, `x` before `y`.
pub proof fn landmarks_lie_in_order(
    landmarks: Seq<[[Binary32; 2]; 5]>,
    bytes: Seq<u8>,
    face: int,
    point: int,
    axis: int,
)
    requires
        laid_out(bytes, landmark_words(landmarks)),
        0 <= face < landmarks.len(),
        0 <= point < 5,
        0 <= axis < 2,
    ensures
        bytes.len() == 40 * landmarks.len(),
        word_at(bytes, 4 * (10 * face + 2 * point + axis)) == landmarks[face]@[point]@[axis].bits,
{
    let i = 10 * face + 2 * point + axis;
    words_lie_in_order(bytes, landmark_words(landmarks), i);
    assert(i / 10 == face && (i % 10) / 2 == point && i % 2 == axis);
}

/// The landmarks as the machine holds them in memory.
pub fn landmark_bytes(landmarks: &[[[Binary32; 2]; 5]]) -> (r: Vec<u8>)
    ensures
        laid_out(r@, landmark_words(landmarks@)),
        r@.len() == 40 * landmarks@.len(),
        forall|face: int, point: int, axis: int|
            0 <= face < landmarks@.len() && 0 <= point < 5 && 0 <= axis < 2
                ==> #[trigger] landmarks@[face]@[point]@[axis].bits == word_at(
                r@,
                4 * (10 * face + 2 * point + axis),
            ),
{
    let mut words: Vec<u32> = Vec::new();
    let ghost all = landmark_words(landmarks@);
    let mut face: usize = 0;
    while face < landmarks.len()
        invariant
            face <= landmarks@.len(),
            all == landmark_words(landmarks@),
            words@.len() == 10 * face,
            forall|j: int| 0 <= j < words@.len() ==> words@[j] == all[j],
        decreases landmarks@.len() - face,
    {
        let mut point: usize = 0;
        while point < 5
            invariant
                face < landmarks@.len(),
                point <= 5,
                all == landmark_words(landmarks@),
                words@.len() == 10 * face + 2 * point,
                forall|j: int| 0 <= j < words@.len() ==> words@[j] == all[j],
            decreases 5 - point,
        {
            words.push(landmarks[face][point][0].bits);
            words.push(landmarks[face][point][1].bits);
            point = point + 1;
        }
        face = face + 1;
    }
    assert(words@ =~= all);
    let r = memory_of(&words);
    proof {
        assert forall|face: int, point: int, axis: int|
            0 <= face < landmarks@.len() && 0 <= point < 5 && 0 <= axis < 2
            implies #[trigger] landmarks@[face]@[point]@[axis].bits == word_at(
            r@,
            4 * (10 * face + 2 * point + axis),
        ) by {
            landmarks_lie_in_order(landmarks@, r@, face, point, axis);
        }
    }
    r
}

/// Bit patterns of embeddings, in order.
pub open spec fn embedding_words(rows: Seq<Embedding>) -> Seq<u32> {
    Seq::new(
        EMBEDDING as nat * rows.len(),
        |i: int| rows[i / (EMBEDDING as int)]@[i % (EMBEDDING as int)].bits,
    )
}

/// The bytes are those of the embeddings on the wire, the least significant first; bytes after the
/// last complete embedding are left out.
pub open spec fn on_wire(bytes: Seq<u8>, rows: Seq<Embedding>) -> bool {
    &&& rows.len() == bytes.len() / (ROW as nat)
    &&& laid_out_little(bytes.take((ROW * rows.len()) as int), embedding_words(rows))
}

/// Embeddings lie in memory row by row, each component by component.
pub proof fn embeddings_lie_in_order(bytes: Seq<u8>, rows: Seq<Embedding>, row: int, component: int)
    requires
        laid_out(bytes, embedding_words(rows)),
        0 <= row < rows.len(),
        0 <= component < 512,
    ensures
        bytes.len() == 2048 * rows.len(),
        word_at(bytes, 4 * (512 * row + component)) == rows[row]@[component].bits,
{
    let i = 512 * row + component;
    words_lie_in_order(bytes, embedding_words(rows), i);
    assert(i / 512 == row && i % 512 == component);
}

/// Embeddings come over the wire row by row, each component by component, the least significant
/// byte first; there are as many as the bytes are enough for.
pub proof fn embeddings_come_in_order(
    bytes: Seq<u8>,
    rows: Seq<Embedding>,
    row: int,
    component: int,
)
    requires
        on_wire(bytes, rows),
        0 <= row < rows.len(),
        0 <= component < 512,
    ensures
        2048 * rows.len() <= bytes.len() < 2048 * (rows.len() + 1),
        ({
            let at = 4 * (512 * row + component);
            bytes[at] + 0x100 * bytes[at + 1] + 0x1_0000 * bytes[at + 2] + 0x100_0000 * bytes[at
                + 3] == rows[row]@[component].bits
        }),
{
    let i = 512 * row + component;
    let used = bytes.take((ROW * rows.len()) as int);
    assert(i / 512 == row && i % 512 == component);
    assert(embedding_words(rows)[i] == little_endian(used.subrange(4 * i, 4 * i + 4)));
}

/// The bytes of two lists of embeddings, one after the other, hold the first list and then the
/// second.
pub proof fn readings_join(x: Seq<u8>, y: Seq<u8>, a: Seq<Embedding>, b: Seq<Embedding>)
    requires
        laid_out(x, embedding_words(a)),
        laid_out(y, embedding_words(b)),
    ensures
        laid_out(x + y, embedding_words(a + b)),
{
    let words = embedding_words(a + b);
    let m = embedding_words(a).len() as int;
    assert(words.len() == 512 * (a.len() + b.len()));
    assert forall|i: int| 0 <= i < words.len() implies if i < m {
        words[i] == embedding_words(a)[i] && (x + y).subrange(4 * i, 4 * i + 4) == x.subrange(
            4 * i,
            4 * i + 4,
        )
    } else {
        words[i] == embedding_words(b)[i - m] && (x + y).subrange(4 * i, 4 * i + 4) == y.subrange(
            4 * (i - m),
            4 * (i - m) + 4,
        )
    } by {
        if i < m {
            assert((x + y).subrange(4 * i, 4 * i + 4) =~= x.subrange(4 * i, 4 * i + 4));
        } else {
            assert((i - m) / 512 == i / 512 - a.len());
            assert((x + y).subrange(4 * i, 4 * i + 4) =~= y.subrange(
                4 * (i - m),
                4 * (i - m) + 4,
            ));
        }
    }
}

/// Embeddings are told apart by their bit patterns.
proof fn lemma_same_words(a: Seq<Embedding>, b: Seq<Embedding>)
    requires
        embedding_words(a) == embedding_words(b),
    ensures
        a == b,
{
    assert(embedding_words(a).len() == 512 * a.len() && embedding_words(b).len() == 512 * b.len());
    assert forall|r: int| 0 <= r < a.len() implies a[r] == b[r] by {
        assert forall|c: int| 0 <= c < 512 implies a[r]@[c] == b[r]@[c] by {
            let i = r * 512 + c;
            assert(i / 512 == r && i % 512 == c);
            assert(embedding_words(a)[i] == a[r]@[c].bits);
            assert(embedding_words(b)[i] == b[r]@[c].bits);
        }
        assert(a[r]@ =~= b[r]@);
        assert(a[r] =~= b[r]);
    }
    assert(a =~= b);
}

/// Bytes in memory hold one reading: the embeddings taken from them are the same at every time.
pub proof fn bytes_hold_one_reading(bytes: Seq<u8>, a: Seq<Embedding>, b: Seq<Embedding>)
    requires
        laid_out(bytes, embedding_words(a)),
        laid_out(bytes, embedding_words(b)),
    ensures
        a == b,
{
    assert(embedding_words(a) =~= embedding_words(b));
    lemma_same_words(a, b);
}

/// Bytes on the wire hold one reading.
pub proof fn wire_holds_one_reading(bytes: Seq<u8>, a: Seq<Embedding>, b: Seq<Embedding>)
    requires
        on_wire(bytes, a),
        on_wire(bytes, b),
    ensures
        a == b,
{
    assert(embedding_words(a) =~= embedding_words(b));
    lemma_same_words(a, b);
}

/// The embeddings that bytes in memory hold.
pub open spec fn memory_reading(bytes: Seq<u8>) -> Seq<Embedding> {
    choose|rows: Seq<Embedding>| laid_out(bytes, #[trigger] embedding_words(rows))
}

/// The embeddings that bytes on the wire hold.
pub open spec fn wire_reading(bytes: Seq<u8>) -> Seq<Embedding> {
    choose|rows: Seq<Embedding>| on_wire(bytes, rows)
}

/// The bytes that hold landmarks in memory.
pub open spec fn landmark_memory(landmarks: Seq<[[Binary32; 2]; 5]>) -> Seq<u8> {
    choose|bytes: Seq<u8>| laid_out(bytes, landmark_words(landmarks))
}

/// Groups words into embeddings.
fn grouped(words: &Vec<u32>) -> (rows: Vec<Embedding>)
    requires
        words@.len() % (EMBEDDING as nat) == 0,
    ensures
        words@ == embedding_words(rows@),
{
    let count: usize = words.len() / EMBEDDING;
    let mut rows: Vec<Embedding> = Vec::new();
    let mut n: usize = 0;
    while n < count
        invariant
            n <= count,
            rows@.len() == n,
            words@.len() == count * EMBEDDING,
            words@.len() == words.len(),
            forall|j: int|
                0 <= j < n * EMBEDDING ==> #[trigger] words@[j] == rows@[j
                    / (EMBEDDING as int)]@[j % (EMBEDDING as int)].bits,
        decreases count - n,
    {
        let mut row: Embedding = [Binary32 { bits: 0 }; 512];
        let mut i: usize = 0;
        while i < EMBEDDING
            invariant
                i <= EMBEDDING,
                n < count,
                words@.len() == count * EMBEDDING,
                words@.len() == words.len(),
                forall|j: int| 0 <= j < i ==> (#[trigger] row@[j]).bits == words@[n * EMBEDDING + j],
            decreases EMBEDDING - i,
        {
            row[i] = Binary32 { bits: words[n * EMBEDDING + i] };
            i = i + 1;
        }
        rows.push(row);
        assert forall|j: int| 0 <= j < (n + 1) * EMBEDDING implies #[trigger] words@[j] == rows@[j
            / (EMBEDDING as int)]@[j % (EMBEDDING as int)].bits by {
            if j >= n * EMBEDDING {
                assert(j / (EMBEDDING as int) == n);
                assert(rows@[n as int]@[j - n * EMBEDDING].bits == words@[j]);
            }
        }
        n = n + 1;
    }
    assert(words@ =~= embedding_words(rows@));
    rows
}

/// Embeddings from bytes as the machine holds them in memory.
pub fn embeddings_from_memory(bytes: &[u8]) -> (rows: Vec<Embedding>)
    requires
        bytes@.len() % (ROW as nat) == 0,
    ensures
        bytes@.len() == ROW * rows@.len(),
        laid_out(bytes@, embedding_words(rows@)),
{
    let count: usize = bytes.len() / 4;
    let mut words: Vec<u32> = Vec::new();
    let mut i: usize = 0;
    while i < count
        invariant
            i <= count,
            words@.len() == i,
        decreases count - i,
    {
        words.push(0);
        i = i + 1;
    }
    write_memory(&mut words, bytes);
    grouped(&words)
}

/// Embeddings from bytes with the least significant first; bytes after the last complete
/// embedding are left out.
pub fn embeddings_from_wire(bytes: &[u8]) -> (rows: Vec<Embedding>)
    ensures
        on_wire(bytes@, rows@),
{
    let count: usize = bytes.len() / ROW * EMBEDDING;
    let ghost used = bytes@.take(4 * count as int);
    let mut words: Vec<u32> = Vec::new();
    let mut i: usize = 0;
    while i < count
        invariant
            i <= count,
            4 * count <= bytes@.len(),
            bytes@.len() == bytes.len(),
            used == bytes@.take(4 * count as int),
            words@.len() == i,
            forall|j: int|
                0 <= j < i ==> #[trigger] words@[j] == little_endian(used.subrange(4 * j, 4 * j + 4)),
        decreases count - i,
    {
        let word: u32 = bytes[4 * i] as u32 + 0x100 * bytes[4 * i + 1] as u32 + 0x1_0000 * bytes[4
            * i + 2] as u32 + 0x100_0000 * bytes[4 * i + 3] as u32;
        words.push(word);
        i = i + 1;
    }
    grouped(&words)
}

} // verus!
