//! Requests of any size, cut into batches that the device takes.
use vstd::prelude::*;

verus! {

/// Consecutive faces that go to the device together.
#[derive(Clone, Copy, Debug, PartialEq, Eq, Structural)]
pub struct Batch {
    /// The first face.
    pub start: usize,
    /// How many faces.
    pub count: usize,
}

/// How many faces the batch takes that begins at `done`.
pub open spec fn batch_size(done: nat, total: nat, max_batch: nat) -> nat {
    if total - done < max_batch {
        (total - done) as nat
    } else {
        max_batch
    }
}

/// The batch that begins at `done`; none once all faces are done.
pub fn next_batch(done: usize, total: usize, max_batch: usize) -> (r: Option<Batch>)
    requires
        done <= total,
        max_batch >= 1,
    ensures
        r is None <==> done == total,
        r matches Some(b) ==> b.start == done && b.count == batch_size(
            done as nat,
            total as nat,
            max_batch as nat,
        ),
{
    if done == total {
        None
    } else if total - done < max_batch {
        Some(Batch { start: done, count: total - done })
    } else {
        Some(Batch { start: done, count: max_batch })
    }
}

/// A batch takes faces that are left, and leaves some only where it is full.
pub proof fn batch_is_as_large_as_it_can_be(done: nat, total: nat, max_batch: nat)
    requires
        done <= total,
    ensures
        batch_size(done, total, max_batch) <= max_batch,
        done + batch_size(done, total, max_batch) <= total,
        batch_size(done, total, max_batch) == max_batch || done + batch_size(
            done,
            total,
            max_batch,
        ) == total,
{
}

/// First faces and sizes of the batches from `done` on.
pub open spec fn batches(done: nat, total: nat, max_batch: nat) -> Seq<(nat, nat)>
    decreases total - done,
{
    if done >= total || max_batch == 0 {
        seq![]
    } else {
        let n = batch_size(done, total, max_batch);
        seq![(done, n)] + batches(done + n, total, max_batch)
    }
}

/// The batches of a request follow one another without gap or overlap from the first face to the
/// last, each has at least one face and at most `max_batch`, and all but the last are full.
pub proof fn batches_partition(total: nat, max_batch: nat)
    requires
        max_batch >= 1,
    ensures
        ({
            let all = batches(0, total, max_batch);
            &&& total == 0 <==> all.len() == 0
            &&& forall|k: int|
                #![trigger all[k]]
                0 <= k < all.len() ==> {
                    &&& all[k].0 == k * max_batch
                    &&& 1 <= all[k].1 <= max_batch
                    &&& k + 1 < all.len() ==> all[k].1 == max_batch
                    &&& k + 1 == all.len() ==> all[k].0 + all[k].1 == total
                }
        }),
{
    lemma_batches_from(0, total, max_batch);
    let all = batches(0, total, max_batch);
    assert forall|k: int| #![trigger all[k]] 0 <= k < all.len() implies {
        &&& all[k].0 == k * max_batch
        &&& 1 <= all[k].1 <= max_batch
        &&& k + 1 < all.len() ==> all[k].1 == max_batch
        &&& k + 1 == all.len() ==> all[k].0 + all[k].1 == total
    } by {}
}

proof fn lemma_batches_from(done: nat, total: nat, max_batch: nat)
    requires
        done <= total,
        max_batch >= 1,
    ensures
        ({
            let all = batches(done, total, max_batch);
            &&& done == total <==> all.len() == 0
            &&& forall|k: int|
                #![trigger all[k]]
                0 <= k < all.len() ==> {
                    &&& all[k].0 == done + k * max_batch
                    &&& 1 <= all[k].1 <= max_batch
                    &&& k + 1 < all.len() ==> all[k].1 == max_batch
                    &&& k + 1 == all.len() ==> all[k].0 + all[k].1 == total
                }
        }),
    decreases total - done,
{
    if done < total {
        let n = batch_size(done, total, max_batch);
        let rest = batches(done + n, total, max_batch);
        let all = batches(done, total, max_batch);
        lemma_batches_from(done + n, total, max_batch);
        assert(all[0] == (done, n));
        assert forall|k: int| #![trigger all[k]] 0 <= k < all.len() implies {
            &&& all[k].0 == done + k * max_batch
            &&& 1 <= all[k].1 <= max_batch
            &&& k + 1 < all.len() ==> all[k].1 == max_batch
            &&& k + 1 == all.len() ==> all[k].0 + all[k].1 == total
        } by {
            if k == 0 {
                assert(0 * max_batch == 0) by (nonlinear_arith);
            } else {
                assert(all[k] == rest[k - 1]);
                assert(n == max_batch);
                assert((k - 1) * max_batch + max_batch == k * max_batch) by (nonlinear_arith);
            }
        }
    }
}

/// What the device returns for the faces from `done` on, one batch after another, put together.
pub open spec fn batched<F, E>(
    faces: Seq<F>,
    device: spec_fn(Seq<F>) -> Seq<E>,
    done: nat,
    max_batch: nat,
) -> Seq<E>
    decreases faces.len() - done,
{
    if done >= faces.len() || max_batch == 0 {
        seq![]
    } else {
        let n = batch_size(done, faces.len(), max_batch);
        device(faces.subrange(done as int, (done + n) as int)) + batched(
            faces,
            device,
            done + n,
            max_batch,
        )
    }
}

/// The device encodes each face by itself: in a batch of any size that it takes, a face gives what
/// it gives alone.
pub open spec fn face_by_face<F, E>(device: spec_fn(Seq<F>) -> Seq<E>, max_batch: nat) -> bool {
    forall|s: Seq<F>|
        1 <= s.len() <= max_batch ==> #[trigger] device(s) == s.map_values(alone(device))
}

/// What a face gives alone.
pub open spec fn alone<F, E>(device: spec_fn(Seq<F>) -> Seq<E>) -> spec_fn(F) -> E {
    |face: F| device(seq![face])[0]
}

/// Where the device encodes each face by itself, cutting a request into batches changes nothing:
/// the outcome is that of each face, in order, whatever the largest batch is.
pub proof fn batching_is_transparent<F, E>(
    faces: Seq<F>,
    device: spec_fn(Seq<F>) -> Seq<E>,
    max_batch: nat,
)
    requires
        max_batch >= 1,
        face_by_face(device, max_batch),
    ensures
        batched(faces, device, 0, max_batch) == faces.map_values(alone(device)),
{
    lemma_batched_from(faces, device, 0, max_batch);
    assert(faces.subrange(0, faces.len() as int) =~= faces);
}

/// Where the device encodes each face by itself, a request for two lists of faces gives what the
/// requests for each of them give, one after the other, whatever the largest batch of each is.
pub proof fn requests_join<F, E>(
    a: Seq<F>,
    b: Seq<F>,
    device: spec_fn(Seq<F>) -> Seq<E>,
    limit_both: nat,
    limit_a: nat,
    limit_b: nat,
)
    requires
        limit_both >= 1,
        limit_a >= 1,
        limit_b >= 1,
        face_by_face(device, limit_both),
        face_by_face(device, limit_a),
        face_by_face(device, limit_b),
    ensures
        batched(a + b, device, 0, limit_both) == batched(a, device, 0, limit_a) + batched(
            b,
            device,
            0,
            limit_b,
        ),
{
    batching_is_transparent(a + b, device, limit_both);
    batching_is_transparent(a, device, limit_a);
    batching_is_transparent(b, device, limit_b);
    assert((a + b).map_values(alone(device)) =~= a.map_values(alone(device)) + b.map_values(
        alone(device),
    ));
}

proof fn lemma_batched_from<F, E>(
    faces: Seq<F>,
    device: spec_fn(Seq<F>) -> Seq<E>,
    done: nat,
    max_batch: nat,
)
    requires
        max_batch >= 1,
        done <= faces.len(),
        face_by_face(device, max_batch),
    ensures
        batched(faces, device, done, max_batch) == faces.subrange(
            done as int,
            faces.len() as int,
        ).map_values(alone(device)),
    decreases faces.len() - done,
{
    let all = faces.subrange(done as int, faces.len() as int).map_values(alone(device));
    if done < faces.len() {
        let n = batch_size(done, faces.len(), max_batch);
        lemma_batched_from(faces, device, done + n, max_batch);
        assert(faces.subrange(done as int, (done + n) as int).len() == n);
        assert(batched(faces, device, done, max_batch) =~= all);
    } else {
        assert(batched(faces, device, done, max_batch) =~= all);
    }
}

} // verus!
