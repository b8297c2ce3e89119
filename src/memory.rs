use crate::exp::{exp_cloned, Exp, ExpBatch};
use crate::random::distinct_indices;
use crate::ring_buffer::{ring_step, RingBuffer};
use vstd::prelude::*;

verus! {

/// `picks[k]` is the element of `pool` at position `ix[k]`, for every `k`.
pub open spec fn picked_at<T>(pool: Seq<T>, ix: Seq<int>, picks: Seq<T>) -> bool {
    &&& ix.len() == picks.len()
    &&& forall|k: int|
        0 <= k < ix.len() ==> 0 <= #[trigger] ix[k] < pool.len() && picks[k] == pool[ix[k]]
}

/// `picks` holds `n` elements of `pool` taken at `n` distinct positions.
pub open spec fn distinct_draw<T>(pool: Seq<T>, n: nat, picks: Seq<T>) -> bool {
    exists|ix: Seq<int>| ix.len() == n && ix.no_duplicates() && picked_at(pool, ix, picks)
}

/// A fixed-capacity store of transitions that overwrites the oldest once full,
/// and hands out batches drawn uniformly without replacement.
#[derive(Debug, Clone)]
pub struct ReplayMemory<S, A, R> {
    memory: RingBuffer<Exp<S, A, R>>,
    pub batch_size: usize,
}

impl<S: Clone, A: Clone, R: Clone> ReplayMemory<S, A, R> {
    /// The stored transitions, by slot.
    pub closed spec fn contents(&self) -> Seq<Exp<S, A, R>> {
        self.memory.slots()
    }

    pub closed spec fn spec_capacity(&self) -> nat {
        self.memory.spec_capacity()
    }

    /// The slot that the next push writes.
    pub closed spec fn cursor(&self) -> nat {
        self.memory.cursor()
    }

    pub closed spec fn wf(&self) -> bool {
        self.memory.wf()
    }

    /// The number of transitions in a sampled batch.
    pub closed spec fn spec_batch_size(&self) -> nat {
        self.batch_size as nat
    }

    /// An empty memory of `capacity` transitions that samples `batch_size` at a time.
    pub fn new(capacity: usize, batch_size: usize) -> (r: Self)
        requires
            capacity > 0,
            0 < batch_size <= capacity,
        ensures
            r.wf(),
            r.contents() == Seq::<Exp<S, A, R>>::empty(),
            r.spec_capacity() == capacity,
            r.spec_batch_size() == batch_size,
    {
        ReplayMemory { memory: RingBuffer::new(capacity), batch_size }
    }

    /// A full memory holding `data`, whose capacity is the length of `data`.
    pub fn from(data: Vec<Exp<S, A, R>>, batch_size: usize) -> (r: Self)
        requires
            data@.len() > 0,
            0 < batch_size <= data@.len(),
        ensures
            r.wf(),
            r.contents() == data@,
            r.spec_capacity() == data@.len(),
            r.spec_batch_size() == batch_size,
    {
        ReplayMemory { memory: RingBuffer::from(data), batch_size }
    }

    /// The number of stored transitions.
    pub fn len(&self) -> (r: usize)
        ensures
            r == self.contents().len(),
    {
        self.memory.len()
    }

    /// Stores `exp`, overwriting the oldest transition once the memory is full.
    pub fn push(&mut self, exp: Exp<S, A, R>)
        requires
            old(self).wf(),
        ensures
            final(self).wf(),
            final(self).contents() == ring_step(
                old(self).spec_capacity(),
                old(self).contents(),
                old(self).cursor(),
                exp,
            ),
            final(self).cursor() == (old(self).cursor() + 1) % old(self).spec_capacity(),
            final(self).spec_capacity() == old(self).spec_capacity(),
            final(self).spec_batch_size() == old(self).spec_batch_size(),
    {
        self.memory.push(exp);
    }

    /// Draws `batch_size` stored transitions at distinct slots, uniformly at
    /// random; `None` while fewer than `batch_size` are stored.
    pub fn sample(&self) -> (r: Option<Vec<&Exp<S, A, R>>>)
        requires
            self.wf(),
        ensures
            r is None <==> self.spec_batch_size() > self.contents().len(),
            r is Some ==> r->0@.len() == self.spec_batch_size(),
            r is Some ==> distinct_draw(
                self.contents(),
                self.spec_batch_size(),
                r->0@.map_values(|e: &Exp<S, A, R>| *e),
            ),
    {
        if self.batch_size <= self.memory.len() {
            let ix = distinct_indices(self.memory.len(), self.batch_size);
            let mut out: Vec<&Exp<S, A, R>> = Vec::with_capacity(self.batch_size);
            for k in 0..ix.len()
                invariant
                    ix@.len() == self.batch_size,
                    forall|j: int| 0 <= j < ix@.len() ==> ix@[j] < self.memory.slots().len(),
                    out@.len() == k,
                    forall|j: int| 0 <= j < k ==> *out@[j] == self.memory.slots()[ix@[j] as int],
            {
                out.push(self.memory.get(ix[k]));
            }
            proof {
                let w = ix@.map_values(|i: usize| i as int);
                let picks = out@.map_values(|e: &Exp<S, A, R>| *e);
                assert(w.no_duplicates()) by {
                    assert forall|a: int, b: int|
                        0 <= a < w.len() && 0 <= b < w.len() && a != b implies w[a] != w[b] by {
                        assert(ix@[a] != ix@[b]);
                    }
                }
                assert(picked_at(self.contents(), w, picks));
            }
            Some(out)
        } else {
            None
        }
    }

    /// Like `sample`, with the drawn transitions cloned and split into columns.
    pub fn sample_zipped(&self) -> (r: Option<ExpBatch<S, A, R>>)
        requires
            self.wf(),
        ensures
            r is None <==> self.spec_batch_size() > self.contents().len(),
            r is Some ==> exists|ix: Seq<int>, recs: Seq<Exp<S, A, R>>|
                {
                    &&& ix.len() == self.spec_batch_size()
                    &&& ix.no_duplicates()
                    &&& recs.len() == self.spec_batch_size()
                    &&& forall|k: int|
                        0 <= k < ix.len() ==> 0 <= #[trigger] ix[k] < self.contents().len()
                            && exp_cloned(self.contents()[ix[k]], recs[k])
                    &&& r->0.columns_of(recs)
                },
    {
        if self.batch_size <= self.memory.len() {
            let ix = distinct_indices(self.memory.len(), self.batch_size);
            let mut recs: Vec<Exp<S, A, R>> = Vec::with_capacity(self.batch_size);
            for k in 0..ix.len()
                invariant
                    ix@.len() == self.batch_size,
                    forall|j: int| 0 <= j < ix@.len() ==> ix@[j] < self.memory.slots().len(),
                    recs@.len() == k,
                    forall|j: int|
                        0 <= j < k ==> exp_cloned(self.memory.slots()[ix@[j] as int], #[trigger] recs@[j]),
            {
                recs.push(self.memory.get(ix[k]).duplicate());
            }
            let ghost rs = recs@;
            let batch = ExpBatch::from_iter(recs, self.batch_size);
            proof {
                let w = ix@.map_values(|i: usize| i as int);
                assert(w.no_duplicates()) by {
                    assert forall|a: int, b: int|
                        0 <= a < w.len() && 0 <= b < w.len() && a != b implies w[a] != w[b] by {
                        assert(ix@[a] != ix@[b]);
                    }
                }
                assert(forall|k: int|
                    0 <= k < w.len() ==> 0 <= #[trigger] w[k] < self.contents().len()
                        && exp_cloned(self.contents()[w[k]], rs[k]));
            }
            Some(batch)
        } else {
            None
        }
    }
}

} // verus!
