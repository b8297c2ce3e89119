use crate::exp::{exp_cloned, Exp, ExpBatch};
use crate::random::draw_below;
use crate::ring_buffer::{ring_step, RingBuffer};
use crate::sum_tree::{
    bounded_by, lands_on, lemma_prefix_le_total, lemma_prefix_monotone, lemma_prefix_zero, prefix_sum, sum_of, SumTree,
};
use vstd::prelude::*;

verus! {

/// The priority given to a new transition while no larger priority was ever
/// recorded, so that it can be drawn before its first update.
pub const PRIORITY_FLOOR: u64 = 1;

/// The leaves after writing `prios[k]` into slot `ix[k]` for each `k` in order;
/// a slot named twice keeps the later value.
pub open spec fn apply_updates(s: Seq<int>, ix: Seq<usize>, prios: Seq<u64>) -> Seq<int>
    decreases ix.len(),
{
    if ix.len() == 0 || prios.len() == 0 {
        s
    } else {
        apply_updates(s, ix.drop_last(), prios.drop_last()).update(
            ix.last() as int,
            prios.last() as int,
        )
    }
}

/// The larger of `m` and every element of `prios`.
pub open spec fn max_with(m: nat, prios: Seq<u64>) -> nat
    decreases prios.len(),
{
    if prios.len() == 0 {
        m
    } else {
        let rest = max_with(m, prios.drop_last());
        if prios.last() > rest {
            prios.last() as nat
        } else {
            rest
        }
    }
}

/// After a sequence of writes the recorded maximum is the largest value among
/// the earlier maximum and all values written: at least each of them, and
/// equal to one of them.
pub proof fn lemma_max_with(m: nat, prios: Seq<u64>)
    ensures
        max_with(m, prios) >= m,
        forall|k: int| 0 <= k < prios.len() ==> max_with(m, prios) >= #[trigger] prios[k],
        max_with(m, prios) == m || exists|k: int|
            0 <= k < prios.len() && max_with(m, prios) == #[trigger] prios[k],
    decreases prios.len(),
{
    if prios.len() > 0 {
        let rest = prios.drop_last();
        lemma_max_with(m, rest);
        assert forall|k: int| 0 <= k < prios.len() implies max_with(m, prios) >= #[trigger] prios[k] by {
            if k < rest.len() {
                assert(rest[k] == prios[k]);
            }
        }
        if max_with(m, prios) != m {
            if prios.last() > max_with(m, rest) {
                assert(max_with(m, prios) == prios[prios.len() - 1]);
            } else {
                let k = choose|k: int| 0 <= k < rest.len() && max_with(m, rest) == #[trigger] rest[k];
                assert(max_with(m, prios) == prios[k]);
            }
        }
    }
}

/// The slot that a draw `x` selects among the first `len` slots: the leaf that
/// the descent lands on, clamped to the last occupied slot.
pub open spec fn selects(leaves: Seq<int>, len: nat, x: int, slot: int) -> bool {
    exists|f: int| lands_on(leaves, x, f) && slot == if f < len { f } else { len - 1 }
}

/// `draw` holds, column by column, the clones `recs` of `n` transitions of
/// `contents`, with their priorities and their slots.
pub open spec fn zipped_draw<S: Clone, A: Clone, R: Clone>(
    contents: Seq<Exp<S, A, R>>,
    leaves: Seq<int>,
    n: nat,
    draw: (ExpBatch<S, A, R>, Vec<u64>, Vec<usize>),
    recs: Seq<Exp<S, A, R>>,
) -> bool {
    &&& draw.0.columns_of(recs)
    &&& recs.len() == n
    &&& draw.1@.len() == n
    &&& draw.2@.len() == n
    &&& forall|k: int|
        0 <= k < n ==> {
            &&& #[trigger] draw.2@[k] < contents.len()
            &&& exp_cloned(contents[draw.2@[k] as int], recs[k])
            &&& draw.1@[k] == leaves[draw.2@[k] as int]
            &&& draw.1@[k] > 0
        }
}

/// A replay memory that samples transitions in proportion to their priorities.
/// Slot `i` of the transitions and leaf `i` of the priorities go together.
pub struct PrioritizedReplayMemory<S, A, R> {
    memory: RingBuffer<Exp<S, A, R>>,
    priorities: SumTree,
    pub batch_size: usize,
}

impl<S: Clone, A: Clone, R: Clone> PrioritizedReplayMemory<S, A, R> {
    /// The stored transitions, by slot.
    pub closed spec fn contents(&self) -> Seq<Exp<S, A, R>> {
        self.memory.slots()
    }

    /// The priorities, by slot; slots past the stored transitions hold 0.
    pub closed spec fn leaves(&self) -> Seq<int> {
        self.priorities.leaves()
    }

    /// The largest priority ever recorded, or 0.
    pub closed spec fn max_priority_spec(&self) -> nat {
        self.priorities.spec_max()
    }

    pub closed spec fn spec_capacity(&self) -> nat {
        self.memory.spec_capacity()
    }

    /// The slot that the next push writes.
    pub closed spec fn cursor(&self) -> nat {
        self.memory.cursor()
    }

    /// The number of transitions in a sampled batch.
    pub closed spec fn spec_batch_size(&self) -> nat {
        self.batch_size as nat
    }

    pub closed spec fn wf(&self) -> bool {
        &&& self.memory.wf()
        &&& self.priorities.wf()
        &&& self.memory.spec_capacity() <= self.priorities.leaf_count()
        &&& forall|i: int|
            self.memory.slots().len() <= i < self.priorities.leaf_count() ==> #[trigger] self.priorities.leaves()[i]
                == 0
    }

    /// An empty memory of `capacity` transitions that samples `batch_size` at a time.
    pub fn new(capacity: usize, batch_size: usize) -> (r: Self)
        requires
            0 < capacity <= 0x4000_0000,
            0 < batch_size <= capacity,
        ensures
            r.wf(),
            r.contents() == Seq::<Exp<S, A, R>>::empty(),
            r.spec_capacity() == capacity,
            r.spec_batch_size() == batch_size,
            r.max_priority_spec() == 0,
            sum_of(r.leaves()) == 0,
    {
        let priorities = SumTree::new(capacity);
        let r = PrioritizedReplayMemory { memory: RingBuffer::new(capacity), priorities, batch_size };
        proof {
            lemma_prefix_zero(r.leaves(), r.leaves().len() as int);
        }
        r
    }

    /// The number of stored transitions.
    pub fn len(&self) -> (r: usize)
        ensures
            r == self.contents().len(),
    {
        self.memory.len()
    }

    /// The priorities.
    pub fn priorities(&self) -> (r: &SumTree)
        requires
            self.wf(),
        ensures
            r.wf(),
            r.leaves() == self.leaves(),
            r.spec_max() == self.max_priority_spec(),
    {
        &self.priorities
    }

    /// Stores `exp`, overwriting the oldest transition once the memory is full,
    /// and gives its slot the largest priority recorded so far, or
    /// `PRIORITY_FLOOR` if that is larger.
    pub fn push(&mut self, exp: Exp<S, A, R>)
        requires
            old(self).wf(),
        ensures
            final(self).wf(),
            final(self).contents() == ring_step(
                old(self).spec_capacity(),
                old(self).contents(),
                old(self).cursor(),
                exp,
            ),
            final(self).cursor() == (old(self).cursor() + 1) % old(self).spec_capacity(),
            final(self).spec_capacity() == old(self).spec_capacity(),
            final(self).spec_batch_size() == old(self).spec_batch_size(),
            final(self).leaves() == old(self).leaves().update(
                old(self).cursor() as int,
                if old(self).max_priority_spec() > PRIORITY_FLOOR {
                    old(self).max_priority_spec() as int
                } else {
                    PRIORITY_FLOOR as int
                },
            ),
            final(self).max_priority_spec() == if old(self).max_priority_spec() > PRIORITY_FLOOR {
                old(self).max_priority_spec()
            } else {
                PRIORITY_FLOOR as nat
            },
    {
        proof {
            self.priorities.lemma_wf();
            self.memory.lemma_wf();
        }
        let ix = self.memory.push(exp);
        let m = self.priorities.max();
        let p = if m > PRIORITY_FLOOR {
            m
        } else {
            PRIORITY_FLOOR
        };
        self.priorities.update(ix, p);
        proof {
            self.priorities.lemma_wf();
            assert forall|i: int|
                self.memory.slots().len() <= i < self.priorities.leaf_count() implies #[trigger] self.priorities.leaves()[i]
                == 0 by {
                assert(i != ix);
            }
        }
    }

    /// The slot that draw `x` selects, and its priority: the weighted descent
    /// of the priorities, clamped to the stored transitions. A draw in
    /// `1..=sum` selects a stored slot of positive priority.
    pub fn locate(&self, x: u128) -> (r: (usize, u64))
        requires
            self.wf(),
            self.contents().len() > 0,
        ensures
            selects(self.leaves(), self.contents().len(), x as int, r.0 as int),
            0 <= r.0 < self.contents().len(),
            r.1 == self.leaves()[r.0 as int],
            1 <= x <= sum_of(self.leaves()) ==> lands_on(self.leaves(), x as int, r.0 as int)
                && r.1 > 0,
    {
        proof {
            self.priorities.lemma_wf();
            self.memory.lemma_wf();
        }
        let (found, _) = self.priorities.find(x);
        let last = self.memory.len() - 1;
        let ix = if found < last {
            found
        } else {
            last
        };
        proof {
            assert(lands_on(self.leaves(), x as int, found as int));
            if 1 <= x <= sum_of(self.leaves()) {
                lemma_draw_lands_in_use(self.leaves(), self.contents().len(), x as int, found as int);
            }
        }
        (ix, self.priorities.get(ix))
    }

    /// Draws `batch_size` slots, with replacement, each with probability
    /// proportional to its priority, and returns clones of their transitions,
    /// their priorities and the slots. `None` while fewer than `batch_size`
    /// transitions are stored, or while every priority is 0.
    pub fn sample(&self) -> (r: Option<(Vec<Exp<S, A, R>>, Vec<u64>, Vec<usize>)>)
        requires
            self.wf(),
        ensures
            r is None <==> (self.spec_batch_size() > self.contents().len() || sum_of(self.leaves()) == 0),
            r is Some ==> {
                let (batch, prios, ix) = r->0;
                &&& batch@.len() == self.spec_batch_size()
                &&& prios@.len() == self.spec_batch_size()
                &&& ix@.len() == self.spec_batch_size()
                &&& forall|k: int|
                    0 <= k < ix@.len() ==> {
                        &&& #[trigger] ix@[k] < self.contents().len()
                        &&& exp_cloned(self.contents()[ix@[k] as int], batch@[k])
                        &&& prios@[k] == self.leaves()[ix@[k] as int]
                        &&& prios@[k] > 0
                    }
            },
    {
        if self.batch_size > self.memory.len() {
            return None;
        }
        proof {
            self.priorities.lemma_wf();
            self.memory.lemma_wf();
        }
        let total = self.priorities.sum();
        if total == 0 {
            return None;
        }
        let mut batch: Vec<Exp<S, A, R>> = Vec::with_capacity(self.batch_size);
        let mut prios: Vec<u64> = Vec::with_capacity(self.batch_size);
        let mut indices: Vec<usize> = Vec::with_capacity(self.batch_size);
        proof {
            lemma_sum_fits(self.leaves(), self.max_priority_spec() as int);
            if self.contents().len() == 0 {
                lemma_prefix_zero(self.leaves(), self.leaves().len() as int);
            }
        }
        for k in 0..self.batch_size
            invariant
                self.wf(),
                total == sum_of(self.leaves()),
                0 < total < u128::MAX,
                self.contents().len() > 0,
                batch@.len() == k,
                prios@.len() == k,
                indices@.len() == k,
                forall|j: int|
                    0 <= j < k ==> {
                        &&& #[trigger] indices@[j] < self.contents().len()
                        &&& exp_cloned(self.contents()[indices@[j] as int], batch@[j])
                        &&& prios@[j] == self.leaves()[indices@[j] as int]
                        &&& prios@[j] > 0
                    },
        {
            let x = draw_below(total) + 1;
            let (ix, p) = self.locate(x);
            let e = self.memory.get(ix).duplicate();
            let ghost oi = indices@;
            let ghost ob = batch@;
            let ghost op = prios@;
            proof {
                assert(exp_cloned(self.contents()[ix as int], e));
                assert(p > 0);
            }
            batch.push(e);
            prios.push(p);
            indices.push(ix);
            proof {
                assert forall|j: int| 0 <= j < k + 1 implies {
                    &&& #[trigger] indices@[j] < self.contents().len()
                    &&& exp_cloned(self.contents()[indices@[j] as int], batch@[j])
                    &&& prios@[j] == self.leaves()[indices@[j] as int]
                    &&& prios@[j] > 0
                } by {
                    if j == k {
                        assert(indices@[j] == ix);
                        assert(batch@[j] == e);
                        assert(prios@[j] == p);
                    } else {
                        assert(indices@[j] == oi[j]);
                        assert(batch@[j] == ob[j]);
                        assert(prios@[j] == op[j]);
                        assert(oi[j] < self.contents().len());
                    }
                }
            }
        }
        Some((batch, prios, indices))
    }

    /// Like `sample`, with the drawn transitions split into columns.
    pub fn sample_zipped(&self) -> (r: Option<(ExpBatch<S, A, R>, Vec<u64>, Vec<usize>)>)
        requires
            self.wf(),
        ensures
            r is None <==> (self.spec_batch_size() > self.contents().len() || sum_of(self.leaves()) == 0),
            r is Some ==> exists|recs: Seq<Exp<S, A, R>>| #[trigger]
                zipped_draw(self.contents(), self.leaves(), self.spec_batch_size(), r->0, recs),
    {
        match self.sample() {
            Some((experiences, prios, indices)) => {
                let ghost recs = experiences@;
                let batch = ExpBatch::from_iter(experiences, self.batch_size);
                let res = (batch, prios, indices);
                let out = Some(res);
                proof {
                    assert(zipped_draw(self.contents(), self.leaves(), self.spec_batch_size(), out->0, recs));
                }
                out
            },
            None => None,
        }
    }

    /// Writes `prios[k]` as the priority of slot `indices[k]`, for each `k` in
    /// order, raising the recorded maximum as needed.
    pub fn update_priorities(&mut self, indices: &[usize], prios: &[u64])
        requires
            old(self).wf(),
            indices@.len() == prios@.len(),
            forall|k: int| 0 <= k < indices@.len() ==> #[trigger] indices@[k] < old(self).contents().len(),
        ensures
            final(self).wf(),
            final(self).contents() == old(self).contents(),
            final(self).cursor() == old(self).cursor(),
            final(self).spec_capacity() == old(self).spec_capacity(),
            final(self).spec_batch_size() == old(self).spec_batch_size(),
            final(self).leaves() == apply_updates(old(self).leaves(), indices@, prios@),
            final(self).max_priority_spec() == max_with(old(self).max_priority_spec(), prios@),
    {
        let ghost start = self.leaves();
        let ghost m0 = self.max_priority_spec();
        let n = indices.len();
        for k in 0..n
            invariant
                self.wf(),
                n == indices@.len(),
                n == prios@.len(),
                self.contents() == old(self).contents(),
                self.cursor() == old(self).cursor(),
                self.spec_capacity() == old(self).spec_capacity(),
                self.spec_batch_size() == old(self).spec_batch_size(),
                forall|j: int| 0 <= j < indices@.len() ==> #[trigger] indices@[j] < self.contents().len(),
                self.leaves() == apply_updates(start, indices@.take(k as int), prios@.take(k as int)),
                self.max_priority_spec() == max_with(m0, prios@.take(k as int)),
        {
            proof {
                self.priorities.lemma_wf();
            self.memory.lemma_wf();
                assert(indices@.take(k + 1).drop_last() =~= indices@.take(k as int));
                assert(prios@.take(k + 1).drop_last() =~= prios@.take(k as int));
            }
            self.priorities.update(indices[k], prios[k]);
            proof {
                self.priorities.lemma_wf();
            self.memory.lemma_wf();
                assert forall|i: int|
                    self.memory.slots().len() <= i < self.priorities.leaf_count() implies #[trigger] self.priorities.leaves()[i]
                    == 0 by {
                    assert(i != indices@[k as int]);
                }
            }
        }
        proof {
            assert(indices@.take(n as int) =~= indices@);
            assert(prios@.take(n as int) =~= prios@);
        }
    }
}

/// The first `n` slots hold `PRIORITY_FLOOR` and the others 0.
pub open spec fn seeded(s: Seq<int>, n: int) -> bool {
    &&& 0 <= n <= s.len()
    &&& forall|i: int| 0 <= i < s.len() ==> #[trigger] s[i] == if i < n {
        PRIORITY_FLOOR as int
    } else {
        0
    }
}

/// While no priority above the floor was ever recorded, a push onto the
/// first free slot `n` gives it the floor: the first `n + 1` slots then hold
/// the floor, and the priorities sum to `(n + 1)` times the floor.
pub proof fn lemma_seed_phase(s: Seq<int>, n: int, max: nat)
    requires
        seeded(s, n),
        n < s.len(),
        max <= PRIORITY_FLOOR,
    ensures
        ({
            let p = if max > PRIORITY_FLOOR {
                max as int
            } else {
                PRIORITY_FLOOR as int
            };
            &&& seeded(s.update(n, p), n + 1)
            &&& sum_of(s.update(n, p)) == (n + 1) * PRIORITY_FLOOR
        }),
{
    let t = s.update(n, PRIORITY_FLOOR as int);
    assert(seeded(t, n + 1));
    lemma_seeded_sum(t, n + 1);
}

/// With the first `n` slots at the floor and the rest at 0, the priorities
/// sum to `n` times the floor.
pub proof fn lemma_seeded_sum(s: Seq<int>, n: int)
    requires
        seeded(s, n),
    ensures
        sum_of(s) == n * PRIORITY_FLOOR,
{
    lemma_seeded_prefix(s, n, n);
    lemma_prefix_flat(s, n, s.len() as int);
}

proof fn lemma_seeded_prefix(s: Seq<int>, n: int, m: int)
    requires
        seeded(s, n),
        0 <= m <= n,
    ensures
        prefix_sum(s, m) == m * PRIORITY_FLOOR,
    decreases m,
{
    if m > 0 {
        lemma_seeded_prefix(s, n, m - 1);
    }
}

/// Writing, at each of a non-empty list of slots, a priority above the one the
/// slot held before the writes raises the sum of the priorities.
pub proof fn lemma_update_raises_sum(s: Seq<int>, ix: Seq<usize>, prios: Seq<u64>)
    requires
        forall|i: int| 0 <= i < s.len() ==> s[i] >= 0,
        ix.len() == prios.len(),
        ix.len() > 0,
        forall|k: int| 0 <= k < ix.len() ==> #[trigger] ix[k] < s.len() && prios[k] > s[ix[k] as int],
    ensures
        sum_of(apply_updates(s, ix, prios)) > sum_of(s),
{
    lemma_apply_pointwise(s, ix, prios);
    lemma_sum_strict(apply_updates(s, ix, prios), s, ix[0] as int, s.len() as int);
}

/// After the writes every slot holds at least what it held, and every slot
/// written holds more.
proof fn lemma_apply_pointwise(s: Seq<int>, ix: Seq<usize>, prios: Seq<u64>)
    requires
        ix.len() == prios.len(),
        forall|k: int| 0 <= k < ix.len() ==> #[trigger] ix[k] < s.len() && prios[k] > s[ix[k] as int],
    ensures
        apply_updates(s, ix, prios).len() == s.len(),
        forall|j: int| 0 <= j < s.len() ==> #[trigger] apply_updates(s, ix, prios)[j] >= s[j],
        forall|k: int|
            0 <= k < ix.len() ==> apply_updates(s, ix, prios)[#[trigger] ix[k] as int] > s[ix[k] as int],
    decreases ix.len(),
{
    if ix.len() > 0 {
        let ix0 = ix.drop_last();
        let prev_prios = prios.drop_last();
        assert forall|k: int| 0 <= k < ix0.len() implies #[trigger] ix0[k] < s.len() && prev_prios[k] > s[ix0[k] as int] by {
            assert(ix0[k] == ix[k]);
            assert(prev_prios[k] == prios[k]);
        }
        lemma_apply_pointwise(s, ix0, prev_prios);
        assert forall|k: int| 0 <= k < ix.len() implies apply_updates(s, ix, prios)[#[trigger] ix[k] as int]
            > s[ix[k] as int] by {
            if ix[k] != ix.last() {
                assert(ix0[k] == ix[k]);
            }
        }
    }
}

/// Prefix sums of `a` dominate those of `b` when `a` dominates `b`, strictly
/// once they cover a position where `a` is larger.
proof fn lemma_sum_strict(a: Seq<int>, b: Seq<int>, j: int, m: int)
    requires
        a.len() == b.len(),
        forall|i: int| 0 <= i < b.len() ==> #[trigger] a[i] >= b[i],
        0 <= j < b.len(),
        a[j] > b[j],
        0 <= m <= b.len(),
    ensures
        prefix_sum(a, m) >= prefix_sum(b, m),
        m > j ==> prefix_sum(a, m) > prefix_sum(b, m),
    decreases m,
{
    if m > 0 {
        lemma_sum_strict(a, b, j, m - 1);
        assert(a[m - 1] >= b[m - 1]);
    }
}

/// Past position `len` the leaves are 0, so the running sum stops growing there.
proof fn lemma_prefix_flat(s: Seq<int>, len: int, n: int)
    requires
        0 <= len <= n <= s.len(),
        forall|i: int| len <= i < s.len() ==> #[trigger] s[i] == 0,
    ensures
        prefix_sum(s, n) == prefix_sum(s, len),
    decreases n,
{
    if n > len {
        lemma_prefix_flat(s, len, n - 1);
    }
}

/// A draw in `1..=sum` over leaves that are 0 from `len` on lands on a leaf
/// before `len` whose value is positive.
proof fn lemma_draw_lands_in_use(s: Seq<int>, len: nat, x: int, f: int)
    requires
        bounded_by(s, u64::MAX as int),
        0 < len <= s.len(),
        forall|i: int| len <= i < s.len() ==> #[trigger] s[i] == 0,
        lands_on(s, x, f),
        1 <= x <= sum_of(s),
    ensures
        f < len,
        s[f] > 0,
{
    lemma_prefix_flat(s, len as int, s.len() as int);
    if f >= len {
        lemma_prefix_monotone(s, len as int, f);
        assert(false);
    }
    if f == s.len() - 1 {
        assert(x <= prefix_sum(s, f + 1));
    }
    if f > 0 {
        assert(prefix_sum(s, f) < x);
    }
}

/// The sum of the leaves fits below `u128::MAX`.
proof fn lemma_sum_fits(s: Seq<int>, bound: int)
    requires
        bounded_by(s, bound),
        0 <= bound <= u64::MAX,
        s.len() <= 0x4000_0000,
    ensures
        0 <= sum_of(s) < u128::MAX,
{
    lemma_prefix_le_total(s, s.len() as int, bound);
    assert(s.len() * bound <= 0x4000_0000 * (u64::MAX as int)) by (nonlinear_arith)
        requires
            0 <= s.len() <= 0x4000_0000,
            0 <= bound <= u64::MAX,
    ;
    assert(0x4000_0000 * (u64::MAX as int) < u128::MAX);
}

} // verus!
