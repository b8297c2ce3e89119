use vstd::prelude::*;

verus! {

/// The contents after one push onto a ring buffer of capacity `cap` whose
/// contents are `s` and whose write cursor is `cursor`: the item is appended
/// while the buffer is not full, and overwrites the slot under the cursor after.
pub open spec fn ring_step<T>(cap: nat, s: Seq<T>, cursor: nat, item: T) -> Seq<T> {
    if s.len() < cap {
        s.push(item)
    } else {
        s.update(cursor as int, item)
    }
}

/// The contents of a ring buffer of capacity `cap`, created empty, after
/// `items` were pushed onto it in order.
pub open spec fn ring_after<T>(cap: nat, items: Seq<T>) -> Seq<T>
    decreases items.len(),
{
    if items.len() == 0 {
        Seq::empty()
    } else {
        let n = (items.len() - 1) as nat;
        ring_step(cap, ring_after(cap, items.take(n as int)), n % cap, items[n as int])
    }
}

/// A fixed-capacity buffer that overwrites its oldest element once it is full.
#[derive(Debug, Clone)]
pub struct RingBuffer<T> {
    buffer: Vec<T>,
    ix: usize,
    capacity: usize,
}

impl<T> RingBuffer<T> {
    /// The occupied slots, by slot index.
    pub closed spec fn slots(&self) -> Seq<T> {
        self.buffer@
    }

    /// The slot that the next push writes.
    pub closed spec fn cursor(&self) -> nat {
        self.ix as nat
    }

    pub closed spec fn spec_capacity(&self) -> nat {
        self.capacity as nat
    }

    /// The buffer grows until it is full; while it grows, the cursor is at its end.
    pub closed spec fn wf(&self) -> bool {
        &&& 0 < self.capacity
        &&& self.buffer@.len() <= self.capacity
        &&& self.ix < self.capacity
        &&& self.buffer@.len() < self.capacity ==> self.ix == self.buffer@.len()
    }

    /// What a well-formed buffer guarantees: it holds at most its capacity,
    /// and while it grows its cursor is at its end.
    pub proof fn lemma_wf(&self)
        requires
            self.wf(),
        ensures
            0 < self.spec_capacity(),
            self.slots().len() <= self.spec_capacity(),
            self.cursor() < self.spec_capacity(),
            self.slots().len() < self.spec_capacity() ==> self.cursor() == self.slots().len(),
    {
    }

    /// An empty buffer that holds at most `capacity` elements.
    pub fn new(capacity: usize) -> (r: Self)
        requires
            capacity > 0,
        ensures
            r.wf(),
            r.slots() == Seq::<T>::empty(),
            r.spec_capacity() == capacity,
            r.cursor() == 0,
    {
        RingBuffer { buffer: Vec::with_capacity(capacity), ix: 0, capacity }
    }

    /// A full buffer holding `data`, whose capacity is the length of `data`;
    /// the next push overwrites the first element.
    pub fn from(data: Vec<T>) -> (r: Self)
        requires
            data@.len() > 0,
        ensures
            r.wf(),
            r.slots() == data@,
            r.spec_capacity() == data@.len(),
            r.cursor() == 0,
    {
        let capacity = data.len();
        RingBuffer { buffer: data, ix: 0, capacity }
    }

    /// The number of occupied slots.
    pub fn len(&self) -> (r: usize)
        ensures
            r == self.slots().len(),
    {
        self.buffer.len()
    }

    pub fn capacity(&self) -> (r: usize)
        ensures
            r == self.spec_capacity(),
    {
        self.capacity
    }

    /// Inserts `item`, overwriting the oldest element once the buffer is full,
    /// and returns the slot it was written to.
    pub fn push(&mut self, item: T) -> (r: usize)
        requires
            old(self).wf(),
        ensures
            final(self).wf(),
            r == old(self).cursor(),
            r < old(self).spec_capacity(),
            final(self).slots() == ring_step(old(self).spec_capacity(), old(self).slots(), old(self).cursor(), item),
            final(self).cursor() == (old(self).cursor() + 1) % old(self).spec_capacity(),
            final(self).spec_capacity() == old(self).spec_capacity(),
            final(self).slots().len() == if old(self).slots().len() < old(self).spec_capacity() {
                old(self).slots().len() + 1
            } else {
                old(self).slots().len()
            },
    {
        let ix = self.ix;
        if ix >= self.buffer.len() {
            self.buffer.push(item);
        } else {
            self.buffer[ix] = item;
        }
        self.ix = (ix + 1) % self.capacity;
        proof {
            if ix + 1 < self.capacity {
                vstd::arithmetic::div_mod::lemma_small_mod((ix + 1) as nat, self.capacity as nat);
            }
        }
        ix
    }

    /// The occupied slots, by slot index.
    pub fn view(&self) -> (r: &[T])
        ensures
            r@ == self.slots(),
    {
        self.buffer.as_slice()
    }

    /// The element in slot `index`.
    pub fn get(&self, index: usize) -> (r: &T)
        requires
            index < self.slots().len(),
        ensures
            *r == self.slots()[index as int],
    {
        &self.buffer[index]
    }
}

/// Pushing at least `cap` items onto an empty ring buffer of capacity `cap`
/// leaves it full, holding the last `cap` items pushed: read from the cursor
/// on, oldest first, they come in the order in which they were pushed.
pub proof fn lemma_ring_wraparound<T>(cap: nat, items: Seq<T>)
    requires
        cap > 0,
        items.len() >= cap,
    ensures
        ring_after(cap, items).len() == cap,
        forall|j: int|
            0 <= j < cap ==> #[trigger] ring_after(cap, items)[(items.len() + j) % (cap as int)]
                == items[items.len() - cap + j],
{
    lemma_ring_after_slots(cap, items);
    assert forall|j: int| 0 <= j < cap implies #[trigger] ring_after(cap, items)[(items.len() + j) % (
    cap as int)] == items[items.len() - cap + j] by {
        let i = items.len() - cap + j;
        assert((items.len() + j) % (cap as int) == i % (cap as int)) by {
            vstd::arithmetic::div_mod::lemma_mod_add_multiples_vanish(i, cap as int);
        }
    }
}

/// Slot by slot: while fewer than `cap` items were pushed the buffer holds them
/// all; after that, slot `i % cap` holds item `i` for each of the last `cap`.
pub proof fn lemma_ring_after_slots<T>(cap: nat, items: Seq<T>)
    requires
        cap > 0,
    ensures
        items.len() < cap ==> ring_after(cap, items) == items,
        items.len() >= cap ==> ring_after(cap, items).len() == cap,
        items.len() >= cap ==> forall|i: int|
            items.len() - cap <= i < items.len() ==> #[trigger] ring_after(cap, items)[i % (
            cap as int)] == items[i],
    decreases items.len(),
{
    if items.len() > 0 {
        let n = (items.len() - 1) as nat;
        let prev = items.take(n as int);
        lemma_ring_after_slots(cap, prev);
        let before = ring_after(cap, prev);
        if n < cap {
            assert(before == prev);
            assert(n % cap == n) by {
                vstd::arithmetic::div_mod::lemma_small_mod(n, cap);
            }
            assert(ring_after(cap, items) == prev.push(items[n as int]));
            assert(prev.push(items[n as int]) =~= items);
            if items.len() >= cap {
                assert forall|i: int|
                    items.len() - cap <= i < items.len() implies #[trigger] ring_after(cap, items)[i
                    % (cap as int)] == items[i] by {
                    vstd::arithmetic::div_mod::lemma_small_mod(i as nat, cap);
                }
            }
        } else {
            assert(before.len() == cap);
            let after = ring_after(cap, items);
            assert(after == before.update((n % cap) as int, items[n as int]));
            assert forall|i: int|
                items.len() - cap <= i < items.len() implies #[trigger] after[i % (cap as int)]
                == items[i] by {
                if i < n {
                    assert(i % (cap as int) != (n as int) % (cap as int)) by {
                        lemma_mod_distinct_in_window(i, n as int, cap as int);
                    }
                    assert(before[i % (cap as int)] == prev[i]);
                }
            }
        }
    }
}

proof fn lemma_mod_distinct_in_window(i: int, n: int, cap: int)
    requires
        0 < cap,
        0 <= i < n,
        n - i < cap,
    ensures
        i % cap != n % cap,
{
    vstd::arithmetic::div_mod::lemma_fundamental_div_mod(i, cap);
    vstd::arithmetic::div_mod::lemma_fundamental_div_mod(n, cap);
    if i % cap == n % cap {
        assert(n - i == cap * (n / cap - i / cap)) by (nonlinear_arith)
            requires
                i == cap * (i / cap) + i % cap,
                n == cap * (n / cap) + n % cap,
                i % cap == n % cap,
        ;
        assert(n / cap - i / cap > 0) by (nonlinear_arith)
            requires
                n - i == cap * (n / cap - i / cap),
                n - i > 0,
                cap > 0,
        ;
        assert(cap * (n / cap - i / cap) >= cap) by (nonlinear_arith)
            requires
                n / cap - i / cap >= 1,
                cap > 0,
        ;
    }
}

/// A fixed-capacity ring buffer whose capacity is part of its type; it is
/// always full, and each push overwrites the oldest element.
pub struct StaticRingBuffer<T, const CAP: usize> {
    buffer: [T; CAP],
    i: usize,
}

impl<T, const CAP: usize> StaticRingBuffer<T, CAP> {
    /// The elements, by slot index.
    pub closed spec fn slots(&self) -> Seq<T> {
        self.buffer@
    }

    /// The slot that the next push writes.
    pub closed spec fn cursor(&self) -> nat {
        self.i as nat
    }

    pub closed spec fn wf(&self) -> bool {
        self.i < CAP
    }

    /// A buffer holding `data`; the next push overwrites the first element.
    pub fn from(data: [T; CAP]) -> (r: Self)
        requires
            CAP > 0,
        ensures
            r.wf(),
            r.slots() == data@,
            r.cursor() == 0,
    {
        StaticRingBuffer { buffer: data, i: 0 }
    }

    /// Overwrites the oldest element with `item`.
    pub fn push(&mut self, item: T)
        requires
            old(self).wf(),
        ensures
            final(self).wf(),
            final(self).slots() == old(self).slots().update(old(self).cursor() as int, item),
            final(self).cursor() == (old(self).cursor() + 1) % (CAP as nat),
    {
        let i = self.i;
        self.buffer[i] = item;
        self.i = (i + 1) % CAP;
    }

    /// The elements, by slot index.
    pub fn view(&self) -> (r: &[T; CAP])
        ensures
            r@ == self.slots(),
    {
        &self.buffer
    }
}

} // verus!
