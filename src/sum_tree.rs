use vstd::arithmetic::div_mod::*;
use vstd::arithmetic::power2::*;
use vstd::prelude::*;

verus! {

/// The sum of the first `n` elements of `s`.
pub open spec fn prefix_sum(s: Seq<int>, n: int) -> int
    decreases n,
{
    if n <= 0 || n > s.len() {
        0
    } else {
        prefix_sum(s, n - 1) + s[n - 1]
    }
}

/// The sum of all elements of `s`.
pub open spec fn sum_of(s: Seq<int>) -> int {
    prefix_sum(s, s.len() as int)
}

/// A weighted descent with target `x` over leaves `s` ends at leaf `i`: `i` is
/// the first leaf whose running sum reaches `x`, or the last leaf when none does.
pub open spec fn lands_on(s: Seq<int>, x: int, i: int) -> bool {
    &&& 0 <= i < s.len()
    &&& (i == 0 || prefix_sum(s, i) < x)
    &&& (x <= prefix_sum(s, i + 1) || i == s.len() - 1)
}

/// Every element of `s` lies in `[0, bound]`.
pub open spec fn bounded_by(s: Seq<int>, bound: int) -> bool {
    forall|i: int| 0 <= i < s.len() ==> 0 <= #[trigger] s[i] <= bound
}

/// Position of node `p` (counted from the left) on level `d` (the root is on
/// level 0) when the tree is stored level by level.
pub open spec fn node(d: nat, p: nat) -> int {
    pow2(d) - 1 + p
}

/// The first leaf under node `p` of level `d` on a tree with `h` levels below
/// the root.
pub open spec fn block_start(h: nat, d: nat, p: nat) -> int {
    (p * pow2((h - d) as nat)) as int
}

/// On a tree with `h` levels below the root, node `p` of level `d` covers the
/// leaves `[p * 2^(h-d), (p + 1) * 2^(h-d))` and holds their sum.
pub open spec fn node_holds(t: Seq<u128>, s: Seq<int>, h: nat, d: nat, p: nat) -> bool {
    let w = pow2((h - d) as nat);
    t[node(d, p)] as int == prefix_sum(s, ((p + 1) * w) as int) - prefix_sum(s, (p * w) as int)
}

/// A complete binary tree whose leaves hold priorities and whose inner nodes
/// hold the sums of their children; it also tracks the largest priority ever
/// written.
pub struct SumTree {
    tree: Vec<u128>,
    max: u64,
    capacity: usize,
    levels: Ghost<nat>,
}

impl SumTree {
    /// The number of leaves, a power of two.
    pub closed spec fn leaf_count(&self) -> nat {
        self.capacity as nat
    }

    /// The leaf values, by slot index.
    pub closed spec fn leaves(&self) -> Seq<int> {
        Seq::new(self.capacity as nat, |i: int| self.tree@[self.capacity - 1 + i] as int)
    }

    /// The largest value ever written to a leaf, or 0.
    pub closed spec fn spec_max(&self) -> nat {
        self.max as nat
    }

    pub closed spec fn wf(&self) -> bool {
        let h = self.levels@;
        &&& h <= 30
        &&& self.capacity == pow2(h)
        &&& 0 < self.capacity <= 0x4000_0000
        &&& self.tree@.len() == 2 * self.capacity - 1
        &&& bounded_by(self.leaves(), self.max as int)
        &&& forall|d: nat, p: nat|
            d <= h && p < pow2(d) ==> #[trigger] node_holds(self.tree@, self.leaves(), h, d, p)
    }

    /// What a well-formed tree guarantees of its leaves: there are
    /// `leaf_count` of them, and none exceeds the tracked maximum.
    pub proof fn lemma_wf(&self)
        requires
            self.wf(),
        ensures
            self.leaves().len() == self.leaf_count(),
            0 < self.leaf_count() <= 0x4000_0000,
            bounded_by(self.leaves(), self.spec_max() as int),
            self.spec_max() <= u64::MAX,
    {
    }

    /// A tree with `capacity` rounded up to a power of two leaves, all zero.
    pub fn new(capacity: usize) -> (r: Self)
        requires
            capacity <= 0x4000_0000,
        ensures
            r.wf(),
            exists|h: nat| r.leaf_count() == pow2(h),
            r.leaf_count() >= capacity,
            r.leaf_count() < 2 * capacity || r.leaf_count() == 1,
            r.leaves() == Seq::new(r.leaf_count(), |i: int| 0int),
            r.spec_max() == 0,
    {
        let mut leaves: usize = 1;
        let ghost mut h: nat = 0;
        proof {
            lemma2_to64();
        }
        while leaves < capacity
            invariant
                leaves == pow2(h),
                leaves > 0,
                h <= 30,
                capacity <= 0x4000_0000,
                leaves == 1 || leaves < 2 * capacity,
            decreases 0x8000_0000 - leaves,
        {
            proof {
                lemma_pow2_unfold(h + 1);
                if h == 30 {
                    lemma2_to64();
                }
            }
            leaves = leaves * 2;
            proof {
                h = h + 1;
            }
        }
        let n = 2 * leaves - 1;
        let mut tree: Vec<u128> = Vec::with_capacity(n);
        while tree.len() < n
            invariant
                tree.len() <= n,
                forall|i: int| 0 <= i < tree@.len() ==> tree@[i] == 0,
            decreases n - tree.len(),
        {
            tree.push(0);
        }
        let r = SumTree { tree, max: 0, capacity: leaves, levels: Ghost(h) };
        proof {
            if h < 30 {
                lemma_pow2_strictly_increases(h, 30);
            }
            lemma_pow2_pos(h);
            assert(r.leaves() =~= Seq::new(r.leaf_count(), |i: int| 0int));
            assert forall|d: nat, p: nat| d <= h && p < pow2(d) implies #[trigger] node_holds(
                r.tree@,
                r.leaves(),
                h,
                d,
                p,
            ) by {
                lemma_node_in_tree(h, d, p);
                lemma_prefix_zero(r.leaves(), ((p + 1) * pow2((h - d) as nat)) as int);
                lemma_prefix_zero(r.leaves(), (p * pow2((h - d) as nat)) as int);
            }
        }
        r
    }

    /// Sets the leaf of slot `ix` to `value`, adds the change to every node
    /// above it, and raises the tracked maximum to `value` if it is larger.
    pub fn update(&mut self, ix: usize, value: u64)
        requires
            old(self).wf(),
            ix < old(self).leaf_count(),
        ensures
            final(self).wf(),
            final(self).leaf_count() == old(self).leaf_count(),
            final(self).leaves() == old(self).leaves().update(ix as int, value as int),
            final(self).spec_max() == if value > old(self).spec_max() {
                value as nat
            } else {
                old(self).spec_max()
            },
    {
        let ghost h = self.levels@;
        let ghost old_tree = self.tree@;
        let ghost old_leaves = self.leaves();
        let ghost bound: int = if value > self.max {
            value as int
        } else {
            self.max as int
        };
        let ghost new_leaves = old_leaves.update(ix as int, value as int);
        let mut k: usize = ix + self.capacity - 1;
        let old_value = self.tree[k];
        self.tree[k] = value as u128;
        let ghost mut d: nat = h;
        proof {
            lemma2_to64();
            lemma_pow2_pos(h);
            assert(self.leaves() =~= new_leaves);
            assert(ix as nat / pow2(0) == ix);
            assert forall|d2: nat, p: nat| d <= d2 <= h && p < pow2(d2) implies #[trigger] node_holds(
                self.tree@,
                new_leaves,
                h,
                d2,
                p,
            ) by {
                assert(self.leaves()[p as int] == new_leaves[p as int]);
                lemma_leaf_level(self.tree@, new_leaves, h, p);
            }
            assert forall|i: int| 0 <= i < new_leaves.len() implies 0 <= #[trigger] new_leaves[i]
                <= bound by {
                if i != ix {
                    assert(old_leaves[i] == old_tree[self.capacity - 1 + i]);
                }
            }
        }
        while k > 0
            invariant
                h == self.levels@,
                h <= 30,
                self.capacity == pow2(h),
                0 < self.capacity <= 0x4000_0000,
                d <= h,
                k == node(d, ix as nat / pow2((h - d) as nat)),
                ix < self.capacity,
                old_tree.len() == 2 * self.capacity - 1,
                self.tree@.len() == old_tree.len(),
                old_leaves.len() == self.capacity,
                new_leaves == old_leaves.update(ix as int, value as int),
                old_value == old_leaves[ix as int],
                bounded_by(old_leaves, u64::MAX as int),
                bounded_by(new_leaves, u64::MAX as int),
                bounded_by(new_leaves, bound),
                self.max == old(self).max,
                bound == if value > self.max {
                    value as int
                } else {
                    self.max as int
                },
                forall|i: int| 0 <= i < pow2(d) - 1 ==> self.tree@[i] == old_tree[i],
                forall|i: int|
                    0 <= i < self.capacity ==> self.tree@[self.capacity - 1 + i] == new_leaves[i],
                forall|d2: nat, p: nat|
                    d2 <= h && p < pow2(d2) ==> #[trigger] node_holds(old_tree, old_leaves, h, d2, p),
                forall|d2: nat, p: nat|
                    d <= d2 <= h && p < pow2(d2) ==> #[trigger] node_holds(
                        self.tree@,
                        new_leaves,
                        h,
                        d2,
                        p,
                    ),
            decreases k,
        {
            proof {
                if d == 0 {
                    lemma2_to64();
                    lemma_pow2_pos(h);
                    lemma_basic_div(ix as int, pow2(h) as int);
                }
                lemma_climb(old_tree, old_leaves, value as int, self.tree@, h, d, ix as nat);
                if d < h {
                    lemma_pow2_strictly_increases(d, h);
                }
                lemma_pow2_unfold(d);
            }
            let ghost before = self.tree@;
            k = (k - 1) / 2;
            assert(k < pow2(d) - 1);
            assert(before[k as int] >= old_value);
            let t = self.tree[k];
            self.tree[k] = t - old_value + value as u128;
            proof {
                assert(self.tree@ == before.update(k as int, (before[k as int] - old_value + value) as u128));
                lemma_pow2_strictly_increases((d - 1) as nat, h);
                d = (d - 1) as nat;
            }
        }
        proof {
            if d > 0 {
                lemma_node_level_start(d, ix as nat / pow2((h - d) as nat));
                lemma_pow2_strictly_increases(0, d);
            }
        }
        if value > self.max {
            self.max = value;
        }
        proof {
            assert(self.leaves() =~= new_leaves);
        }
    }

    /// Descends from the root towards target `value`: left when `value` is at
    /// most the left child's sum, else right with that sum taken off. Returns
    /// the slot of the leaf reached and its value.
    pub fn find(&self, value: u128) -> (r: (usize, u64))
        requires
            self.wf(),
        ensures
            lands_on(self.leaves(), value as int, r.0 as int),
            r.1 == self.leaves()[r.0 as int],
    {
        let ghost h = self.levels@;
        let ghost s = self.leaves();
        let mut k: usize = 0;
        let mut val: u128 = value;
        let ghost mut d: nat = 0;
        let ghost mut p: nat = 0;
        proof {
            lemma2_to64();
            lemma_pow2_pos(h);
        }
        while k < self.capacity - 1
            invariant
                self.wf(),
                h == self.levels@,
                s == self.leaves(),
                d <= h,
                p < pow2(d),
                k == node(d, p),
                val == value - prefix_sum(s, block_start(h, d, p)),
                block_start(h, d, p) == 0 || prefix_sum(s, block_start(h, d, p)) < value,
                value <= prefix_sum(s, block_start(h, d, p + 1)) || block_start(h, d, p + 1)
                    == s.len(),
            decreases h - d,
        {
            proof {
                lemma_level_of_node(h, d, p);
                lemma_children(h, d, p);
                lemma_node_in_tree(h, d + 1, 2 * p);
                assert(node_holds(self.tree@, s, h, d + 1, 2 * p));
                lemma_pow2_unfold(d + 1);
                lemma_pow2_pos((h - d - 1) as nat);
            }
            let left = 2 * k + 1;
            let ghost mid = (2 * p + 1) * pow2((h - d - 1) as nat);
            if val <= self.tree[left] {
                k = left;
                proof {
                    p = 2 * p;
                }
            } else {
                val = val - self.tree[left];
                k = left + 1;
                proof {
                    p = 2 * p + 1;
                }
            }
            proof {
                d = d + 1;
            }
        }
        proof {
            lemma_level_of_node(h, d, p);
            assert(pow2(0) == 1) by {
                lemma2_to64();
            }
            assert(d == h);
            assert((h - d) as nat == 0);
            assert(block_start(h, d, p) == p * pow2(0));
            assert(block_start(h, d, p + 1) == (p + 1) * pow2(0));
            assert(p * pow2(0) == p);
            assert((p + 1) * pow2(0) == p + 1);
            lemma_node_in_tree(h, d, p);
        }
        let i = k - (self.capacity - 1);
        proof {
            assert(self.tree@[k as int] as int == s[i as int]);
            assert(bounded_by(s, self.max as int));
        }
        (i, self.tree[k] as u64)
    }

    /// The sum of all leaves.
    pub fn sum(&self) -> (r: u128)
        requires
            self.wf(),
        ensures
            r == sum_of(self.leaves()),
    {
        proof {
            lemma2_to64();
            lemma_node_in_tree(self.levels@, 0, 0);
            assert(node_holds(self.tree@, self.leaves(), self.levels@, 0, 0));
            lemma2_to64();
            lemma_pow2_pos(self.levels@);
            let w = pow2((self.levels@ - 0) as nat);
            assert(w == self.capacity);
            assert((0 + 1) * w == w && 0 * w == 0) by (nonlinear_arith);
        }
        self.tree[0]
    }

    /// The number of nodes: `2 * leaf_count - 1`.
    pub fn node_count(&self) -> (r: usize)
        requires
            self.wf(),
        ensures
            r == 2 * self.leaf_count() - 1,
    {
        self.tree.len()
    }

    /// The number of leaves.
    pub fn capacity(&self) -> (r: usize)
        ensures
            r == self.leaf_count(),
    {
        self.capacity
    }

    /// The largest value ever written to a leaf, or 0 if none was.
    pub fn max(&self) -> (r: u64)
        ensures
            r == self.spec_max(),
    {
        self.max
    }

    /// The value of the leaf of slot `ix`.
    pub fn get(&self, ix: usize) -> (r: u64)
        requires
            self.wf(),
            ix < self.leaf_count(),
        ensures
            r == self.leaves()[ix as int],
    {
        proof {
            assert(bounded_by(self.leaves(), self.max as int));
            assert(self.leaves()[ix as int] == self.tree@[ix + self.capacity - 1]);
        }
        self.tree[ix + self.capacity - 1] as u64
    }
}

/// The leaf level holds the leaves themselves.
proof fn lemma_leaf_level(t: Seq<u128>, s: Seq<int>, h: nat, p: nat)
    requires
        p < pow2(h),
        s.len() == pow2(h),
        t.len() == 2 * pow2(h) - 1,
        t[pow2(h) - 1 + p] as int == s[p as int],
    ensures
        node_holds(t, s, h, h, p),
{
    lemma2_to64();
    assert((h - h) as nat == 0);
    assert((p + 1) * pow2(0) == p + 1);
    assert(p * pow2(0) == p);
    lemma_prefix_single(s, p as int);
}

/// One step of the climb in `update`: with every level from `d` down holding
/// the new leaf sums, and the levels above `d` untouched, writing the new sum
/// into the parent on level `d - 1` extends that to level `d - 1`.
/// The parent of the level-`d` node above leaf `ix` is the level-`(d - 1)`
/// node above it, and it lies on level `d - 1`.
proof fn lemma_climb_index(h: nat, d: nat, ix: nat)
    requires
        0 < d <= h <= 30,
        ix < pow2(h),
    ensures
        ({
            let k = (node(d, ix / pow2((h - d) as nat)) - 1) / 2;
            let dn = (d - 1) as nat;
            &&& k == node(dn, ix / pow2((h - dn) as nat))
            &&& ix / pow2((h - dn) as nat) < pow2(dn)
            &&& pow2(dn) - 1 <= k < pow2(d) - 1
        }),
{
    let m = (h - d) as nat;
    let dn = (d - 1) as nat;
    let q = ix / pow2(m);
    lemma_block_index(ix, m);
    lemma_pow2_adds(d, m);
    assert(m + d == h);
    lemma_pow2_pos(m);
    assert(q < pow2(d)) by (nonlinear_arith)
        requires
            q * pow2(m) <= ix,
            ix < pow2(h),
            pow2(h) == pow2(d) * pow2(m),
            pow2(m) > 0,
    {
        if q >= pow2(d) {
            assert(q * pow2(m) >= pow2(d) * pow2(m));
        }
    }
    lemma_parent(d, q);
    lemma_parent_block(ix, m);
    assert(m + 1 == (h - dn) as nat);
    lemma_pow2_unfold(d);
}

#[verifier::rlimit(40)]
proof fn lemma_climb(
    old_tree: Seq<u128>,
    old_leaves: Seq<int>,
    value: int,
    t: Seq<u128>,
    h: nat,
    d: nat,
    ix: nat,
)
    requires
        0 < d <= h <= 30,
        ix < pow2(h),
        old_tree.len() == 2 * pow2(h) - 1,
        t.len() == old_tree.len(),
        old_leaves.len() == pow2(h),
        bounded_by(old_leaves, u64::MAX as int),
        bounded_by(old_leaves.update(ix as int, value), u64::MAX as int),
        forall|d2: nat, p: nat|
            d2 <= h && p < pow2(d2) ==> #[trigger] node_holds(old_tree, old_leaves, h, d2, p),
        forall|i: int| 0 <= i < pow2(d) - 1 ==> t[i] == old_tree[i],
        forall|d2: nat, p: nat|
            d <= d2 <= h && p < pow2(d2) ==> #[trigger] node_holds(
                t,
                old_leaves.update(ix as int, value),
                h,
                d2,
                p,
            ),
    ensures
        ({
            let k = (node(d, ix / pow2((h - d) as nat)) - 1) / 2;
            let nv = t[k] - old_leaves[ix as int] + value;
            &&& 0 <= k < pow2((d - 1) as nat) - 1 + pow2((d - 1) as nat)
            &&& pow2((d - 1) as nat) - 1 <= k
            &&& k == node((d - 1) as nat, ix / pow2((h - (d - 1)) as nat))
            &&& t[k] == old_tree[k]
            &&& t[k] >= old_leaves[ix as int]
            &&& 0 <= nv <= u128::MAX
            &&& forall|d2: nat, p: nat|
                d - 1 <= d2 <= h && p < pow2(d2) ==> #[trigger] node_holds(
                    t.update(k, nv as u128),
                    old_leaves.update(ix as int, value),
                    h,
                    d2,
                    p,
                )
        }),
{
    let new_leaves = old_leaves.update(ix as int, value);
    let dn = (d - 1) as nat;
    let w = pow2((h - dn) as nat);
    let pp = ix / w;
    let k = (node(d, ix / pow2((h - d) as nat)) - 1) / 2;
    lemma_climb_index(h, d, ix);
    lemma_block_index(ix, (h - dn) as nat);
    lemma_node_in_tree(h, dn, pp);
    assert(node_holds(old_tree, old_leaves, h, dn, pp));
    assert(t[k] == old_tree[k]);
    let lo = (pp * w) as int;
    let hi = ((pp + 1) * w) as int;
    lemma_prefix_update(old_leaves, ix as int, value, hi);
    lemma_prefix_update(old_leaves, ix as int, value, lo);
    lemma_prefix_range_ge(old_leaves, lo, hi, ix as int);
    lemma_prefix_le_total(new_leaves, hi, u64::MAX as int);
    lemma_prefix_le_total(new_leaves, lo, u64::MAX as int);
    lemma_prefix_monotone(new_leaves, lo, hi);
    lemma2_to64();
    assert(pow2(h) <= 0x4000_0000) by {
        if h < 30 {
            lemma_pow2_strictly_increases(h, 30);
        }
    }
    assert(hi * (u64::MAX as int) <= 0x4000_0000 * (u64::MAX as int)) by (nonlinear_arith)
        requires
            hi <= 0x4000_0000,
    ;
    let nv = t[k] - old_leaves[ix as int] + value;
    assert(lo <= ix < hi);
    assert(hi <= old_leaves.len());
    assert(t[k] as int == prefix_sum(old_leaves, hi) - prefix_sum(old_leaves, lo));
    assert(prefix_sum(new_leaves, hi) == prefix_sum(old_leaves, hi) + value - old_leaves[ix as int]);
    assert(prefix_sum(new_leaves, lo) == prefix_sum(old_leaves, lo));
    assert(nv == prefix_sum(new_leaves, hi) - prefix_sum(new_leaves, lo));
    assert(0x4000_0000 * (u64::MAX as int) <= u128::MAX);
    assert(0 <= nv <= u128::MAX);
    let t2 = t.update(k, nv as u128);
    assert forall|d2: nat, p: nat| dn <= d2 <= h && p < pow2(d2) implies #[trigger] node_holds(
        t2,
        new_leaves,
        h,
        d2,
        p,
    ) by {
        lemma_node_in_tree(h, d2, p);
        lemma_pow2_unfold(d);
        if d2 == dn {
            if p != pp {
                assert(node(d2, p) != k);
                assert(node_holds(old_tree, old_leaves, h, dn, p));
                lemma_node_level_start(dn, p);
                assert(t[node(d2, p)] == old_tree[node(d2, p)]);
                let wd = pow2((h - d2) as nat);
                lemma_block_index_converse(ix, (h - d2) as nat, p);
                assert((p + 1) * wd == p * wd + wd) by (nonlinear_arith);
                lemma_prefix_update(old_leaves, ix as int, value, ((p + 1) * wd) as int);
                lemma_prefix_update(old_leaves, ix as int, value, (p * wd) as int);
                assert(t2[node(d2, p)] == t[node(d2, p)]);
                assert(node_holds(t2, new_leaves, h, d2, p));
            } else {
                assert(node(d2, p) == k);
                assert(t2[k] as int == nv);
                assert(node_holds(t2, new_leaves, h, d2, p));
            }
        } else {
            if d < d2 {
                lemma_pow2_strictly_increases(d, d2);
            }
            lemma_node_level_start(d2, p);
            assert(node(d2, p) != k);
            assert(node_holds(t, new_leaves, h, d2, p));
            assert(t2[node(d2, p)] == t[node(d2, p)]);
            assert(node_holds(t2, new_leaves, h, d2, p));
        }
    }
}

/// A descent with a target strictly between the running sums before and
/// after leaf `i` lands on leaf `i`, and on no other.
pub proof fn lemma_find_in_interval(s: Seq<int>, x: int, i: int, r: int)
    requires
        forall|j: int| 0 <= j < s.len() ==> s[j] >= 0,
        0 <= i < s.len(),
        prefix_sum(s, i) < x < prefix_sum(s, i + 1),
        lands_on(s, x, r),
    ensures
        r == i,
{
    if r < i {
        lemma_prefix_monotone(s, r + 1, i);
    } else if r > i {
        lemma_prefix_monotone(s, i + 1, r);
    }
}

/// Setting one leaf changes the sum of all leaves by the change of that leaf.
pub proof fn lemma_sum_after_update(s: Seq<int>, ix: int, v: int)
    requires
        0 <= ix < s.len(),
    ensures
        sum_of(s.update(ix, v)) == sum_of(s) - s[ix] + v,
{
    lemma_prefix_update(s, ix, v, s.len() as int);
}

// Arithmetic on the level-by-level layout.

proof fn lemma_node_level_start(d: nat, p: nat)
    ensures
        node(d, p) >= pow2(d) - 1,
{
}

/// Node `p` of level `d <= h` lies in a tree of `2 * 2^h - 1` nodes, and its
/// leaf range lies within the `2^h` leaves.
proof fn lemma_node_in_tree(h: nat, d: nat, p: nat)
    requires
        d <= h,
        p < pow2(d),
    ensures
        0 <= node(d, p) < 2 * pow2(h) - 1,
        (p + 1) * pow2((h - d) as nat) <= pow2(h),
        d == h ==> node(d, p) == pow2(h) - 1 + p,
{
    lemma_pow2_pos(d);
    lemma_pow2_pos(h);
    lemma_pow2_pos((h - d) as nat);
    lemma_pow2_adds(d, (h - d) as nat);
    assert((h - d) as nat + d == h);
    let w = pow2((h - d) as nat);
    assert((p + 1) * w <= pow2(d) * w) by (nonlinear_arith)
        requires
            p + 1 <= pow2(d),
            w > 0,
    ;
    assert(pow2(d) <= pow2(h)) by {
        if d < h {
            lemma_pow2_strictly_increases(d, h);
        }
    }
}

/// A node lies above the leaf level exactly when its position is below the
/// first leaf's.
proof fn lemma_level_of_node(h: nat, d: nat, p: nat)
    requires
        d <= h,
        p < pow2(d),
    ensures
        node(d, p) < pow2(h) - 1 <==> d < h,
{
    if d < h {
        lemma_pow2_unfold(d + 1);
        if d + 1 < h {
            lemma_pow2_strictly_increases(d + 1, h);
        }
    }
}

/// The children of node `p` on level `d` are nodes `2p` and `2p + 1` of level
/// `d + 1`, and they split its leaf range in two halves.
proof fn lemma_children(h: nat, d: nat, p: nat)
    requires
        d < h,
    ensures
        node(d + 1, 2 * p) == 2 * node(d, p) + 1,
        2 * p * pow2((h - d - 1) as nat) == p * pow2((h - d) as nat),
        (2 * p + 2) * pow2((h - d - 1) as nat) == (p + 1) * pow2((h - d) as nat),
{
    lemma_pow2_unfold(d + 1);
    lemma_pow2_unfold((h - d) as nat);
    let w = pow2((h - d - 1) as nat);
    assert(2 * p * w == p * (2 * w)) by (nonlinear_arith);
    assert((2 * p + 2) * w == (p + 1) * (2 * w)) by (nonlinear_arith);
}

/// The parent of node `p` on level `d` is node `p / 2` on level `d - 1`.
proof fn lemma_parent(d: nat, p: nat)
    requires
        d > 0,
        p < pow2(d),
    ensures
        (node(d, p) - 1) / 2 == node((d - 1) as nat, p / 2),
        p / 2 < pow2((d - 1) as nat),
{
    lemma_pow2_unfold(d);
    let a = pow2((d - 1) as nat) - 1;
    lemma_pow2_pos((d - 1) as nat);
    lemma_fundamental_div_mod(p as int, 2);
    assert(node(d, p) - 1 == 2 * (a + p / 2) + p % 2);
    lemma_fundamental_div_mod_converse(node(d, p) - 1, 2, a + p / 2, (p % 2) as int);
}

/// The block of width `2^(m+1)` holding `j` is the parent of its block of
/// width `2^m`.
proof fn lemma_parent_block(j: nat, m: nat)
    ensures
        j / pow2(m) / 2 == j / pow2(m + 1),
{
    lemma_pow2_unfold(m + 1);
    lemma_pow2_pos(m);
    lemma_div_denominator(j as int, pow2(m) as int, 2);
}

/// `j` lies in block `j / 2^m` of width `2^m`.
proof fn lemma_block_index(j: nat, m: nat)
    ensures
        (j / pow2(m)) * pow2(m) <= j < (j / pow2(m) + 1) * pow2(m),
{
    let w = pow2(m) as int;
    lemma_pow2_pos(m);
    let q = j as int / w;
    lemma_fundamental_div_mod(j as int, w);
    lemma_mod_pos_bound(j as int, w);
    assert(q * w <= j < (q + 1) * w) by (nonlinear_arith)
        requires
            j == w * q + j as int % w,
            0 <= j as int % w < w,
    ;
}

/// `j` lies in no block of width `2^m` but block `j / 2^m`.
proof fn lemma_block_index_converse(j: nat, m: nat, p: nat)
    requires
        p != j / pow2(m),
    ensures
        !(p * pow2(m) <= j < (p + 1) * pow2(m)),
{
    lemma_block_index(j, m);
    let q = j / pow2(m);
    let w = pow2(m);
    if p * w <= j && j < (p + 1) * w {
        assert(p < q + 1) by (nonlinear_arith)
            requires
                p * w <= j,
                j < (q + 1) * w,
                w > 0,
        ;
        assert(q < p + 1) by (nonlinear_arith)
            requires
                q * w <= j,
                j < (p + 1) * w,
                w > 0,
        ;
    }
}

// Prefix sums.

/// Prefix sums of all-zero elements are 0.
pub proof fn lemma_prefix_zero(s: Seq<int>, n: int)
    requires
        forall|i: int| 0 <= i < s.len() ==> s[i] == 0,
    ensures
        prefix_sum(s, n) == 0,
    decreases n,
{
    if n > 0 {
        lemma_prefix_zero(s, n - 1);
    }
}

proof fn lemma_prefix_single(s: Seq<int>, i: int)
    requires
        0 <= i < s.len(),
    ensures
        prefix_sum(s, i + 1) - prefix_sum(s, i) == s[i],
{
}

/// Changing element `j` to `v` changes every prefix sum that covers it by the
/// difference, and no other.
pub proof fn lemma_prefix_update(s: Seq<int>, j: int, v: int, n: int)
    requires
        0 <= j < s.len(),
    ensures
        prefix_sum(s.update(j, v), n) == prefix_sum(s, n) + if j < n && n <= s.len() {
            v - s[j]
        } else {
            0
        },
    decreases n,
{
    if n > 0 {
        lemma_prefix_update(s, j, v, n - 1);
    }
}

/// Prefix sums of non-negative elements grow with their length.
pub proof fn lemma_prefix_monotone(s: Seq<int>, a: int, b: int)
    requires
        bounded_by(s, u64::MAX as int) || forall|i: int| 0 <= i < s.len() ==> s[i] >= 0,
        0 <= a <= b <= s.len(),
    ensures
        prefix_sum(s, a) <= prefix_sum(s, b),
    decreases b - a,
{
    if a < b {
        lemma_prefix_monotone(s, a, b - 1);
        assert(s[b - 1] >= 0);
    }
}

proof fn lemma_prefix_range_ge(s: Seq<int>, a: int, b: int, j: int)
    requires
        bounded_by(s, u64::MAX as int),
        0 <= a <= j < b <= s.len(),
    ensures
        prefix_sum(s, b) - prefix_sum(s, a) >= s[j],
{
    lemma_prefix_monotone(s, a, j);
    lemma_prefix_monotone(s, j + 1, b);
}

/// Each prefix sum of elements in `[0, bound]` lies in `[0, n * bound]`.
pub proof fn lemma_prefix_le_total(s: Seq<int>, n: int, bound: int)
    requires
        bounded_by(s, bound),
        0 <= n <= s.len(),
    ensures
        0 <= prefix_sum(s, n) <= n * bound,
    decreases n,
{
    if n == 0 {
        assert(n * bound == 0);
    } else {
        lemma_prefix_le_total(s, n - 1, bound);
        assert(s[n - 1] <= bound);
        assert((n - 1) * bound + bound == n * bound) by (nonlinear_arith);
    }
}

} // verus!
