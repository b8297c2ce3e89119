use replay::sum_tree::SumTree;

#[test]
fn sum_tree_sumtree_functional() {
    let mut sumtree = SumTree::new(8);
    assert_eq!(
        sumtree.node_count(),
        15,
        "tree was initialized with correct length"
    );

    for i in 0..8 {
        sumtree.update(i, i as u64);
    }

    assert_eq!(sumtree.sum(), 28, "root node contains sum of entire tree");
    assert_eq!(sumtree.find(4), (3, 3), "find works on left side");
    assert_eq!(sumtree.find(18), (6, 6), "find works on right side");

    sumtree.update(3, 12);
    assert_eq!(sumtree.max(), 12, "maximum value stored correctly");
}

#[test]
fn sumtree_sumtree_functional() {
    let mut sumtree = SumTree::new(8);
    assert_eq!(
        sumtree.node_count(),
        15,
        "tree was initialized with correct length"
    );

    for i in 0..8 {
        sumtree.update(i, i as u64);
    }

    assert_eq!(sumtree.sum(), 28, "root node contains sum of entire tree");
    assert_eq!(sumtree.find(4).0, 3, "find works on left side");
    assert_eq!(sumtree.find(18).0, 6, "find works on right side");
}

#[test]
fn capacity_rounds_up_to_power_of_two() {
    assert_eq!(SumTree::new(0).capacity(), 1);
    assert_eq!(SumTree::new(1).capacity(), 1);
    assert_eq!(SumTree::new(5).capacity(), 8);
    assert_eq!(SumTree::new(8).capacity(), 8);
    assert_eq!(SumTree::new(9).node_count(), 31);
}

#[test]
fn sum_follows_every_update() {
    let mut t = SumTree::new(6);
    let mut leaves = [0u64; 8];
    let writes = [(0, 5), (3, 9), (5, 2), (3, 1), (0, 0), (7, 11), (5, 2)];
    for (ix, v) in writes {
        t.update(ix, v);
        leaves[ix] = v;
        assert_eq!(t.sum(), leaves.iter().map(|&x| x as u128).sum::<u128>());
        assert_eq!(t.get(ix), v);
    }
}

#[test]
fn find_lands_inside_each_interval() {
    let mut t = SumTree::new(8);
    for i in 0..8 {
        t.update(i, i as u64);
    }
    // Running sums before each leaf: 0, 0, 1, 3, 6, 10, 15, 21, 28.
    let before = [0u128, 0, 1, 3, 6, 10, 15, 21, 28];
    for i in 1..8usize {
        for x in (before[i] + 1)..before[i + 1] {
            assert_eq!(t.find(x), (i, i as u64));
        }
    }
    // A target equal to a running sum belongs to the leaf that ends there.
    assert_eq!(t.find(6), (3, 3));
    assert_eq!(t.find(10), (4, 4));
    // Past the total the descent ends on the last leaf.
    assert_eq!(t.find(100), (7, 7));
    // Target 0 stops at the first leaf.
    assert_eq!(t.find(0), (0, 0));
}

#[test]
fn max_keeps_largest_value_ever_written() {
    let mut t = SumTree::new(4);
    assert_eq!(t.max(), 0);
    t.update(0, 10);
    t.update(1, 3);
    assert_eq!(t.max(), 10);
    t.update(0, 1);
    assert_eq!(t.max(), 10);
    assert_eq!(t.sum(), 4);
    t.update(2, 12);
    assert_eq!(t.max(), 12);
}

#[test]
fn same_value_twice_changes_nothing() {
    let mut t = SumTree::new(4);
    t.update(2, 7);
    t.update(2, 7);
    assert_eq!(t.sum(), 7);
    assert_eq!(t.find(1), (2, 7));
}

#[test]
fn large_priorities_sum_exactly() {
    let mut t = SumTree::new(4);
    for i in 0..4 {
        t.update(i, u64::MAX);
    }
    assert_eq!(t.sum(), 4 * (u64::MAX as u128));
    assert_eq!(t.find(u64::MAX as u128 + 1), (1, u64::MAX));
}
