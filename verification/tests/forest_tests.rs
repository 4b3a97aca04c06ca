use union_find::UnionFind;
use union_find::UnionWeighted;
use union_find::UnionWeightedNode;

/// 0 and 1 merged, 2 and 3 merged, then the two pairs merged: 0 is the root,
/// 1 and 2 hang under it, 3 hangs under 2.
fn two_pairs() -> UnionWeighted<i32> {
    let mut u: UnionWeighted<i32> = UnionWeighted::new_full_category(4);
    u.union(0, 1);
    u.union(2, 3);
    u.union(0, 2);
    u
}

/// A root (label 0) whose children are, in this order: one leaf, the root
/// of a pair (label 1, with the child 2), and `leaves` more leaves.
fn bush(leaves: usize) -> UnionWeighted<i32> {
    let mut u: UnionWeighted<i32> = UnionWeighted::new_full_category(3);
    u.union(1, 2);
    u.insert(0, 10);
    u.union(0, 1);
    for i in 0..leaves {
        u.insert(0, i as i32);
    }
    u
}

#[test]
fn find_is_reflexive() {
    let fresh: UnionWeighted<i32> = UnionWeighted::new_full_category(5);
    for i in 0..5 {
        assert!(fresh.find(i, i));
    }
    let merged = two_pairs();
    for i in 0..4 {
        assert!(merged.find(i, i));
    }
}

#[test]
fn fresh_singletons_are_apart() {
    let n: usize = 8;
    let u: UnionWeighted<i32> = UnionWeighted::new_full_category(n);
    assert_eq!(u.len(), n);
    for i in 0..n {
        assert_eq!(u.get_root(i), i);
        assert_eq!(u.get_root_with_depth(i), (i, 0));
        for j in 0..n {
            assert_eq!(u.find(i, j), i == j);
        }
    }
}

#[test]
fn union_joins_in_either_order() {
    let mut forward: UnionWeighted<i32> = UnionWeighted::new_full_category(6);
    let mut backward: UnionWeighted<i32> = UnionWeighted::new_full_category(6);
    forward.union(1, 4);
    backward.union(4, 1);
    assert!(forward.find(1, 4));
    assert!(forward.find(4, 1));
    assert!(backward.find(1, 4));
    assert!(backward.find(4, 1));
    for i in 0..6 {
        for j in 0..6 {
            assert_eq!(forward.find(i, j), backward.find(i, j));
        }
    }
}

#[test]
fn union_merges_exactly_two_sets() {
    let mut u: UnionWeighted<i32> = UnionWeighted::new_full_category(7);
    u.union(0, 1);
    u.union(2, 3);
    u.union(4, 5);
    let mut before: Vec<Vec<bool>> = Vec::new();
    for i in 0..7 {
        let mut row: Vec<bool> = Vec::new();
        for j in 0..7 {
            row.push(u.find(i, j));
        }
        before.push(row);
    }
    u.union(1, 3);
    for i in 0..7 {
        for j in 0..7 {
            let expected = before[i][j] || (before[i][1] && before[3][j])
                || (before[i][3] && before[1][j]);
            assert_eq!(u.find(i, j), expected);
        }
    }
    assert!(u.find(0, 2));
    assert!(!u.find(0, 4));
    assert!(!u.find(6, 0));
}

#[test]
fn find_is_transitive() {
    let mut u: UnionWeighted<i32> = UnionWeighted::new_full_category(9);
    u.union(0, 3);
    u.union(3, 6);
    u.union(1, 4);
    u.union(7, 4);
    u.union(8, 2);
    for a in 0..9 {
        for b in 0..9 {
            for c in 0..9 {
                if u.find(a, b) && u.find(b, c) {
                    assert!(u.find(a, c));
                }
            }
        }
    }
    assert!(u.find(0, 6));
    assert!(u.find(1, 7));
    assert!(!u.find(0, 1));
}

#[test]
fn second_union_changes_nothing() {
    let mut u = two_pairs();
    let before = format!("{:?}", u);
    u.union(0, 2);
    assert_eq!(format!("{:?}", u), before);
    u.union(3, 1);
    assert_eq!(format!("{:?}", u), before);
    u.union(2, 2);
    assert_eq!(format!("{:?}", u), before);
    for i in 0..4 {
        assert_eq!(u.get_root(i), 0);
    }
}

#[test]
fn push_adds_a_set_of_its_own() {
    let mut u = two_pairs();
    let n = u.len();
    u.push(42);
    assert_eq!(u.len(), n + 1);
    assert_eq!(u.get_root(n), n);
    assert_eq!(u.get_root_with_depth(n), (n, 0));
    for i in 0..n {
        assert!(!u.find(n, i));
        assert!(!u.find(i, n));
        assert_eq!(u.get_root(i), 0);
    }
}

#[test]
fn push_on_an_empty_forest() {
    let mut u: UnionWeighted<i32> = UnionWeighted::new(3);
    assert_eq!(u.len(), 0);
    assert!(u.capacity() >= 3);
    u.push(7);
    u.push(8);
    assert_eq!(u.len(), 2);
    assert_eq!(u.get_root(0), 0);
    assert_eq!(u.get_root(1), 1);
    assert!(!u.find(0, 1));
    u.union(1, 0);
    assert!(u.find(0, 1));
    assert_eq!(u.get_root(0), 1);
}

#[test]
fn insert_joins_the_set_under_its_root() {
    let mut u = two_pairs();
    let n = u.len();
    // 3 hangs under 2, which hangs under 0: the new node goes under 0
    u.insert(3, 99);
    assert_eq!(u.len(), n + 1);
    assert!(u.find(n, 3));
    assert_eq!(u.get_root(n), 0);
    for i in 0..n {
        assert!(u.find(n, i));
        assert_eq!(u.get_root(i), 0);
    }
    // as a direct child of the root the new node adds no depth
    assert_eq!(u.get_root_with_depth(n), (0, 3));
}

#[test]
fn insert_into_a_singleton() {
    let mut u: UnionWeighted<i32> = UnionWeighted::new_full_category(2);
    u.insert(1, 5);
    assert_eq!(u.len(), 3);
    assert!(u.find(2, 1));
    assert!(!u.find(2, 0));
    assert_eq!(u.get_root(2), 1);
    assert_eq!(u.get_root_with_depth(2), (1, 1));
}

#[test]
fn chain_of_unions_stays_shallow() {
    let count: usize = 1000;
    let mut u: UnionWeighted<i32> = UnionWeighted::new_full_category(count);
    for i in 0..count - 1 {
        u.union(i, i + 1);
        // the merged nodes hang under 0, the others are still alone
        assert_eq!(u.get_root_with_depth(i + 1), (0, 1));
        if i + 2 < count {
            assert_eq!(u.get_root_with_depth(i + 2), (i + 2, 0));
        }
    }
    for i in 0..count {
        assert_eq!(u.get_root_with_depth(i), (0, 1));
    }
}

#[test]
fn four_singletons_scenario() {
    let mut u: UnionWeighted<i32> = UnionWeighted::new_full_category(4);
    u.union(2, 3);
    assert_eq!(u.find(2, 3), true);
    assert_eq!(u.find(0, 1), false);
    u.union(1, 2);
    assert_eq!(u.find(1, 3), true);
    assert_eq!(u.find(0, 3), false);
    u.union(0, 3);
    assert_eq!(u.find(0, 2), true);
    u.push(3);
    assert_eq!(u.len(), 5);
    assert_eq!(u.find(3, 4), false);
    u.union(1, 4);
    assert_eq!(u.find(3, 4), true);
    u.insert(2, 5);
    assert_eq!(u.len(), 6);
    assert_eq!(u.find(2, 5), true);
    assert_eq!(u.find(0, 5), true);
}

#[test]
fn equal_estimates_keep_the_first_root() {
    let mut u: UnionWeighted<i32> = UnionWeighted::new_full_category(4);
    u.union(2, 3);
    assert_eq!(u.get_root(2), 2);
    assert_eq!(u.get_root(3), 2);
    u.union(1, 0);
    assert_eq!(u.get_root(0), 1);
    assert_eq!(u.get_root(1), 1);
    // both roots are estimated at 1
    u.union(0, 3);
    for i in 0..4 {
        assert_eq!(u.get_root(i), 1);
    }
}

#[test]
fn shallower_tree_goes_under_the_deeper() {
    let mut left: UnionWeighted<i32> = UnionWeighted::new_full_category(3);
    left.union(1, 2);
    // estimate 0 against estimate 1: 0 goes under 1
    left.union(0, 2);
    for i in 0..3 {
        assert_eq!(left.get_root(i), 1);
    }
    let mut right: UnionWeighted<i32> = UnionWeighted::new_full_category(3);
    right.union(1, 2);
    // estimate 1 against estimate 0: 0 goes under 1 again
    right.union(2, 0);
    for i in 0..3 {
        assert_eq!(right.get_root(i), 1);
    }
    assert_eq!(left.get_root_with_depth(0), (1, 1));
    assert_eq!(right.get_root_with_depth(0), (1, 1));
}

#[test]
fn estimate_adds_the_depth_at_every_level() {
    let u = two_pairs();
    // under 0: the leaf 1 gives 1; the node 2 gives 1 plus what its leaf 3
    // gives two links down, which is 2
    for i in 0..4 {
        assert_eq!(u.get_root_with_depth(i), (0, 3));
    }
    let pair = {
        let mut p: UnionWeighted<i32> = UnionWeighted::new_full_category(2);
        p.union(0, 1);
        p
    };
    assert_eq!(pair.get_root_with_depth(1), (0, 1));
}

#[test]
fn every_child_is_looked_at_up_to_sixteen() {
    // 16 children, the deep one at position 1
    let u = bush(14);
    assert_eq!(u.len(), 18);
    assert_eq!(u.get_root_with_depth(2), (0, 3));
    assert_eq!(u.get_root_with_depth(17), (0, 3));
}

#[test]
fn beyond_sixteen_children_are_sampled() {
    // 17 children: positions 0, 4, 8, 12 and 16 are looked at, the deep
    // child at position 1 is not
    let u = bush(15);
    assert_eq!(u.len(), 19);
    assert_eq!(u.get_root_with_depth(2), (0, 1));
    assert_eq!(u.get_root(2), 0);
}

#[test]
fn a_sampled_deep_child_is_seen() {
    // children of 0, in order: four leaves, then the root of a pair, then
    // twelve more leaves: 17 in all, the pair at the sampled position 4
    let mut u: UnionWeighted<i32> = UnionWeighted::new_full_category(3);
    u.union(1, 2);
    for i in 0..4 {
        u.insert(0, i as i32);
    }
    u.union(0, 1);
    for i in 0..12 {
        u.insert(0, i as i32);
    }
    assert_eq!(u.len(), 19);
    assert_eq!(u.get_root_with_depth(2), (0, 3));
}

#[test]
fn sampling_stride_grows_with_the_children() {
    // four leaves, the root of a pair at position 4, then fourteen leaves:
    // 19 children, stride 4, so position 4 is looked at
    let mut u: UnionWeighted<i32> = UnionWeighted::new_full_category(3);
    u.union(1, 2);
    for i in 0..4 {
        u.insert(0, i as i32);
    }
    u.union(0, 1);
    for i in 0..14 {
        u.insert(0, i as i32);
    }
    assert_eq!(u.len(), 21);
    assert_eq!(u.get_root_with_depth(2), (0, 3));
    // one more leaf: 20 children, stride 5, so position 4 is skipped
    u.insert(0, 100);
    assert_eq!(u.get_root_with_depth(2), (0, 1));
}

#[test]
fn capacity_is_never_below_len() {
    let mut u: UnionWeighted<i32> = UnionWeighted::new(0);
    assert!(u.capacity() >= u.len());
    for i in 0..100 {
        u.push(i);
        assert!(u.capacity() >= u.len());
    }
    assert_eq!(u.len(), 100);
    let reserved: UnionWeighted<i32> = UnionWeighted::new(64);
    assert!(reserved.capacity() >= 64);
    assert_eq!(reserved.len(), 0);
}

#[test]
fn defaults_are_empty() {
    let u: UnionWeighted<i32> = UnionWeighted::default();
    assert_eq!(u.len(), 0);
    let node: UnionWeightedNode<i32> = UnionWeightedNode::default();
    assert_eq!(node, UnionWeightedNode::default());
    assert_eq!(node.clone(), node);
    let mut one: UnionWeighted<i32> = UnionWeighted::default();
    one.push(1);
    let fresh: UnionWeighted<i32> = UnionWeighted::new_full_category(1);
    assert_ne!(format!("{:?}", one), format!("{:?}", fresh));
}

#[test]
fn empty_forest_has_no_labels() {
    let u: UnionWeighted<i32> = UnionWeighted::new_full_category(0);
    assert_eq!(u.len(), 0);
}

#[test]
fn sampled_height_three_is_estimated_at_six() {
    // two trees of sampled height 2, the second hung under the first
    let mut u: UnionWeighted<i32> = UnionWeighted::new_full_category(8);
    u.union(0, 1);
    u.union(2, 3);
    u.union(0, 2);
    u.union(4, 5);
    u.union(6, 7);
    u.union(4, 6);
    assert_eq!(u.get_root_with_depth(3), (0, 3));
    assert_eq!(u.get_root_with_depth(7), (4, 3));
    u.union(1, 7);
    for i in 0..8 {
        assert_eq!(u.get_root_with_depth(i), (0, 6));
    }
}
