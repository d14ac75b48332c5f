use std::collections::{BTreeMap, BTreeSet};
use wavl_tree::Tree;

struct Lcg(u64);

impl Lcg {
    fn next(&mut self) -> u64 {
        self.0 = self.0.wrapping_mul(6364136223846793005).wrapping_add(1442695040888963407);
        self.0 >> 33
    }

    fn below(&mut self, n: u64) -> u64 {
        self.next() % n
    }
}

/// Checks search order and the rank rule over the links of the tree and
/// returns its height.
fn check_links(tree: &Tree) -> usize {
    let links = tree.links();
    let entries = tree.inorder();
    assert_eq!(links.len(), entries.len());
    assert_eq!(links.len(), tree.node_count());
    let mut by_key: BTreeMap<i32, (i32, Option<i32>, Option<i32>)> = BTreeMap::new();
    let mut children: BTreeSet<i32> = BTreeSet::new();
    for i in 0..links.len() {
        let (key, rank, left, right) = links[i];
        assert_eq!((key, rank), entries[i]);
        if i > 0 {
            assert!(links[i - 1].0 < key);
        }
        by_key.insert(key, (rank, left, right));
        for child in [left, right].into_iter().flatten() {
            assert!(children.insert(child), "{} has two parents", child);
        }
    }
    let rank_of = |slot: Option<i32>| match slot {
        Some(k) => by_key[&k].0,
        None => 0,
    };
    let mut roots = Vec::new();
    for (key, (rank, left, right)) in &by_key {
        let gap_left = rank - rank_of(*left);
        let gap_right = rank - rank_of(*right);
        assert!(gap_left == 1 || gap_left == 2, "left gap {} at {}", gap_left, key);
        assert!(gap_right == 1 || gap_right == 2, "right gap {} at {}", gap_right, key);
        if left.is_none() && right.is_none() {
            assert_eq!(*rank, 1, "leaf {} has rank {}", key, rank);
        }
        if let Some(l) = left {
            assert!(l < key);
        }
        if let Some(r) = right {
            assert!(key < r);
        }
        if !children.contains(key) {
            roots.push(*key);
        }
    }
    assert_eq!(roots.len(), if by_key.is_empty() { 0 } else { 1 });
    let mut height = 0;
    let mut level: Vec<i32> = roots;
    let mut seen = 0;
    while !level.is_empty() {
        height += 1;
        seen += level.len();
        let mut next = Vec::new();
        for key in level {
            let (_, left, right) = by_key[&key];
            next.extend(left);
            next.extend(right);
        }
        level = next;
    }
    assert_eq!(seen, by_key.len());
    height
}

/// Checks the rank rule in full: what `check_links` checks, and that no node
/// has gap 2 on both sides.
fn check_strict(tree: &Tree) -> usize {
    assert_eq!(double_gaps(tree), vec![]);
    check_links(tree)
}

fn log2_ceil_of_successor(n: usize) -> usize {
    let mut bits = 0;
    while (1usize << bits) < n + 1 {
        bits += 1;
    }
    bits
}

#[test]
fn links_describe_the_example_tree() {
    let mut tree = Tree::new();
    for k in [30, 40, 50, 24, 8, 58, 48, 26] {
        assert!(tree.insert(k));
    }
    assert_eq!(
        tree.links(),
        vec![
            (8, 1, None, None),
            (24, 3, Some(8), Some(30)),
            (26, 1, None, None),
            (30, 2, Some(26), None),
            (40, 4, Some(24), Some(50)),
            (48, 1, None, None),
            (50, 2, Some(48), Some(58)),
            (58, 1, None, None),
        ]
    );
    assert_eq!(check_strict(&tree), 4);
    assert!(tree.remove(40));
    assert_eq!(check_strict(&tree), 4);
    assert!(tree.remove(48));
    assert_eq!(
        tree.links(),
        vec![
            (8, 1, None, None),
            (24, 2, Some(8), Some(26)),
            (26, 1, None, None),
            (30, 3, Some(24), Some(50)),
            (50, 2, None, Some(58)),
            (58, 1, None, None),
        ]
    );
    assert_eq!(check_strict(&tree), 3);
}

#[test]
fn links_of_the_empty_tree_are_empty() {
    let tree = Tree::new();
    assert_eq!(tree.links(), vec![]);
    assert_eq!(check_links(&tree), 0);
}

#[test]
fn invariants_hold_after_every_mixed_operation() {
    let mut rng = Lcg(7);
    for round in 0..40 {
        let mut tree = Tree::new();
        let mut model: BTreeSet<i32> = BTreeSet::new();
        let range = 8 + 4 * round;
        for _ in 0..300 {
            let key = rng.below(range) as i32 - 10;
            if rng.below(2) == 0 {
                assert_eq!(tree.insert(key), model.insert(key));
            } else {
                assert_eq!(tree.remove(key), model.remove(&key));
            }
            assert_eq!(tree.node_count(), model.len());
            let keys: Vec<i32> = tree.inorder().iter().map(|e| e.0).collect();
            let expected: Vec<i32> = model.iter().copied().collect();
            assert_eq!(keys, expected);
            check_links(&tree);
        }
    }
}

#[test]
fn queries_agree_with_a_sorted_set() {
    let mut rng = Lcg(99);
    let mut tree = Tree::new();
    let mut model: BTreeSet<i32> = BTreeSet::new();
    for _ in 0..2000 {
        let key = rng.below(500) as i32;
        match rng.below(3) {
            0 => assert_eq!(tree.insert(key), model.insert(key)),
            1 => assert_eq!(tree.remove(key), model.remove(&key)),
            _ => {
                assert_eq!(tree.find(key), model.contains(&key));
                let next = if model.contains(&key) {
                    model.range(key + 1..).next().copied()
                } else {
                    None
                };
                let prev = if model.contains(&key) {
                    model.range(..key).next_back().copied()
                } else {
                    None
                };
                assert_eq!(tree.successor(key), next);
                assert_eq!(tree.predecessor(key), prev);
            }
        }
    }
    check_links(&tree);
}

#[test]
fn ascending_inserts_stay_within_the_depth_bound() {
    let mut tree = Tree::new();
    let n = 20000;
    for k in 0..n {
        assert!(tree.insert(k));
    }
    let height = check_strict(&tree);
    assert!(height <= 2 * log2_ceil_of_successor(n as usize));
    assert_eq!(height, 15);
}

#[test]
fn random_inserts_stay_within_the_depth_bound() {
    let mut rng = Lcg(2024);
    let mut tree = Tree::new();
    let mut count = 0;
    while count < 20000 {
        if tree.insert(rng.next() as i32) {
            count += 1;
        }
    }
    let height = check_strict(&tree);
    assert!(height <= 2 * log2_ceil_of_successor(count));
    let root_rank = tree.links().iter().map(|l| l.1).max().unwrap();
    assert!(height <= root_rank as usize);
}

#[test]
fn deleting_most_keys_stays_within_the_depth_bound() {
    let mut rng = Lcg(5);
    let mut tree = Tree::new();
    let mut keys = Vec::new();
    while keys.len() < 5000 {
        let key = rng.next() as i32;
        if tree.insert(key) {
            keys.push(key);
        }
    }
    for i in 0..4800 {
        assert!(tree.remove(keys[i]));
        if i % 400 == 0 {
            let height = check_links(&tree);
            assert!(height <= 2 * log2_ceil_of_successor(tree.node_count()));
        }
    }
    let height = check_links(&tree);
    assert_eq!(tree.node_count(), 200);
    assert!(height <= 2 * log2_ceil_of_successor(200));
}

#[test]
fn an_operation_rotates_at_most_twice() {
    let mut rng = Lcg(31);
    let mut tree = Tree::new();
    for _ in 0..3000 {
        let key = rng.below(400) as i32;
        tree.reset_rotations();
        if rng.below(2) == 0 {
            tree.insert(key);
        } else {
            tree.remove(key);
        }
        assert!(tree.rotations() <= 2);
    }
}

#[test]
fn slots_of_removed_nodes_are_used_again() {
    let mut tree = Tree::new();
    for round in 0..50 {
        for k in 0..100 {
            assert!(tree.insert(k + round));
        }
        for k in 0..100 {
            assert!(tree.remove(k + round));
        }
        assert_eq!(tree.node_count(), 0);
    }
    for k in 0..100 {
        assert!(tree.insert(k));
    }
    assert_eq!(check_links(&tree), 7);
}

fn double_gaps(tree: &Tree) -> Vec<i32> {
    let links = tree.links();
    let ranks: BTreeMap<i32, i32> = links.iter().map(|l| (l.0, l.1)).collect();
    let rank_of = |slot: Option<i32>| slot.map_or(0, |k| ranks[&k]);
    links
        .iter()
        .filter(|l| l.1 - rank_of(l.2) == 2 && l.1 - rank_of(l.3) == 2)
        .map(|l| l.0)
        .collect()
}

#[test]
fn insertions_make_no_node_with_gap_two_on_both_sides() {
    let mut rng = Lcg(77);
    let mut tree = Tree::new();
    for _ in 0..3000 {
        tree.insert(rng.below(100000) as i32);
        assert_eq!(double_gaps(&tree), vec![]);
    }
    check_links(&tree);
}

#[test]
fn removals_in_the_examples_leave_no_gap_two_on_both_sides() {
    let mut tree = Tree::new();
    for k in [3, 8, 2, 7] {
        assert!(tree.insert(k));
    }
    assert!(tree.remove(7));
    assert_eq!(double_gaps(&tree), vec![]);
    assert_eq!(tree.links(), vec![(2, 1, None, None), (3, 2, Some(2), Some(8)), (8, 1, None, None)]);
    check_links(&tree);

    let mut tree = Tree::new();
    for k in [30, 40, 50, 24, 8, 58, 48, 26] {
        assert!(tree.insert(k));
    }
    for k in [13, 40, 48] {
        tree.remove(k);
        assert_eq!(double_gaps(&tree), vec![]);
    }
    check_links(&tree);
}

#[test]
fn a_rotation_below_a_node_without_room_leaves_gap_two_on_both_sides() {
    let mut tree = Tree::new();
    for k in [14, 19, 4, 3, 6, 12, 8] {
        assert!(tree.insert(k));
    }
    assert_eq!(double_gaps(&tree), vec![]);
    assert!(tree.remove(14));
    assert_eq!(
        tree.links(),
        vec![
            (3, 1, None, None),
            (4, 2, Some(3), None),
            (6, 4, Some(4), Some(12)),
            (8, 1, None, None),
            (12, 3, Some(8), Some(19)),
            (19, 1, None, None),
        ]
    );
    assert_eq!(double_gaps(&tree), vec![12]);
    check_links(&tree);
}
