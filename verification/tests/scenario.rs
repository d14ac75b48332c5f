use wavl_tree::Tree;

fn build(keys: &[i32]) -> Tree {
    let mut tree = Tree::new();
    for k in keys {
        assert!(tree.insert(*k));
    }
    tree
}

fn keys_of(tree: &Tree) -> Vec<i32> {
    tree.inorder().iter().map(|e| e.0).collect()
}

#[test]
fn empty_tree_has_nothing() {
    let mut tree = Tree::new();
    assert_eq!(tree.node_count(), 0);
    assert_eq!(tree.inorder(), vec![]);
    assert!(!tree.find(1));
    assert_eq!(tree.successor(1), None);
    assert_eq!(tree.predecessor(1), None);
    assert!(!tree.remove(1));
    assert_eq!(tree.node_count(), 0);
}

#[test]
fn single_key_is_a_rank_one_root() {
    let mut tree = Tree::new();
    assert!(tree.insert(30));
    assert_eq!(tree.inorder(), vec![(30, 1)]);
    assert_eq!(tree.node_count(), 1);
    assert!(tree.find(30));
    assert_eq!(tree.successor(30), None);
    assert_eq!(tree.predecessor(30), None);
}

#[test]
fn three_ascending_keys_rotate_once() {
    let mut tree = Tree::new();
    tree.reset_rotations();
    assert!(tree.insert(30));
    assert!(tree.insert(40));
    assert_eq!(tree.inorder(), vec![(30, 2), (40, 1)]);
    assert_eq!(tree.rotations(), 0);
    assert!(tree.insert(50));
    assert_eq!(tree.inorder(), vec![(30, 1), (40, 2), (50, 1)]);
    assert_eq!(tree.rotations(), 1);
}

#[test]
fn zigzag_insert_rotates_twice() {
    let mut tree = Tree::new();
    assert!(tree.insert(30));
    assert!(tree.insert(50));
    tree.reset_rotations();
    assert!(tree.insert(40));
    assert_eq!(tree.inorder(), vec![(30, 1), (40, 2), (50, 1)]);
    assert_eq!(tree.rotations(), 2);
}

#[test]
fn example_scenario() {
    let mut tree = build(&[30, 40, 50, 24, 8, 58, 48, 26]);
    assert_eq!(
        tree.inorder(),
        vec![(8, 1), (24, 3), (26, 1), (30, 2), (40, 4), (48, 1), (50, 2), (58, 1)]
    );
    assert_eq!(tree.node_count(), 8);

    assert!(!tree.remove(13));
    assert_eq!(
        tree.inorder(),
        vec![(8, 1), (24, 3), (26, 1), (30, 2), (40, 4), (48, 1), (50, 2), (58, 1)]
    );
    assert_eq!(tree.node_count(), 8);

    assert!(tree.remove(40));
    assert_eq!(
        tree.inorder(),
        vec![(8, 1), (24, 3), (26, 1), (30, 2), (48, 4), (50, 2), (58, 1)]
    );
    assert!(tree.remove(48));
    assert_eq!(tree.inorder(), vec![(8, 1), (24, 2), (26, 1), (30, 3), (50, 2), (58, 1)]);
    assert_eq!(keys_of(&tree), vec![8, 24, 26, 30, 50, 58]);
    assert_eq!(tree.node_count(), 6);
}

#[test]
fn duplicate_insert_is_rejected() {
    let mut tree = build(&[5, 3, 8]);
    let before = tree.inorder();
    assert!(!tree.insert(3));
    assert_eq!(tree.node_count(), 3);
    assert_eq!(tree.inorder(), before);
    assert!(tree.insert(4));
    assert!(!tree.insert(4));
    assert_eq!(tree.node_count(), 4);
}

#[test]
fn removing_the_last_key_empties_the_tree() {
    let mut tree = Tree::new();
    assert!(tree.insert(1));
    assert!(tree.remove(1));
    assert_eq!(tree.node_count(), 0);
    assert_eq!(tree.inorder(), vec![]);
    assert!(!tree.find(1));
    assert!(tree.insert(2));
    assert_eq!(tree.inorder(), vec![(2, 1)]);
}

#[test]
fn a_leaf_left_at_rank_two_is_demoted() {
    let mut tree = build(&[8, 27]);
    assert_eq!(tree.inorder(), vec![(8, 2), (27, 1)]);
    assert!(tree.remove(27));
    assert_eq!(tree.inorder(), vec![(8, 1)]);
}

#[test]
fn removing_the_root_with_one_child() {
    let mut tree = build(&[8, 27]);
    assert!(tree.remove(8));
    assert_eq!(tree.inorder(), vec![(27, 1)]);
    assert!(tree.find(27));
    assert!(!tree.find(8));
}

#[test]
fn removing_a_node_with_two_children_keeps_the_order() {
    let mut tree = build(&[3, 8, 2, 7]);
    assert_eq!(tree.inorder(), vec![(2, 1), (3, 3), (7, 1), (8, 2)]);
    assert!(tree.remove(3));
    assert_eq!(keys_of(&tree), vec![2, 7, 8]);
    assert_eq!(tree.inorder(), vec![(2, 1), (7, 2), (8, 1)]);
}

#[test]
fn a_parent_left_at_gap_two_on_both_sides_is_demoted() {
    let mut tree = build(&[3, 8, 2, 7]);
    assert!(tree.remove(7));
    assert_eq!(tree.inorder(), vec![(2, 1), (3, 2), (8, 1)]);
}

#[test]
fn successor_and_predecessor_walk_the_keys() {
    let keys = [30, 40, 50, 24, 8, 58, 48, 26];
    let mut tree = build(&keys);
    let sorted = [8, 24, 26, 30, 40, 48, 50, 58];
    for i in 0..sorted.len() {
        let next = if i + 1 < sorted.len() { Some(sorted[i + 1]) } else { None };
        let prev = if i > 0 { Some(sorted[i - 1]) } else { None };
        assert_eq!(tree.successor(sorted[i]), next);
        assert_eq!(tree.predecessor(sorted[i]), prev);
    }
    assert_eq!(tree.successor(25), None);
    assert_eq!(tree.predecessor(25), None);
    assert_eq!(tree.successor(100), None);
    assert_eq!(tree.predecessor(-100), None);
}

#[test]
fn find_follows_inserts_and_removes() {
    let mut tree = Tree::new();
    for k in 0..50 {
        assert!(!tree.find(k));
        assert!(tree.insert(k));
        assert!(tree.find(k));
    }
    for k in (0..50).step_by(2) {
        assert!(tree.remove(k));
        assert!(!tree.find(k));
    }
    for k in 0..50 {
        assert_eq!(tree.find(k), k % 2 == 1);
    }
    assert!(!tree.find(-1));
    assert!(!tree.find(50));
}

#[test]
fn round_trip_empties_the_tree() {
    let keys = [30, 40, 50, 24, 8, 58, 48, 26, 11, 13, -4, 0, 99];
    let mut tree = build(&keys);
    assert_eq!(tree.node_count(), keys.len());
    let order = [13, 30, 99, 8, -4, 58, 24, 0, 48, 11, 50, 26, 40];
    for k in order {
        assert!(tree.remove(k));
    }
    assert_eq!(tree.node_count(), 0);
    assert_eq!(tree.inorder(), vec![]);
    for k in keys {
        assert!(!tree.find(k));
    }
}

#[test]
fn extreme_keys_are_ordinary_keys() {
    let mut tree = build(&[0, i32::MAX, i32::MIN]);
    assert_eq!(keys_of(&tree), vec![i32::MIN, 0, i32::MAX]);
    assert_eq!(tree.successor(i32::MIN), Some(0));
    assert_eq!(tree.successor(i32::MAX), None);
    assert_eq!(tree.predecessor(i32::MIN), None);
    assert_eq!(tree.predecessor(i32::MAX), Some(0));
    assert!(tree.remove(i32::MIN));
    assert!(tree.remove(i32::MAX));
    assert_eq!(tree.inorder(), vec![(0, 1)]);
}

#[test]
fn counters_count_and_reset() {
    let mut tree = Tree::new();
    assert_eq!(tree.rotations(), 0);
    assert_eq!(tree.accessed_nodes(), 0);
    assert!(tree.insert(1));
    assert_eq!(tree.accessed_nodes(), 1);
    assert!(tree.insert(2));
    assert_eq!(tree.accessed_nodes(), 2);
    assert!(tree.insert(3));
    assert_eq!(tree.accessed_nodes(), 4);
    assert_eq!(tree.rotations(), 1);
    tree.reset_accessed_nodes();
    assert_eq!(tree.accessed_nodes(), 0);
    assert_eq!(tree.rotations(), 1);
    assert!(tree.find(3));
    assert_eq!(tree.accessed_nodes(), 1);
    assert!(tree.find(2));
    assert_eq!(tree.accessed_nodes(), 1);
    tree.reset_rotations();
    assert_eq!(tree.rotations(), 0);
    assert_eq!(tree.accessed_nodes(), 1);
}

#[test]
fn clear_empties_and_the_tree_is_usable_again() {
    let mut tree = build(&[5, 1, 9, 3, 7, 2, 8]);
    tree.clear();
    assert_eq!(tree.node_count(), 0);
    assert_eq!(tree.inorder(), vec![]);
    assert!(tree.insert(4));
    assert!(tree.insert(6));
    assert_eq!(tree.inorder(), vec![(4, 2), (6, 1)]);
}

#[test]
fn fifteen_ascending_keys_form_a_perfect_tree() {
    let mut tree = Tree::new();
    for k in 1..=15 {
        assert!(tree.insert(k));
    }
    assert_eq!(
        tree.inorder(),
        vec![
            (1, 1),
            (2, 2),
            (3, 1),
            (4, 3),
            (5, 1),
            (6, 2),
            (7, 1),
            (8, 4),
            (9, 1),
            (10, 2),
            (11, 1),
            (12, 3),
            (13, 1),
            (14, 2),
            (15, 1)
        ]
    );
    for k in [8, 4, 12] {
        assert!(tree.remove(k));
    }
    assert_eq!(
        tree.inorder(),
        vec![
            (1, 1),
            (2, 2),
            (3, 1),
            (5, 3),
            (6, 2),
            (7, 1),
            (9, 4),
            (10, 2),
            (11, 1),
            (13, 3),
            (14, 2),
            (15, 1)
        ]
    );
}

#[test]
fn ten_descending_keys() {
    let mut tree = Tree::new();
    for k in (1..=10).rev() {
        assert!(tree.insert(k));
    }
    assert_eq!(
        tree.inorder(),
        vec![(1, 1), (2, 2), (3, 3), (4, 1), (5, 2), (6, 1), (7, 4), (8, 1), (9, 2), (10, 1)]
    );
}

#[test]
fn zigzag_keys_and_removal_of_both_ends() {
    let mut tree = build(&[50, 10, 40, 20, 30, 25, 35]);
    assert_eq!(
        tree.inorder(),
        vec![(10, 1), (20, 2), (25, 1), (30, 3), (35, 1), (40, 2), (50, 1)]
    );
    assert!(tree.remove(50));
    assert!(tree.remove(10));
    assert_eq!(tree.inorder(), vec![(20, 2), (25, 1), (30, 3), (35, 1), (40, 2)]);
}

#[test]
fn a_mixed_history_with_every_outcome() {
    let ops: [(bool, i32, bool); 40] = [
        (false, 13, false),
        (false, 9, false),
        (true, 6, true),
        (true, 13, true),
        (false, 3, false),
        (true, 8, true),
        (false, 5, false),
        (true, 5, true),
        (true, 2, true),
        (true, 13, false),
        (true, 5, false),
        (true, 2, false),
        (true, 10, true),
        (true, 14, true),
        (false, 16, false),
        (true, 13, false),
        (false, 5, true),
        (true, 5, true),
        (true, 13, false),
        (true, 18, true),
        (true, 12, true),
        (true, 16, true),
        (false, 10, true),
        (true, 7, true),
        (true, 15, true),
        (false, 17, false),
        (true, 8, false),
        (false, 16, true),
        (true, 4, true),
        (true, 5, false),
        (true, 0, true),
        (true, 7, false),
        (true, 10, true),
        (true, 10, false),
        (false, 1, false),
        (true, 2, false),
        (false, 5, true),
        (true, 11, true),
        (false, 16, false),
        (false, 15, true),
    ];
    let mut tree = Tree::new();
    for (insert, key, done) in ops {
        if insert {
            assert_eq!(tree.insert(key), done);
        } else {
            assert_eq!(tree.remove(key), done);
        }
    }
    assert_eq!(
        tree.inorder(),
        vec![
            (0, 1),
            (2, 2),
            (4, 1),
            (6, 3),
            (7, 1),
            (8, 5),
            (10, 2),
            (11, 1),
            (12, 4),
            (13, 1),
            (14, 2),
            (18, 1)
        ]
    );
}

#[test]
fn removals_count_the_rotations_they_make() {
    let mut tree = build(&[30, 40, 50, 24, 8, 58, 48, 26]);
    tree.reset_rotations();
    tree.reset_accessed_nodes();
    assert!(tree.remove(40));
    assert_eq!(tree.rotations(), 0);
    assert_eq!(tree.accessed_nodes(), 0);
    assert!(tree.remove(48));
    assert_eq!(tree.rotations(), 2);
    assert_eq!(tree.accessed_nodes(), 0);
    assert!(!tree.remove(48));
    assert_eq!(tree.rotations(), 2);
    assert_eq!(tree.accessed_nodes(), 2);
}
