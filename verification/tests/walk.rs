use treewalk::Tree;
use treewalk::TreeNodeLink;
use treewalk::TreeNodePtr;

/// Collect the values the cursor reports, stopping after `cap` steps in
/// case the walk does not terminate on its own.
fn cursor_values(t: &Tree, cap: usize) -> Vec<u32> {
    let mut out = Vec::new();
    let mut it = t.iter();
    for _ in 0..cap {
        match it.next(t) {
            None => break,
            Some(p) => out.push(p.value(t)),
        }
    }
    out
}

/// Build the example tree:
///
/// ```text
///       8
///      / \
///     3   10
///    / \    \
///   1   6    14
///      / \   /
///     4   7 13
/// ```
fn example_tree() -> Tree {
    let mut t = Tree::new(8);
    let n3 = t.add_left(3);
    n3.add_left(&mut t, 1);
    let n6 = n3.add_right(&mut t, 6);
    n6.add_left(&mut t, 4);
    n6.add_right(&mut t, 7);
    let n10 = t.add_right(10);
    let n14 = n10.add_right(&mut t, 14);
    n14.add_left(&mut t, 13);
    t
}

#[test]
fn example_tree_cursor_sequence() {
    let t = example_tree();
    assert_eq!(cursor_values(&t, 100), vec![1, 3, 4, 6, 7, 8, 10, 13, 14]);
}

#[test]
fn example_tree_recursive_walk_matches_cursor() {
    let t = example_tree();
    let walked = t.in_order_values();
    assert_eq!(walked, vec![1, 3, 4, 6, 7, 8, 10, 13, 14]);
    assert_eq!(walked, cursor_values(&t, 100));
}

#[test]
fn attach_wires_parent_and_child_links() {
    let mut t = Tree::new(5);
    let l = t.add_left(2);
    let r = t.add_right(9);
    assert_eq!(l.get_parent(&t), TreeNodeLink::Ptr(t.root().idx));
    assert_eq!(r.get_parent(&t), TreeNodeLink::Ptr(t.root().idx));
    assert_eq!(t.root().get_left(&t), TreeNodeLink::Ptr(l.idx));
    assert_eq!(t.root().get_right(&t), TreeNodeLink::Ptr(r.idx));
    let deep = l.add_right(&mut t, 3);
    assert_eq!(deep.get_parent(&t), TreeNodeLink::Ptr(l.idx));
    assert_eq!(l.get_right(&t), TreeNodeLink::Ptr(deep.idx));
    assert_eq!(l.get_left(&t), TreeNodeLink::Nil);
    assert_eq!(t.root().get_parent(&t), TreeNodeLink::Nil);
}

#[test]
fn leaf_detection_matches_child_accessors() {
    let t = example_tree();
    for idx in 0..t.nodes.len() {
        let p = TreeNodePtr { idx };
        let expect = p.get_left(&t) == TreeNodeLink::Nil && p.get_right(&t) == TreeNodeLink::Nil;
        assert_eq!(t.nodes[idx].is_leaf(), expect);
    }
    assert!(!t.nodes[0].is_leaf());
    let leaf = example_tree();
    assert!(leaf.nodes[2].is_leaf()); // the node holding 1
}

#[test]
fn node_shape_queries() {
    let mut t = Tree::new(7);
    assert!(t.nodes[0].is_leaf());
    assert!(!t.nodes[0].has_left());
    assert!(!t.nodes[0].has_right());
    t.add_left(3);
    assert!(t.nodes[0].has_left());
    assert!(!t.nodes[0].has_right());
    assert!(!t.nodes[0].is_leaf());
}

#[test]
fn finished_cursor_stays_finished() {
    let mut t = Tree::new(4);
    t.add_left(2);
    t.add_right(6);
    let mut it = t.iter();
    let mut seen = Vec::new();
    while let Some(p) = it.next(&t) {
        seen.push(p.value(&t));
        assert!(seen.len() <= 10, "walk of three nodes should finish");
    }
    // reaching the final leaf by a rightward step spends the one-shot
    // ascent first, so the root and the leaf are reported twice before
    // the walk terminates
    assert_eq!(seen, vec![2, 4, 6, 4, 6]);
    for _ in 0..5 {
        assert_eq!(it.next(&t), None);
    }
}

#[test]
fn values_are_readable_through_handles() {
    let mut t = Tree::new(1);
    let a = t.add_left(2);
    let b = a.add_left(&mut t, 3);
    assert_eq!(t.root().value(&t), 1);
    assert_eq!(a.value(&t), 2);
    assert_eq!(b.value(&t), 3);
}

#[test]
fn reattach_overwrites_child_slot() {
    let mut t = Tree::new(10);
    let first = t.add_left(1);
    let second = t.add_left(2);
    assert_eq!(t.root().get_left(&t), TreeNodeLink::Ptr(second.idx));
    // the orphaned node keeps its parent link and its value
    assert_eq!(first.get_parent(&t), TreeNodeLink::Ptr(t.root().idx));
    assert_eq!(first.value(&t), 1);
    // the walk no longer reports the orphan
    assert_eq!(t.in_order_values(), vec![2, 10]);
}

#[test]
fn root_without_left_child_never_advances() {
    // The initial descent takes no step, so the last move stays
    // unknown and every advance reports the root again.
    let mut t = Tree::new(8);
    t.add_right(10);
    let mut it = t.iter();
    for _ in 0..3 {
        let p = it.next(&t).expect("cursor reports the root");
        assert_eq!(p.value(&t), 8);
    }
    // the recursive walk still reports the whole tree
    assert_eq!(t.in_order_values(), vec![8, 10]);
}

#[test]
fn midtree_ascent_recovery_revisits_nodes() {
    // A right-dead-end leaf inside the root's right subtree makes the
    // first upward recovery climb past nodes that were already
    // reported; the latch then ends the walk at the second dead end.
    let mut t = Tree::new(2);
    t.add_left(1);
    let n4 = t.add_right(4);
    n4.add_left(&mut t, 3);
    n4.add_right(&mut t, 5);
    assert_eq!(t.in_order_values(), vec![1, 2, 3, 4, 5]);
    assert_eq!(cursor_values(&t, 100), vec![1, 2, 3, 4, 5, 2, 3, 4, 5]);
}

#[test]
fn second_ascent_terminates_early() {
    // The one-shot latch is spent on the first full ascent (at the node
    // holding 7); when a second recovery is needed (at the node holding
    // 13) the walk terminates instead, leaving 14 and 15 unreported.
    let mut t = Tree::new(8);
    let n3 = t.add_left(3);
    n3.add_left(&mut t, 1);
    let n6 = n3.add_right(&mut t, 6);
    n6.add_left(&mut t, 4);
    n6.add_right(&mut t, 7);
    let n14 = t.add_right(14);
    let n10 = n14.add_left(&mut t, 10);
    n10.add_left(&mut t, 9);
    let n12 = n10.add_right(&mut t, 12);
    n12.add_left(&mut t, 11);
    n12.add_right(&mut t, 13);
    n14.add_right(&mut t, 15);
    assert_eq!(
        t.in_order_values(),
        vec![1, 3, 4, 6, 7, 8, 9, 10, 11, 12, 13, 14, 15]
    );
    assert_eq!(
        cursor_values(&t, 100),
        vec![1, 3, 4, 6, 7, 8, 9, 10, 11, 12, 13]
    );
}

#[test]
fn two_cursors_walk_independently() {
    let t = example_tree();
    let mut a = t.iter();
    let mut b = t.iter();
    assert_eq!(a.next(&t).map(|p| p.value(&t)), Some(1));
    assert_eq!(a.next(&t).map(|p| p.value(&t)), Some(3));
    assert_eq!(b.next(&t).map(|p| p.value(&t)), Some(1));
    assert_eq!(a.next(&t).map(|p| p.value(&t)), Some(4));
    assert_eq!(b.next(&t).map(|p| p.value(&t)), Some(3));
}

#[test]
fn descent_stop_with_right_subtree_skips_nodes() {
    // The descent stops on a node that still has a right subtree; the
    // following upward step skips that subtree entirely.
    let mut t = Tree::new(5);
    let n2 = t.add_left(2);
    let n1 = n2.add_left(&mut t, 1);
    n1.add_right(&mut t, 9);
    assert_eq!(t.in_order_values(), vec![1, 9, 2, 5]);
    assert_eq!(cursor_values(&t, 100), vec![1, 2]);
}

#[test]
fn upward_dead_end_stops_walk_early() {
    // Entered upward onto a node with no right child, the cursor
    // terminates even though unvisited nodes remain above it.
    let mut t = Tree::new(8);
    let n3 = t.add_left(3);
    n3.add_left(&mut t, 1);
    t.add_right(10);
    assert_eq!(t.in_order_values(), vec![1, 3, 8, 10]);
    assert_eq!(cursor_values(&t, 100), vec![1, 3]);
}
