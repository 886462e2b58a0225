use vstd::prelude::*;
use crate::tree::{Tree, TreeNode, TreeNodeLink, TreeNodePtr, arena_ok, node_ok};
use crate::order::{
    adjacent_in, in_order, on_parent_chain, reachable, rightmost, lemma_reachable_trans,
    lemma_reachable_range, lemma_reachable_parent, lemma_in_order_complete,
    lemma_last_is_rightmost, lemma_successor_via_right, lemma_successor_via_parent,
    lemma_successor_via_full_ascent, lemma_adjacent_at, lemma_in_order_no_duplicates,
    lemma_rightmost_reachable, in_order_vals, lemma_in_order_vals_are_values,
};

verus! {

/// The direction of the most recent primitive move the cursor took.
#[allow(non_camel_case_types)]
#[derive(Clone, Copy, PartialEq, Eq, Structural, Debug)]
pub enum Movement {
    UNKNOWN,
    LEFT,
    RIGHT,
    UP,
}

impl Default for Movement {
    /// Before any move has been taken, the direction is unknown.
    fn default() -> (m: Self)
        ensures
            m == Movement::UNKNOWN,
    {
        Movement::UNKNOWN
    }
}

/// A movable in-order traversal position over a [`Tree`]: the current
/// node (absent once the walk has finished), the last primitive move,
/// and a one-shot latch recording that a full upward sweep was already
/// spent.
///
/// The cursor holds only an index into the tree's arena, so it never
/// owns nodes and may be dropped at any point without affecting the
/// tree or other cursors.
#[derive(Clone, Copy, PartialEq, Eq, Structural, Debug)]
pub struct TreeIter {
    pub curr: TreeNodeLink,
    pub last_move: Movement,
    pub ascended: bool,
}

impl Default for TreeIter {
    /// A cursor with no position, no move taken, latch clear.
    fn default() -> (it: Self)
        ensures
            it == (TreeIter {
                curr: TreeNodeLink::Nil,
                last_move: Movement::UNKNOWN,
                ascended: false,
            }),
    {
        TreeIter {
            curr: TreeNodeLink::Nil,
            last_move: Movement::UNKNOWN,
            ascended: false,
        }
    }
}

/// The index reached from `i` by stepping to a left child as long as
/// one is present.
pub open spec fn leftmost(nodes: Seq<TreeNode>, i: int) -> int
    decreases nodes.len() - i
        when 0 <= i < nodes.len() && arena_ok(nodes)
        via leftmost_decreases
{
    match nodes[i].left {
        TreeNodeLink::Nil => i,
        TreeNodeLink::Ptr(l) => leftmost(nodes, l as int),
    }
}

#[via_fn]
proof fn leftmost_decreases(nodes: Seq<TreeNode>, i: int) {
    assert(node_ok(nodes, i));
}

/// The index reached from `i` by stepping to the parent as long as one
/// is present.
pub open spec fn root_above(nodes: Seq<TreeNode>, i: int) -> int
    decreases i
        when 0 <= i < nodes.len() && arena_ok(nodes)
        via root_above_decreases
{
    match nodes[i].parent {
        TreeNodeLink::Nil => i,
        TreeNodeLink::Ptr(p) => root_above(nodes, p as int),
    }
}

#[via_fn]
proof fn root_above_decreases(nodes: Seq<TreeNode>, i: int) {
    assert(node_ok(nodes, i));
}

/// The leftmost descendant stays in range, never moves backward, and
/// has no left child of its own.
pub proof fn lemma_leftmost(nodes: Seq<TreeNode>, i: int)
    requires
        arena_ok(nodes),
        0 <= i < nodes.len(),
    ensures
        i <= leftmost(nodes, i) < nodes.len(),
        nodes[leftmost(nodes, i)].left is Nil,
        nodes[i].left is Ptr ==> i < leftmost(nodes, i),
        on_parent_chain(nodes, i, leftmost(nodes, i)),
    decreases nodes.len() - i,
{
    assert(node_ok(nodes, i));
    if let TreeNodeLink::Ptr(l) = nodes[i].left {
        lemma_leftmost(nodes, l as int);
        crate::order::lemma_chain_extend(nodes, i, l as int, leftmost(nodes, l as int));
    }
}

/// In a well-formed arena every upward sweep ends at the root, entry 0.
pub proof fn lemma_root_above(nodes: Seq<TreeNode>, i: int)
    requires
        arena_ok(nodes),
        0 <= i < nodes.len(),
    ensures
        root_above(nodes, i) == 0,
    decreases i,
{
    assert(node_ok(nodes, i));
    if let TreeNodeLink::Ptr(p) = nodes[i].parent {
        lemma_root_above(nodes, p as int);
    }
}

/// The state a cursor holds right after it is created from a tree:
/// positioned at the root's leftmost descendant.  When the root itself
/// has no left child the initial descent takes no step, so the last
/// move stays `UNKNOWN`.
pub open spec fn iter_start(nodes: Seq<TreeNode>) -> TreeIter {
    TreeIter {
        curr: TreeNodeLink::Ptr(leftmost(nodes, 0) as usize),
        last_move: if leftmost(nodes, 0) == 0 {
            Movement::UNKNOWN
        } else {
            Movement::LEFT
        },
        ascended: false,
    }
}

/// The state after entering the subtree at `e` and descending to its
/// leftmost node; `asc` carries the latch through unchanged.  The node
/// at `e` was entered by a rightward step, so if the descent takes no
/// step the last move stays `RIGHT`.
pub open spec fn after_descent(nodes: Seq<TreeNode>, e: int, asc: bool) -> TreeIter {
    TreeIter {
        curr: TreeNodeLink::Ptr(leftmost(nodes, e) as usize),
        last_move: if leftmost(nodes, e) == e {
            Movement::RIGHT
        } else {
            Movement::LEFT
        },
        ascended: asc,
    }
}

/// One advance of the cursor state machine over arena `nodes`: how the
/// cursor at `s` moves to the position it will report next, driven by
/// the move that brought it here and the shape of the current node.
pub open spec fn iter_step(nodes: Seq<TreeNode>, s: TreeIter) -> TreeIter {
    match s.curr {
        TreeNodeLink::Nil => s,
        TreeNodeLink::Ptr(i) => match s.last_move {
            Movement::UNKNOWN => s,
            Movement::LEFT => match nodes[i as int].parent {
                TreeNodeLink::Nil => s,
                TreeNodeLink::Ptr(p) => TreeIter {
                    curr: TreeNodeLink::Ptr(p),
                    last_move: Movement::UP,
                    ascended: s.ascended,
                },
            },
            Movement::UP => match nodes[i as int].right {
                TreeNodeLink::Nil => TreeIter { curr: TreeNodeLink::Nil, ..s },
                TreeNodeLink::Ptr(r) => after_descent(nodes, r as int, s.ascended),
            },
            Movement::RIGHT => {
                if nodes[i as int].left is Ptr {
                    TreeIter {
                        curr: TreeNodeLink::Ptr(leftmost(nodes, i as int) as usize),
                        last_move: Movement::LEFT,
                        ascended: s.ascended,
                    }
                } else if nodes[i as int].right is Ptr {
                    after_descent(nodes, nodes[i as int].right->Ptr_0 as int, s.ascended)
                } else if s.ascended {
                    TreeIter { curr: TreeNodeLink::Nil, ..s }
                } else {
                    TreeIter {
                        curr: TreeNodeLink::Ptr(root_above(nodes, i as int) as usize),
                        last_move: if root_above(nodes, i as int) == i as int {
                            Movement::RIGHT
                        } else {
                            Movement::UP
                        },
                        ascended: true,
                    }
                }
            },
        },
    }
}

impl TreeIter {
    /// The cursor's position, if any, lies inside the arena.
    pub open spec fn valid(self, nodes: Seq<TreeNode>) -> bool {
        match self.curr {
            TreeNodeLink::Nil => true,
            TreeNodeLink::Ptr(i) => (i as int) < nodes.len(),
        }
    }

    /// A cursor over `t`, positioned at the start of the in-order
    /// sequence: the root's leftmost descendant.
    pub fn new(t: &Tree) -> (it: TreeIter)
        requires
            t.wf(),
        ensures
            it == iter_start(t.nodes@),
            it.valid(t.nodes@),
    {
        let mut it = TreeIter::default();
        it.curr = TreeNodeLink::Ptr(t.root().idx);
        it.descend(t);
        proof {
            lemma_leftmost(t.nodes@, 0);
        }
        it
    }

    /// Primitive move: step to the left child; no-op if absent.
    fn go_left(&mut self, t: &Tree)
        requires
            t.wf(),
            old(self).valid(t.nodes@),
        ensures
            final(self).valid(t.nodes@),
            match old(self).curr {
                TreeNodeLink::Nil => *final(self) == *old(self),
                TreeNodeLink::Ptr(i) => match t.nodes@[i as int].left {
                    TreeNodeLink::Nil => *final(self) == *old(self),
                    TreeNodeLink::Ptr(l) => *final(self) == (TreeIter {
                        curr: TreeNodeLink::Ptr(l),
                        last_move: Movement::LEFT,
                        ascended: old(self).ascended,
                    }),
                },
            },
    {
        if let TreeNodeLink::Ptr(i) = self.curr {
            let curr = TreeNodePtr { idx: i };
            if let TreeNodeLink::Ptr(l) = curr.get_left(t) {
                self.curr = TreeNodeLink::Ptr(l);
                self.last_move = Movement::LEFT;
                proof {
                    assert(node_ok(t.nodes@, i as int));
                }
            }
        }
    }

    /// Primitive move: step to the right child; no-op if absent.
    fn go_right(&mut self, t: &Tree)
        requires
            t.wf(),
            old(self).valid(t.nodes@),
        ensures
            final(self).valid(t.nodes@),
            match old(self).curr {
                TreeNodeLink::Nil => *final(self) == *old(self),
                TreeNodeLink::Ptr(i) => match t.nodes@[i as int].right {
                    TreeNodeLink::Nil => *final(self) == *old(self),
                    TreeNodeLink::Ptr(r) => *final(self) == (TreeIter {
                        curr: TreeNodeLink::Ptr(r),
                        last_move: Movement::RIGHT,
                        ascended: old(self).ascended,
                    }),
                },
            },
    {
        if let TreeNodeLink::Ptr(i) = self.curr {
            let curr = TreeNodePtr { idx: i };
            if let TreeNodeLink::Ptr(r) = curr.get_right(t) {
                self.curr = TreeNodeLink::Ptr(r);
                self.last_move = Movement::RIGHT;
                proof {
                    assert(node_ok(t.nodes@, i as int));
                }
            }
        }
    }

    /// Primitive move: step to the parent; no-op if absent.
    fn go_up(&mut self, t: &Tree)
        requires
            t.wf(),
            old(self).valid(t.nodes@),
        ensures
            final(self).valid(t.nodes@),
            match old(self).curr {
                TreeNodeLink::Nil => *final(self) == *old(self),
                TreeNodeLink::Ptr(i) => match t.nodes@[i as int].parent {
                    TreeNodeLink::Nil => *final(self) == *old(self),
                    TreeNodeLink::Ptr(p) => *final(self) == (TreeIter {
                        curr: TreeNodeLink::Ptr(p),
                        last_move: Movement::UP,
                        ascended: old(self).ascended,
                    }),
                },
            },
    {
        if let TreeNodeLink::Ptr(i) = self.curr {
            let curr = TreeNodePtr { idx: i };
            if let TreeNodeLink::Ptr(p) = curr.get_parent(t) {
                self.curr = TreeNodeLink::Ptr(p);
                self.last_move = Movement::UP;
                proof {
                    assert(node_ok(t.nodes@, i as int));
                }
            }
        }
    }

    /// Compound move: step left while a left child is present, landing
    /// on the leftmost node of the current subtree.
    fn descend(&mut self, t: &Tree)
        requires
            t.wf(),
            old(self).valid(t.nodes@),
        ensures
            final(self).valid(t.nodes@),
            match old(self).curr {
                TreeNodeLink::Nil => *final(self) == *old(self),
                TreeNodeLink::Ptr(e) => *final(self) == (TreeIter {
                    curr: TreeNodeLink::Ptr(leftmost(t.nodes@, e as int) as usize),
                    last_move: if leftmost(t.nodes@, e as int) == e as int {
                        old(self).last_move
                    } else {
                        Movement::LEFT
                    },
                    ascended: old(self).ascended,
                }),
            },
    {
        let ghost s0 = *self;
        let e = match self.curr {
            TreeNodeLink::Nil => {
                return ;
            },
            TreeNodeLink::Ptr(i) => i,
        };
        let mut i = e;
        loop
            invariant
                t.wf(),
                (i as int) < t.nodes@.len(),
                self.curr == TreeNodeLink::Ptr(i),
                (e as int) < t.nodes@.len(),
                leftmost(t.nodes@, i as int) == leftmost(t.nodes@, e as int),
                e <= i,
                self.last_move == (if i == e {
                    s0.last_move
                } else {
                    Movement::LEFT
                }),
                self.ascended == s0.ascended,
            ensures
                (i as int) < t.nodes@.len(),
                self.curr == TreeNodeLink::Ptr(i),
                t.nodes@[i as int].left is Nil,
                leftmost(t.nodes@, i as int) == leftmost(t.nodes@, e as int),
                self.last_move == (if i == e {
                    s0.last_move
                } else {
                    Movement::LEFT
                }),
                self.ascended == s0.ascended,
            decreases t.nodes@.len() - i,
        {
            proof {
                assert(node_ok(t.nodes@, i as int));
            }
            match t.nodes[i].left {
                TreeNodeLink::Nil => {
                    break ;
                },
                TreeNodeLink::Ptr(_) => {
                    self.go_left(t);
                    if let TreeNodeLink::Ptr(l) = t.nodes[i].left {
                        i = l;
                    }
                },
            }
        }
        proof {
            assert(leftmost(t.nodes@, i as int) == i as int);
        }
    }

    /// Compound move: step up while a parent is present, landing on the
    /// root, then set the one-shot latch recording this full ascent.
    fn ascend(&mut self, t: &Tree)
        requires
            t.wf(),
            old(self).valid(t.nodes@),
        ensures
            final(self).valid(t.nodes@),
            match old(self).curr {
                TreeNodeLink::Nil => *final(self) == *old(self),
                TreeNodeLink::Ptr(e) => *final(self) == (TreeIter {
                    curr: TreeNodeLink::Ptr(root_above(t.nodes@, e as int) as usize),
                    last_move: if root_above(t.nodes@, e as int) == e as int {
                        old(self).last_move
                    } else {
                        Movement::UP
                    },
                    ascended: true,
                }),
            },
    {
        let ghost s0 = *self;
        let e = match self.curr {
            TreeNodeLink::Nil => {
                return ;
            },
            TreeNodeLink::Ptr(i) => i,
        };
        let mut i = e;
        loop
            invariant
                t.wf(),
                (i as int) < t.nodes@.len(),
                self.curr == TreeNodeLink::Ptr(i),
                (e as int) < t.nodes@.len(),
                root_above(t.nodes@, i as int) == root_above(t.nodes@, e as int),
                i <= e,
                self.last_move == (if i == e {
                    s0.last_move
                } else {
                    Movement::UP
                }),
                self.ascended == s0.ascended,
            ensures
                (i as int) < t.nodes@.len(),
                self.curr == TreeNodeLink::Ptr(i),
                t.nodes@[i as int].parent is Nil,
                root_above(t.nodes@, i as int) == root_above(t.nodes@, e as int),
                self.last_move == (if i == e {
                    s0.last_move
                } else {
                    Movement::UP
                }),
                self.ascended == s0.ascended,
            decreases i,
        {
            proof {
                assert(node_ok(t.nodes@, i as int));
            }
            match t.nodes[i].parent {
                TreeNodeLink::Nil => {
                    break ;
                },
                TreeNodeLink::Ptr(_) => {
                    self.go_up(t);
                    if let TreeNodeLink::Ptr(p) = t.nodes[i].parent {
                        i = p;
                    }
                },
            }
        }
        proof {
            assert(root_above(t.nodes@, i as int) == i as int);
        }
        self.ascended = true;
    }

    /// Report the node at the current position, then move the cursor to
    /// the position it will report next, exactly as [`iter_step`]
    /// describes.  Returns nothing once the traversal has terminated,
    /// and a terminated cursor stays terminated.
    pub fn next(&mut self, t: &Tree) -> (r: Option<TreeNodePtr>)
        requires
            t.wf(),
            old(self).valid(t.nodes@),
        ensures
            final(self).valid(t.nodes@),
            *final(self) == iter_step(t.nodes@, *old(self)),
            match old(self).curr {
                TreeNodeLink::Nil => r is None,
                TreeNodeLink::Ptr(i) => r == Some(TreeNodePtr { idx: i }) && t.valid_ptr(
                    TreeNodePtr { idx: i },
                ),
            },
    {
        let i = match self.curr {
            TreeNodeLink::Nil => {
                return None;
            },
            TreeNodeLink::Ptr(i) => i,
        };
        let curr = TreeNodePtr { idx: i };
        proof {
            assert(node_ok(t.nodes@, i as int));
        }
        match self.last_move {
            Movement::LEFT => {
                self.go_up(t);
            },
            Movement::UP => {
                if let TreeNodeLink::Ptr(_) = curr.get_right(t) {
                    self.go_right(t);
                    self.descend(t);
                } else {
                    self.curr = TreeNodeLink::Nil;
                }
            },
            Movement::RIGHT => {
                if let TreeNodeLink::Ptr(_) = curr.get_left(t) {
                    self.descend(t);
                    proof {
                        lemma_leftmost(t.nodes@, i as int);
                    }
                } else if let TreeNodeLink::Ptr(_) = curr.get_right(t) {
                    self.go_right(t);
                    self.descend(t);
                } else {
                    if self.ascended {
                        self.curr = TreeNodeLink::Nil;
                    } else {
                        self.ascend(t);
                    }
                }
            },
            Movement::UNKNOWN => {},
        }
        Some(curr)
    }
}

impl Tree {
    /// A fresh cursor positioned at the start of this tree's in-order
    /// sequence.
    pub fn iter(&self) -> (it: TreeIter)
        requires
            self.wf(),
        ensures
            it == iter_start(self.nodes@),
            it.valid(self.nodes@),
    {
        TreeIter::new(self)
    }
}

/// The leftmost descendant of a node hangs below that node.
pub proof fn lemma_leftmost_reachable(nodes: Seq<TreeNode>, i: int)
    requires
        arena_ok(nodes),
        0 <= i < nodes.len(),
    ensures
        reachable(nodes, i, leftmost(nodes, i)),
    decreases nodes.len() - i,
{
    assert(node_ok(nodes, i));
    if let TreeNodeLink::Ptr(l) = nodes[i].left {
        lemma_leftmost_reachable(nodes, l as int);
        lemma_leftmost(nodes, l as int);
    }
}

/// Wherever the cursor stands on a node of the tree, one advance
/// leaves it either terminated or again on a node of the tree; a node
/// the recursive walk does not visit is never reported.
pub proof fn lemma_step_stays_on_tree(nodes: Seq<TreeNode>, s: TreeIter)
    requires
        arena_ok(nodes),
        nodes.len() <= usize::MAX,
        s.valid(nodes),
        s.curr matches TreeNodeLink::Ptr(i) ==> reachable(nodes, 0, i as int),
    ensures
        iter_step(nodes, s).valid(nodes),
        iter_step(nodes, s).curr matches TreeNodeLink::Ptr(j) ==> reachable(nodes, 0, j as int)
            && in_order(nodes, 0).contains(j as int),
{
    lemma_in_order_complete(nodes, 0);
    if let TreeNodeLink::Ptr(i) = s.curr {
        let ii = i as int;
        assert(node_ok(nodes, ii));
        assert(node_ok(nodes, 0));
        match s.last_move {
            Movement::UNKNOWN => {},
            Movement::LEFT => {
                if nodes[ii].parent is Ptr {
                    lemma_reachable_parent(nodes, 0, ii);
                    lemma_reachable_range(nodes, 0, nodes[ii].parent->Ptr_0 as int);
                }
            },
            Movement::UP => {
                if let TreeNodeLink::Ptr(r) = nodes[ii].right {
                    let rr = r as int;
                    assert(reachable(nodes, rr, rr));
                    assert(reachable(nodes, ii, rr));
                    lemma_reachable_trans(nodes, 0, ii, rr);
                    lemma_leftmost(nodes, rr);
                    lemma_leftmost_reachable(nodes, rr);
                    lemma_reachable_trans(nodes, 0, rr, leftmost(nodes, rr));
                }
            },
            Movement::RIGHT => {
                if nodes[ii].left is Ptr {
                    lemma_leftmost(nodes, ii);
                    lemma_leftmost_reachable(nodes, ii);
                    lemma_reachable_trans(nodes, 0, ii, leftmost(nodes, ii));
                } else if let TreeNodeLink::Ptr(r) = nodes[ii].right {
                    let rr = r as int;
                    assert(reachable(nodes, rr, rr));
                    assert(reachable(nodes, ii, rr));
                    lemma_reachable_trans(nodes, 0, ii, rr);
                    lemma_leftmost(nodes, rr);
                    lemma_leftmost_reachable(nodes, rr);
                    lemma_reachable_trans(nodes, 0, rr, leftmost(nodes, rr));
                } else if !s.ascended {
                    lemma_root_above(nodes, ii);
                    assert(reachable(nodes, 0, 0));
                }
            },
        }
    }
}

/// The cursor state after `k` advances from the start of a traversal.
pub open spec fn iter_after(nodes: Seq<TreeNode>, k: nat) -> TreeIter
    decreases k,
{
    if k == 0 {
        iter_start(nodes)
    } else {
        iter_step(nodes, iter_after(nodes, (k - 1) as nat))
    }
}

/// However many advances a traversal has taken, the cursor is either
/// terminated or stands on a node of the tree, so every node it ever
/// reports is one the recursive in-order walk visits.
pub proof fn lemma_run_stays_on_tree(nodes: Seq<TreeNode>, k: nat)
    requires
        arena_ok(nodes),
        nodes.len() <= usize::MAX,
    ensures
        iter_after(nodes, k).valid(nodes),
        iter_after(nodes, k).curr matches TreeNodeLink::Ptr(j) ==> reachable(nodes, 0, j as int)
            && in_order(nodes, 0).contains(j as int),
    decreases k,
{
    lemma_in_order_complete(nodes, 0);
    if k == 0 {
        lemma_leftmost(nodes, 0);
        lemma_leftmost_reachable(nodes, 0);
    } else {
        lemma_run_stays_on_tree(nodes, (k - 1) as nat);
        lemma_step_stays_on_tree(nodes, iter_after(nodes, (k - 1) as nat));
    }
}

/// Entered by a leftward step onto a left child with no right subtree,
/// one advance climbs to the parent, and the parent is the node that
/// follows in the in-order sequence.
pub proof fn lemma_advance_after_left_step(nodes: Seq<TreeNode>, s: TreeIter, i: usize)
    requires
        arena_ok(nodes),
        reachable(nodes, 0, i as int),
        s.curr == TreeNodeLink::Ptr(i),
        s.last_move == Movement::LEFT,
        i as int != 0,
        nodes[i as int].right is Nil,
        nodes[nodes[i as int].parent->Ptr_0 as int].left == TreeNodeLink::Ptr(i),
    ensures
        iter_step(nodes, s).curr == nodes[i as int].parent,
        adjacent_in(in_order(nodes, 0), i as int, nodes[i as int].parent->Ptr_0 as int),
{
    lemma_reachable_range(nodes, 0, i as int);
    assert(node_ok(nodes, i as int));
    let p = nodes[i as int].parent->Ptr_0 as int;
    lemma_reachable_parent(nodes, 0, i as int);
    lemma_reachable_range(nodes, 0, p);
    lemma_successor_via_parent(nodes, p);
}

/// At a node with a right child, entered upward or by a rightward step
/// onto a node with no left child, one advance lands on the leftmost
/// node of the right subtree, the node that follows in the in-order
/// sequence.
pub proof fn lemma_advance_into_right_subtree(nodes: Seq<TreeNode>, s: TreeIter, i: usize)
    requires
        arena_ok(nodes),
        nodes.len() <= usize::MAX,
        reachable(nodes, 0, i as int),
        s.curr == TreeNodeLink::Ptr(i),
        s.last_move == Movement::UP || (s.last_move == Movement::RIGHT && nodes[i as int].left
            is Nil),
        nodes[i as int].right is Ptr,
    ensures
        iter_step(nodes, s).curr == TreeNodeLink::Ptr(
            leftmost(nodes, nodes[i as int].right->Ptr_0 as int) as usize,
        ),
        adjacent_in(
            in_order(nodes, 0),
            i as int,
            leftmost(nodes, nodes[i as int].right->Ptr_0 as int),
        ),
{
    lemma_reachable_range(nodes, 0, i as int);
    assert(node_ok(nodes, i as int));
    let r = nodes[i as int].right->Ptr_0 as int;
    lemma_leftmost(nodes, r);
    lemma_successor_via_right(nodes, i as int);
}

/// At a childless node entered by a rightward step, with the one-shot
/// latch still clear, one advance sweeps up to the root; when that node
/// is the rightmost of the root's left subtree, the root is the node
/// that follows in the in-order sequence.
pub proof fn lemma_advance_full_ascent(nodes: Seq<TreeNode>, s: TreeIter, i: usize)
    requires
        arena_ok(nodes),
        nodes.len() <= usize::MAX,
        reachable(nodes, 0, i as int),
        s.curr == TreeNodeLink::Ptr(i),
        s.last_move == Movement::RIGHT,
        nodes[i as int].left is Nil,
        nodes[i as int].right is Nil,
        !s.ascended,
        nodes[0 as int].left is Ptr,
        i as int == rightmost(nodes, nodes[0 as int].left->Ptr_0 as int),
    ensures
        iter_step(nodes, s).curr == TreeNodeLink::Ptr(0),
        iter_step(nodes, s).ascended,
        adjacent_in(in_order(nodes, 0), i as int, 0),
{
    lemma_reachable_range(nodes, 0, i as int);
    assert(node_ok(nodes, i as int));
    assert(node_ok(nodes, 0));
    lemma_root_above(nodes, i as int);
    lemma_successor_via_full_ascent(nodes);
}

/// Entered upward onto a node with no right child, the walk terminates;
/// when that node is the rightmost node of the whole tree, it really is
/// the last node of the in-order sequence, so the termination is not
/// premature.  The same holds for a childless node entered rightward
/// with the latch already spent.
pub proof fn lemma_terminates_at_last(nodes: Seq<TreeNode>, s: TreeIter, i: usize)
    requires
        arena_ok(nodes),
        (i as int) < nodes.len(),
        s.curr == TreeNodeLink::Ptr(i),
        nodes[i as int].right is Nil,
        s.last_move == Movement::UP || (s.last_move == Movement::RIGHT && nodes[i as int].left
            is Nil && s.ascended),
    ensures
        iter_step(nodes, s).curr is Nil,
        i as int == rightmost(nodes, 0) ==> in_order(nodes, 0).last() == i as int,
{
    if i as int == rightmost(nodes, 0) {
        lemma_last_is_rightmost(nodes, 0);
    }
}

/// Node `i` sits in its parent's left slot.
pub open spec fn is_left_child(nodes: Seq<TreeNode>, i: int) -> bool {
    &&& nodes[i].parent is Ptr
    &&& nodes[nodes[i].parent->Ptr_0 as int].left == TreeNodeLink::Ptr(i as usize)
}

/// Node `i` sits in its parent's right slot.
pub open spec fn is_right_child(nodes: Seq<TreeNode>, i: int) -> bool {
    &&& nodes[i].parent is Ptr
    &&& nodes[nodes[i].parent->Ptr_0 as int].right == TreeNodeLink::Ptr(i as usize)
}

/// Node `i` has no children.
pub open spec fn is_leaf_at(nodes: Seq<TreeNode>, i: int) -> bool {
    nodes[i].left is Nil && nodes[i].right is Nil
}

/// Where the root stands in the in-order sequence: right after its
/// whole left subtree.
pub open spec fn root_pos(nodes: Seq<TreeNode>) -> int {
    in_order(nodes, nodes[0].left->Ptr_0 as int).len() as int
}

/// Whether this tree's walk ever spends the one-shot ascent latch: it
/// does exactly when the node just before the root in order (the
/// rightmost of the root's left subtree) is a childless right child,
/// the one shape that triggers a full upward sweep.
pub open spec fn latch_spent(nodes: Seq<TreeNode>) -> bool {
    is_leaf_at(nodes, rightmost(nodes, nodes[0].left->Ptr_0 as int)) && is_right_child(
        nodes,
        rightmost(nodes, nodes[0].left->Ptr_0 as int),
    )
}

/// When the leftmost descent took at least one step, the node it lands
/// on sits in its parent's left slot.
pub proof fn lemma_leftmost_is_left_child(nodes: Seq<TreeNode>, i: int)
    requires
        arena_ok(nodes),
        nodes.len() <= usize::MAX,
        0 <= i < nodes.len(),
        leftmost(nodes, i) != i,
    ensures
        is_left_child(nodes, leftmost(nodes, i)),
    decreases nodes.len() - i,
{
    assert(node_ok(nodes, i));
    if let TreeNodeLink::Ptr(l) = nodes[i].left {
        lemma_leftmost(nodes, l as int);
        if leftmost(nodes, l as int) == l as int {
            assert(nodes[l as int].parent == TreeNodeLink::Ptr(i as usize));
        } else {
            lemma_leftmost_is_left_child(nodes, l as int);
        }
    }
}

/// The tree shapes on which the cursor's state machine reproduces the
/// in-order walk exactly.  Each clause bars one way the machine departs
/// from the walk:
/// - the root has a left child, else the initial descent takes no step
///   and the cursor never leaves the unknown state;
/// - a left child on which a descent stops is a leaf, else the upward
///   departure skips its right subtree;
/// - a node with a left child but no right child is the rightmost node
///   of the tree, else the walk terminates there prematurely;
/// - a childless right child is the node just before the root in order
///   (so the full ascent lands exactly on its successor) or the very
///   last node of the walk;
/// - and when the last node is itself a childless right child, the
///   latch has been spent earlier, so the walk terminates there instead
///   of sweeping up a second time.
pub open spec fn cursor_walkable(nodes: Seq<TreeNode>) -> bool {
    &&& arena_ok(nodes)
    &&& nodes[0].left is Ptr
    &&& forall|y: int|
        0 <= y < nodes.len() && #[trigger] reachable(nodes, 0, y) && is_left_child(nodes, y)
            && nodes[y].left is Nil ==> nodes[y].right is Nil
    &&& forall|p: int|
        0 <= p < nodes.len() && #[trigger] reachable(nodes, 0, p) && nodes[p].left is Ptr
            && nodes[p].right is Nil ==> p == rightmost(nodes, 0)
    &&& forall|w: int|
        0 <= w < nodes.len() && #[trigger] reachable(nodes, 0, w) && is_leaf_at(nodes, w)
            && is_right_child(nodes, w) ==> w == rightmost(nodes, nodes[0].left->Ptr_0 as int)
            || w == rightmost(nodes, 0)
    &&& (is_leaf_at(nodes, rightmost(nodes, 0)) && is_right_child(nodes, rightmost(nodes, 0)))
        ==> latch_spent(nodes)
}

/// How the root's left subtree frames the in-order sequence: the root
/// stands right after that subtree's entries, preceded by its rightmost
/// node.
proof fn lemma_root_layout(nodes: Seq<TreeNode>)
    requires
        arena_ok(nodes),
        nodes[0].left is Ptr,
    ensures
        1 <= root_pos(nodes) < in_order(nodes, 0).len(),
        in_order(nodes, 0)[root_pos(nodes)] == 0,
        in_order(nodes, 0)[root_pos(nodes) - 1] == rightmost(nodes, nodes[0].left->Ptr_0 as int),
        reachable(nodes, 0, rightmost(nodes, nodes[0].left->Ptr_0 as int)),
        rightmost(nodes, nodes[0].left->Ptr_0 as int) >= 1,
{
    assert(node_ok(nodes, 0));
    let l = nodes[0].left->Ptr_0 as int;
    let s = in_order(nodes, 0);
    let a = in_order(nodes, l);
    let b = match nodes[0].right {
        TreeNodeLink::Nil => Seq::<int>::empty(),
        TreeNodeLink::Ptr(r) => in_order(nodes, r as int),
    };
    assert(s == a + seq![0] + b);
    lemma_last_is_rightmost(nodes, l);
    assert(s[a.len() as int] == 0);
    assert(s[a.len() - 1int] == a.last());
    lemma_rightmost_reachable(nodes, l);
    assert(reachable(nodes, l, l));
    assert(reachable(nodes, 0, l));
    lemma_reachable_trans(nodes, 0, l, rightmost(nodes, l));
}

/// The inductive shape of a running traversal over a walkable tree:
/// after `k` advances the cursor stands on the `k`-th entry of the
/// in-order sequence, its last move truthfully describes how that entry
/// was entered, and the latch is spent exactly from the root onward on
/// the trees whose walk ever spends it; once the entries are exhausted
/// the cursor is terminated.
spec fn walk_inv(nodes: Seq<TreeNode>, k: nat) -> bool {
    let s = in_order(nodes, 0);
    let t = iter_after(nodes, k);
    if k < s.len() {
        &&& t.curr == TreeNodeLink::Ptr(s[k as int] as usize)
        &&& 0 <= s[k as int] < nodes.len()
        &&& reachable(nodes, 0, s[k as int])
        &&& match t.last_move {
            Movement::LEFT => is_left_child(nodes, s[k as int]) && nodes[s[k as int]].left
                is Nil,
            Movement::UP => nodes[s[k as int]].left is Ptr,
            Movement::RIGHT => is_right_child(nodes, s[k as int]) && nodes[s[k as int]].left
                is Nil,
            Movement::UNKNOWN => false,
        }
        &&& t.ascended == (latch_spent(nodes) && k >= root_pos(nodes))
    } else {
        t.curr is Nil
    }
}

proof fn lemma_walk_inv(nodes: Seq<TreeNode>, k: nat)
    requires
        cursor_walkable(nodes),
        nodes.len() <= usize::MAX,
    ensures
        walk_inv(nodes, k),
    decreases k,
{
    let s = in_order(nodes, 0);
    let ln = nodes[0].left->Ptr_0 as int;
    let rml = rightmost(nodes, ln);
    let rp = root_pos(nodes);
    lemma_in_order_no_duplicates(nodes, 0);
    lemma_in_order_complete(nodes, 0);
    crate::order::lemma_in_order_bounds(nodes, 0);
    lemma_root_layout(nodes);
    lemma_last_is_rightmost(nodes, 0);
    assert(node_ok(nodes, 0));
    if k == 0 {
        lemma_first_is_leftmost(nodes, 0);
        lemma_leftmost(nodes, 0);
        lemma_leftmost_reachable(nodes, 0);
        lemma_leftmost_is_left_child(nodes, 0);
    } else {
        let j = (k - 1) as nat;
        lemma_walk_inv(nodes, j);
        let t = iter_after(nodes, j);
        assert(iter_after(nodes, k) == iter_step(nodes, t));
        if j < s.len() {
            let i = s[j as int];
            let iu = i as usize;
            assert(iu as int == i);
            assert(t.curr == TreeNodeLink::Ptr(iu));
            assert(node_ok(nodes, i));
            match t.last_move {
                Movement::LEFT => {
                    assert(nodes[i].right is Nil);
                    assert(i != 0);
                    let p = nodes[i].parent->Ptr_0 as int;
                    lemma_advance_after_left_step(nodes, t, iu);
                    lemma_reachable_parent(nodes, 0, i);
                    lemma_reachable_range(nodes, 0, p);
                    lemma_adjacent_at(s, i, p, j as int);
                    assert(s[k as int] == p);
                    assert(iter_step(nodes, t).curr == TreeNodeLink::Ptr(p as usize));
                    assert(nodes[p].left is Ptr);
                    if k as int == rp {
                        assert(s[k as int] == 0);
                        assert(i == s[rp - 1]);
                        assert(i == rml);
                        assert(nodes[0].left == TreeNodeLink::Ptr(iu));
                        assert(nodes[0].left != nodes[0].right);
                        assert(!is_right_child(nodes, rml));
                        assert(!latch_spent(nodes));
                    }
                },
                Movement::UP => {
                    if nodes[i].right is Ptr {
                        let r = nodes[i].right->Ptr_0 as int;
                        lemma_advance_into_right_subtree(nodes, t, iu);
                        let lm = leftmost(nodes, r);
                        lemma_leftmost(nodes, r);
                        lemma_adjacent_at(s, i, lm, j as int);
                        assert(s[k as int] == lm);
                        assert(reachable(nodes, r, r));
                        assert(reachable(nodes, i, r));
                        lemma_reachable_trans(nodes, 0, i, r);
                        lemma_leftmost_reachable(nodes, r);
                        lemma_reachable_trans(nodes, 0, r, lm);
                        if lm == r {
                            assert(nodes[r].parent == TreeNodeLink::Ptr(iu));
                            assert(is_right_child(nodes, r));
                        } else {
                            lemma_leftmost_is_left_child(nodes, r);
                        }
                        if k as int == rp {
                            assert(s[k as int] == 0);
                            assert(lm >= 1);
                            assert(false);
                        }
                    } else {
                        assert(i == rightmost(nodes, 0));
                        assert(s[s.len() - 1int] == i);
                        if j as int != s.len() - 1 {
                            assert(s[j as int] != s[s.len() - 1int]);
                            assert(false);
                        }
                    }
                },
                Movement::RIGHT => {
                    if nodes[i].right is Ptr {
                        let r = nodes[i].right->Ptr_0 as int;
                        lemma_advance_into_right_subtree(nodes, t, iu);
                        let lm = leftmost(nodes, r);
                        lemma_leftmost(nodes, r);
                        lemma_adjacent_at(s, i, lm, j as int);
                        assert(s[k as int] == lm);
                        assert(reachable(nodes, r, r));
                        assert(reachable(nodes, i, r));
                        lemma_reachable_trans(nodes, 0, i, r);
                        lemma_leftmost_reachable(nodes, r);
                        lemma_reachable_trans(nodes, 0, r, lm);
                        if lm == r {
                            assert(nodes[r].parent == TreeNodeLink::Ptr(iu));
                            assert(is_right_child(nodes, r));
                        } else {
                            lemma_leftmost_is_left_child(nodes, r);
                        }
                        if k as int == rp {
                            assert(s[k as int] == 0);
                            assert(lm >= 1);
                            assert(false);
                        }
                    } else {
                        assert(is_leaf_at(nodes, i));
                        assert(i == rml || i == rightmost(nodes, 0));
                        if t.ascended {
                            if i == rml {
                                assert(s[rp - 1] == i);
                                if j as int != rp - 1 {
                                    assert(s[j as int] != s[rp - 1]);
                                }
                                assert(j as int == rp - 1);
                                assert(j >= rp);
                                assert(false);
                            }
                            assert(i == rightmost(nodes, 0));
                            assert(s[s.len() - 1int] == i);
                            if j as int != s.len() - 1 {
                                assert(s[j as int] != s[s.len() - 1int]);
                                assert(false);
                            }
                        } else {
                            if i == rightmost(nodes, 0) {
                                assert(latch_spent(nodes));
                                assert(s[s.len() - 1int] == i);
                                if j as int != s.len() - 1 {
                                    assert(s[j as int] != s[s.len() - 1int]);
                                    assert(false);
                                }
                                assert(rp <= s.len() - 1);
                                assert(j as int >= rp);
                                assert(false);
                            }
                            assert(i == rml);
                            lemma_advance_full_ascent(nodes, t, iu);
                            lemma_adjacent_at(s, i, 0, j as int);
                            assert(s[k as int] == 0);
                            if k as int != rp {
                                assert(s[k as int] != s[rp]);
                                assert(false);
                            }
                            lemma_root_above(nodes, i);
                            assert(i >= 1);
                            assert(iter_step(nodes, t).last_move == Movement::UP);
                            assert(latch_spent(nodes));
                            assert(reachable(nodes, 0, 0));
                        }
                    }
                },
                Movement::UNKNOWN => {
                    assert(false);
                },
            }
        }
    }
}

/// On the tree shapes that [`cursor_walkable`] describes, the cursor
/// reproduces the recursive in-order walk exactly: the `k`-th advance
/// reports the `k`-th entry of the in-order sequence, and the advance
/// just past the last entry terminates the traversal for good.  Since
/// the in-order sequence itself visits every node hanging below the
/// root exactly once, so does the cursor on these trees.
pub proof fn lemma_cursor_walks_in_order(nodes: Seq<TreeNode>, k: nat)
    requires
        cursor_walkable(nodes),
        nodes.len() <= usize::MAX,
    ensures
        k < in_order(nodes, 0).len() ==> iter_after(nodes, k).curr == TreeNodeLink::Ptr(
            in_order(nodes, 0)[k as int] as usize,
        ),
        k >= in_order(nodes, 0).len() ==> iter_after(nodes, k).curr is Nil,
        in_order(nodes, 0).no_duplicates(),
        forall|x: int| in_order(nodes, 0).contains(x) <==> reachable(nodes, 0, x),
{
    lemma_walk_inv(nodes, k);
    lemma_in_order_no_duplicates(nodes, 0);
    lemma_in_order_complete(nodes, 0);
}

/// On the tree shapes that [`cursor_walkable`] describes, the values
/// the cursor reports are, advance by advance, the values the recursive
/// in-order walk emits.
pub proof fn lemma_cursor_values_match_walk(nodes: Seq<TreeNode>, k: nat)
    requires
        cursor_walkable(nodes),
        nodes.len() <= usize::MAX,
        k < in_order(nodes, 0).len(),
    ensures
        iter_after(nodes, k).curr matches TreeNodeLink::Ptr(j) && nodes[j as int].value
            == in_order_vals(nodes, 0)[k as int],
{
    lemma_cursor_walks_in_order(nodes, k);
    lemma_in_order_vals_are_values(nodes, 0);
}

/// Once the traversal has terminated, every further step leaves it
/// terminated: the walk is not restartable.
pub proof fn lemma_finished_stays_finished(nodes: Seq<TreeNode>, s: TreeIter)
    requires
        s.curr is Nil,
    ensures
        iter_step(nodes, s) == s,
{
}

/// The cursor's first reportable node is the first node of the in-order
/// sequence: the walk and the cursor agree on where a traversal begins.
pub proof fn lemma_start_matches_in_order(nodes: Seq<TreeNode>)
    requires
        arena_ok(nodes),
    ensures
        in_order(nodes, 0).len() >= 1,
        iter_start(nodes).curr == TreeNodeLink::Ptr(in_order(nodes, 0)[0] as usize),
        in_order(nodes, 0)[0] == leftmost(nodes, 0),
{
    lemma_first_is_leftmost(nodes, 0);
}

/// The first entry of the in-order sequence of any subtree is that
/// subtree's leftmost node.
pub proof fn lemma_first_is_leftmost(nodes: Seq<TreeNode>, i: int)
    requires
        arena_ok(nodes),
        0 <= i < nodes.len(),
    ensures
        in_order(nodes, i).len() >= 1,
        in_order(nodes, i)[0] == leftmost(nodes, i),
    decreases nodes.len() - i,
{
    assert(node_ok(nodes, i));
    if let TreeNodeLink::Ptr(l) = nodes[i].left {
        lemma_first_is_leftmost(nodes, l as int);
    }
}

} // verus!
