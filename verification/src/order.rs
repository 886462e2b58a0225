use vstd::prelude::*;
use crate::tree::{Tree, TreeNode, TreeNodeLink, arena_ok, node_ok};

verus! {

/// The in-order sequence of arena indices of the subtree rooted at `i`:
/// left subtree, then `i`, then right subtree.
pub open spec fn in_order(nodes: Seq<TreeNode>, i: int) -> Seq<int>
    decreases nodes.len() - i
        when 0 <= i < nodes.len() && arena_ok(nodes)
        via in_order_decreases
{
    (match nodes[i].left {
        TreeNodeLink::Nil => Seq::<int>::empty(),
        TreeNodeLink::Ptr(l) => in_order(nodes, l as int),
    }) + seq![i] + (match nodes[i].right {
        TreeNodeLink::Nil => Seq::<int>::empty(),
        TreeNodeLink::Ptr(r) => in_order(nodes, r as int),
    })
}

#[via_fn]
proof fn in_order_decreases(nodes: Seq<TreeNode>, i: int) {
    assert(node_ok(nodes, i));
}

/// The in-order sequence of node values of the subtree rooted at `i`.
pub open spec fn in_order_vals(nodes: Seq<TreeNode>, i: int) -> Seq<u32>
    decreases nodes.len() - i
        when 0 <= i < nodes.len() && arena_ok(nodes)
        via in_order_vals_decreases
{
    (match nodes[i].left {
        TreeNodeLink::Nil => Seq::<u32>::empty(),
        TreeNodeLink::Ptr(l) => in_order_vals(nodes, l as int),
    }) + seq![nodes[i].value] + (match nodes[i].right {
        TreeNodeLink::Nil => Seq::<u32>::empty(),
        TreeNodeLink::Ptr(r) => in_order_vals(nodes, r as int),
    })
}

#[via_fn]
proof fn in_order_vals_decreases(nodes: Seq<TreeNode>, i: int) {
    assert(node_ok(nodes, i));
}

/// The value sequence is the value at each index of the index sequence.
pub proof fn lemma_in_order_vals_are_values(nodes: Seq<TreeNode>, i: int)
    requires
        arena_ok(nodes),
        0 <= i < nodes.len(),
    ensures
        in_order_vals(nodes, i).len() == in_order(nodes, i).len(),
        forall|k: int| 0 <= k < in_order(nodes, i).len()
            ==> 0 <= #[trigger] in_order(nodes, i)[k] < nodes.len()
                && in_order_vals(nodes, i)[k] == nodes[in_order(nodes, i)[k]].value,
    decreases nodes.len() - i,
{
    assert(node_ok(nodes, i));
    if let TreeNodeLink::Ptr(l) = nodes[i].left {
        lemma_in_order_vals_are_values(nodes, l as int);
    }
    if let TreeNodeLink::Ptr(r) = nodes[i].right {
        lemma_in_order_vals_are_values(nodes, r as int);
    }
}

impl Tree {
    /// Append the in-order value sequence of the subtree rooted at `i`
    /// onto `out`.
    fn push_in_order(&self, i: usize, out: &mut Vec<u32>)
        requires
            self.wf(),
            i < self.nodes@.len(),
        ensures
            final(out)@ =~= old(out)@ + in_order_vals(self.nodes@, i as int),
        decreases self.nodes@.len() - i,
    {
        proof {
            assert(node_ok(self.nodes@, i as int));
        }
        let n = self.nodes[i];
        match n.left {
            TreeNodeLink::Ptr(l) => self.push_in_order(l, out),
            TreeNodeLink::Nil => {},
        }
        out.push(n.value);
        match n.right {
            TreeNodeLink::Ptr(r) => self.push_in_order(r, out),
            TreeNodeLink::Nil => {},
        }
    }

    /// The direct recursive left-self-right walk of the whole tree,
    /// collected as the sequence of visited values.
    pub fn in_order_values(&self) -> (r: Vec<u32>)
        requires
            self.wf(),
        ensures
            r@ == in_order_vals(self.nodes@, 0),
    {
        let mut out: Vec<u32> = Vec::new();
        self.push_in_order(0, &mut out);
        out
    }
}

/// Every index the walk of the subtree at `i` visits lies in the arena,
/// at or after `i` itself.
pub proof fn lemma_in_order_bounds(nodes: Seq<TreeNode>, i: int)
    requires
        arena_ok(nodes),
        0 <= i < nodes.len(),
    ensures
        forall|k: int| 0 <= k < in_order(nodes, i).len()
            ==> i <= #[trigger] in_order(nodes, i)[k] < nodes.len(),
    decreases nodes.len() - i,
{
    assert(node_ok(nodes, i));
    if let TreeNodeLink::Ptr(l) = nodes[i].left {
        lemma_in_order_bounds(nodes, l as int);
    }
    if let TreeNodeLink::Ptr(r) = nodes[i].right {
        lemma_in_order_bounds(nodes, r as int);
    }
    let s = in_order(nodes, i);
    let a = match nodes[i].left {
        TreeNodeLink::Nil => Seq::<int>::empty(),
        TreeNodeLink::Ptr(l) => in_order(nodes, l as int),
    };
    let b = match nodes[i].right {
        TreeNodeLink::Nil => Seq::<int>::empty(),
        TreeNodeLink::Ptr(r) => in_order(nodes, r as int),
    };
    assert(s == a + seq![i] + b);
    assert forall|k: int| 0 <= k < s.len() implies i <= #[trigger] s[k] < nodes.len() by {
        if k < a.len() {
            assert(s[k] == a[k]);
        } else if k > a.len() {
            assert(s[k] == b[k - a.len() - 1]);
        }
    }
}

/// Walking parent links upward from `d` reaches `a`.
pub open spec fn on_parent_chain(nodes: Seq<TreeNode>, a: int, d: int) -> bool
    decreases d
        when 0 <= d < nodes.len() && arena_ok(nodes)
        via on_parent_chain_decreases
{
    d == a || (match nodes[d].parent {
        TreeNodeLink::Nil => false,
        TreeNodeLink::Ptr(p) => on_parent_chain(nodes, a, p as int),
    })
}

#[via_fn]
proof fn on_parent_chain_decreases(nodes: Seq<TreeNode>, a: int, d: int) {
    assert(node_ok(nodes, d));
}

/// Parent links point backward, so an ancestor's index is no larger.
pub proof fn lemma_chain_low(nodes: Seq<TreeNode>, a: int, d: int)
    requires
        arena_ok(nodes),
        0 <= d < nodes.len(),
        on_parent_chain(nodes, a, d),
    ensures
        a <= d,
    decreases d,
{
    assert(node_ok(nodes, d));
    if d != a {
        if let TreeNodeLink::Ptr(p) = nodes[d].parent {
            lemma_chain_low(nodes, a, p as int);
        }
    }
}

/// A parent chain that reaches `l` extends to `l`'s own parent `a`.
pub proof fn lemma_chain_extend(nodes: Seq<TreeNode>, a: int, l: int, x: int)
    requires
        arena_ok(nodes),
        0 <= l < nodes.len(),
        0 <= x < nodes.len(),
        on_parent_chain(nodes, l, x),
        nodes[l].parent == TreeNodeLink::Ptr(a as usize),
        0 <= a < nodes.len(),
        a == a as usize as int,
    ensures
        on_parent_chain(nodes, a, x),
    decreases x,
{
    assert(node_ok(nodes, x));
    if x == l {
        assert(on_parent_chain(nodes, a, a));
    } else {
        if let TreeNodeLink::Ptr(p) = nodes[x].parent {
            lemma_chain_extend(nodes, a, l, p as int);
        }
    }
}

/// Every index in the in-order walk of the subtree at `i` lies on a
/// parent chain leading back to `i`.
pub proof fn lemma_in_order_member_chain(nodes: Seq<TreeNode>, i: int, x: int)
    requires
        arena_ok(nodes),
        0 <= i < nodes.len(),
        in_order(nodes, i).contains(x),
    ensures
        0 <= x < nodes.len(),
        on_parent_chain(nodes, i, x),
    decreases nodes.len() - i,
{
    assert(node_ok(nodes, i));
    lemma_in_order_bounds(nodes, i);
    let s = in_order(nodes, i);
    let k = choose|k: int| 0 <= k < s.len() && s[k] == x;
    if x != i {
        if let TreeNodeLink::Ptr(l) = nodes[i].left {
            if in_order(nodes, l as int).contains(x) {
                lemma_in_order_member_chain(nodes, l as int, x);
                lemma_chain_extend(nodes, i, l as int, x);
            }
        }
        if let TreeNodeLink::Ptr(r) = nodes[i].right {
            if in_order(nodes, r as int).contains(x) {
                lemma_in_order_member_chain(nodes, r as int, x);
                lemma_chain_extend(nodes, i, r as int, x);
            }
        }
        let a = match nodes[i].left {
            TreeNodeLink::Nil => Seq::<int>::empty(),
            TreeNodeLink::Ptr(l) => in_order(nodes, l as int),
        };
        let b = match nodes[i].right {
            TreeNodeLink::Nil => Seq::<int>::empty(),
            TreeNodeLink::Ptr(r) => in_order(nodes, r as int),
        };
        assert(s == a + seq![i] + b);
        if k < a.len() {
            assert(a.contains(x));
        } else if k >= a.len() + 1 {
            assert(b[k - a.len() - 1] == x);
            assert(b.contains(x));
        }
    }
}

/// Two distinct siblings head disjoint parent-chain families: no node
/// hangs below both.
pub proof fn lemma_chains_disjoint(nodes: Seq<TreeNode>, l: int, r: int, x: int)
    requires
        arena_ok(nodes),
        0 <= l < nodes.len(),
        0 <= r < nodes.len(),
        l != r,
        nodes[l].parent == nodes[r].parent,
        nodes[l].parent is Ptr,
        0 <= x < nodes.len(),
    ensures
        !(on_parent_chain(nodes, l, x) && on_parent_chain(nodes, r, x)),
    decreases x,
{
    assert(node_ok(nodes, x));
    assert(node_ok(nodes, l));
    assert(node_ok(nodes, r));
    if on_parent_chain(nodes, l, x) && on_parent_chain(nodes, r, x) {
        let p = nodes[l].parent->Ptr_0 as int;
        if x == l {
            assert(on_parent_chain(nodes, r, p));
            lemma_chain_low(nodes, r, p);
            assert(false);
        } else if x == r {
            assert(on_parent_chain(nodes, l, p));
            lemma_chain_low(nodes, l, p);
            assert(false);
        } else {
            match nodes[x].parent {
                TreeNodeLink::Nil => {},
                TreeNodeLink::Ptr(q) => {
                    lemma_chains_disjoint(nodes, l, r, q as int);
                },
            }
            assert(false);
        }
    }
}

/// The in-order walk of the subtree at `i` visits no index twice.
pub proof fn lemma_in_order_no_duplicates(nodes: Seq<TreeNode>, i: int)
    requires
        arena_ok(nodes),
        0 <= i < nodes.len(),
    ensures
        in_order(nodes, i).no_duplicates(),
    decreases nodes.len() - i,
{
    assert(node_ok(nodes, i));
    let s = in_order(nodes, i);
    let a = match nodes[i].left {
        TreeNodeLink::Nil => Seq::<int>::empty(),
        TreeNodeLink::Ptr(l) => in_order(nodes, l as int),
    };
    let b = match nodes[i].right {
        TreeNodeLink::Nil => Seq::<int>::empty(),
        TreeNodeLink::Ptr(r) => in_order(nodes, r as int),
    };
    assert(s == a + seq![i] + b);
    if let TreeNodeLink::Ptr(l) = nodes[i].left {
        lemma_in_order_no_duplicates(nodes, l as int);
        lemma_in_order_bounds(nodes, l as int);
    }
    if let TreeNodeLink::Ptr(r) = nodes[i].right {
        lemma_in_order_no_duplicates(nodes, r as int);
        lemma_in_order_bounds(nodes, r as int);
    }
    assert forall|m: int, n: int| 0 <= m < n < s.len() implies s[m] != s[n] by {
        if n < a.len() {
            // both inside the left part, which has no duplicates
        } else if m >= a.len() + 1 {
            // both inside the right part, which has no duplicates
            assert(s[m] == b[m - a.len() - 1]);
            assert(s[n] == b[n - a.len() - 1]);
        } else if m < a.len() && n == a.len() {
            // left part never contains i itself: its entries exceed i
            assert(s[m] == a[m]);
        } else if m == a.len() && n > a.len() {
            // right part never contains i itself: its entries exceed i
            assert(s[n] == b[n - a.len() - 1]);
        } else {
            // one entry from each side: their parent chains would both
            // pass through distinct siblings, which is impossible
            assert(m < a.len() && n > a.len());
            assert(s[m] == a[m]);
            assert(s[n] == b[n - a.len() - 1]);
            if s[m] == s[n] {
                let x = s[m];
                let l = nodes[i].left->Ptr_0 as int;
                let r = nodes[i].right->Ptr_0 as int;
                assert(a.contains(x));
                assert(b.contains(x));
                lemma_in_order_member_chain(nodes, l, x);
                lemma_in_order_member_chain(nodes, r, x);
                lemma_chains_disjoint(nodes, l, r, x);
            }
        }
    }
}

/// `x` hangs somewhere below `a` following child links downward.
pub open spec fn reachable(nodes: Seq<TreeNode>, a: int, x: int) -> bool
    decreases nodes.len() - a
        when 0 <= a < nodes.len() && arena_ok(nodes)
        via reachable_decreases
{
    ||| x == a
    ||| (match nodes[a].left {
        TreeNodeLink::Nil => false,
        TreeNodeLink::Ptr(l) => reachable(nodes, l as int, x),
    })
    ||| (match nodes[a].right {
        TreeNodeLink::Nil => false,
        TreeNodeLink::Ptr(r) => reachable(nodes, r as int, x),
    })
}

#[via_fn]
proof fn reachable_decreases(nodes: Seq<TreeNode>, a: int, x: int) {
    assert(node_ok(nodes, a));
}

/// Whatever hangs below `b` also hangs below anything `b` hangs below.
pub proof fn lemma_reachable_trans(nodes: Seq<TreeNode>, a: int, b: int, x: int)
    requires
        arena_ok(nodes),
        0 <= a < nodes.len(),
        0 <= b < nodes.len(),
        reachable(nodes, a, b),
        reachable(nodes, b, x),
    ensures
        reachable(nodes, a, x),
    decreases nodes.len() - a,
{
    assert(node_ok(nodes, a));
    if a != b {
        if let TreeNodeLink::Ptr(l) = nodes[a].left {
            if reachable(nodes, l as int, b) {
                lemma_reachable_trans(nodes, l as int, b, x);
            }
        }
        if let TreeNodeLink::Ptr(r) = nodes[a].right {
            if reachable(nodes, r as int, b) {
                lemma_reachable_trans(nodes, r as int, b, x);
            }
        }
    }
}

/// Child links point forward, so whatever hangs below `a` lies at `a`
/// or beyond it in the arena.
pub proof fn lemma_reachable_range(nodes: Seq<TreeNode>, a: int, x: int)
    requires
        arena_ok(nodes),
        0 <= a < nodes.len(),
        reachable(nodes, a, x),
    ensures
        a <= x < nodes.len(),
    decreases nodes.len() - a,
{
    assert(node_ok(nodes, a));
    if x != a {
        if let TreeNodeLink::Ptr(l) = nodes[a].left {
            if reachable(nodes, l as int, x) {
                lemma_reachable_range(nodes, l as int, x);
            }
        }
        if let TreeNodeLink::Ptr(r) = nodes[a].right {
            if reachable(nodes, r as int, x) {
                lemma_reachable_range(nodes, r as int, x);
            }
        }
    }
}

/// A node that hangs below `a`, other than `a` itself, has a parent,
/// and that parent hangs below `a` as well.
pub proof fn lemma_reachable_parent(nodes: Seq<TreeNode>, a: int, x: int)
    requires
        arena_ok(nodes),
        0 <= a < nodes.len(),
        reachable(nodes, a, x),
        x != a,
    ensures
        0 <= x < nodes.len(),
        nodes[x].parent is Ptr,
        reachable(nodes, a, nodes[x].parent->Ptr_0 as int),
    decreases nodes.len() - a,
{
    assert(node_ok(nodes, a));
    lemma_reachable_range(nodes, a, x);
    if let TreeNodeLink::Ptr(l) = nodes[a].left {
        if reachable(nodes, l as int, x) {
            if x == l as int {
                assert(nodes[x].parent == TreeNodeLink::Ptr(a as usize));
                assert(reachable(nodes, a, a));
            } else {
                lemma_reachable_parent(nodes, l as int, x);
            }
        }
    }
    if let TreeNodeLink::Ptr(r) = nodes[a].right {
        if reachable(nodes, r as int, x) {
            if x == r as int {
                assert(nodes[x].parent == TreeNodeLink::Ptr(a as usize));
                assert(reachable(nodes, a, a));
            } else {
                lemma_reachable_parent(nodes, r as int, x);
            }
        }
    }
}

/// The in-order walk of the subtree at `i` visits exactly the nodes
/// that hang below `i`: none is skipped, none is invented.
pub proof fn lemma_in_order_complete(nodes: Seq<TreeNode>, i: int)
    requires
        arena_ok(nodes),
        0 <= i < nodes.len(),
    ensures
        forall|x: int| in_order(nodes, i).contains(x) <==> reachable(nodes, i, x),
    decreases nodes.len() - i,
{
    assert(node_ok(nodes, i));
    let s = in_order(nodes, i);
    let a = match nodes[i].left {
        TreeNodeLink::Nil => Seq::<int>::empty(),
        TreeNodeLink::Ptr(l) => in_order(nodes, l as int),
    };
    let b = match nodes[i].right {
        TreeNodeLink::Nil => Seq::<int>::empty(),
        TreeNodeLink::Ptr(r) => in_order(nodes, r as int),
    };
    assert(s == a + seq![i] + b);
    if let TreeNodeLink::Ptr(l) = nodes[i].left {
        lemma_in_order_complete(nodes, l as int);
    }
    if let TreeNodeLink::Ptr(r) = nodes[i].right {
        lemma_in_order_complete(nodes, r as int);
    }
    assert forall|x: int| s.contains(x) implies reachable(nodes, i, x) by {
        let k = choose|k: int| 0 <= k < s.len() && s[k] == x;
        if k < a.len() {
            assert(a[k] == x);
            assert(a.contains(x));
            let l = nodes[i].left->Ptr_0;
            assert(reachable(nodes, l as int, x));
        } else if k >= a.len() + 1 {
            assert(b[k - a.len() - 1] == x);
            assert(b.contains(x));
            let r = nodes[i].right->Ptr_0;
            assert(reachable(nodes, r as int, x));
        } else {
            assert(x == i);
        }
    }
    assert forall|x: int| reachable(nodes, i, x) implies s.contains(x) by {
        if x == i {
            assert(s[a.len() as int] == x);
        } else {
            match nodes[i].left {
                TreeNodeLink::Nil => {},
                TreeNodeLink::Ptr(l) => {
                    if reachable(nodes, l as int, x) {
                        let k = choose|k: int| 0 <= k < a.len() && a[k] == x;
                        assert(s[k] == x);
                    }
                },
            }
            match nodes[i].right {
                TreeNodeLink::Nil => {},
                TreeNodeLink::Ptr(r) => {
                    if reachable(nodes, r as int, x) {
                        let k = choose|k: int| 0 <= k < b.len() && b[k] == x;
                        assert(s[a.len() + 1 + k] == x);
                    }
                },
            }
        }
    }
}

/// The index reached from `i` by stepping to a right child as long as
/// one is present.
pub open spec fn rightmost(nodes: Seq<TreeNode>, i: int) -> int
    decreases nodes.len() - i
        when 0 <= i < nodes.len() && arena_ok(nodes)
        via rightmost_decreases
{
    match nodes[i].right {
        TreeNodeLink::Nil => i,
        TreeNodeLink::Ptr(r) => rightmost(nodes, r as int),
    }
}

#[via_fn]
proof fn rightmost_decreases(nodes: Seq<TreeNode>, i: int) {
    assert(node_ok(nodes, i));
}

/// The last entry of the in-order sequence of any subtree is that
/// subtree's rightmost node, which stays in range and has no right
/// child of its own.
pub proof fn lemma_last_is_rightmost(nodes: Seq<TreeNode>, i: int)
    requires
        arena_ok(nodes),
        0 <= i < nodes.len(),
    ensures
        in_order(nodes, i).len() >= 1,
        in_order(nodes, i).last() == rightmost(nodes, i),
        i <= rightmost(nodes, i) < nodes.len(),
        nodes[rightmost(nodes, i)].right is Nil,
    decreases nodes.len() - i,
{
    assert(node_ok(nodes, i));
    if let TreeNodeLink::Ptr(r) = nodes[i].right {
        lemma_last_is_rightmost(nodes, r as int);
    }
}

/// Two entries stand next to each other, in this order, somewhere in
/// the sequence.
pub open spec fn adjacent_in(s: Seq<int>, x: int, y: int) -> bool {
    exists|m: int| 0 <= m < s.len() - 1 && #[trigger] s[m] == x && s[m + 1] == y
}

/// An adjacent pair of the in-order sequence of a subtree is an
/// adjacent pair of the in-order sequence of anything that subtree
/// hangs below: each subtree's sequence sits whole and contiguous
/// inside its ancestors' sequences.
pub proof fn lemma_adjacent_lifts(nodes: Seq<TreeNode>, a: int, u: int, x: int, y: int)
    requires
        arena_ok(nodes),
        0 <= a < nodes.len(),
        0 <= u < nodes.len(),
        reachable(nodes, a, u),
        adjacent_in(in_order(nodes, u), x, y),
    ensures
        adjacent_in(in_order(nodes, a), x, y),
    decreases nodes.len() - a,
{
    assert(node_ok(nodes, a));
    if u != a {
        let s = in_order(nodes, a);
        let sub_l = match nodes[a].left {
            TreeNodeLink::Nil => Seq::<int>::empty(),
            TreeNodeLink::Ptr(l) => in_order(nodes, l as int),
        };
        let sub_r = match nodes[a].right {
            TreeNodeLink::Nil => Seq::<int>::empty(),
            TreeNodeLink::Ptr(r) => in_order(nodes, r as int),
        };
        assert(s == sub_l + seq![a] + sub_r);
        if let TreeNodeLink::Ptr(l) = nodes[a].left {
            if reachable(nodes, l as int, u) {
                lemma_adjacent_lifts(nodes, l as int, u, x, y);
                let m = choose|m: int| 0 <= m < sub_l.len() - 1 && #[trigger] sub_l[m] == x
                    && sub_l[m + 1] == y;
                assert(s[m] == x && s[m + 1] == y);
            }
        }
        if let TreeNodeLink::Ptr(r) = nodes[a].right {
            if reachable(nodes, r as int, u) {
                lemma_adjacent_lifts(nodes, r as int, u, x, y);
                let m = choose|m: int| 0 <= m < sub_r.len() - 1 && #[trigger] sub_r[m] == x
                    && sub_r[m + 1] == y;
                assert(s[sub_l.len() + 1 + m] == x && s[sub_l.len() + 1 + m + 1] == y);
            }
        }
    }
}

/// A node with a right child stands immediately before the leftmost
/// node of its right subtree: that node is its in-order successor.
pub proof fn lemma_successor_via_right(nodes: Seq<TreeNode>, v: int)
    requires
        arena_ok(nodes),
        0 <= v < nodes.len(),
        reachable(nodes, 0, v),
        nodes[v].right is Ptr,
    ensures
        adjacent_in(
            in_order(nodes, 0),
            v,
            crate::cursor::leftmost(nodes, nodes[v].right->Ptr_0 as int),
        ),
{
    assert(node_ok(nodes, v));
    let r = nodes[v].right->Ptr_0 as int;
    let s = in_order(nodes, v);
    let a = match nodes[v].left {
        TreeNodeLink::Nil => Seq::<int>::empty(),
        TreeNodeLink::Ptr(l) => in_order(nodes, l as int),
    };
    let b = in_order(nodes, r);
    assert(s == a + seq![v] + b);
    crate::cursor::lemma_first_is_leftmost(nodes, r);
    assert(s[a.len() as int] == v);
    assert(s[a.len() + 1int] == b[0]);
    assert(adjacent_in(s, v, crate::cursor::leftmost(nodes, r)));
    lemma_adjacent_lifts(nodes, 0, v, v, crate::cursor::leftmost(nodes, r));
}

/// A left child with no right subtree stands immediately before its own
/// parent: the parent is its in-order successor.
pub proof fn lemma_successor_via_parent(nodes: Seq<TreeNode>, p: int)
    requires
        arena_ok(nodes),
        0 <= p < nodes.len(),
        reachable(nodes, 0, p),
        nodes[p].left is Ptr,
        nodes[nodes[p].left->Ptr_0 as int].right is Nil,
    ensures
        adjacent_in(in_order(nodes, 0), nodes[p].left->Ptr_0 as int, p),
{
    assert(node_ok(nodes, p));
    let l = nodes[p].left->Ptr_0 as int;
    let s = in_order(nodes, p);
    let a = in_order(nodes, l);
    let b = match nodes[p].right {
        TreeNodeLink::Nil => Seq::<int>::empty(),
        TreeNodeLink::Ptr(r) => in_order(nodes, r as int),
    };
    assert(s == a + seq![p] + b);
    lemma_last_is_rightmost(nodes, l);
    assert(rightmost(nodes, l) == l);
    assert(s[a.len() - 1int] == a.last());
    assert(s[a.len() as int] == p);
    assert(adjacent_in(s, l, p));
    lemma_adjacent_lifts(nodes, 0, p, l, p);
}

/// The rightmost node of the root's left subtree stands immediately
/// before the root itself: the root is its in-order successor.
pub proof fn lemma_successor_via_full_ascent(nodes: Seq<TreeNode>)
    requires
        arena_ok(nodes),
        nodes[0].left is Ptr,
    ensures
        adjacent_in(in_order(nodes, 0), rightmost(nodes, nodes[0].left->Ptr_0 as int), 0),
{
    assert(node_ok(nodes, 0));
    let l = nodes[0].left->Ptr_0 as int;
    let s = in_order(nodes, 0);
    let a = in_order(nodes, l);
    let b = match nodes[0].right {
        TreeNodeLink::Nil => Seq::<int>::empty(),
        TreeNodeLink::Ptr(r) => in_order(nodes, r as int),
    };
    assert(s == a + seq![0] + b);
    lemma_last_is_rightmost(nodes, l);
    assert(s[a.len() - 1int] == a.last());
    assert(s[a.len() as int] == 0);
    assert(adjacent_in(s, rightmost(nodes, l), 0));
}

/// The rightmost descendant of a node hangs below it.
pub proof fn lemma_rightmost_reachable(nodes: Seq<TreeNode>, i: int)
    requires
        arena_ok(nodes),
        0 <= i < nodes.len(),
    ensures
        reachable(nodes, i, rightmost(nodes, i)),
    decreases nodes.len() - i,
{
    assert(node_ok(nodes, i));
    if let TreeNodeLink::Ptr(r) = nodes[i].right {
        lemma_rightmost_reachable(nodes, r as int);
        lemma_last_is_rightmost(nodes, r as int);
    }
}

/// In a sequence without duplicates, the entry following a given value
/// is the same wherever the adjacent pair was found.
pub proof fn lemma_adjacent_at(s: Seq<int>, x: int, y: int, k: int)
    requires
        s.no_duplicates(),
        adjacent_in(s, x, y),
        0 <= k < s.len(),
        s[k] == x,
    ensures
        k + 1 < s.len(),
        s[k + 1] == y,
{
    let m = choose|m: int| 0 <= m < s.len() - 1 && #[trigger] s[m] == x && s[m + 1] == y;
    assert(s[m] == s[k]);
    if m != k {
        assert(s[m] != s[k]);
    }
}

} // verus!
