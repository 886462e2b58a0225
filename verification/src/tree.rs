use vstd::prelude::*;

verus! {

/// A link from one tree node to another: either absent (`Nil`) or the
/// index of the target node in the owning tree's arena (`Ptr`).
#[derive(Clone, Copy, PartialEq, Eq, Structural, Debug)]
pub enum TreeNodeLink {
    Nil,
    Ptr(usize),
}

/// A single tree vertex: a value and three relations (parent, left
/// child, right child), each stored as an arena index link.
#[derive(Clone, Copy, PartialEq, Eq, Structural, Debug)]
pub struct TreeNode {
    pub value: u32,
    pub parent: TreeNodeLink,
    pub left: TreeNodeLink,
    pub right: TreeNodeLink,
}

/// A handle to a node: a copy of its arena index, not of its data.
/// Handles stay valid for the life of the tree they came from.
#[derive(Clone, Copy, PartialEq, Eq, Structural, Debug)]
pub struct TreeNodePtr {
    pub idx: usize,
}

/// A binary tree: an arena of nodes whose entry 0 is the root.
/// Nodes are only ever appended, so every handle stays valid.
pub struct Tree {
    pub nodes: Vec<TreeNode>,
}

impl TreeNode {
    /// A fresh node holding `value`, with no parent and no children.
    pub fn new(value: u32) -> (n: TreeNode)
        ensures
            n == (TreeNode {
                value,
                parent: TreeNodeLink::Nil,
                left: TreeNodeLink::Nil,
                right: TreeNodeLink::Nil,
            }),
    {
        TreeNode {
            value,
            parent: TreeNodeLink::Nil,
            left: TreeNodeLink::Nil,
            right: TreeNodeLink::Nil,
        }
    }

    /// Whether this node has a left child.
    pub fn has_left(&self) -> (r: bool)
        ensures
            r == (self.left is Ptr),
    {
        match &self.left {
            TreeNodeLink::Nil => false,
            TreeNodeLink::Ptr(_) => true,
        }
    }

    /// Whether this node has a right child.
    pub fn has_right(&self) -> (r: bool)
        ensures
            r == (self.right is Ptr),
    {
        match &self.right {
            TreeNodeLink::Nil => false,
            TreeNodeLink::Ptr(_) => true,
        }
    }

    /// A node is a leaf exactly when both child slots are absent.
    pub fn is_leaf(&self) -> (r: bool)
        ensures
            r == (self.left is Nil && self.right is Nil),
    {
        !self.has_left() && !self.has_right()
    }
}

/// A child link of node `i` is sound: it points forward in the arena
/// (children are created after their parent), stays in range, and the
/// child's parent link points back at `i`.
pub open spec fn child_ok(nodes: Seq<TreeNode>, i: int, l: TreeNodeLink) -> bool {
    match l {
        TreeNodeLink::Nil => true,
        TreeNodeLink::Ptr(j) => {
            &&& i < j as int
            &&& (j as int) < nodes.len()
            &&& nodes[j as int].parent == TreeNodeLink::Ptr(i as usize)
        },
    }
}

/// Node `i` is sound: both child links are sound and distinct, the root
/// has no parent, and every other node's parent points backward.
pub open spec fn node_ok(nodes: Seq<TreeNode>, i: int) -> bool {
    &&& child_ok(nodes, i, nodes[i].left)
    &&& child_ok(nodes, i, nodes[i].right)
    &&& (nodes[i].left is Nil || nodes[i].left != nodes[i].right)
    &&& if i == 0 {
        nodes[i].parent is Nil
    } else {
        nodes[i].parent matches TreeNodeLink::Ptr(p) && (p as int) < i
    }
}

/// Well-formedness of a whole arena: nonempty, every node sound.
pub open spec fn arena_ok(nodes: Seq<TreeNode>) -> bool {
    &&& nodes.len() >= 1
    &&& forall|i: int| 0 <= i < nodes.len() ==> node_ok(nodes, i)
}

impl Tree {
    /// The tree's arena is well formed.
    pub open spec fn wf(self) -> bool {
        arena_ok(self.nodes@)
    }

    /// A handle is valid for this tree when its index is in range.
    pub open spec fn valid_ptr(self, p: TreeNodePtr) -> bool {
        p.idx < self.nodes@.len()
    }

    /// A new tree whose root is a fresh leaf node holding `value`.
    pub fn new(value: u32) -> (t: Tree)
        ensures
            t.wf(),
            t.nodes@ =~= seq![TreeNode {
                value,
                parent: TreeNodeLink::Nil,
                left: TreeNodeLink::Nil,
                right: TreeNodeLink::Nil,
            }],
    {
        let mut nodes: Vec<TreeNode> = Vec::new();
        nodes.push(TreeNode::new(value));
        Tree { nodes }
    }

    /// A handle to the root node.
    pub fn root(&self) -> (p: TreeNodePtr)
        ensures
            p.idx == 0,
    {
        TreeNodePtr { idx: 0 }
    }

    /// Attach a fresh left child under the root; delegates to the root
    /// node's attachment operation.
    pub fn add_left(&mut self, value: u32) -> (c: TreeNodePtr)
        requires
            old(self).wf(),
        ensures
            final(self).wf(),
            c.idx == old(self).nodes@.len(),
            final(self).nodes@ =~= old(self).nodes@.push(TreeNode {
                value,
                parent: TreeNodeLink::Ptr(0),
                left: TreeNodeLink::Nil,
                right: TreeNodeLink::Nil,
            }).update(0, (TreeNode { left: TreeNodeLink::Ptr(c.idx), ..old(self).nodes@[0] })),
    {
        let r = self.root();
        r.add_left(self, value)
    }

    /// Attach a fresh right child under the root; delegates to the root
    /// node's attachment operation.
    pub fn add_right(&mut self, value: u32) -> (c: TreeNodePtr)
        requires
            old(self).wf(),
        ensures
            final(self).wf(),
            c.idx == old(self).nodes@.len(),
            final(self).nodes@ =~= old(self).nodes@.push(TreeNode {
                value,
                parent: TreeNodeLink::Ptr(0),
                left: TreeNodeLink::Nil,
                right: TreeNodeLink::Nil,
            }).update(0, (TreeNode { right: TreeNodeLink::Ptr(c.idx), ..old(self).nodes@[0] })),
    {
        let r = self.root();
        r.add_right(self, value)
    }
}

impl TreeNodePtr {
    /// Allocate a fresh node holding `value` whose parent link points at
    /// `self`; the caller wires the matching child slot.
    fn create_child(&self, t: &mut Tree, value: u32) -> (c: TreeNodePtr)
        requires
            old(t).wf(),
            old(t).valid_ptr(*self),
        ensures
            final(t).wf(),
            c.idx == old(t).nodes@.len(),
            final(t).nodes@ =~= old(t).nodes@.push(TreeNode {
                value,
                parent: TreeNodeLink::Ptr(self.idx),
                left: TreeNodeLink::Nil,
                right: TreeNodeLink::Nil,
            }),
    {
        let c = TreeNodePtr { idx: t.nodes.len() };
        let mut n = TreeNode::new(value);
        n.parent = TreeNodeLink::Ptr(self.idx);
        t.nodes.push(n);
        proof {
            let nodes = t.nodes@;
            assert forall|i: int| 0 <= i < nodes.len() implies node_ok(nodes, i) by {
                if i < nodes.len() - 1 {
                    assert(node_ok(old(t).nodes@, i));
                    assert(nodes[i] == old(t).nodes@[i]);
                }
            }
        }
        c
    }

    /// Create a fresh child holding `value`, wire it into `self`'s left
    /// slot (overwriting any previous left child, which is thereby
    /// orphaned from this node), and return its handle.
    pub fn add_left(&self, t: &mut Tree, value: u32) -> (c: TreeNodePtr)
        requires
            old(t).wf(),
            old(t).valid_ptr(*self),
        ensures
            final(t).wf(),
            c.idx == old(t).nodes@.len(),
            final(t).nodes@ =~= old(t).nodes@.push(TreeNode {
                value,
                parent: TreeNodeLink::Ptr(self.idx),
                left: TreeNodeLink::Nil,
                right: TreeNodeLink::Nil,
            }).update(self.idx as int, (TreeNode {
                left: TreeNodeLink::Ptr(c.idx),
                ..old(t).nodes@[self.idx as int]
            })),
    {
        let ghost orig = t.nodes@;
        let c = self.create_child(t, value);
        let ghost mid = t.nodes@;
        let mut n = t.nodes[self.idx];
        n.left = TreeNodeLink::Ptr(c.idx);
        t.nodes.set(self.idx, n);
        proof {
            let nodes = t.nodes@;
            let j = self.idx as int;
            assert forall|i: int| 0 <= i < nodes.len() implies node_ok(nodes, i) by {
                assert(node_ok(mid, i));
                assert(node_ok(orig, j));
                if i != j {
                    assert(nodes[i] == mid[i]);
                }
                assert(nodes[j].parent == mid[j].parent);
                assert(nodes[j].right == mid[j].right);
            }
        }
        c
    }

    /// Create a fresh child holding `value`, wire it into `self`'s right
    /// slot (overwriting any previous right child, which is thereby
    /// orphaned from this node), and return its handle.
    pub fn add_right(&self, t: &mut Tree, value: u32) -> (c: TreeNodePtr)
        requires
            old(t).wf(),
            old(t).valid_ptr(*self),
        ensures
            final(t).wf(),
            c.idx == old(t).nodes@.len(),
            final(t).nodes@ =~= old(t).nodes@.push(TreeNode {
                value,
                parent: TreeNodeLink::Ptr(self.idx),
                left: TreeNodeLink::Nil,
                right: TreeNodeLink::Nil,
            }).update(self.idx as int, (TreeNode {
                right: TreeNodeLink::Ptr(c.idx),
                ..old(t).nodes@[self.idx as int]
            })),
    {
        let ghost orig = t.nodes@;
        let c = self.create_child(t, value);
        let ghost mid = t.nodes@;
        let mut n = t.nodes[self.idx];
        n.right = TreeNodeLink::Ptr(c.idx);
        t.nodes.set(self.idx, n);
        proof {
            let nodes = t.nodes@;
            let j = self.idx as int;
            assert forall|i: int| 0 <= i < nodes.len() implies node_ok(nodes, i) by {
                assert(node_ok(mid, i));
                assert(node_ok(orig, j));
                if i != j {
                    assert(nodes[i] == mid[i]);
                }
                assert(nodes[j].parent == mid[j].parent);
                assert(nodes[j].left == mid[j].left);
            }
        }
        c
    }

    /// A snapshot of this node's left link: a handle to the same
    /// underlying child node, if one is present.
    pub fn get_left(&self, t: &Tree) -> (r: TreeNodeLink)
        requires
            t.valid_ptr(*self),
        ensures
            r == t.nodes@[self.idx as int].left,
    {
        t.nodes[self.idx].left
    }

    /// A snapshot of this node's right link.
    pub fn get_right(&self, t: &Tree) -> (r: TreeNodeLink)
        requires
            t.valid_ptr(*self),
        ensures
            r == t.nodes@[self.idx as int].right,
    {
        t.nodes[self.idx].right
    }

    /// A snapshot of this node's parent link.
    pub fn get_parent(&self, t: &Tree) -> (r: TreeNodeLink)
        requires
            t.valid_ptr(*self),
        ensures
            r == t.nodes@[self.idx as int].parent,
    {
        t.nodes[self.idx].parent
    }

    /// The value stored at this node.
    pub fn value(&self, t: &Tree) -> (r: u32)
        requires
            t.valid_ptr(*self),
        ensures
            r == t.nodes@[self.idx as int].value,
    {
        t.nodes[self.idx].value
    }
}

/// After a left attachment, both sides of the new edge are wired at
/// once: the new child's parent link names the attaching node, and the
/// attaching node's left link names the new child, exactly as the
/// parent and left accessors will then report.
pub proof fn lemma_attach_left_wires_both_sides(pre: Seq<TreeNode>, post: Seq<TreeNode>, at: int, c: int, value: u32)
    requires
        arena_ok(pre),
        0 <= at < pre.len(),
        c == pre.len(),
        post == pre.push(TreeNode {
            value,
            parent: TreeNodeLink::Ptr(at as usize),
            left: TreeNodeLink::Nil,
            right: TreeNodeLink::Nil,
        }).update(at, (TreeNode { left: TreeNodeLink::Ptr(c as usize), ..pre[at] })),
    ensures
        post[c].parent == TreeNodeLink::Ptr(at as usize),
        post[at].left == TreeNodeLink::Ptr(c as usize),
        post[c].left is Nil && post[c].right is Nil,
{
}

/// After a right attachment, both sides of the new edge are wired at
/// once: the new child's parent link names the attaching node, and the
/// attaching node's right link names the new child, exactly as the
/// parent and right accessors will then report.
pub proof fn lemma_attach_right_wires_both_sides(pre: Seq<TreeNode>, post: Seq<TreeNode>, at: int, c: int, value: u32)
    requires
        arena_ok(pre),
        0 <= at < pre.len(),
        c == pre.len(),
        post == pre.push(TreeNode {
            value,
            parent: TreeNodeLink::Ptr(at as usize),
            left: TreeNodeLink::Nil,
            right: TreeNodeLink::Nil,
        }).update(at, (TreeNode { right: TreeNodeLink::Ptr(c as usize), ..pre[at] })),
    ensures
        post[c].parent == TreeNodeLink::Ptr(at as usize),
        post[at].right == TreeNodeLink::Ptr(c as usize),
        post[c].left is Nil && post[c].right is Nil,
{
}

} // verus!
