use vstd::prelude::*;
use crate::ptr::{nil, NullablePtr};
use crate::rbtree::{RBTree, RBTreeColor, RBTreeNode, RBTreeNodeIndex};
use crate::rbtree::model::{TreeModel, color_of, has, shape, tree_valid, inorder, subtree, in_some_tree, root_of, lemma_node, lemma_inorder, lemma_subtree, lemma_root_of, lemma_seq_bounded};

verus! {

impl<'a, L: RBTreeNodeIndex> RBTree<'a, L> {
    /// Tells whether the node `p` of a tree is the root of its tree.
    pub(crate) fn is_root(&self, p: usize) -> (r: bool)
        requires
            p != nil(),
            p < self.nodes().len(),
            self.nodes()[p as int].linked(),
        ensures
            r == (self.nodes()[p as int].parent() == p),
    {
        self.node(p).get_parent() == p
    }

    /// The color of a possibly null link; null links count as black.
    pub(crate) fn color_nullable(&self, p: usize) -> (r: RBTreeColor)
        requires
            p == nil() || (p < self.nodes().len() && self.nodes()[p as int].linked()),
        ensures
            r == color_of(self.nodes(), p),
    {
        if p.null() {
            RBTreeColor::BLACK
        } else {
            self.node(p).get_color()
        }
    }

    /// The leftmost node of the subtree below `p`, in the model.
    pub(crate) fn leftmost_in(&self, p: usize, Ghost(root): Ghost<usize>, Ghost(m): Ghost<TreeModel>) -> (r: usize)
        requires
            shape(self.nodes(), root, m),
            has(m, p),
        ensures
            r == m.seq[(m.lo)(p)],
            has(m, r),
            (m.pos)(r) == (m.lo)(p),
            self.nodes()[r as int].left == nil(),
    {
        proof {
            lemma_node(self.nodes(), root, m, p);
        }
        let mut result = p;
        while !self.node(result).left.null()
            invariant
                shape(self.nodes(), root, m),
                has(m, result),
                (m.lo)(result) == (m.lo)(p),
                result < self.nodes().len(),
            decreases (m.hi)(result) - (m.lo)(result),
        {
            proof {
                lemma_node(self.nodes(), root, m, result);
                lemma_node(self.nodes(), root, m, self.nodes()[result as int].left);
            }
            result = self.node(result).left;
        }
        proof {
            lemma_node(self.nodes(), root, m, result);
        }
        result
    }

    /// The rightmost node of the subtree below `p`, in the model.
    pub(crate) fn rightmost_in(&self, p: usize, Ghost(root): Ghost<usize>, Ghost(m): Ghost<TreeModel>) -> (r: usize)
        requires
            shape(self.nodes(), root, m),
            has(m, p),
        ensures
            r == m.seq[(m.hi)(p) - 1],
            has(m, r),
            (m.pos)(r) == (m.hi)(p) - 1,
            self.nodes()[r as int].right == nil(),
    {
        proof {
            lemma_node(self.nodes(), root, m, p);
        }
        let mut result = p;
        while !self.node(result).right.null()
            invariant
                shape(self.nodes(), root, m),
                has(m, result),
                (m.hi)(result) == (m.hi)(p),
                result < self.nodes().len(),
            decreases (m.hi)(result) - (m.lo)(result),
        {
            proof {
                lemma_node(self.nodes(), root, m, result);
                lemma_node(self.nodes(), root, m, self.nodes()[result as int].right);
            }
            result = self.node(result).right;
        }
        proof {
            lemma_node(self.nodes(), root, m, result);
        }
        result
    }

    /// Returns the leftmost node of the
    /// subtree rooted at p.
    pub fn leftmost(&self, p: usize) -> (r: usize)
        requires
            spine_ends(self.nodes(), p, true),
        ensures
            r == inorder(self.nodes(), p)[0],
            r < self.nodes().len(),
            self.nodes()[r as int].left == nil(),
    {
        let ghost nodes = self.nodes();
        let ghost k = choose|k: nat| k < nodes.len() && #[trigger] spine_end(nodes, p, k, true);
        let mut result = p;
        let ghost mut j: nat = k;
        let ghost mut fuel: nat = nodes.len();
        proof {
            lemma_spine_first(nodes, p, j, fuel);
        }
        while !self.node(result).left.null()
            invariant
                self.nodes() == nodes,
                spine_end(nodes, result, j, true),
                j < fuel,
                inorder(nodes, p)[0] == subtree(nodes, result, fuel)[0],
            decreases j,
        {
            let ghost prev = result;
            result = self.node(result).left;
            proof {
                lemma_spine_first(nodes, prev, j, fuel);
                j = (j - 1) as nat;
                fuel = (fuel - 1) as nat;
            }
        }
        proof {
            lemma_spine_first(nodes, result, j, fuel);
        }
        result
    }

    /// Returns the rightmost node of the
    /// subtree rooted at p.
    pub fn rightmost(&self, p: usize) -> (r: usize)
        requires
            spine_ends(self.nodes(), p, false),
        ensures
            r == inorder(self.nodes(), p).last(),
            r < self.nodes().len(),
            self.nodes()[r as int].right == nil(),
    {
        let ghost nodes = self.nodes();
        let ghost k = choose|k: nat| k < nodes.len() && #[trigger] spine_end(nodes, p, k, false);
        let mut result = p;
        let ghost mut j: nat = k;
        let ghost mut fuel: nat = nodes.len();
        proof {
            lemma_spine_last(nodes, p, j, fuel);
        }
        while !self.node(result).right.null()
            invariant
                self.nodes() == nodes,
                spine_end(nodes, result, j, false),
                j < fuel,
                inorder(nodes, p).last() == subtree(nodes, result, fuel).last(),
            decreases j,
        {
            let ghost prev = result;
            result = self.node(result).right;
            proof {
                lemma_spine_last(nodes, prev, j, fuel);
                j = (j - 1) as nat;
                fuel = (fuel - 1) as nat;
            }
        }
        proof {
            lemma_spine_last(nodes, result, j, fuel);
        }
        result
    }

    /// Returns the immediate successor of p
    /// in the tree, or null if no successor.
    pub fn successor(&self, p: usize) -> (r: usize)
        requires
            in_some_tree(self.nodes(), p),
        ensures
            ({
                let t = inorder(self.nodes(), root_of(self.nodes(), p));
                r == if t.index_of(p) + 1 < t.len() { t[t.index_of(p) + 1] } else { nil() }
            }),
    {
        let ghost root = choose|root: usize| tree_valid(self.nodes(), root) && #[trigger] inorder(self.nodes(), root).contains(p);
        let ghost m = choose|m: TreeModel| shape(self.nodes(), root, m);
        proof {
            lemma_tree_member(self.nodes(), root, m, p);
            lemma_node(self.nodes(), root, m, p);
        }
        if !self.node(p).right.null() {
            proof {
                lemma_node(self.nodes(), root, m, self.nodes()[p as int].right);
            }
            return self.leftmost_in(self.node(p).right, Ghost(root), Ghost(m));
        }
        let mut n = p;
        loop
            invariant
                shape(self.nodes(), root, m),
                has(m, n),
                has(m, p),
                (m.hi)(n) == (m.pos)(p) + 1,
                inorder(self.nodes(), root_of(self.nodes(), p)) == m.seq,
                m.seq.index_of(p) == (m.pos)(p),
            decreases m.seq.len() - ((m.hi)(n) - (m.lo)(n)),
        {
            proof {
                lemma_node(self.nodes(), root, m, n);
            }
            if self.is_root(n) {
                return usize::nullptr();
            }
            proof {
                lemma_node(self.nodes(), root, m, self.nodes()[n as int].parent());
            }
            let q = self.node(n).get_parent();
            if self.node(q).left == n {
                return q;
            }
            n = q;
        }
    }

    /// Returns the immediate predecessor of p
    /// in the tree, or null if no predecessor.
    pub fn predecessor(&self, p: usize) -> (r: usize)
        requires
            in_some_tree(self.nodes(), p),
        ensures
            ({
                let t = inorder(self.nodes(), root_of(self.nodes(), p));
                r == if t.index_of(p) > 0 { t[t.index_of(p) - 1] } else { nil() }
            }),
    {
        let ghost root = choose|root: usize| tree_valid(self.nodes(), root) && #[trigger] inorder(self.nodes(), root).contains(p);
        let ghost m = choose|m: TreeModel| shape(self.nodes(), root, m);
        proof {
            lemma_tree_member(self.nodes(), root, m, p);
            lemma_node(self.nodes(), root, m, p);
        }
        if !self.node(p).left.null() {
            proof {
                lemma_node(self.nodes(), root, m, self.nodes()[p as int].left);
            }
            return self.rightmost_in(self.node(p).left, Ghost(root), Ghost(m));
        }
        let mut n = p;
        loop
            invariant
                shape(self.nodes(), root, m),
                has(m, n),
                has(m, p),
                (m.lo)(n) == (m.pos)(p),
                inorder(self.nodes(), root_of(self.nodes(), p)) == m.seq,
                m.seq.index_of(p) == (m.pos)(p),
            decreases m.seq.len() - ((m.hi)(n) - (m.lo)(n)),
        {
            proof {
                lemma_node(self.nodes(), root, m, n);
            }
            if self.is_root(n) {
                return usize::nullptr();
            }
            proof {
                lemma_node(self.nodes(), root, m, self.nodes()[n as int].parent());
            }
            let q = self.node(n).get_parent();
            if self.node(q).right == n {
                return q;
            }
            n = q;
        }
    }
}

/// What a node of a tree is, in terms of the tree's model.
pub proof fn lemma_tree_member(nodes: Seq<RBTreeNode>, root: usize, m: TreeModel, p: usize)
    requires
        shape(nodes, root, m),
        inorder(nodes, root).contains(p),
    ensures
        has(m, p),
        m.seq.index_of(p) == (m.pos)(p),
        root_of(nodes, p) == root,
        inorder(nodes, root) == m.seq,
        inorder(nodes, p) == m.seq.subrange((m.lo)(p), (m.hi)(p)),
{
    lemma_inorder(nodes, root, m);
    let j = m.seq.index_of(p);
    assert(m.seq[j] == p);
    lemma_root_of(nodes, root, m, p);
    lemma_seq_bounded(nodes, root, m);
    lemma_node(nodes, root, m, p);
    lemma_subtree(nodes, root, m, p, nodes.len());
}

/// The child of `x` on the left when `left`, else on the right.
pub open spec fn side_child(nodes: Seq<RBTreeNode>, x: usize, left: bool) -> usize {
    if left {
        nodes[x as int].left
    } else {
        nodes[x as int].right
    }
}

/// Following child links on one side from `x`, every node met is a node of
/// the arena, and after exactly `k` steps the node met has no child on that
/// side.
pub open spec fn spine_end(nodes: Seq<RBTreeNode>, x: usize, k: nat, left: bool) -> bool
    decreases k,
{
    &&& x != nil()
    &&& x < nodes.len()
    &&& if k == 0 {
        side_child(nodes, x, left) == nil()
    } else {
        side_child(nodes, x, left) != nil() && spine_end(nodes, side_child(nodes, x, left), (k - 1) as nat, left)
    }
}

/// The child links on one side from `p` lead, in fewer steps than there are
/// nodes, to a node without a child on that side.
pub open spec fn spine_ends(nodes: Seq<RBTreeNode>, p: usize, left: bool) -> bool {
    exists|k: nat| k < nodes.len() && #[trigger] spine_end(nodes, p, k, left)
}

/// The first node below a node on a left spine comes from its left child,
/// or is the node itself.
pub proof fn lemma_spine_first(nodes: Seq<RBTreeNode>, x: usize, k: nat, fuel: nat)
    requires
        spine_end(nodes, x, k, true),
        k < fuel,
    ensures
        subtree(nodes, x, fuel).len() > 0,
        nodes[x as int].left == nil() ==> subtree(nodes, x, fuel)[0] == x,
        nodes[x as int].left != nil() ==> k > 0 && spine_end(nodes, nodes[x as int].left, (k - 1) as nat, true)
            && subtree(nodes, x, fuel)[0] == subtree(nodes, nodes[x as int].left, (fuel - 1) as nat)[0],
{
    let l = nodes[x as int].left;
    let r = nodes[x as int].right;
    let sl = subtree(nodes, l, (fuel - 1) as nat);
    let sr = subtree(nodes, r, (fuel - 1) as nat);
    assert(subtree(nodes, x, fuel) == sl + seq![x] + sr);
    if l != nil() {
        assert(k > 0);
        assert(spine_end(nodes, l, (k - 1) as nat, true));
        assert(l < nodes.len() && (fuel - 1) as nat > 0);
        assert(subtree(nodes, l, (fuel - 1) as nat).len() > 0) by {
            let l2 = nodes[l as int].left;
            let r2 = nodes[l as int].right;
            assert(subtree(nodes, l, (fuel - 1) as nat) == subtree(nodes, l2, (fuel - 2) as nat) + seq![l]
                + subtree(nodes, r2, (fuel - 2) as nat));
        }
    } else {
        assert(sl.len() == 0);
    }
}

/// The last node below a node on a right spine comes from its right child,
/// or is the node itself.
pub proof fn lemma_spine_last(nodes: Seq<RBTreeNode>, x: usize, k: nat, fuel: nat)
    requires
        spine_end(nodes, x, k, false),
        k < fuel,
    ensures
        subtree(nodes, x, fuel).len() > 0,
        nodes[x as int].right == nil() ==> subtree(nodes, x, fuel).last() == x,
        nodes[x as int].right != nil() ==> k > 0 && spine_end(nodes, nodes[x as int].right, (k - 1) as nat, false)
            && subtree(nodes, x, fuel).last() == subtree(nodes, nodes[x as int].right, (fuel - 1) as nat).last(),
{
    let l = nodes[x as int].left;
    let r = nodes[x as int].right;
    let sl = subtree(nodes, l, (fuel - 1) as nat);
    let sr = subtree(nodes, r, (fuel - 1) as nat);
    assert(subtree(nodes, x, fuel) == sl + seq![x] + sr);
    if r != nil() {
        assert(k > 0);
        assert(spine_end(nodes, r, (k - 1) as nat, false));
        assert(r < nodes.len() && (fuel - 1) as nat > 0);
        assert(subtree(nodes, r, (fuel - 1) as nat).len() > 0) by {
            let l2 = nodes[r as int].left;
            let r2 = nodes[r as int].right;
            assert(subtree(nodes, r, (fuel - 1) as nat) == subtree(nodes, l2, (fuel - 2) as nat) + seq![r]
                + subtree(nodes, r2, (fuel - 2) as nat));
        }
    } else {
        assert(sr.len() == 0);
    }
}

/// In a modelled tree, the spine on either side below `x` ends after fewer
/// steps than the subtree of `x` has nodes.
proof fn lemma_spine_in_model(nodes: Seq<RBTreeNode>, root: usize, m: TreeModel, x: usize, left: bool) -> (k: nat)
    requires
        shape(nodes, root, m),
        has(m, x),
    ensures
        k < (m.hi)(x) - (m.lo)(x),
        spine_end(nodes, x, k, left),
    decreases (m.hi)(x) - (m.lo)(x),
{
    lemma_node(nodes, root, m, x);
    let c = side_child(nodes, x, left);
    if c == nil() {
        0
    } else {
        lemma_node(nodes, root, m, c);
        let k1 = lemma_spine_in_model(nodes, root, m, c, left);
        k1 + 1
    }
}

/// Every node of a well-formed tree has both spines below it ending inside
/// the arena, as `leftmost` and `rightmost` require.
pub proof fn lemma_spine_ends(nodes: Seq<RBTreeNode>, root: usize, p: usize)
    requires
        tree_valid(nodes, root),
        inorder(nodes, root).contains(p),
    ensures
        spine_ends(nodes, p, true),
        spine_ends(nodes, p, false),
{
    let m = choose|m: TreeModel| shape(nodes, root, m);
    lemma_tree_member(nodes, root, m, p);
    lemma_node(nodes, root, m, p);
    lemma_seq_bounded(nodes, root, m);
    let kl = lemma_spine_in_model(nodes, root, m, p, true);
    let kr = lemma_spine_in_model(nodes, root, m, p, false);
    assert(kl < nodes.len() && spine_end(nodes, p, kl, true));
    assert(kr < nodes.len() && spine_end(nodes, p, kr, false));
}

} // verus!
