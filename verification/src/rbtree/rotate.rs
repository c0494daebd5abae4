use vstd::prelude::*;
use crate::ptr::{nil, NullablePtr};
use crate::rbtree::{RBTreeMut, RBTreeNode, RBTreeNodeIndex, RBTreePtrColor, ptr_bound};
use crate::rbtree::model::{TreeModel, has, node_ok, shape, lemma_node, lemma_node_intro, tree_valid, inorder, lemma_inorder};

verus! {

/// The model after `n` was rotated above its parent `p`.
pub open spec fn rotated(m: TreeModel, n: usize, p: usize, n_is_left: bool) -> TreeModel {
    if n_is_left {
        TreeModel {
            lo: |x: usize| if x == p { (m.pos)(n) + 1 } else { (m.lo)(x) },
            hi: |x: usize| if x == n { (m.hi)(p) } else { (m.hi)(x) },
            ..m
        }
    } else {
        TreeModel {
            lo: |x: usize| if x == n { (m.lo)(p) } else { (m.lo)(x) },
            hi: |x: usize| if x == p { (m.pos)(n) } else { (m.hi)(x) },
            ..m
        }
    }
}

/// The arena `nodes2` is `nodes` with `n` rotated above its parent.
pub open spec fn rotation_of(nodes: Seq<RBTreeNode>, nodes2: Seq<RBTreeNode>, root: usize, n: usize) -> bool {
    let p = nodes[n as int].parent();
    let g = nodes[p as int].parent();
    let is_left = nodes[p as int].left == n;
    let t2 = if is_left { nodes[n as int].right } else { nodes[n as int].left };
    &&& nodes2.len() == nodes.len()
    &&& nodes2[n as int].left == (if is_left { nodes[n as int].left } else { p })
    &&& nodes2[n as int].right == (if is_left { p } else { nodes[n as int].right })
    &&& nodes2[n as int].parent() == (if p == root { n } else { g })
    &&& nodes2[n as int].linked()
    &&& nodes2[n as int].col() == nodes[n as int].col()
    &&& nodes2[p as int].left == (if is_left { t2 } else { nodes[p as int].left })
    &&& nodes2[p as int].right == (if is_left { nodes[p as int].right } else { t2 })
    &&& nodes2[p as int].parent() == n
    &&& nodes2[p as int].linked()
    &&& nodes2[p as int].col() == nodes[p as int].col()
    &&& t2 != nil() ==> {
        &&& nodes2[t2 as int].left == nodes[t2 as int].left
        &&& nodes2[t2 as int].right == nodes[t2 as int].right
        &&& nodes2[t2 as int].parent() == p
        &&& nodes2[t2 as int].linked()
        &&& nodes2[t2 as int].col() == nodes[t2 as int].col()
    }
    &&& p != root ==> {
        &&& nodes2[g as int].left == (if nodes[g as int].left == p { n } else { nodes[g as int].left })
        &&& nodes2[g as int].right == (if nodes[g as int].left == p { nodes[g as int].right } else { n })
        &&& nodes2[g as int].parent_col == nodes[g as int].parent_col
    }
    &&& forall|x: int|
        0 <= x < nodes.len() && x != n && x != p && (t2 == nil() || x != t2) && (p == root || x != g)
            ==> #[trigger] nodes2[x] == nodes[x]
}

/// Rotation keeps the links of one node in agreement with the rotated model.
#[verifier::spinoff_prover]
#[verifier::rlimit(30)]
proof fn lemma_rotate_node(
    nodes: Seq<RBTreeNode>,
    nodes2: Seq<RBTreeNode>,
    root: usize,
    m: TreeModel,
    n: usize,
    x: usize,
)
    requires
        shape(nodes, root, m),
        has(m, n),
        n != root,
        rotation_of(nodes, nodes2, root, n),
        has(m, x),
    ensures
        ({
            let p = nodes[n as int].parent();
            node_ok(nodes2, if p == root { n } else { root }, rotated(m, n, p, nodes[p as int].left == n), x)
        }),
{
    let p = nodes[n as int].parent();
    let g = nodes[p as int].parent();
    let is_left = nodes[p as int].left == n;
    let t2 = if is_left { nodes[n as int].right } else { nodes[n as int].left };
    let root2 = if p == root { n } else { root };
    let m2 = rotated(m, n, p, is_left);
    lemma_node(nodes, root, m, n);
    lemma_node(nodes, root, m, p);
    lemma_node(nodes, root, m, x);
    if t2 != nil() {
        lemma_node(nodes, root, m, t2);
    }
    if p != root {
        lemma_node(nodes, root, m, g);
    }
    let q = nodes[x as int].parent();
    if x != root {
        lemma_node(nodes, root, m, q);
    }
    let l = nodes[x as int].left;
    let r = nodes[x as int].right;
    if l != nil() {
        lemma_node(nodes, root, m, l);
    }
    if r != nil() {
        lemma_node(nodes, root, m, r);
    }
    if x == n {
        let t1 = if is_left { nodes[n as int].left } else { nodes[n as int].right };
        if t1 != nil() {
            lemma_node(nodes, root, m, t1);
        }
    } else if x == p {
        let t3 = if is_left { nodes[p as int].right } else { nodes[p as int].left };
        if t3 != nil() {
            lemma_node(nodes, root, m, t3);
        }
    } else if x == t2 {
    } else if p != root && x == g {
        let o = if nodes[g as int].left == p { nodes[g as int].right } else { nodes[g as int].left };
        if o != nil() {
            lemma_node(nodes, root, m, o);
        }
    } else {
        assert(nodes2[x as int] == nodes[x as int]);
        if l != nil() {
            assert(l != n && l != p && l != t2);
        }
        if r != nil() {
            assert(r != n && r != p && r != t2);
        }
    }
    lemma_node_intro(nodes2, root2, m2, x);
}

/// Rotating a node above its parent keeps a well-formed tree with the same
/// in-order sequence.
pub proof fn lemma_rotate_shape(
    nodes: Seq<RBTreeNode>,
    nodes2: Seq<RBTreeNode>,
    root: usize,
    m: TreeModel,
    n: usize,
)
    requires
        shape(nodes, root, m),
        has(m, n),
        n != root,
        rotation_of(nodes, nodes2, root, n),
    ensures
        ({
            let p = nodes[n as int].parent();
            shape(nodes2, if p == root { n } else { root }, rotated(m, n, p, nodes[p as int].left == n))
        }),
{
    let p = nodes[n as int].parent();
    let is_left = nodes[p as int].left == n;
    let root2 = if p == root { n } else { root };
    let m2 = rotated(m, n, p, is_left);
    lemma_node(nodes, root, m, n);
    assert forall|i: int| 0 <= i < m2.seq.len() implies node_ok(nodes2, root2, m2, #[trigger] m2.seq[i]) by {
        lemma_rotate_node(nodes, nodes2, root, m, n, m.seq[i]);
    }
    if p != root {
        lemma_node(nodes, root, m, root);
    }
}


impl<'a, L: RBTreeNodeIndex> RBTreeMut<'a, L> {
    pub(crate) fn relink_left_child(&mut self, p: usize, l: usize)
        requires
            p < old(self).nodes().len(),
            p < ptr_bound(),
            l == nil() || l < old(self).nodes().len(),
            l != p,
        ensures
            *final(final(self).container) == *final(old(self).container),
            final(self).nodes().len() == old(self).nodes().len(),
            final(self).nodes()[p as int] == (RBTreeNode { left: l, ..old(self).nodes()[p as int] }),
            l != nil() ==> final(self).nodes()[l as int].left == old(self).nodes()[l as int].left
                && final(self).nodes()[l as int].right == old(self).nodes()[l as int].right
                && final(self).nodes()[l as int].parent() == p && final(self).nodes()[l as int].linked()
                && final(self).nodes()[l as int].col() == old(self).nodes()[l as int].col(),
            forall|i: int| 0 <= i < old(self).nodes().len() && i != p && (l == nil() || i != l) ==> #[trigger] final(self).nodes()[i] == old(self).nodes()[i],
            final(self).keys() == old(self).keys(),
    {
        self.set_left(p, l);
        if !l.null() {
            self.set_parent(l, p);
        }
    }

    pub(crate) fn relink_right_child(&mut self, p: usize, r: usize)
        requires
            p < old(self).nodes().len(),
            p < ptr_bound(),
            r == nil() || r < old(self).nodes().len(),
            r != p,
        ensures
            *final(final(self).container) == *final(old(self).container),
            final(self).nodes().len() == old(self).nodes().len(),
            final(self).nodes()[p as int] == (RBTreeNode { right: r, ..old(self).nodes()[p as int] }),
            r != nil() ==> final(self).nodes()[r as int].left == old(self).nodes()[r as int].left
                && final(self).nodes()[r as int].right == old(self).nodes()[r as int].right
                && final(self).nodes()[r as int].parent() == p && final(self).nodes()[r as int].linked()
                && final(self).nodes()[r as int].col() == old(self).nodes()[r as int].col(),
            forall|i: int| 0 <= i < old(self).nodes().len() && i != p && (r == nil() || i != r) ==> #[trigger] final(self).nodes()[i] == old(self).nodes()[i],
            final(self).keys() == old(self).keys(),
    {
        self.set_right(p, r);
        if !r.null() {
            self.set_parent(r, p);
        }
    }

    /// Rotates `n` above its parent, as described by `rotation_of`.
    #[verifier::spinoff_prover]
    #[verifier::rlimit(30)]
    pub(crate) fn rotate_impl(&mut self, root: &mut usize, n: usize, Ghost(m): Ghost<TreeModel>)
        requires
            shape(old(self).nodes(), *old(root), m),
            has(m, n),
            n != *old(root),
        ensures
            *final(final(self).container) == *final(old(self).container),
            rotation_of(old(self).nodes(), final(self).nodes(), *old(root), n),
            *final(root) == (if old(self).nodes()[n as int].parent() == *old(root) { n } else { *old(root) }),
            final(self).keys() == old(self).keys(),
    {
        proof {
            lemma_node(self.nodes(), *root, m, n);
        }
        let p = self.node(n).get_parent();
        proof {
            lemma_node(self.nodes(), *root, m, p);
            if p != *root {
                lemma_node(self.nodes(), *root, m, self.nodes()[p as int].parent());
            }
        }
        let is_parent_root = self.to_immut().is_root(p);
        let (g, x) = self.node(p).parent_col.separate();
        let (_, y) = self.node(n).parent_col.separate();
        let ghost t2g = if self.nodes()[p as int].left == n { self.nodes()[n as int].right } else { self.nodes()[n as int].left };
        proof {
            if t2g != nil() {
                lemma_node(self.nodes(), *root, m, t2g);
            }
        }
        if self.node(p).left == n {
            self.set_parent_color(p, n, x);
            let t2 = self.node(n).right;
            self.relink_left_child(p, t2);
            self.set_right(n, p);
        } else {
            self.set_parent_color(p, n, x);
            let t2 = self.node(n).left;
            self.relink_right_child(p, t2);
            self.set_left(n, p);
        }
        if is_parent_root {
            self.set_parent_color(n, n, y);
            *root = n;
        } else {
            self.set_parent_color(n, g, y);
            if self.node(g).left == p {
                self.set_left(g, n);
            } else {
                self.set_right(g, n);
            }
        }
    }

    /// Rotates the non-root node `n` above its parent, keeping the in-order
    /// sequence of the tree.
    pub fn rotate(&mut self, root: &mut usize, n: usize)
        requires
            tree_valid(old(self).nodes(), *old(root)),
            inorder(old(self).nodes(), *old(root)).contains(n),
            n != *old(root),
        ensures
            *final(final(self).container) == *final(old(self).container),
            rotation_of(old(self).nodes(), final(self).nodes(), *old(root), n),
            *final(root) == (if old(self).nodes()[n as int].parent() == *old(root) { n } else { *old(root) }),
            tree_valid(final(self).nodes(), *final(root)),
            inorder(final(self).nodes(), *final(root)) == inorder(old(self).nodes(), *old(root)),
            final(self).keys() == old(self).keys(),
    {
        let ghost m = choose|m: TreeModel| shape(self.nodes(), *root, m);
        proof {
            lemma_inorder(self.nodes(), *root, m);
        }
        self.rotate_impl(root, n, Ghost(m));
        proof {
            let p = old(self).nodes()[n as int].parent();
            let m2 = rotated(m, n, p, old(self).nodes()[p as int].left == n);
            lemma_rotate_shape(old(self).nodes(), self.nodes(), *old(root), m, n);
            lemma_inorder(self.nodes(), *root, m2);
        }
    }
}

} // verus!
