use vstd::prelude::*;
use crate::ptr::nil;
use crate::rbtree::{RBTreeColor, RBTreeNode, ptr_bound};

verus! {

/// An abstraction of one tree inside an arena of nodes.
///
/// `seq` lists the tree's nodes in order; `pos` gives each node's place in
/// `seq`; the subtree of node `x` covers the places `lo(x) .. hi(x)`; and
/// `bh(x)` is the number of black nodes on each path below `x`.
pub struct TreeModel {
    pub seq: Seq<usize>,
    pub pos: spec_fn(usize) -> int,
    pub lo: spec_fn(usize) -> int,
    pub hi: spec_fn(usize) -> int,
    pub bh: spec_fn(usize) -> int,
}

/// `x` is a node of the modelled tree.
pub open spec fn has(m: TreeModel, x: usize) -> bool {
    0 <= (m.pos)(x) < m.seq.len() && m.seq[(m.pos)(x)] == x
}

/// The child link `c` of `parent` agrees with the model: a null link
/// covers no places; otherwise the child covers `lo .. hi` and points back.
pub open spec fn child_ok(
    nodes: Seq<RBTreeNode>,
    m: TreeModel,
    c: usize,
    lo: int,
    hi: int,
    parent: usize,
) -> bool {
    if c == nil() {
        lo == hi
    } else {
        &&& has(m, c)
        &&& (m.lo)(c) == lo
        &&& (m.hi)(c) == hi
        &&& nodes[c as int].parent() == parent
    }
}

/// The links of node `x` agree with the model.
#[verifier::opaque]
pub open spec fn node_ok(nodes: Seq<RBTreeNode>, root: usize, m: TreeModel, x: usize) -> bool {
    let i = (m.pos)(x);
    let nd = nodes[x as int];
    &&& x < nodes.len()
    &&& x < ptr_bound()
    &&& 0 <= (m.lo)(x) <= i < (m.hi)(x) <= m.seq.len()
    &&& nd.linked()
    &&& child_ok(nodes, m, nd.left, (m.lo)(x), i, x)
    &&& child_ok(nodes, m, nd.right, i + 1, (m.hi)(x), x)
    &&& if x == root {
        &&& nd.parent() == x
        &&& (m.lo)(x) == 0
        &&& (m.hi)(x) == m.seq.len()
    } else {
        let q = nd.parent();
        &&& has(m, q)
        &&& q != x
        &&& (nodes[q as int].left == x || nodes[q as int].right == x)
    }
}

/// The nodes reachable from `root` form a binary tree with parent links,
/// described by the model `m`.
pub open spec fn shape(nodes: Seq<RBTreeNode>, root: usize, m: TreeModel) -> bool {
    &&& (root == nil()) == (m.seq.len() == 0)
    &&& root != nil() ==> has(m, root)
    &&& m.seq.no_duplicates()
    &&& forall|i: int| 0 <= i < m.seq.len() ==> (m.pos)(#[trigger] m.seq[i]) == i
    &&& forall|i: int| 0 <= i < m.seq.len() ==> node_ok(nodes, root, m, #[trigger] m.seq[i])
}

/// The color of a possibly null link; null links count as black.
pub open spec fn color_of(nodes: Seq<RBTreeNode>, c: usize) -> RBTreeColor {
    if c == nil() {
        RBTreeColor::BLACK
    } else {
        nodes[c as int].col()
    }
}

/// The number of black nodes on each path from the link `c` down, `c` included.
pub open spec fn bh_of(nodes: Seq<RBTreeNode>, m: TreeModel, c: usize) -> int {
    if c == nil() {
        0
    } else {
        (m.bh)(c) + if nodes[c as int].col() == RBTreeColor::BLACK {
            1int
        } else {
            0int
        }
    }
}

/// Both subtrees of `x` have the black height that the model gives `x`.
pub open spec fn bh_ok(nodes: Seq<RBTreeNode>, m: TreeModel, x: usize) -> bool {
    &&& bh_of(nodes, m, nodes[x as int].left) == (m.bh)(x)
    &&& bh_of(nodes, m, nodes[x as int].right) == (m.bh)(x)
}

/// A red node has black children.
pub open spec fn red_ok(nodes: Seq<RBTreeNode>, x: usize) -> bool {
    nodes[x as int].col() == RBTreeColor::RED ==> color_of(nodes, nodes[x as int].left)
        == RBTreeColor::BLACK && color_of(nodes, nodes[x as int].right) == RBTreeColor::BLACK
}

/// The modelled tree is a red-black tree.
pub open spec fn rb_model(nodes: Seq<RBTreeNode>, root: usize, m: TreeModel) -> bool {
    &&& shape(nodes, root, m)
    &&& root != nil() ==> nodes[root as int].col() == RBTreeColor::BLACK
    &&& forall|i: int| 0 <= i < m.seq.len() ==> bh_ok(nodes, m, #[trigger] m.seq[i])
    &&& forall|i: int| 0 <= i < m.seq.len() ==> red_ok(nodes, #[trigger] m.seq[i])
}

/// `root` is null (the empty tree) or the root of a well-formed binary tree.
pub open spec fn tree_valid(nodes: Seq<RBTreeNode>, root: usize) -> bool {
    exists|m: TreeModel| shape(nodes, root, m)
}

/// `root` is null or the root of a well-formed red-black tree.
pub open spec fn rb_valid(nodes: Seq<RBTreeNode>, root: usize) -> bool {
    exists|m: TreeModel| rb_model(nodes, root, m)
}

/// The nodes of the subtree below the link `x`, in order, following links at
/// most `fuel` levels deep.
pub open spec fn subtree(nodes: Seq<RBTreeNode>, x: usize, fuel: nat) -> Seq<usize>
    decreases fuel,
{
    if fuel == 0 || x == nil() || x >= nodes.len() {
        Seq::empty()
    } else {
        subtree(nodes, nodes[x as int].left, (fuel - 1) as nat) + seq![x] + subtree(
            nodes,
            nodes[x as int].right,
            (fuel - 1) as nat,
        )
    }
}

/// The nodes of the (sub)tree below the link `x`, in order.
pub open spec fn inorder(nodes: Seq<RBTreeNode>, x: usize) -> Seq<usize> {
    subtree(nodes, x, nodes.len())
}

/// The top of the tree reached from `x` by following parent links at most
/// `fuel` times.
pub open spec fn top_from(nodes: Seq<RBTreeNode>, x: usize, fuel: nat) -> usize
    decreases fuel,
{
    if fuel == 0 || x >= nodes.len() || nodes[x as int].parent() == x {
        x
    } else {
        top_from(nodes, nodes[x as int].parent(), (fuel - 1) as nat)
    }
}

/// The root of the tree that holds `x`.
pub open spec fn root_of(nodes: Seq<RBTreeNode>, x: usize) -> usize {
    top_from(nodes, x, nodes.len())
}

/// `x` is a node of some well-formed tree in `nodes`.
pub open spec fn in_some_tree(nodes: Seq<RBTreeNode>, x: usize) -> bool {
    exists|root: usize| tree_valid(nodes, root) && #[trigger] inorder(nodes, root).contains(x)
}

/// The modelled tree's facts about one of its nodes.
pub proof fn lemma_node(nodes: Seq<RBTreeNode>, root: usize, m: TreeModel, x: usize)
    requires
        shape(nodes, root, m),
        has(m, x),
    ensures
        node_ok(nodes, root, m, x),
        x < nodes.len(),
        x < ptr_bound(),
        x != nil(),
        0 <= (m.lo)(x) <= (m.pos)(x) < (m.hi)(x) <= m.seq.len(),
        nodes[x as int].linked(),
        child_ok(nodes, m, nodes[x as int].left, (m.lo)(x), (m.pos)(x), x),
        child_ok(nodes, m, nodes[x as int].right, (m.pos)(x) + 1, (m.hi)(x), x),
        x == root ==> nodes[x as int].parent() == x && (m.lo)(x) == 0 && (m.hi)(x) == m.seq.len(),
        x != root ==> has(m, nodes[x as int].parent()) && nodes[x as int].parent() != x && (nodes[nodes[x as int].parent() as int].left == x
            || nodes[nodes[x as int].parent() as int].right == x),
{
    assert(node_ok(nodes, root, m, m.seq[(m.pos)(x)]));
    reveal(node_ok);
}

/// Establishes the facts about one node of a tree model.
pub proof fn lemma_node_intro(nodes: Seq<RBTreeNode>, root: usize, m: TreeModel, x: usize)
    requires
        x < nodes.len(),
        x < ptr_bound(),
        0 <= (m.lo)(x) <= (m.pos)(x) < (m.hi)(x) <= m.seq.len(),
        nodes[x as int].linked(),
        child_ok(nodes, m, nodes[x as int].left, (m.lo)(x), (m.pos)(x), x),
        child_ok(nodes, m, nodes[x as int].right, (m.pos)(x) + 1, (m.hi)(x), x),
        x == root ==> nodes[x as int].parent() == x && (m.lo)(x) == 0 && (m.hi)(x) == m.seq.len(),
        x != root ==> has(m, nodes[x as int].parent()) && nodes[x as int].parent() != x && (nodes[nodes[x as int].parent() as int].left == x
            || nodes[nodes[x as int].parent() as int].right == x),
    ensures
        node_ok(nodes, root, m, x),
{
    reveal(node_ok);
}

/// Distinct indices below `b` are at most `b` many.
pub proof fn lemma_distinct_bounded(s: Seq<usize>, b: int)
    requires
        b >= 0,
        s.no_duplicates(),
        forall|i: int| 0 <= i < s.len() ==> #[trigger] s[i] < b,
    ensures
        s.len() <= b,
    decreases b,
{
    if b == 0 {
        if s.len() > 0 {
            assert(s[0] < b);
        }
    } else if s.contains((b - 1) as usize) {
        let k = choose|k: int| 0 <= k < s.len() && s[k] == (b - 1) as usize;
        let t = s.remove(k);
        assert forall|i: int| 0 <= i < t.len() implies #[trigger] t[i] < b - 1 by {
            if i < k {
                assert(t[i] == s[i]);
            } else {
                assert(t[i] == s[i + 1]);
            }
        }
        assert forall|a: int, c: int| 0 <= a < c < t.len() implies t[a] != t[c] by {
            let a2 = if a < k { a } else { a + 1 };
            let c2 = if c < k { c } else { c + 1 };
            assert(t[a] == s[a2] && t[c] == s[c2]);
        }
        lemma_distinct_bounded(t, b - 1);
    } else {
        assert forall|i: int| 0 <= i < s.len() implies #[trigger] s[i] < b - 1 by {
            assert(s.contains(s[i]));
        }
        lemma_distinct_bounded(s, b - 1);
    }
}

/// A well-formed tree has no more nodes than the arena.
pub proof fn lemma_seq_bounded(nodes: Seq<RBTreeNode>, root: usize, m: TreeModel)
    requires
        shape(nodes, root, m),
    ensures
        m.seq.len() <= nodes.len(),
{
    assert forall|i: int| 0 <= i < m.seq.len() implies #[trigger] m.seq[i] < nodes.len() by {
        lemma_node(nodes, root, m, m.seq[i]);
    }
    lemma_distinct_bounded(m.seq, nodes.len() as int);
}

/// The subtree below a node is the model's range of places for it.
pub proof fn lemma_subtree(nodes: Seq<RBTreeNode>, root: usize, m: TreeModel, x: usize, fuel: nat)
    requires
        shape(nodes, root, m),
        has(m, x),
        fuel >= (m.hi)(x) - (m.lo)(x),
    ensures
        subtree(nodes, x, fuel) == m.seq.subrange((m.lo)(x), (m.hi)(x)),
    decreases fuel,
{
    lemma_node(nodes, root, m, x);
    let nd = nodes[x as int];
    let i = (m.pos)(x);
    let left = if nd.left == nil() {
        Seq::empty()
    } else {
        lemma_subtree(nodes, root, m, nd.left, (fuel - 1) as nat);
        subtree(nodes, nd.left, (fuel - 1) as nat)
    };
    let right = if nd.right == nil() {
        Seq::empty()
    } else {
        lemma_subtree(nodes, root, m, nd.right, (fuel - 1) as nat);
        subtree(nodes, nd.right, (fuel - 1) as nat)
    };
    assert(subtree(nodes, nil(), (fuel - 1) as nat) =~= Seq::<usize>::empty());
    assert(left == subtree(nodes, nd.left, (fuel - 1) as nat));
    assert(right == subtree(nodes, nd.right, (fuel - 1) as nat));
    assert(subtree(nodes, x, fuel) == left + seq![x] + right);
    assert(left =~= m.seq.subrange((m.lo)(x), i));
    assert(right =~= m.seq.subrange(i + 1, (m.hi)(x)));
    assert(m.seq.subrange((m.lo)(x), (m.hi)(x)) =~= left + seq![x] + right);
}

/// The in-order walk of a well-formed tree is its model's sequence.
pub proof fn lemma_inorder(nodes: Seq<RBTreeNode>, root: usize, m: TreeModel)
    requires
        shape(nodes, root, m),
    ensures
        inorder(nodes, root) == m.seq,
{
    lemma_seq_bounded(nodes, root, m);
    if root == nil() {
        assert(m.seq =~= Seq::<usize>::empty());
    } else {
        lemma_node(nodes, root, m, root);
        lemma_subtree(nodes, root, m, root, nodes.len());
        assert(m.seq.subrange(0, m.seq.len() as int) =~= m.seq);
    }
}

/// Following parent links from a node of the tree reaches its root.
pub proof fn lemma_top_from(nodes: Seq<RBTreeNode>, root: usize, m: TreeModel, x: usize, fuel: nat)
    requires
        shape(nodes, root, m),
        has(m, x),
        fuel >= m.seq.len() - ((m.hi)(x) - (m.lo)(x)),
    ensures
        top_from(nodes, x, fuel) == root,
    decreases fuel,
{
    lemma_node(nodes, root, m, x);
    if x != root {
        let q = nodes[x as int].parent();
        lemma_node(nodes, root, m, q);
        assert(fuel > 0);
        lemma_top_from(nodes, root, m, q, (fuel - 1) as nat);
    }
}

/// The root of the tree that holds one of its nodes.
pub proof fn lemma_root_of(nodes: Seq<RBTreeNode>, root: usize, m: TreeModel, x: usize)
    requires
        shape(nodes, root, m),
        has(m, x),
    ensures
        root_of(nodes, x) == root,
{
    lemma_seq_bounded(nodes, root, m);
    lemma_node(nodes, root, m, x);
    lemma_top_from(nodes, root, m, x, nodes.len());
}

/// The two arenas have the same length and the same links; colors may differ.
pub open spec fn same_links(nodes: Seq<RBTreeNode>, nodes2: Seq<RBTreeNode>) -> bool {
    &&& nodes2.len() == nodes.len()
    &&& forall|x: int|
        0 <= x < nodes.len() ==> (#[trigger] nodes2[x]).left == nodes[x].left && nodes2[x].right
            == nodes[x].right && nodes2[x].parent() == nodes[x].parent() && nodes2[x].linked()
            == nodes[x].linked()
}

/// Recoloring nodes keeps a well-formed tree.
pub proof fn lemma_same_links_shape(nodes: Seq<RBTreeNode>, nodes2: Seq<RBTreeNode>, root: usize, m: TreeModel)
    requires
        shape(nodes, root, m),
        same_links(nodes, nodes2),
    ensures
        shape(nodes2, root, m),
{
    assert forall|i: int| 0 <= i < m.seq.len() implies node_ok(nodes2, root, m, #[trigger] m.seq[i]) by {
        let x = m.seq[i];
        lemma_node(nodes, root, m, x);
        let nd = nodes[x as int];
        assert(nodes2[x as int].left == nd.left);
        if nd.left != nil() {
            lemma_node(nodes, root, m, nd.left);
            assert(nodes2[nd.left as int].parent() == nodes[nd.left as int].parent());
        }
        if nd.right != nil() {
            lemma_node(nodes, root, m, nd.right);
            assert(nodes2[nd.right as int].parent() == nodes[nd.right as int].parent());
        }
        if x != root {
            lemma_node(nodes, root, m, nd.parent());
            assert(nodes2[nd.parent() as int].left == nodes[nd.parent() as int].left);
        }
        lemma_node_intro(nodes2, root, m, x);
    }
}

/// Well-formedness does not depend on the black heights of the model.
pub proof fn lemma_shape_bh(nodes: Seq<RBTreeNode>, root: usize, m: TreeModel, m2: TreeModel)
    requires
        shape(nodes, root, m),
        m2.seq == m.seq,
        m2.pos == m.pos,
        m2.lo == m.lo,
        m2.hi == m.hi,
    ensures
        shape(nodes, root, m2),
{
    assert forall|i: int| 0 <= i < m.seq.len() implies node_ok(nodes, root, m2, #[trigger] m2.seq[i]) by {
        lemma_node(nodes, root, m, m.seq[i]);
        reveal(node_ok);
    }
}

/// The null link is the empty red-black tree.
pub proof fn lemma_empty_tree(nodes: Seq<RBTreeNode>)
    ensures
        rb_valid(nodes, nil()),
        tree_valid(nodes, nil()),
        inorder(nodes, nil()) == Seq::<usize>::empty(),
{
    let m = TreeModel {
        seq: Seq::empty(),
        pos: |x: usize| 0,
        lo: |x: usize| 0,
        hi: |x: usize| 0,
        bh: |x: usize| 0,
    };
    assert(rb_model(nodes, nil(), m));
    assert(inorder(nodes, nil()) =~= Seq::<usize>::empty());
}

} // verus!
