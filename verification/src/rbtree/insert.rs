use vstd::prelude::*;
use crate::ptr::{nil, NullablePtr};
use crate::rbtree::{RBTreeColor, RBTreeMut, RBTreeNode, RBTreeNodeIndex, RBTreePtrColor, ptr_bound};
use crate::rbtree::rotate::{rotated, rotation_of, lemma_rotate_shape};
use crate::rbtree::color;
use crate::rbtree::exact::{NodeView, views, vcol, vcolor, vrotate, lemma_views_color, lemma_views_rotate};
use crate::rbtree::model::{TreeModel, has, node_ok, shape, lemma_node, lemma_node_intro, color_of, bh_ok, red_ok, rb_model, same_links, lemma_same_links_shape, lemma_shape_bh, rb_valid, inorder, lemma_inorder, lemma_seq_bounded};

verus! {

/// A place boundary after a node was inserted at place `k`: boundaries past
/// `k` (or at `k`, when `at_k` holds) move up by one.
pub open spec fn shifted(b: int, k: int, at_k: bool) -> int {
    if b > k || (at_k && b == k) {
        b + 1
    } else {
        b
    }
}

/// The model after the leaf `n` was inserted at place `k`.
pub open spec fn inserted(m: TreeModel, n: usize, k: int, at_k: bool) -> TreeModel {
    TreeModel {
        seq: m.seq.insert(k, n),
        pos: |x: usize| if x == n { k } else if (m.pos)(x) >= k { (m.pos)(x) + 1 } else { (m.pos)(x) },
        lo: |x: usize| if x == n { k } else { shifted((m.lo)(x), k, at_k) },
        hi: |x: usize| if x == n { k + 1 } else { shifted((m.hi)(x), k, at_k) },
        bh: |x: usize| if x == n { 0 } else { (m.bh)(x) },
    }
}

/// The arena `nodes2` is `nodes` with the fresh red leaf `n` hung below `p`
/// on the left (`left`) or right side.
pub open spec fn leaf_insertion(nodes: Seq<RBTreeNode>, nodes2: Seq<RBTreeNode>, p: usize, n: usize, left: bool) -> bool {
    &&& nodes2.len() == nodes.len()
    &&& nodes2[p as int].left == (if left { n } else { nodes[p as int].left })
    &&& nodes2[p as int].right == (if left { nodes[p as int].right } else { n })
    &&& nodes2[p as int].parent_col == nodes[p as int].parent_col
    &&& nodes2[n as int].left == nil()
    &&& nodes2[n as int].right == nil()
    &&& nodes2[n as int].parent() == p
    &&& nodes2[n as int].linked()
    &&& nodes2[n as int].col() == RBTreeColor::RED
    &&& forall|x: int| 0 <= x < nodes.len() && x != p && x != n ==> #[trigger] nodes2[x] == nodes[x]
}

/// Inserting a leaf keeps the links of one node in agreement with the model.
#[verifier::spinoff_prover]
#[verifier::rlimit(30)]
proof fn lemma_insert_node(
    nodes: Seq<RBTreeNode>,
    nodes2: Seq<RBTreeNode>,
    root: usize,
    m: TreeModel,
    p: usize,
    n: usize,
    left: bool,
    x: usize,
)
    requires
        shape(nodes, root, m),
        has(m, p),
        (if left { nodes[p as int].left } else { nodes[p as int].right }) == nil(),
        !m.seq.contains(n),
        n < nodes.len(),
        n < ptr_bound(),
        n != nil(),
        leaf_insertion(nodes, nodes2, p, n, left),
        x == n || has(m, x),
    ensures
        ({
            let k = if left { (m.pos)(p) } else { (m.pos)(p) + 1 };
            node_ok(nodes2, root, inserted(m, n, k, !left), x)
        }),
{
    let k = if left { (m.pos)(p) } else { (m.pos)(p) + 1 };
    let m2 = inserted(m, n, k, !left);
    lemma_node(nodes, root, m, p);
    assert(m2.seq.len() == m.seq.len() + 1);
    assert(m2.seq[k] == n);
    assert forall|y: usize| has(m, y) implies has(m2, y) && y != n by {
        if (m.pos)(y) >= k {
            assert(m2.seq[(m.pos)(y) + 1] == m.seq[(m.pos)(y)]);
        } else {
            assert(m2.seq[(m.pos)(y)] == m.seq[(m.pos)(y)]);
        }
    }
    if x == n {
        assert(has(m2, n));
    } else {
        lemma_node(nodes, root, m, x);
        let q = nodes[x as int].parent();
        if x != root {
            lemma_node(nodes, root, m, q);
        }
        let l = nodes[x as int].left;
        let r = nodes[x as int].right;
        if l != nil() {
            lemma_node(nodes, root, m, l);
        }
        if r != nil() {
            lemma_node(nodes, root, m, r);
        }
        if x != p {
            assert(nodes2[x as int] == nodes[x as int]);
        }
    }
    lemma_node_intro(nodes2, root, m2, x);
}

/// Inserting a leaf keeps a well-formed tree, with the leaf at place `k`.
pub proof fn lemma_insert_shape(
    nodes: Seq<RBTreeNode>,
    nodes2: Seq<RBTreeNode>,
    root: usize,
    m: TreeModel,
    p: usize,
    n: usize,
    left: bool,
)
    requires
        shape(nodes, root, m),
        has(m, p),
        (if left { nodes[p as int].left } else { nodes[p as int].right }) == nil(),
        !m.seq.contains(n),
        n < nodes.len(),
        n < ptr_bound(),
        n != nil(),
        leaf_insertion(nodes, nodes2, p, n, left),
    ensures
        ({
            let k = if left { (m.pos)(p) } else { (m.pos)(p) + 1 };
            shape(nodes2, root, inserted(m, n, k, !left))
        }),
{
    let k = if left { (m.pos)(p) } else { (m.pos)(p) + 1 };
    let m2 = inserted(m, n, k, !left);
    lemma_node(nodes, root, m, p);
    assert forall|i: int| 0 <= i < m2.seq.len() implies (m2.pos)(#[trigger] m2.seq[i]) == i
        && node_ok(nodes2, root, m2, m2.seq[i]) by {
        if i < k {
            assert(m2.seq[i] == m.seq[i]);
            assert(m.seq[i] != n);
            lemma_insert_node(nodes, nodes2, root, m, p, n, left, m.seq[i]);
        } else if i == k {
            lemma_insert_node(nodes, nodes2, root, m, p, n, left, n);
        } else {
            assert(m2.seq[i] == m.seq[i - 1]);
            assert(m.seq[i - 1] != n);
            lemma_insert_node(nodes, nodes2, root, m, p, n, left, m.seq[i - 1]);
        }
    }
    assert forall|a: int, b: int| 0 <= a < b < m2.seq.len() implies m2.seq[a] != m2.seq[b] by {
        if a != k && b != k {
            let a1 = if a < k { a } else { a - 1 };
            let b1 = if b < k { b } else { b - 1 };
            assert(m2.seq[a] == m.seq[a1] && m2.seq[b] == m.seq[b1]);
        } else if a == k {
            let b1 = b - 1;
            assert(m2.seq[b] == m.seq[b1]);
        } else {
            assert(m2.seq[a] == m.seq[a]);
        }
    }
    lemma_node(nodes, root, m, root);
    assert(m2.seq[(m.pos)(root) + if (m.pos)(root) >= k { 1int } else { 0int }] == root);
}

/// A single black node forms a red-black tree.
pub proof fn lemma_single_tree(nodes: Seq<RBTreeNode>, n: usize)
    requires
        n < nodes.len(),
        n < ptr_bound(),
        nodes[n as int].left == nil(),
        nodes[n as int].right == nil(),
        nodes[n as int].parent() == n,
        nodes[n as int].linked(),
        nodes[n as int].col() == RBTreeColor::BLACK,
    ensures
        rb_valid(nodes, n),
        inorder(nodes, n) == seq![n],
{
    let m = TreeModel {
        seq: seq![n],
        pos: |x: usize| 0,
        lo: |x: usize| 0,
        hi: |x: usize| 1,
        bh: |x: usize| 0,
    };
    assert(m.seq[0] == n);
    assert(has(m, n));
    lemma_node_intro(nodes, n, m, n);
    assert(m.seq.no_duplicates());
    assert(shape(nodes, n, m));
    assert(rb_model(nodes, n, m));
    lemma_inorder(nodes, n, m);
}

/// A detached node is not a node of a tree.
pub proof fn lemma_not_in_tree(nodes: Seq<RBTreeNode>, root: usize, m: TreeModel, n: usize)
    requires
        shape(nodes, root, m),
        n < nodes.len(),
        !nodes[n as int].linked(),
    ensures
        !m.seq.contains(n),
{
    if m.seq.contains(n) {
        let j = choose|j: int| 0 <= j < m.seq.len() && m.seq[j] == n;
        lemma_node(nodes, root, m, m.seq[j]);
    }
}

/// In a tree model, finding a node in the sequence gives its place.
pub proof fn lemma_index_of(m: TreeModel, x: usize)
    requires
        m.seq.no_duplicates(),
        forall|i: int| 0 <= i < m.seq.len() ==> (m.pos)(#[trigger] m.seq[i]) == i,
        m.seq.contains(x),
    ensures
        has(m, x),
        m.seq.index_of(x) == (m.pos)(x),
{
    let j = m.seq.index_of(x);
    assert(m.seq[j] == x);
}

/// A new element inserted at place `q` is found at place `q`.
pub proof fn lemma_insert_index(t: Seq<usize>, q: int, i: usize)
    requires
        0 <= q <= t.len(),
        !t.contains(i),
    ensures
        t.insert(q, i).index_of(i) == q,
{
    let t2 = t.insert(q, i);
    assert(t2[q] == i);
    let j = t2.index_of(i);
    if j != q {
        if j < q {
            assert(t[j] == i);
        } else {
            assert(t[j - 1] == i);
        }
    }
}

/// The parent of the red node `n`, if red, has no other red child.
pub open spec fn ins_parent_ok(nodes: Seq<RBTreeNode>, n: usize) -> bool {
    let q = nodes[n as int].parent();
    nodes[q as int].col() == RBTreeColor::RED ==> (nodes[q as int].left == n || color_of(
        nodes,
        nodes[q as int].left,
    ) == RBTreeColor::BLACK) && (nodes[q as int].right == n || color_of(nodes, nodes[q as int].right)
        == RBTreeColor::BLACK)
}

/// The tree is a red-black tree, except that the red node `n` may have a red
/// parent, and that `n` may be a red root.
pub open spec fn ins_inv(nodes: Seq<RBTreeNode>, root: usize, m: TreeModel, n: usize) -> bool {
    &&& shape(nodes, root, m)
    &&& has(m, n)
    &&& nodes[n as int].col() == RBTreeColor::RED
    &&& forall|i: int| 0 <= i < m.seq.len() ==> bh_ok(nodes, m, #[trigger] m.seq[i])
    &&& forall|i: int|
        0 <= i < m.seq.len() ==> (#[trigger] m.seq[i] == n || m.seq[i] != nodes[n as int].parent())
            ==> red_ok(nodes, m.seq[i])
    &&& n != root ==> ins_parent_ok(nodes, n)
    &&& n != root ==> nodes[root as int].col() == RBTreeColor::BLACK
}

/// Hanging a red leaf below a node of a red-black tree leaves at most one
/// red-red link, at the leaf.
pub proof fn lemma_insert_rb(
    nodes: Seq<RBTreeNode>,
    nodes2: Seq<RBTreeNode>,
    root: usize,
    m: TreeModel,
    p: usize,
    n: usize,
    left: bool,
)
    requires
        rb_model(nodes, root, m),
        has(m, p),
        (if left { nodes[p as int].left } else { nodes[p as int].right }) == nil(),
        !m.seq.contains(n),
        n < nodes.len(),
        n < ptr_bound(),
        n != nil(),
        leaf_insertion(nodes, nodes2, p, n, left),
    ensures
        ({
            let k = if left { (m.pos)(p) } else { (m.pos)(p) + 1 };
            ins_inv(nodes2, root, inserted(m, n, k, !left), n)
        }),
{
    let k = if left { (m.pos)(p) } else { (m.pos)(p) + 1 };
    let m2 = inserted(m, n, k, !left);
    lemma_insert_shape(nodes, nodes2, root, m, p, n, left);
    lemma_node(nodes, root, m, p);
    lemma_node(nodes, root, m, root);
    assert(m2.seq[k] == n);
    assert(has(m2, n));
    assert(m.seq[(m.pos)(p)] == p);
    assert(bh_ok(nodes, m, p) && red_ok(nodes, p));
    let o = if left { nodes[p as int].right } else { nodes[p as int].left };
    if o != nil() {
        lemma_node(nodes, root, m, o);
        assert(nodes2[o as int] == nodes[o as int]);
    }
    assert(ins_parent_ok(nodes2, n));
    assert(nodes2[root as int].col() == nodes[root as int].col());
    assert forall|i: int| 0 <= i < m2.seq.len() implies bh_ok(nodes2, m2, #[trigger] m2.seq[i])
        && ((m2.seq[i] == n || m2.seq[i] != nodes2[n as int].parent()) ==> red_ok(nodes2, m2.seq[i])) by {
        let x = m2.seq[i];
        if x != n {
            let j = if i < k { i } else { i - 1 };
            assert(m.seq[j] == x);
            assert(bh_ok(nodes, m, x) && red_ok(nodes, x));
            lemma_node(nodes, root, m, x);
            let l = nodes[x as int].left;
            let r = nodes[x as int].right;
            if l != nil() {
                lemma_node(nodes, root, m, l);
                assert(l != n);
            }
            if r != nil() {
                lemma_node(nodes, root, m, r);
                assert(r != n);
            }
        }
    }
}

/// The sibling of `p` below its parent.
pub open spec fn sibling(nodes: Seq<RBTreeNode>, p: usize) -> usize {
    let g = nodes[p as int].parent();
    if nodes[g as int].left == p {
        nodes[g as int].right
    } else {
        nodes[g as int].left
    }
}

/// The model after node `g` turned from black to red with black children.
pub open spec fn bh_raised(m: TreeModel, g: usize) -> TreeModel {
    TreeModel { bh: |x: usize| if x == g { (m.bh)(g) + 1 } else { (m.bh)(x) }, ..m }
}

/// Facts about the parent and grandparent of the red node `n` whose parent
/// is red.
pub proof fn lemma_ins_family(nodes: Seq<RBTreeNode>, root: usize, m: TreeModel, n: usize)
    requires
        ins_inv(nodes, root, m, n),
        n != root,
        nodes[nodes[n as int].parent() as int].col() == RBTreeColor::RED,
    ensures
        ({
            let p = nodes[n as int].parent();
            let g = nodes[p as int].parent();
            &&& has(m, p)
            &&& p != root
            &&& p != n
            &&& has(m, g)
            &&& g != p
            &&& g != n
            &&& nodes[g as int].col() == RBTreeColor::BLACK
            &&& nodes[g as int].left == p || nodes[g as int].right == p
            &&& nodes[p as int].left == n || nodes[p as int].right == n
            &&& sibling(nodes, p) != p
            &&& sibling(nodes, p) != nil() ==> has(m, sibling(nodes, p)) && nodes[sibling(nodes, p) as int].parent() == g
        }),
{
    let p = nodes[n as int].parent();
    lemma_node(nodes, root, m, n);
    lemma_node(nodes, root, m, p);
    lemma_node(nodes, root, m, root);
    let g = nodes[p as int].parent();
    lemma_node(nodes, root, m, g);
    assert(m.seq[(m.pos)(g)] == g);
    assert(red_ok(nodes, g));
    let u = sibling(nodes, p);
    if u != nil() {
        lemma_node(nodes, root, m, u);
    }
    assert(has(m, p));
    assert(p != root);
    assert(p != n);
    assert(g != p);
    assert(g != n);
    assert(nodes[g as int].col() == RBTreeColor::BLACK);
    assert(nodes[g as int].left == p || nodes[g as int].right == p);
    assert(nodes[p as int].left == n || nodes[p as int].right == n);
    assert(u != p);
}

#[verifier::spinoff_prover]
/// Case 1 of the insertion fixup: the parent and the uncle are red; they turn
/// black and the grandparent red, which moves the red-red link up.
#[verifier::spinoff_prover]
#[verifier::rlimit(30)]
pub proof fn lemma_ins_recolor(
    nodes: Seq<RBTreeNode>,
    nodes2: Seq<RBTreeNode>,
    root: usize,
    m: TreeModel,
    n: usize,
)
    requires
        ins_inv(nodes, root, m, n),
        n != root,
        nodes[nodes[n as int].parent() as int].col() == RBTreeColor::RED,
        color_of(nodes, sibling(nodes, nodes[n as int].parent())) == RBTreeColor::RED,
        same_links(nodes, nodes2),
        forall|x: int| 0 <= x < nodes.len() ==> (#[trigger] nodes2[x]).col() == (if x == nodes[nodes[n as int].parent() as int].parent() {
            RBTreeColor::RED
        } else if x == nodes[n as int].parent() || x == sibling(nodes, nodes[n as int].parent()) {
            RBTreeColor::BLACK
        } else {
            nodes[x].col()
        }),
    ensures
        ins_inv(nodes2, root, bh_raised(m, nodes[nodes[n as int].parent() as int].parent()), nodes[nodes[n as int].parent() as int].parent()),
{
    let p = nodes[n as int].parent();
    let g = nodes[p as int].parent();
    let u = sibling(nodes, p);
    let m2 = bh_raised(m, g);
    lemma_ins_family(nodes, root, m, n);
    lemma_node(nodes, root, m, n);
    lemma_node(nodes, root, m, p);
    lemma_node(nodes, root, m, g);
    lemma_node(nodes, root, m, u);
    lemma_node(nodes, root, m, root);
    lemma_same_links_shape(nodes, nodes2, root, m);
    lemma_shape_bh(nodes2, root, m, m2);
    assert(m.seq[(m.pos)(g)] == g);
    assert(m.seq[(m.pos)(p)] == p);
    assert(m.seq[(m.pos)(u)] == u);
    assert(bh_ok(nodes, m, g) && bh_ok(nodes, m, p) && bh_ok(nodes, m, u));
    assert forall|i: int| 0 <= i < m2.seq.len() implies bh_ok(nodes2, m2, #[trigger] m2.seq[i])
        && ((m2.seq[i] == g || m2.seq[i] != nodes2[g as int].parent()) ==> red_ok(nodes2, m2.seq[i])) by {
        let x = m.seq[i];
        assert(bh_ok(nodes, m, x));
        assert(x == n || x != p ==> red_ok(nodes, x));
        lemma_node(nodes, root, m, x);
        let l = nodes[x as int].left;
        let r = nodes[x as int].right;
        if l != nil() {
            lemma_node(nodes, root, m, l);
        }
        if r != nil() {
            lemma_node(nodes, root, m, r);
        }
    }
    if g != root {
        let q = nodes[g as int].parent();
        lemma_node(nodes, root, m, q);
        assert(m.seq[(m.pos)(q)] == q);
        assert(red_ok(nodes, q));
        let o = if nodes[q as int].left == g { nodes[q as int].right } else { nodes[q as int].left };
        if o != nil() {
            lemma_node(nodes, root, m, o);
        }
    }
}

/// One node in case 2 of the insertion fixup.
#[verifier::spinoff_prover]
#[verifier::rlimit(30)]
proof fn lemma_ins_inner_node(
    nodes: Seq<RBTreeNode>,
    nodes2: Seq<RBTreeNode>,
    root: usize,
    m: TreeModel,
    n: usize,
    x: usize,
)
    requires
        ins_inv(nodes, root, m, n),
        n != root,
        nodes[nodes[n as int].parent() as int].col() == RBTreeColor::RED,
        (nodes[nodes[nodes[n as int].parent() as int].parent() as int].left == nodes[n as int].parent())
            == (nodes[nodes[n as int].parent() as int].right == n),
        color_of(nodes, sibling(nodes, nodes[n as int].parent())) == RBTreeColor::BLACK,
        rotation_of(nodes, nodes2, root, n),
        has(m, x),
    ensures
        ({
            let p = nodes[n as int].parent();
            let m2 = rotated(m, n, p, nodes[p as int].left == n);
            bh_ok(nodes2, m2, x) && ((x == p || x != nodes2[p as int].parent()) ==> red_ok(nodes2, x))
        }),
{
    let p = nodes[n as int].parent();
    let g = nodes[p as int].parent();
    let is_left = nodes[p as int].left == n;
    let m2 = rotated(m, n, p, is_left);
    lemma_ins_family(nodes, root, m, n);
    lemma_node(nodes, root, m, n);
    lemma_node(nodes, root, m, p);
    lemma_node(nodes, root, m, g);
    let t1 = if is_left { nodes[p as int].right } else { nodes[p as int].left };
    let t2 = if is_left { nodes[n as int].right } else { nodes[n as int].left };
    let t3 = if is_left { nodes[n as int].left } else { nodes[n as int].right };
    if t1 != nil() {
        lemma_node(nodes, root, m, t1);
    }
    if t2 != nil() {
        lemma_node(nodes, root, m, t2);
    }
    if t3 != nil() {
        lemma_node(nodes, root, m, t3);
    }
    assert(m.seq[(m.pos)(n)] == n && m.seq[(m.pos)(p)] == p && m.seq[(m.pos)(g)] == g);
    assert(bh_ok(nodes, m, n) && bh_ok(nodes, m, p) && bh_ok(nodes, m, g) && red_ok(nodes, n));
    assert(m.seq[(m.pos)(x)] == x);
    assert(bh_ok(nodes, m, x));
    assert(x == n || x != p ==> red_ok(nodes, x));
    lemma_node(nodes, root, m, x);
    let l = nodes[x as int].left;
    let r = nodes[x as int].right;
    if l != nil() {
        lemma_node(nodes, root, m, l);
    }
    if r != nil() {
        lemma_node(nodes, root, m, r);
    }
    if x != n && x != p && x != t2 && x != g {
        assert(nodes2[x as int] == nodes[x as int]);
        if l != nil() {
            assert(nodes2[l as int].col() == nodes[l as int].col());
        }
        if r != nil() {
            assert(nodes2[r as int].col() == nodes[r as int].col());
        }
    }
}

/// Case 2 of the insertion fixup: `n` is the inner child of its red parent
/// and the uncle is black; rotating `n` up makes the parent the outer child.
#[verifier::spinoff_prover]
pub proof fn lemma_ins_inner(
    nodes: Seq<RBTreeNode>,
    nodes2: Seq<RBTreeNode>,
    root: usize,
    m: TreeModel,
    n: usize,
)
    requires
        ins_inv(nodes, root, m, n),
        n != root,
        nodes[nodes[n as int].parent() as int].col() == RBTreeColor::RED,
        (nodes[nodes[nodes[n as int].parent() as int].parent() as int].left == nodes[n as int].parent())
            == (nodes[nodes[n as int].parent() as int].right == n),
        color_of(nodes, sibling(nodes, nodes[n as int].parent())) == RBTreeColor::BLACK,
        rotation_of(nodes, nodes2, root, n),
    ensures
        ({
            let p = nodes[n as int].parent();
            let g = nodes[p as int].parent();
            let m2 = rotated(m, n, p, nodes[p as int].left == n);
            &&& ins_inv(nodes2, root, m2, p)
            &&& nodes2[p as int].parent() == n
            &&& nodes2[n as int].parent() == g
            &&& nodes2[g as int].col() == RBTreeColor::RED ==> false
            &&& (nodes2[g as int].left == n) == (nodes2[n as int].left == p)
            &&& (nodes2[g as int].left == n || nodes2[g as int].right == n)
            &&& nodes2[n as int].col() == RBTreeColor::RED
            &&& color_of(nodes2, sibling(nodes2, n)) == RBTreeColor::BLACK
        }),
{
    let p = nodes[n as int].parent();
    let g = nodes[p as int].parent();
    let is_left = nodes[p as int].left == n;
    let m2 = rotated(m, n, p, is_left);
    lemma_ins_family(nodes, root, m, n);
    lemma_rotate_shape(nodes, nodes2, root, m, n);
    lemma_node(nodes, root, m, n);
    lemma_node(nodes, root, m, p);
    lemma_node(nodes, root, m, g);
    lemma_node(nodes, root, m, root);
    let t1 = if is_left { nodes[p as int].right } else { nodes[p as int].left };
    let t2 = if is_left { nodes[n as int].right } else { nodes[n as int].left };
    let t3 = if is_left { nodes[n as int].left } else { nodes[n as int].right };
    let u = sibling(nodes, p);
    if t1 != nil() {
        lemma_node(nodes, root, m, t1);
    }
    if t2 != nil() {
        lemma_node(nodes, root, m, t2);
    }
    if t3 != nil() {
        lemma_node(nodes, root, m, t3);
    }
    if u != nil() {
        lemma_node(nodes, root, m, u);
    }
    assert(m.seq[(m.pos)(n)] == n && m.seq[(m.pos)(p)] == p && m.seq[(m.pos)(g)] == g);
    assert(bh_ok(nodes, m, n) && bh_ok(nodes, m, p) && bh_ok(nodes, m, g) && red_ok(nodes, n));
    assert forall|i: int| 0 <= i < m2.seq.len() implies bh_ok(nodes2, m2, #[trigger] m2.seq[i])
        && ((m2.seq[i] == p || m2.seq[i] != nodes2[p as int].parent()) ==> red_ok(nodes2, m2.seq[i])) by {
        lemma_ins_inner_node(nodes, nodes2, root, m, n, m.seq[i]);
    }
    if u != nil() {
        assert(nodes2[u as int] == nodes[u as int]);
    }
}

/// One node in case 3 of the insertion fixup.
#[verifier::spinoff_prover]
#[verifier::rlimit(60)]
proof fn lemma_ins_outer_node(
    nodes: Seq<RBTreeNode>,
    nodes2: Seq<RBTreeNode>,
    nodes3: Seq<RBTreeNode>,
    root: usize,
    m: TreeModel,
    n: usize,
    x: usize,
)
    requires
        ins_inv(nodes, root, m, n),
        n != root,
        nodes[nodes[n as int].parent() as int].col() == RBTreeColor::RED,
        (nodes[nodes[nodes[n as int].parent() as int].parent() as int].left == nodes[n as int].parent())
            == (nodes[nodes[n as int].parent() as int].left == n),
        color_of(nodes, sibling(nodes, nodes[n as int].parent())) == RBTreeColor::BLACK,
        rotation_of(nodes, nodes2, root, nodes[n as int].parent()),
        same_links(nodes2, nodes3),
        forall|x: int| 0 <= x < nodes.len() ==> (#[trigger] nodes3[x]).col() == (if x == nodes[n as int].parent() {
            RBTreeColor::BLACK
        } else if x == nodes[nodes[n as int].parent() as int].parent() {
            RBTreeColor::RED
        } else {
            nodes2[x].col()
        }),
        has(m, x),
    ensures
        ({
            let p = nodes[n as int].parent();
            let g = nodes[p as int].parent();
            let m2 = rotated(m, p, g, nodes[g as int].left == p);
            bh_ok(nodes3, m2, x) && red_ok(nodes3, x)
        }),
{
    let p = nodes[n as int].parent();
    let g = nodes[p as int].parent();
    let is_left = nodes[g as int].left == p;
    let m2 = rotated(m, p, g, is_left);
    lemma_ins_family(nodes, root, m, n);
    lemma_node(nodes, root, m, n);
    lemma_node(nodes, root, m, p);
    lemma_node(nodes, root, m, g);
    let t3 = if is_left { nodes[p as int].right } else { nodes[p as int].left };
    let u = sibling(nodes, p);
    if t3 != nil() {
        lemma_node(nodes, root, m, t3);
    }
    if u != nil() {
        lemma_node(nodes, root, m, u);
    }
    if g != root {
        lemma_node(nodes, root, m, nodes[g as int].parent());
    }
    assert(m.seq[(m.pos)(n)] == n && m.seq[(m.pos)(p)] == p && m.seq[(m.pos)(g)] == g);
    assert(bh_ok(nodes, m, n) && bh_ok(nodes, m, p) && bh_ok(nodes, m, g) && red_ok(nodes, n));
    assert(m.seq[(m.pos)(x)] == x);
    assert(bh_ok(nodes, m, x));
    assert(x == n || x != p ==> red_ok(nodes, x));
    lemma_node(nodes, root, m, x);
    let l = nodes[x as int].left;
    let r = nodes[x as int].right;
    if l != nil() {
        lemma_node(nodes, root, m, l);
    }
    if r != nil() {
        lemma_node(nodes, root, m, r);
    }
    if x != p && x != g && x != t3 && (g == root || x != nodes[g as int].parent()) {
        assert(nodes2[x as int] == nodes[x as int]);
        if l != nil() {
            assert(l != p && l != g);
            assert(nodes3[l as int].col() == nodes[l as int].col());
        }
        if r != nil() {
            assert(r != p && r != g);
            assert(nodes3[r as int].col() == nodes[r as int].col());
        }
    }
}

/// Case 3 of the insertion fixup: `n` is the outer child of its red parent
/// and the uncle is black; rotating the parent up and swapping its color
/// with the grandparent's restores a red-black tree.
#[verifier::spinoff_prover]
pub proof fn lemma_ins_outer(
    nodes: Seq<RBTreeNode>,
    nodes2: Seq<RBTreeNode>,
    nodes3: Seq<RBTreeNode>,
    root: usize,
    m: TreeModel,
    n: usize,
)
    requires
        ins_inv(nodes, root, m, n),
        n != root,
        nodes[nodes[n as int].parent() as int].col() == RBTreeColor::RED,
        (nodes[nodes[nodes[n as int].parent() as int].parent() as int].left == nodes[n as int].parent())
            == (nodes[nodes[n as int].parent() as int].left == n),
        color_of(nodes, sibling(nodes, nodes[n as int].parent())) == RBTreeColor::BLACK,
        rotation_of(nodes, nodes2, root, nodes[n as int].parent()),
        same_links(nodes2, nodes3),
        forall|x: int| 0 <= x < nodes.len() ==> (#[trigger] nodes3[x]).col() == (if x == nodes[n as int].parent() {
            RBTreeColor::BLACK
        } else if x == nodes[nodes[n as int].parent() as int].parent() {
            RBTreeColor::RED
        } else {
            nodes2[x].col()
        }),
    ensures
        ({
            let p = nodes[n as int].parent();
            let g = nodes[p as int].parent();
            rb_model(nodes3, if g == root { p } else { root }, rotated(m, p, g, nodes[g as int].left == p))
        }),
{
    let p = nodes[n as int].parent();
    let g = nodes[p as int].parent();
    let is_left = nodes[g as int].left == p;
    let root3 = if g == root { p } else { root };
    let m2 = rotated(m, p, g, is_left);
    lemma_ins_family(nodes, root, m, n);
    lemma_rotate_shape(nodes, nodes2, root, m, p);
    lemma_same_links_shape(nodes2, nodes3, root3, m2);
    lemma_node(nodes, root, m, n);
    lemma_node(nodes, root, m, p);
    lemma_node(nodes, root, m, g);
    lemma_node(nodes, root, m, root);
    let t3 = if is_left { nodes[p as int].right } else { nodes[p as int].left };
    let u = sibling(nodes, p);
    if t3 != nil() {
        lemma_node(nodes, root, m, t3);
    }
    if u != nil() {
        lemma_node(nodes, root, m, u);
    }
    if g != root {
        lemma_node(nodes, root, m, nodes[g as int].parent());
    }
    assert(m.seq[(m.pos)(n)] == n && m.seq[(m.pos)(p)] == p && m.seq[(m.pos)(g)] == g);
    assert(bh_ok(nodes, m, n) && bh_ok(nodes, m, p) && bh_ok(nodes, m, g) && red_ok(nodes, n));
    assert forall|i: int| 0 <= i < m2.seq.len() implies bh_ok(nodes3, m2, #[trigger] m2.seq[i])
        && red_ok(nodes3, m2.seq[i]) by {
        lemma_ins_outer_node(nodes, nodes2, nodes3, root, m, n, m.seq[i]);
    }
}

/// The insertion fixup ends: `n` is the root or has a black parent. Painting
/// the root black gives a red-black tree.
pub proof fn lemma_ins_finish(
    nodes: Seq<RBTreeNode>,
    nodes2: Seq<RBTreeNode>,
    root: usize,
    m: TreeModel,
    n: usize,
)
    requires
        ins_inv(nodes, root, m, n),
        n == root || nodes[nodes[n as int].parent() as int].col() == RBTreeColor::BLACK,
        same_links(nodes, nodes2),
        forall|x: int| 0 <= x < nodes.len() ==> (#[trigger] nodes2[x]).col() == (if x == root {
            RBTreeColor::BLACK
        } else {
            nodes[x].col()
        }),
    ensures
        rb_model(nodes2, root, m),
{
    lemma_same_links_shape(nodes, nodes2, root, m);
    lemma_node(nodes, root, m, n);
    lemma_node(nodes, root, m, root);
    assert forall|i: int| 0 <= i < m.seq.len() implies bh_ok(nodes2, m, #[trigger] m.seq[i])
        && red_ok(nodes2, m.seq[i]) by {
        let x = m.seq[i];
        assert(bh_ok(nodes, m, x));
        assert(x == n || x != nodes[n as int].parent() ==> red_ok(nodes, x));
        lemma_node(nodes, root, m, x);
        let l = nodes[x as int].left;
        let r = nodes[x as int].right;
        if l != nil() {
            lemma_node(nodes, root, m, l);
            assert(l != root);
        }
        if r != nil() {
            lemma_node(nodes, root, m, r);
            assert(r != root);
        }
    }
}

/// One round of the insertion fixup at the red node `n` with a red parent,
/// on the views: the views after it, the root, the node to go on from, and
/// whether the fixup is done.
pub open spec fn vins_step(v: Seq<NodeView>, root: usize, n: usize) -> (Seq<NodeView>, usize, usize, bool) {
    let p = v[n as int].parent;
    let g = v[p as int].parent;
    let g_left = v[g as int].left == p;
    let u = if g_left { v[g as int].right } else { v[g as int].left };
    if vcol(v, u) == RBTreeColor::RED {
        (vcolor(vcolor(vcolor(v, g, RBTreeColor::RED), p, RBTreeColor::BLACK), u, RBTreeColor::BLACK), root, g, false)
    } else {
        let inner = if g_left { v[p as int].right == n } else { v[p as int].left == n };
        let a = if inner { vrotate(v, root, n) } else { (v, root) };
        let q = if inner { n } else { p };
        let c = vrotate(a.0, a.1, q);
        (vcolor(vcolor(c.0, q, RBTreeColor::BLACK), g, RBTreeColor::RED), c.1, q, true)
    }
}

/// The last step of the insertion fixup: a red root is painted black.
pub open spec fn vins_finish(v: Seq<NodeView>, root: usize) -> Seq<NodeView> {
    if v[root as int].col == RBTreeColor::RED {
        vcolor(v, root, RBTreeColor::BLACK)
    } else {
        v
    }
}

/// The insertion fixup from the red node `n` on the views, for at most
/// `fuel` rounds: the views after it and the root.
pub open spec fn vins_fix(v: Seq<NodeView>, root: usize, n: usize, fuel: nat) -> (Seq<NodeView>, usize)
    decreases fuel,
{
    if fuel == 0 || v[n as int].parent == n || v[v[n as int].parent as int].col == RBTreeColor::BLACK {
        (vins_finish(v, root), root)
    } else {
        let st = vins_step(v, root, n);
        if st.3 {
            (st.0, st.1)
        } else {
            vins_fix(st.0, st.1, st.2, (fuel - 1) as nat)
        }
    }
}

/// Hanging the detached node `j` below `p` (on the left when `left`) in the
/// tree at `root`, on the views, and running the insertion fixup from it; a
/// null `p` makes `j` the black root of an empty tree. The views after it and
/// the new root.
pub open spec fn vhang(v: Seq<NodeView>, root: usize, p: usize, j: usize, left: bool) -> (Seq<NodeView>, usize) {
    if p == nil() {
        (v.update(j as int, NodeView { left: nil(), right: nil(), parent: j, col: RBTreeColor::BLACK, linked: true }), j)
    } else {
        let v1 = v.update(p as int, if left { NodeView { left: j, ..v[p as int] } } else { NodeView { right: j, ..v[p as int] } });
        let v2 = v1.update(j as int, NodeView { left: nil(), right: nil(), parent: p, col: RBTreeColor::RED, linked: true });
        vins_fix(v2, root, j, v.len())
    }
}

/// Inserting the detached node `j` at place `k` of the in-order sequence of
/// the tree at `root`, on the views: `j` is hung at the free link between the
/// nodes at places `k - 1` and `k`, the left link of the node at `k` when it
/// is free, and the fixup runs from it. The views after it and the new root.
pub open spec fn vinsert_at(nodes: Seq<RBTreeNode>, root: usize, k: int, j: usize) -> (Seq<NodeView>, usize) {
    let v = views(nodes);
    let s = inorder(nodes, root);
    if s.len() == 0 {
        vhang(v, root, nil(), j, true)
    } else if k < s.len() && v[s[k] as int].left == nil() {
        vhang(v, root, s[k], j, true)
    } else {
        vhang(v, root, s[k - 1], j, false)
    }
}

impl<'a, L: RBTreeNodeIndex> RBTreeMut<'a, L> {
    /// Case 1 of the insertion fixup: recolor the red parent `p`, the red
    /// uncle `u` and the grandparent `g`.
    fn fixup_recolor(&mut self, root: usize, n: usize, p: usize, g: usize, u: usize, Ghost(m): Ghost<TreeModel>) -> (m2: Ghost<TreeModel>)
        requires
            ins_inv(old(self).nodes(), root, m, n),
            n != root,
            p == old(self).nodes()[n as int].parent(),
            old(self).nodes()[p as int].col() == RBTreeColor::RED,
            g == old(self).nodes()[p as int].parent(),
            u == sibling(old(self).nodes(), p),
            color_of(old(self).nodes(), u) == RBTreeColor::RED,
        ensures
            *final(final(self).container) == *final(old(self).container),
            m2@ == bh_raised(m, g),
            ins_inv(final(self).nodes(), root, m2@, g),
            g != nil(),
            g < final(self).nodes().len(),
            final(self).nodes()[g as int].linked(),
            (m.hi)(g) - (m.lo)(g) > (m.hi)(n) - (m.lo)(n),
            final(self).nodes().len() == old(self).nodes().len(),
            final(self).keys() == old(self).keys(),
            forall|x: usize| x < old(self).nodes().len() && !m.seq.contains(x)
                ==> #[trigger] final(self).nodes()[x as int] == old(self).nodes()[x as int],
            views(final(self).nodes()) == vcolor(
                vcolor(vcolor(views(old(self).nodes()), g, RBTreeColor::RED), p, RBTreeColor::BLACK),
                u,
                RBTreeColor::BLACK,
            ),
    {
        proof {
            lemma_ins_family(self.nodes(), root, m, n);
            lemma_node(self.nodes(), root, m, n);
            lemma_node(self.nodes(), root, m, p);
            lemma_node(self.nodes(), root, m, g);
            lemma_node(self.nodes(), root, m, u);
            if g != root {
                lemma_node(self.nodes(), root, m, self.nodes()[g as int].parent());
            }
        }
        self.set_color(g, color::RED);
        let ghost nodes1 = self.nodes();
        self.set_color(p, color::BLACK);
        let ghost nodes2 = self.nodes();
        self.set_color(u, color::BLACK);
        proof {
            lemma_views_color(old(self).nodes(), nodes1, g, RBTreeColor::RED);
            lemma_views_color(nodes1, nodes2, p, RBTreeColor::BLACK);
            lemma_views_color(nodes2, self.nodes(), u, RBTreeColor::BLACK);
            assert(same_links(old(self).nodes(), self.nodes()));
            lemma_ins_recolor(old(self).nodes(), self.nodes(), root, m, n);
            assert(m.seq.contains(g) && m.seq.contains(p) && m.seq.contains(u));
        }
        Ghost(bh_raised(m, g))
    }

    /// Case 2 of the insertion fixup: rotate the inner child `n` above its
    /// red parent `p`.
    fn fixup_inner(&mut self, root: &mut usize, n: usize, p: usize, g_left: bool, Ghost(m): Ghost<TreeModel>) -> (m2: Ghost<TreeModel>)
        requires
            ins_inv(old(self).nodes(), *old(root), m, n),
            n != *old(root),
            p == old(self).nodes()[n as int].parent(),
            old(self).nodes()[p as int].col() == RBTreeColor::RED,
            g_left == (old(self).nodes()[old(self).nodes()[p as int].parent() as int].left == p),
            g_left == (old(self).nodes()[p as int].right == n),
            color_of(old(self).nodes(), sibling(old(self).nodes(), p)) == RBTreeColor::BLACK,
        ensures
            *final(final(self).container) == *final(old(self).container),
            m2@ == rotated(m, n, p, old(self).nodes()[p as int].left == n),
            *final(root) == *old(root),
            ins_inv(final(self).nodes(), *final(root), m2@, p),
            final(self).nodes()[p as int].parent() == n,
            final(self).nodes()[n as int].parent() == old(self).nodes()[p as int].parent(),
            final(self).nodes()[n as int].col() == RBTreeColor::RED,
            g_left == (final(self).nodes()[old(self).nodes()[p as int].parent() as int].left == n),
            g_left == (final(self).nodes()[n as int].left == p),
            color_of(final(self).nodes(), sibling(final(self).nodes(), n)) == RBTreeColor::BLACK,
            final(self).nodes().len() == old(self).nodes().len(),
            final(self).keys() == old(self).keys(),
            forall|x: usize| x < old(self).nodes().len() && !m.seq.contains(x)
                ==> #[trigger] final(self).nodes()[x as int] == old(self).nodes()[x as int],
            views(final(self).nodes()) == vrotate(views(old(self).nodes()), *old(root), n).0,
            *final(root) == vrotate(views(old(self).nodes()), *old(root), n).1,
    {
        proof {
            lemma_ins_family(self.nodes(), *root, m, n);
            lemma_node(self.nodes(), *root, m, n);
            lemma_node(self.nodes(), *root, m, p);
            let t2 = if self.nodes()[p as int].left == n { self.nodes()[n as int].right } else { self.nodes()[n as int].left };
            if t2 != nil() {
                lemma_node(self.nodes(), *root, m, t2);
            }
            lemma_node(self.nodes(), *root, m, self.nodes()[p as int].parent());
            assert(m.seq.contains(n) && m.seq.contains(p) && m.seq.contains(self.nodes()[p as int].parent()));
            assert(t2 != nil() ==> m.seq.contains(t2));
        }
        let ghost root0 = *root;
        self.rotate_impl(root, n, Ghost(m));
        proof {
            lemma_ins_inner(old(self).nodes(), self.nodes(), *root, m, n);
            lemma_views_rotate(old(self).nodes(), self.nodes(), root0, m, n);
        }
        Ghost(rotated(m, n, p, old(self).nodes()[p as int].left == n))
    }

    /// Case 3 of the insertion fixup: rotate the red parent `p` of the outer
    /// child `n` above the grandparent `g` and swap their colors.
    fn fixup_outer(&mut self, root: &mut usize, n: usize, p: usize, g: usize, g_left: bool, Ghost(m): Ghost<TreeModel>) -> (mf: Ghost<TreeModel>)
        requires
            ins_inv(old(self).nodes(), *old(root), m, n),
            n != *old(root),
            p == old(self).nodes()[n as int].parent(),
            old(self).nodes()[p as int].col() == RBTreeColor::RED,
            g == old(self).nodes()[p as int].parent(),
            g_left == (old(self).nodes()[g as int].left == p),
            g_left == (old(self).nodes()[p as int].left == n),
            color_of(old(self).nodes(), sibling(old(self).nodes(), p)) == RBTreeColor::BLACK,
        ensures
            *final(final(self).container) == *final(old(self).container),
            rb_model(final(self).nodes(), *final(root), mf@),
            mf@.seq == m.seq,
            final(self).nodes().len() == old(self).nodes().len(),
            final(self).keys() == old(self).keys(),
            forall|x: usize| x < old(self).nodes().len() && !m.seq.contains(x)
                ==> #[trigger] final(self).nodes()[x as int] == old(self).nodes()[x as int],
            views(final(self).nodes()) == vcolor(
                vcolor(vrotate(views(old(self).nodes()), *old(root), p).0, p, RBTreeColor::BLACK),
                g,
                RBTreeColor::RED,
            ),
            *final(root) == vrotate(views(old(self).nodes()), *old(root), p).1,
    {
        proof {
            lemma_ins_family(self.nodes(), *root, m, n);
            lemma_node(self.nodes(), *root, m, p);
            lemma_node(self.nodes(), *root, m, g);
            let t3 = if g_left { self.nodes()[p as int].right } else { self.nodes()[p as int].left };
            if t3 != nil() {
                lemma_node(self.nodes(), *root, m, t3);
            }
            if g != *root {
                lemma_node(self.nodes(), *root, m, self.nodes()[g as int].parent());
                assert(m.seq.contains(self.nodes()[g as int].parent()));
            }
            assert(m.seq.contains(p) && m.seq.contains(g));
            assert(t3 != nil() ==> m.seq.contains(t3));
        }
        let ghost root1 = *root;
        self.rotate_impl(root, p, Ghost(m));
        let ghost nodes2 = self.nodes();
        proof {
            lemma_rotate_shape(old(self).nodes(), nodes2, root1, m, p);
            let m2 = rotated(m, p, g, g_left);
            lemma_node(nodes2, *root, m2, p);
            lemma_node(nodes2, *root, m2, g);
            lemma_views_rotate(old(self).nodes(), nodes2, root1, m, p);
        }
        self.set_color(p, color::BLACK);
        let ghost nodes3 = self.nodes();
        self.set_color(g, color::RED);
        proof {
            lemma_views_color(nodes2, nodes3, p, RBTreeColor::BLACK);
            lemma_views_color(nodes3, self.nodes(), g, RBTreeColor::RED);
            assert(same_links(nodes2, self.nodes()));
            lemma_ins_outer(old(self).nodes(), nodes2, self.nodes(), root1, m, n);
        }
        Ghost(rotated(m, p, g, g_left))
    }

    /// Restores the red-black properties after the red node `n` was hung
    /// into the tree.
    #[verifier::spinoff_prover]
    #[verifier::rlimit(30)]
    fn insert_fixup(&mut self, root: &mut usize, n: usize, Ghost(m0): Ghost<TreeModel>) -> (mf: Ghost<TreeModel>)
        requires
            ins_inv(old(self).nodes(), *old(root), m0, n),
        ensures
            *final(final(self).container) == *final(old(self).container),
            rb_model(final(self).nodes(), *final(root), mf@),
            mf@.seq == m0.seq,
            final(self).nodes().len() == old(self).nodes().len(),
            final(self).keys() == old(self).keys(),
            forall|x: usize| x < old(self).nodes().len() && !m0.seq.contains(x)
                ==> #[trigger] final(self).nodes()[x as int] == old(self).nodes()[x as int],
            views(final(self).nodes()) == vins_fix(views(old(self).nodes()), *old(root), n, old(self).nodes().len()).0,
            *final(root) == vins_fix(views(old(self).nodes()), *old(root), n, old(self).nodes().len()).1,
    {
        let ghost root0 = *root;
        let ghost v0 = views(self.nodes());
        let ghost big: nat = self.nodes().len();
        let mut x = n;
        let ghost mut m = m0;
        let ghost mut fuel: nat = big;
        proof {
            lemma_node(self.nodes(), *root, m, x);
            lemma_seq_bounded(self.nodes(), *root, m);
        }
        while !self.to_immut().is_root(x)
            invariant
                *final(self.container) == *final(old(self).container),
                ins_inv(self.nodes(), *root, m, x),
                x != nil(),
                x < self.nodes().len(),
                self.nodes()[x as int].linked(),
                m.seq == m0.seq,
                self.nodes().len() == old(self).nodes().len(),
                self.keys() == old(self).keys(),
                forall|y: usize| y < old(self).nodes().len() && !m0.seq.contains(y)
                    ==> #[trigger] self.nodes()[y as int] == old(self).nodes()[y as int],
                fuel > m.seq.len() - ((m.hi)(x) - (m.lo)(x)),
                vins_fix(views(self.nodes()), *root, x, fuel) == vins_fix(v0, root0, n, big),
                v0 == views(old(self).nodes()),
                root0 == *old(root),
                big == old(self).nodes().len(),
            ensures
                ins_inv(self.nodes(), *root, m, x),
                self.nodes()[x as int].parent() == x || self.nodes()[self.nodes()[x as int].parent() as int].col() == RBTreeColor::BLACK,
                m.seq == m0.seq,
                self.nodes().len() == old(self).nodes().len(),
                self.keys() == old(self).keys(),
                forall|y: usize| y < old(self).nodes().len() && !m0.seq.contains(y)
                    ==> #[trigger] self.nodes()[y as int] == old(self).nodes()[y as int],
                (vins_finish(views(self.nodes()), *root), *root) == vins_fix(v0, root0, n, big),
            decreases m.seq.len() - ((m.hi)(x) - (m.lo)(x)),
        {
            proof {
                lemma_node(self.nodes(), *root, m, x);
                lemma_node(self.nodes(), *root, m, self.nodes()[x as int].parent());
            }
            let ghost nodes1 = self.nodes();
            let ghost root1 = *root;
            let p = self.node(x).get_parent();
            proof {
                assert(views(nodes1)[x as int].parent == p);
                assert(views(nodes1)[p as int].col == nodes1[p as int].col());
            }
            if self.node(p).get_color() == color::BLACK {
                break;
            }
            proof {
                lemma_ins_family(self.nodes(), *root, m, x);
                lemma_node(self.nodes(), *root, m, self.nodes()[p as int].parent());
                if sibling(self.nodes(), p) != nil() {
                    lemma_node(self.nodes(), *root, m, sibling(self.nodes(), p));
                }
            }
            let g = self.node(p).get_parent();
            let g_left = self.node(g).left == p;
            let u = if g_left { self.node(g).right } else { self.node(g).left };
            let u_col = self.to_immut().color_nullable(u);
            proof {
                assert(views(nodes1)[p as int].parent == g);
                assert(views(nodes1)[g as int].left == nodes1[g as int].left);
                assert(views(nodes1)[g as int].right == nodes1[g as int].right);
                assert(views(nodes1)[p as int].left == nodes1[p as int].left);
                assert(views(nodes1)[p as int].right == nodes1[p as int].right);
                if u != nil() {
                    assert(views(nodes1)[u as int].col == nodes1[u as int].col());
                }
                assert(vcol(views(nodes1), u) == u_col);
                assert(vins_fix(views(nodes1), root1, x, fuel) == (if vins_step(views(nodes1), root1, x).3 {
                    (vins_step(views(nodes1), root1, x).0, vins_step(views(nodes1), root1, x).1)
                } else {
                    vins_fix(vins_step(views(nodes1), root1, x).0, vins_step(views(nodes1), root1, x).1,
                        vins_step(views(nodes1), root1, x).2, (fuel - 1) as nat)
                }));
            }
            if u_col == color::RED {
                let m1 = self.fixup_recolor(*root, x, p, g, u, Ghost(m));
                proof {
                    m = m1@;
                    fuel = (fuel - 1) as nat;
                }
                x = g;
                continue;
            }
            let inner = if g_left { self.node(p).right == x } else { self.node(p).left == x };
            if inner {
                let m1 = self.fixup_inner(root, x, p, g_left, Ghost(m));
                let mf = self.fixup_outer(root, p, x, g, g_left, m1);
                return mf;
            }
            let mf = self.fixup_outer(root, x, p, g, g_left, Ghost(m));
            return mf;
        }
        let ghost before = self.nodes();
        proof {
            lemma_node(self.nodes(), *root, m, x);
            lemma_node(self.nodes(), *root, m, *root);
        }
        if self.node(*root).get_color() == color::RED {
            self.set_color(*root, color::BLACK);
            proof {
                lemma_views_color(before, self.nodes(), *root, RBTreeColor::BLACK);
            }
        }
        proof {
            assert(same_links(before, self.nodes()));
            lemma_ins_finish(before, self.nodes(), *root, m, x);
        }
        Ghost(m)
    }

    fn handle_insert_empty_tree(&mut self, root: &mut usize, p: usize, n: usize) -> (r: Option<()>)
        requires
            n != nil(),
            n < old(self).nodes().len(),
            n < ptr_bound(),
            old(self).nodes()[n as int].is_detached(),
            (*old(root) == nil()) == (p == nil()),
        ensures
            *final(final(self).container) == *final(old(self).container),
            *old(root) == nil() ==> r is None && *final(root) == n && final(self).nodes().len() == old(self).nodes().len()
                && final(self).nodes()[n as int].left == nil() && final(self).nodes()[n as int].right == nil()
                && final(self).nodes()[n as int].parent() == n && final(self).nodes()[n as int].linked()
                && final(self).nodes()[n as int].col() == RBTreeColor::BLACK
                && forall|i: int| 0 <= i < old(self).nodes().len() && i != n ==> #[trigger] final(self).nodes()[i] == old(self).nodes()[i],
            *old(root) != nil() ==> r is Some && *final(root) == *old(root) && final(self).nodes() == old(self).nodes(),
            final(self).keys() == old(self).keys(),
    {
        if root.null() {
            self.set_parent_color(n, n, color::BLACK);
            *root = n;
            // Return None to disrupt the workflow after.
            None
        } else {
            Some(())
        }
    }

    fn insert_left_option(&mut self, root: &mut usize, p: usize, n: usize, Ghost(m): Ghost<TreeModel>) -> (r: Option<()>)
        requires
            rb_model(old(self).nodes(), *old(root), m),
            n != nil(),
            n < old(self).nodes().len(),
            n < ptr_bound(),
            old(self).nodes()[n as int].is_detached(),
            (*old(root) == nil()) == (p == nil()),
            p != nil() ==> has(m, p) && old(self).nodes()[p as int].left == nil(),
        ensures
            *final(final(self).container) == *final(old(self).container),
            rb_valid(final(self).nodes(), *final(root)),
            inorder(final(self).nodes(), *final(root)) == (if p == nil() { seq![n] } else { m.seq.insert((m.pos)(p), n) }),
            final(self).nodes().len() == old(self).nodes().len(),
            final(self).keys() == old(self).keys(),
            forall|x: usize| x < old(self).nodes().len() && x != n && !m.seq.contains(x)
                ==> #[trigger] final(self).nodes()[x as int] == old(self).nodes()[x as int],
            views(final(self).nodes()) == vhang(views(old(self).nodes()), *old(root), p, n, true).0,
            *final(root) == vhang(views(old(self).nodes()), *old(root), p, n, true).1,
    {
        let ghost root0 = *root;
        let ghost nodes0 = self.nodes();
        if root.null() {
            self.handle_insert_empty_tree(root, p, n);
            proof {
                lemma_single_tree(self.nodes(), n);
                assert(views(self.nodes()) =~= vhang(views(nodes0), root0, p, n, true).0);
            }
            return None;
        }
        self.handle_insert_empty_tree(root, p, n)?;
        proof {
            lemma_node(self.nodes(), *root, m, p);
            lemma_not_in_tree(self.nodes(), *root, m, n);
        }
        self.set_left(p, n);
        self.set_parent_color(n, p, color::RED);
        proof {
            assert(views(self.nodes()) =~= views(nodes0).update(p as int, if true {
                NodeView { left: n, ..views(nodes0)[p as int] }
            } else {
                NodeView { right: n, ..views(nodes0)[p as int] }
            }).update(n as int, NodeView { left: nil(), right: nil(), parent: p, col: RBTreeColor::RED, linked: true }));
            assert(leaf_insertion(nodes0, self.nodes(), p, n, true));
            lemma_insert_rb(nodes0, self.nodes(), root0, m, p, n, true);
        }
        let ghost m1 = inserted(m, n, (m.pos)(p), false);
        let mf = self.insert_fixup(root, n, Ghost(m1));
        proof {
            lemma_inorder(self.nodes(), *root, mf@);
            assert forall|x: usize| x < nodes0.len() && x != n && !m.seq.contains(x) implies !m1.seq.contains(x) by {
                if m1.seq.contains(x) {
                    let j = choose|j: int| 0 <= j < m1.seq.len() && m1.seq[j] == x;
                    if j < (m.pos)(p) {
                        assert(m.seq[j] == x);
                    } else if j > (m.pos)(p) {
                        assert(m.seq[j - 1] == x);
                    }
                }
            }
        }
        Some(())
    }

    /// Insert the detached node `n` as the left child of `p`, which must
    /// have no left child; `p` is null exactly when the tree is empty. Every
    /// node ends up as `vhang` describes.
    pub fn insert_left(&mut self, root: &mut usize, p: usize, n: usize)
        requires
            rb_valid(old(self).nodes(), *old(root)),
            n != nil(),
            n < old(self).nodes().len(),
            n < ptr_bound(),
            old(self).nodes()[n as int].is_detached(),
            (*old(root) == nil()) == (p == nil()),
            p != nil() ==> inorder(old(self).nodes(), *old(root)).contains(p) && old(self).nodes()[p as int].left == nil(),
        ensures
            *final(final(self).container) == *final(old(self).container),
            rb_valid(final(self).nodes(), *final(root)),
            inorder(final(self).nodes(), *final(root)) == (if p == nil() {
                seq![n]
            } else {
                inorder(old(self).nodes(), *old(root)).insert(inorder(old(self).nodes(), *old(root)).index_of(p), n)
            }),
            final(self).nodes().len() == old(self).nodes().len(),
            final(self).keys() == old(self).keys(),
            forall|x: usize| x < old(self).nodes().len() && x != n && !inorder(old(self).nodes(), *old(root)).contains(x)
                ==> #[trigger] final(self).nodes()[x as int] == old(self).nodes()[x as int],
            views(final(self).nodes()) == vhang(views(old(self).nodes()), *old(root), p, n, true).0,
            *final(root) == vhang(views(old(self).nodes()), *old(root), p, n, true).1,
    {
        let ghost m = choose|m: TreeModel| rb_model(self.nodes(), *root, m);
        proof {
            lemma_inorder(self.nodes(), *root, m);
            if p != nil() {
                lemma_index_of(m, p);
            }
        }
        self.insert_left_option(root, p, n, Ghost(m));
    }

    fn insert_right_option(&mut self, root: &mut usize, p: usize, n: usize, Ghost(m): Ghost<TreeModel>) -> (r: Option<()>)
        requires
            rb_model(old(self).nodes(), *old(root), m),
            n != nil(),
            n < old(self).nodes().len(),
            n < ptr_bound(),
            old(self).nodes()[n as int].is_detached(),
            (*old(root) == nil()) == (p == nil()),
            p != nil() ==> has(m, p) && old(self).nodes()[p as int].right == nil(),
        ensures
            *final(final(self).container) == *final(old(self).container),
            rb_valid(final(self).nodes(), *final(root)),
            inorder(final(self).nodes(), *final(root)) == (if p == nil() { seq![n] } else { m.seq.insert((m.pos)(p) + 1, n) }),
            final(self).nodes().len() == old(self).nodes().len(),
            final(self).keys() == old(self).keys(),
            forall|x: usize| x < old(self).nodes().len() && x != n && !m.seq.contains(x)
                ==> #[trigger] final(self).nodes()[x as int] == old(self).nodes()[x as int],
            views(final(self).nodes()) == vhang(views(old(self).nodes()), *old(root), p, n, false).0,
            *final(root) == vhang(views(old(self).nodes()), *old(root), p, n, false).1,
    {
        let ghost root0 = *root;
        let ghost nodes0 = self.nodes();
        if root.null() {
            self.handle_insert_empty_tree(root, p, n);
            proof {
                lemma_single_tree(self.nodes(), n);
                assert(views(self.nodes()) =~= vhang(views(nodes0), root0, p, n, false).0);
            }
            return None;
        }
        self.handle_insert_empty_tree(root, p, n)?;
        proof {
            lemma_node(self.nodes(), *root, m, p);
            lemma_not_in_tree(self.nodes(), *root, m, n);
        }
        self.set_right(p, n);
        self.set_parent_color(n, p, color::RED);
        proof {
            assert(views(self.nodes()) =~= views(nodes0).update(p as int, if false {
                NodeView { left: n, ..views(nodes0)[p as int] }
            } else {
                NodeView { right: n, ..views(nodes0)[p as int] }
            }).update(n as int, NodeView { left: nil(), right: nil(), parent: p, col: RBTreeColor::RED, linked: true }));
            assert(leaf_insertion(nodes0, self.nodes(), p, n, false));
            lemma_insert_rb(nodes0, self.nodes(), root0, m, p, n, false);
        }
        let ghost m1 = inserted(m, n, (m.pos)(p) + 1, true);
        let mf = self.insert_fixup(root, n, Ghost(m1));
        proof {
            lemma_inorder(self.nodes(), *root, mf@);
            assert forall|x: usize| x < nodes0.len() && x != n && !m.seq.contains(x) implies !m1.seq.contains(x) by {
                if m1.seq.contains(x) {
                    let j = choose|j: int| 0 <= j < m1.seq.len() && m1.seq[j] == x;
                    if j < (m.pos)(p) + 1 {
                        assert(m.seq[j] == x);
                    } else if j > (m.pos)(p) + 1 {
                        assert(m.seq[j - 1] == x);
                    }
                }
            }
        }
        Some(())
    }

    /// Insert the detached node `n` as the right child of `p`, which must
    /// have no right child; `p` is null exactly when the tree is empty. Every
    /// node ends up as `vhang` describes.
    pub fn insert_right(&mut self, root: &mut usize, p: usize, n: usize)
        requires
            rb_valid(old(self).nodes(), *old(root)),
            n != nil(),
            n < old(self).nodes().len(),
            n < ptr_bound(),
            old(self).nodes()[n as int].is_detached(),
            (*old(root) == nil()) == (p == nil()),
            p != nil() ==> inorder(old(self).nodes(), *old(root)).contains(p) && old(self).nodes()[p as int].right == nil(),
        ensures
            *final(final(self).container) == *final(old(self).container),
            rb_valid(final(self).nodes(), *final(root)),
            inorder(final(self).nodes(), *final(root)) == (if p == nil() {
                seq![n]
            } else {
                inorder(old(self).nodes(), *old(root)).insert(inorder(old(self).nodes(), *old(root)).index_of(p) + 1, n)
            }),
            final(self).nodes().len() == old(self).nodes().len(),
            final(self).keys() == old(self).keys(),
            forall|x: usize| x < old(self).nodes().len() && x != n && !inorder(old(self).nodes(), *old(root)).contains(x)
                ==> #[trigger] final(self).nodes()[x as int] == old(self).nodes()[x as int],
            views(final(self).nodes()) == vhang(views(old(self).nodes()), *old(root), p, n, false).0,
            *final(root) == vhang(views(old(self).nodes()), *old(root), p, n, false).1,
    {
        let ghost m = choose|m: TreeModel| rb_model(self.nodes(), *root, m);
        proof {
            lemma_inorder(self.nodes(), *root, m);
            if p != nil() {
                lemma_index_of(m, p);
            }
        }
        self.insert_right_option(root, p, n, Ghost(m));
    }

    /// Inserts the detached node `j` just before `i` in the in-order sequence.
    pub fn insert_before(&mut self, root: &mut usize, i: usize, j: usize)
        requires
            rb_valid(old(self).nodes(), *old(root)),
            inorder(old(self).nodes(), *old(root)).contains(i),
            j != nil(),
            j < old(self).nodes().len(),
            j < ptr_bound(),
            old(self).nodes()[j as int].is_detached(),
        ensures
            *final(final(self).container) == *final(old(self).container),
            rb_valid(final(self).nodes(), *final(root)),
            inorder(final(self).nodes(), *final(root)) == inorder(old(self).nodes(), *old(root)).insert(
                inorder(old(self).nodes(), *old(root)).index_of(i),
                j,
            ),
            final(self).nodes().len() == old(self).nodes().len(),
            final(self).keys() == old(self).keys(),
            forall|x: usize| x < old(self).nodes().len() && x != j && !inorder(old(self).nodes(), *old(root)).contains(x)
                ==> #[trigger] final(self).nodes()[x as int] == old(self).nodes()[x as int],
            views(final(self).nodes()) == vinsert_at(old(self).nodes(), *old(root), inorder(old(self).nodes(), *old(root)).index_of(i), j).0,
            *final(root) == vinsert_at(old(self).nodes(), *old(root), inorder(old(self).nodes(), *old(root)).index_of(i), j).1,
    {
        let ghost m = choose|m: TreeModel| rb_model(self.nodes(), *root, m);
        proof {
            lemma_inorder(self.nodes(), *root, m);
            lemma_index_of(m, i);
            lemma_node(self.nodes(), *root, m, i);
            assert(m.seq[(m.pos)(i)] == i);
            assert(views(self.nodes())[i as int].left == self.nodes()[i as int].left);
        }
        let l = self.node(i).left;
        if l.null() {
            self.insert_left(root, i, j);
        } else {
            proof {
                lemma_node(self.nodes(), *root, m, l);
            }
            let k = self.to_immut().rightmost_in(l, Ghost(*root), Ghost(m));
            proof {
                lemma_node(self.nodes(), *root, m, k);
                assert(m.seq[(m.pos)(k)] == k);
                lemma_index_of(m, k);
                assert(*root != nil());
            }
            self.insert_right(root, k, j);
        }
    }

    /// Inserts the detached node `j` just after `i` in the in-order sequence.
    pub fn insert_after(&mut self, root: &mut usize, i: usize, j: usize)
        requires
            rb_valid(old(self).nodes(), *old(root)),
            inorder(old(self).nodes(), *old(root)).contains(i),
            j != nil(),
            j < old(self).nodes().len(),
            j < ptr_bound(),
            old(self).nodes()[j as int].is_detached(),
        ensures
            *final(final(self).container) == *final(old(self).container),
            rb_valid(final(self).nodes(), *final(root)),
            inorder(final(self).nodes(), *final(root)) == inorder(old(self).nodes(), *old(root)).insert(
                inorder(old(self).nodes(), *old(root)).index_of(i) + 1,
                j,
            ),
            final(self).nodes().len() == old(self).nodes().len(),
            final(self).keys() == old(self).keys(),
            forall|x: usize| x < old(self).nodes().len() && x != j && !inorder(old(self).nodes(), *old(root)).contains(x)
                ==> #[trigger] final(self).nodes()[x as int] == old(self).nodes()[x as int],
            views(final(self).nodes()) == vinsert_at(old(self).nodes(), *old(root), inorder(old(self).nodes(), *old(root)).index_of(i) + 1, j).0,
            *final(root) == vinsert_at(old(self).nodes(), *old(root), inorder(old(self).nodes(), *old(root)).index_of(i) + 1, j).1,
    {
        let ghost m = choose|m: TreeModel| rb_model(self.nodes(), *root, m);
        proof {
            lemma_inorder(self.nodes(), *root, m);
            lemma_index_of(m, i);
            lemma_node(self.nodes(), *root, m, i);
            assert(m.seq[(m.pos)(i)] == i);
        }
        let r = self.node(i).right;
        if r.null() {
            proof {
                if (m.pos)(i) + 1 < m.seq.len() {
                    lemma_node(self.nodes(), *root, m, *root);
                    crate::rbtree::keyed::lemma_adjacent(self.nodes(), *root, m, *root, (m.pos)(i));
                    let y = m.seq[(m.pos)(i) + 1];
                    lemma_node(self.nodes(), *root, m, y);
                    assert(views(self.nodes())[y as int].left == self.nodes()[y as int].left);
                }
            }
            self.insert_right(root, i, j);
        } else {
            proof {
                lemma_node(self.nodes(), *root, m, r);
            }
            let k = self.to_immut().leftmost_in(r, Ghost(*root), Ghost(m));
            proof {
                lemma_node(self.nodes(), *root, m, k);
                assert(m.seq[(m.pos)(k)] == k);
                lemma_index_of(m, k);
                assert(*root != nil());
            }
            self.insert_left(root, k, j);
        }
    }
}

} // verus!
