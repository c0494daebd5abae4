use vstd::prelude::*;
use crate::ptr::{nil, NullablePtr};
use crate::rbtree::{RBTreeColor, RBTreeMut, RBTreeNode, RBTreeNodeIndex, RBTreePtrColor, RBTreePtrColorUsize, ptr_bound};
use crate::rbtree::color;
use crate::rbtree::rotate::{rotated, rotation_of, lemma_rotate_shape};
use crate::rbtree::swap::{swap_map, swapped, swapped_model, swap_pair, touched, lemma_swap_tree};
use crate::rbtree::query::lemma_tree_member;
use crate::rbtree::exact::{NodeView, nview, views, vcol, vcolor, vrotate, vswap, vdetach, detached_view, lemma_views_color, lemma_views_rotate, lemma_views_swap};
use crate::rbtree::insert::lemma_index_of;
use crate::rbtree::model::{TreeModel, has, node_ok, shape, lemma_node, lemma_node_intro, color_of, bh_of, bh_ok, red_ok, rb_model, same_links, lemma_same_links_shape, lemma_shape_bh, rb_valid, tree_valid, inorder, in_some_tree, lemma_inorder, lemma_seq_bounded};

verus! {

/// The child of `d`, when it has at most one: its non-null child, or null.
pub open spec fn only_child(nodes: Seq<RBTreeNode>, d: usize) -> usize {
    if nodes[d as int].left == nil() {
        nodes[d as int].right
    } else {
        nodes[d as int].left
    }
}

/// The link `y`, with the node `d` replaced by its child `c`.
pub open spec fn repl(d: usize, c: usize, y: usize) -> usize {
    if y == d {
        c
    } else {
        y
    }
}

/// Node `x` keeps its black heights once `d` is replaced by its only child.
pub open spec fn splice_bh_ok(nodes: Seq<RBTreeNode>, m: TreeModel, d: usize, x: usize) -> bool {
    let c = only_child(nodes, d);
    &&& bh_of(nodes, m, repl(d, c, nodes[x as int].left)) == (m.bh)(x)
    &&& bh_of(nodes, m, repl(d, c, nodes[x as int].right)) == (m.bh)(x)
}

/// The red node `x` has black children once `d` is replaced by its only child.
pub open spec fn splice_red_ok(nodes: Seq<RBTreeNode>, d: usize, x: usize) -> bool {
    let c = only_child(nodes, d);
    nodes[x as int].col() == RBTreeColor::RED ==> color_of(nodes, repl(d, c, nodes[x as int].left))
        == RBTreeColor::BLACK && color_of(nodes, repl(d, c, nodes[x as int].right)) == RBTreeColor::BLACK
}

/// The node `d`, which has at most one child, can be cut out of the modelled
/// tree, its child taking its place, and leave a red-black tree.
pub open spec fn splice_ready(nodes: Seq<RBTreeNode>, root: usize, m: TreeModel, d: usize) -> bool {
    &&& shape(nodes, root, m)
    &&& has(m, d)
    &&& nodes[d as int].left == nil() || nodes[d as int].right == nil()
    &&& root != d ==> nodes[root as int].col() == RBTreeColor::BLACK
    &&& forall|i: int|
        0 <= i < m.seq.len() ==> #[trigger] m.seq[i] != d ==> splice_bh_ok(nodes, m, d, m.seq[i])
            && splice_red_ok(nodes, d, m.seq[i])
}

/// A place boundary after the node at place `k` was taken out.
pub open spec fn unshifted(b: int, k: int) -> int {
    if b > k {
        b - 1
    } else {
        b
    }
}

/// The model after the node `d` was cut out.
pub open spec fn removed(m: TreeModel, d: usize) -> TreeModel {
    let k = (m.pos)(d);
    TreeModel {
        seq: m.seq.remove(k),
        pos: |x: usize| unshifted((m.pos)(x), k),
        lo: |x: usize| unshifted((m.lo)(x), k),
        hi: |x: usize| unshifted((m.hi)(x), k),
        bh: m.bh,
    }
}

/// The arena `nodes2` is `nodes` with the node `d` cut out of the tree at
/// `root` and detached, its only child `c` taking its place; a child that
/// becomes the root is painted black.
pub open spec fn removal_of(nodes: Seq<RBTreeNode>, nodes2: Seq<RBTreeNode>, root: usize, d: usize) -> bool {
    let c = only_child(nodes, d);
    let p = nodes[d as int].parent();
    &&& nodes2.len() == nodes.len()
    &&& nodes2[d as int].is_detached()
    &&& c != nil() ==> {
        &&& nodes2[c as int].left == nodes[c as int].left
        &&& nodes2[c as int].right == nodes[c as int].right
        &&& nodes2[c as int].linked()
        &&& nodes2[c as int].parent() == (if d == root { c } else { p })
        &&& nodes2[c as int].col() == (if d == root { RBTreeColor::BLACK } else { nodes[c as int].col() })
    }
    &&& d != root ==> {
        &&& nodes2[p as int].left == (if nodes[p as int].left == d { c } else { nodes[p as int].left })
        &&& nodes2[p as int].right == (if nodes[p as int].left == d { nodes[p as int].right } else { c })
        &&& nodes2[p as int].parent_col == nodes[p as int].parent_col
    }
    &&& forall|x: int|
        0 <= x < nodes.len() && x != d && (c == nil() || x != c) && (d == root || x != p)
            ==> #[trigger] nodes2[x] == nodes[x]
}

/// Facts about the node `d` to be cut out and its neighbours.
proof fn lemma_splice_family(nodes: Seq<RBTreeNode>, root: usize, m: TreeModel, d: usize)
    requires
        splice_ready(nodes, root, m, d),
    ensures
        ({
            let c = only_child(nodes, d);
            let p = nodes[d as int].parent();
            let k = (m.pos)(d);
            &&& c != nil() ==> has(m, c) && c != d && nodes[c as int].parent() == d
            &&& c != nil() && nodes[d as int].left == c ==> (m.lo)(c) == (m.lo)(d) && (m.hi)(c) == k && (m.hi)(d) == k + 1
            &&& c != nil() && nodes[d as int].left != c ==> (m.lo)(c) == k + 1 && (m.hi)(c) == (m.hi)(d) && (m.lo)(d) == k
            &&& c == nil() ==> (m.lo)(d) == k && (m.hi)(d) == k + 1
            &&& d != root ==> has(m, p) && p != d && p != c && (nodes[p as int].left == d || nodes[p as int].right == d)
            &&& d == root ==> (m.lo)(d) == 0 && (m.hi)(d) == m.seq.len()
        }),
{
    lemma_node(nodes, root, m, d);
    let c = only_child(nodes, d);
    if c != nil() {
        lemma_node(nodes, root, m, c);
    }
    if d != root {
        lemma_node(nodes, root, m, nodes[d as int].parent());
    }
}

/// Cutting out `d` keeps the links, black heights and colors of one node in
/// agreement with the model.
#[verifier::spinoff_prover]
#[verifier::rlimit(40)]
proof fn lemma_splice_node(
    nodes: Seq<RBTreeNode>,
    nodes2: Seq<RBTreeNode>,
    root: usize,
    m: TreeModel,
    d: usize,
    x: usize,
)
    requires
        splice_ready(nodes, root, m, d),
        removal_of(nodes, nodes2, root, d),
        has(m, x),
        x != d,
    ensures
        ({
            let root2 = if d == root { only_child(nodes, d) } else { root };
            let m2 = removed(m, d);
            &&& node_ok(nodes2, root2, m2, x)
            &&& bh_ok(nodes2, m2, x)
            &&& red_ok(nodes2, x)
        }),
{
    let c = only_child(nodes, d);
    let p = nodes[d as int].parent();
    let k = (m.pos)(d);
    let root2 = if d == root { c } else { root };
    let m2 = removed(m, d);
    lemma_splice_family(nodes, root, m, d);
    lemma_node(nodes, root, m, d);
    lemma_node(nodes, root, m, x);
    assert(m.seq[(m.pos)(x)] == x);
    assert(splice_bh_ok(nodes, m, d, x) && splice_red_ok(nodes, d, x));
    assert(m2.seq.len() == m.seq.len() - 1);
    assert forall|y: usize| has(m, y) && y != d implies has(m2, y) by {
        assert((m.pos)(y) != k);
        if (m.pos)(y) > k {
            assert(m2.seq[(m.pos)(y) - 1] == m.seq[(m.pos)(y)]);
        } else {
            assert(m2.seq[(m.pos)(y)] == m.seq[(m.pos)(y)]);
        }
    }
    let nd = nodes[x as int];
    let l = nd.left;
    let r = nd.right;
    if l != nil() {
        lemma_node(nodes, root, m, l);
    }
    if r != nil() {
        lemma_node(nodes, root, m, r);
    }
    if x != root {
        lemma_node(nodes, root, m, nd.parent());
    }
    if c != nil() && x == c {
        assert(nodes2[x as int].left == l && nodes2[x as int].right == r);
    } else if d != root && x == p {
        assert(nodes2[x as int].parent_col == nd.parent_col);
    } else {
        assert(nodes2[x as int] == nd);
    }
    if l != nil() && l != d {
        assert(l != c);
        if d == root || l != p {
            assert(nodes2[l as int] == nodes[l as int]);
        } else {
            assert(nodes2[l as int].parent_col == nodes[l as int].parent_col);
        }
    }
    if r != nil() && r != d {
        assert(r != c);
        if d == root || r != p {
            assert(nodes2[r as int] == nodes[r as int]);
        } else {
            assert(nodes2[r as int].parent_col == nodes[r as int].parent_col);
        }
    }
    if x != root && x != c {
        let q = nd.parent();
        assert(q != d);
        if d == root || q != p {
            if c == nil() || q != c {
                assert(nodes2[q as int] == nodes[q as int]);
            }
        }
    }
    lemma_node_intro(nodes2, root2, m2, x);
}

/// Cutting out a node that is ready for it leaves a red-black tree.
pub proof fn lemma_splice(nodes: Seq<RBTreeNode>, nodes2: Seq<RBTreeNode>, root: usize, m: TreeModel, d: usize)
    requires
        splice_ready(nodes, root, m, d),
        removal_of(nodes, nodes2, root, d),
    ensures
        rb_model(nodes2, if d == root { only_child(nodes, d) } else { root }, removed(m, d)),
{
    let c = only_child(nodes, d);
    let root2 = if d == root { c } else { root };
    let m2 = removed(m, d);
    let k = (m.pos)(d);
    lemma_splice_family(nodes, root, m, d);
    lemma_node(nodes, root, m, d);
    assert(m.seq[k] == d);
    assert forall|i: int| 0 <= i < m2.seq.len() implies (m2.pos)(#[trigger] m2.seq[i]) == i
        && node_ok(nodes2, root2, m2, m2.seq[i]) && bh_ok(nodes2, m2, m2.seq[i]) && red_ok(nodes2, m2.seq[i]) by {
        let j = if i < k { i } else { i + 1 };
        assert(m2.seq[i] == m.seq[j]);
        assert(m.seq[j] != d);
        lemma_splice_node(nodes, nodes2, root, m, d, m.seq[j]);
    }
    assert forall|a: int, b: int| 0 <= a < b < m2.seq.len() implies m2.seq[a] != m2.seq[b] by {
        let a1 = if a < k { a } else { a + 1 };
        let b1 = if b < k { b } else { b + 1 };
        assert(m2.seq[a] == m.seq[a1] && m2.seq[b] == m.seq[b1]);
    }
    if root2 != nil() {
        lemma_node(nodes, root, m, root2);
        assert(m.seq[(m.pos)(root2)] == root2);
        let j2 = unshifted((m.pos)(root2), k);
        assert(m2.seq[j2] == root2);
        if d != root {
            assert(root != c);
            assert(nodes2[root as int].parent_col == nodes[root as int].parent_col);
        }
    } else {
        assert(m2.seq.len() == 0);
    }
}

/// The black height of the link `c` with the black leaf `d` taken out.
pub open spec fn ebh(nodes: Seq<RBTreeNode>, m: TreeModel, d: usize, c: usize) -> int {
    if c == d {
        0
    } else {
        bh_of(nodes, m, c)
    }
}

/// Both subtrees of `x` have the black height that the model gives `x`, with
/// the leaf `d` taken out.
pub open spec fn del_bh_ok(nodes: Seq<RBTreeNode>, m: TreeModel, d: usize, x: usize) -> bool {
    &&& ebh(nodes, m, d, nodes[x as int].left) == (m.bh)(x)
    &&& ebh(nodes, m, d, nodes[x as int].right) == (m.bh)(x)
}

/// The other child of the parent of `n`.
pub open spec fn brother(nodes: Seq<RBTreeNode>, n: usize) -> usize {
    let p = nodes[n as int].parent();
    if nodes[p as int].left == n {
        nodes[p as int].right
    } else {
        nodes[p as int].left
    }
}

/// The child of `s` on the side of its brother `n`, or, if `!near`, on the
/// other side.
pub open spec fn nephew(nodes: Seq<RBTreeNode>, n: usize, near: bool) -> usize {
    let p = nodes[n as int].parent();
    let s = brother(nodes, n);
    if (nodes[p as int].left == n) == near {
        nodes[s as int].left
    } else {
        nodes[s as int].right
    }
}

/// Below its parent, the side of `n` is one black node short.
pub open spec fn short_ok(nodes: Seq<RBTreeNode>, m: TreeModel, d: usize, n: usize) -> bool {
    let p = nodes[n as int].parent();
    &&& ebh(nodes, m, d, n) + 1 == (m.bh)(p)
    &&& ebh(nodes, m, d, brother(nodes, n)) == (m.bh)(p)
}

/// The state of the deletion fixup: the tree is a red-black tree once the
/// black leaf `d` is taken out, except that below the parent of the black
/// node `n` the side of `n` is one black node short. When `n` is the root,
/// nothing is short.
pub open spec fn del_inv(nodes: Seq<RBTreeNode>, root: usize, m: TreeModel, n: usize, d: usize) -> bool {
    &&& shape(nodes, root, m)
    &&& has(m, n)
    &&& has(m, d)
    &&& nodes[d as int].left == nil()
    &&& nodes[d as int].right == nil()
    &&& nodes[d as int].col() == RBTreeColor::BLACK
    &&& nodes[n as int].col() == RBTreeColor::BLACK
    &&& nodes[root as int].col() == RBTreeColor::BLACK
    &&& forall|i: int| 0 <= i < m.seq.len() ==> (m.bh)(#[trigger] m.seq[i]) >= 0
    &&& forall|i: int| 0 <= i < m.seq.len() ==> red_ok(nodes, #[trigger] m.seq[i])
    &&& forall|i: int|
        0 <= i < m.seq.len() ==> (#[trigger] m.seq[i] != d && (n == root || m.seq[i] != nodes[n as int].parent()))
            ==> del_bh_ok(nodes, m, d, m.seq[i])
    &&& n != root ==> short_ok(nodes, m, d, n)
}

/// The model with the black height of `x` set to `v`.
pub open spec fn bh_set(m: TreeModel, x: usize, v: int) -> TreeModel {
    TreeModel { bh: |y: usize| if y == x { v } else { (m.bh)(y) }, ..m }
}

/// With nothing short, the leaf `d` can be cut out.
pub proof fn lemma_del_ready(nodes: Seq<RBTreeNode>, root: usize, m: TreeModel, d: usize)
    requires
        del_inv(nodes, root, m, root, d),
    ensures
        splice_ready(nodes, root, m, d),
        only_child(nodes, d) == nil(),
{
    assert forall|i: int| 0 <= i < m.seq.len() && #[trigger] m.seq[i] != d implies splice_bh_ok(nodes, m, d, m.seq[i])
        && splice_red_ok(nodes, d, m.seq[i]) by {
        assert(red_ok(nodes, m.seq[i]));
        assert(del_bh_ok(nodes, m, d, m.seq[i]));
    }
}

/// Black heights in a red-black tree are not negative.
pub proof fn lemma_bh_nonneg(nodes: Seq<RBTreeNode>, root: usize, m: TreeModel, x: usize)
    requires
        rb_model(nodes, root, m),
        has(m, x),
    ensures
        (m.bh)(x) >= 0,
    decreases (m.hi)(x) - (m.lo)(x),
{
    lemma_node(nodes, root, m, x);
    assert(m.seq[(m.pos)(x)] == x);
    assert(bh_ok(nodes, m, x));
    let l = nodes[x as int].left;
    if l != nil() {
        lemma_node(nodes, root, m, l);
        lemma_bh_nonneg(nodes, root, m, l);
    }
}

/// Facts about the parent and brother of the short node `n`.
pub proof fn lemma_del_family(nodes: Seq<RBTreeNode>, root: usize, m: TreeModel, n: usize, d: usize)
    requires
        del_inv(nodes, root, m, n, d),
        n != root,
    ensures
        ({
            let p = nodes[n as int].parent();
            let s = brother(nodes, n);
            let i = nephew(nodes, n, true);
            let o = nephew(nodes, n, false);
            &&& has(m, p)
            &&& p != n
            &&& p != d
            &&& nodes[p as int].left == n || nodes[p as int].right == n
            &&& s != nil()
            &&& has(m, s)
            &&& s != n
            &&& s != p
            &&& s != d
            &&& nodes[s as int].parent() == p
            &&& (m.bh)(p) >= 1
            &&& ebh(nodes, m, d, n) >= 0
            &&& i != nil() ==> has(m, i) && nodes[i as int].parent() == s && i != s && i != p && i != n
            &&& o != nil() ==> has(m, o) && nodes[o as int].parent() == s && o != s && o != p && o != n
            &&& i == nil() || o == nil() || i != o
            &&& nodes[p as int].col() == RBTreeColor::RED ==> nodes[s as int].col() == RBTreeColor::BLACK
            &&& nodes[s as int].col() == RBTreeColor::RED ==> i != nil() && o != nil()
                && nodes[i as int].col() == RBTreeColor::BLACK && nodes[o as int].col() == RBTreeColor::BLACK
        }),
{
    let p = nodes[n as int].parent();
    let s = brother(nodes, n);
    lemma_node(nodes, root, m, n);
    lemma_node(nodes, root, m, p);
    assert(m.seq[(m.pos)(n)] == n);
    assert(m.seq[(m.pos)(p)] == p);
    assert(red_ok(nodes, p));
    if n != d {
        assert(del_bh_ok(nodes, m, d, n));
    }
    assert(s != nil());
    lemma_node(nodes, root, m, s);
    assert(m.seq[(m.pos)(s)] == s);
    assert(red_ok(nodes, s));
    assert(del_bh_ok(nodes, m, d, s));
    let l = nodes[s as int].left;
    let r = nodes[s as int].right;
    if l != nil() {
        lemma_node(nodes, root, m, l);
    }
    if r != nil() {
        lemma_node(nodes, root, m, r);
    }
}

/// One node when the black brother of the short node turns red.
#[verifier::spinoff_prover]
proof fn lemma_del_recolor_node(
    nodes: Seq<RBTreeNode>,
    nodes2: Seq<RBTreeNode>,
    root: usize,
    m: TreeModel,
    n: usize,
    d: usize,
    x: usize,
)
    requires
        del_inv(nodes, root, m, n, d),
        n != root,
        nodes[brother(nodes, n) as int].col() == RBTreeColor::BLACK,
        color_of(nodes, nephew(nodes, n, true)) == RBTreeColor::BLACK,
        color_of(nodes, nephew(nodes, n, false)) == RBTreeColor::BLACK,
        same_links(nodes, nodes2),
        forall|y: int| 0 <= y < nodes.len() ==> (#[trigger] nodes2[y]).col() == (if y == nodes[n as int].parent() {
            RBTreeColor::BLACK
        } else if y == brother(nodes, n) {
            RBTreeColor::RED
        } else {
            nodes[y].col()
        }),
        has(m, x),
    ensures
        ({
            let p = nodes[n as int].parent();
            let m3 = bh_set(m, p, (m.bh)(p) - 1);
            let n3 = if nodes[p as int].col() == RBTreeColor::RED { root } else { p };
            &&& (m3.bh)(x) >= 0
            &&& red_ok(nodes2, x)
            &&& x != d && (n3 == root || x != nodes2[n3 as int].parent()) ==> del_bh_ok(nodes2, m3, d, x)
        }),
{
    let p = nodes[n as int].parent();
    let s = brother(nodes, n);
    lemma_del_family(nodes, root, m, n, d);
    lemma_node(nodes, root, m, x);
    assert(m.seq[(m.pos)(x)] == x);
    assert((m.bh)(x) >= 0);
    assert(red_ok(nodes, x));
    let l = nodes[x as int].left;
    let r = nodes[x as int].right;
    if l != nil() {
        lemma_node(nodes, root, m, l);
    }
    if r != nil() {
        lemma_node(nodes, root, m, r);
    }
    assert(nodes2[x as int].left == l && nodes2[x as int].right == r);
    if x != d && x != p {
        assert(del_bh_ok(nodes, m, d, x));
    }
    if p != root {
        lemma_node(nodes, root, m, p);
        let q = nodes[p as int].parent();
        lemma_node(nodes, root, m, q);
        assert(m.seq[(m.pos)(q)] == q);
        assert(del_bh_ok(nodes, m, d, q));
    }
}

/// Cases 4 and 5 of the deletion fixup: the brother `s` of the short node
/// is black with black children. It turns red and the parent black: with a
/// red parent nothing is short any more, with a black parent the parent is
/// now the short node.
#[verifier::spinoff_prover]
pub proof fn lemma_del_recolor(nodes: Seq<RBTreeNode>, nodes2: Seq<RBTreeNode>, root: usize, m: TreeModel, n: usize, d: usize)
    requires
        del_inv(nodes, root, m, n, d),
        n != root,
        nodes[brother(nodes, n) as int].col() == RBTreeColor::BLACK,
        color_of(nodes, nephew(nodes, n, true)) == RBTreeColor::BLACK,
        color_of(nodes, nephew(nodes, n, false)) == RBTreeColor::BLACK,
        same_links(nodes, nodes2),
        forall|y: int| 0 <= y < nodes.len() ==> (#[trigger] nodes2[y]).col() == (if y == nodes[n as int].parent() {
            RBTreeColor::BLACK
        } else if y == brother(nodes, n) {
            RBTreeColor::RED
        } else {
            nodes[y].col()
        }),
    ensures
        ({
            let p = nodes[n as int].parent();
            let m3 = bh_set(m, p, (m.bh)(p) - 1);
            let n3 = if nodes[p as int].col() == RBTreeColor::RED { root } else { p };
            del_inv(nodes2, root, m3, n3, d)
        }),
{
    let p = nodes[n as int].parent();
    let s = brother(nodes, n);
    let m3 = bh_set(m, p, (m.bh)(p) - 1);
    let n3 = if nodes[p as int].col() == RBTreeColor::RED { root } else { p };
    lemma_del_family(nodes, root, m, n, d);
    lemma_same_links_shape(nodes, nodes2, root, m);
    lemma_shape_bh(nodes2, root, m, m3);
    lemma_node(nodes, root, m, root);
    lemma_node(nodes, root, m, p);
    lemma_node(nodes, root, m, d);
    assert forall|i: int| 0 <= i < m3.seq.len() implies (m3.bh)(#[trigger] m3.seq[i]) >= 0
        && red_ok(nodes2, m3.seq[i])
        && (m3.seq[i] != d && (n3 == root || m3.seq[i] != nodes2[n3 as int].parent()) ==> del_bh_ok(nodes2, m3, d, m3.seq[i])) by {
        lemma_del_recolor_node(nodes, nodes2, root, m, n, d, m.seq[i]);
    }
    if n3 != root {
        let q = nodes[p as int].parent();
        lemma_node(nodes, root, m, q);
        assert(m.seq[(m.pos)(q)] == q);
        assert(del_bh_ok(nodes, m, d, q));
        let b = brother(nodes, p);
        if b != nil() {
            lemma_node(nodes, root, m, b);
        }
        assert(short_ok(nodes2, m3, d, n3));
    }
}

/// The colors after case 3 of the deletion fixup.
pub open spec fn outer_colors(nodes: Seq<RBTreeNode>, nodes2: Seq<RBTreeNode>, nodes3: Seq<RBTreeNode>, n: usize) -> bool {
    let p = nodes[n as int].parent();
    forall|y: int| 0 <= y < nodes.len() ==> (#[trigger] nodes3[y]).col() == (if y == brother(nodes, n) {
        nodes[p as int].col()
    } else if y == p || y == nephew(nodes, n, false) {
        RBTreeColor::BLACK
    } else {
        nodes2[y].col()
    })
}

/// The model after case 3 of the deletion fixup.
pub open spec fn outer_model(nodes: Seq<RBTreeNode>, m: TreeModel, n: usize) -> TreeModel {
    let p = nodes[n as int].parent();
    let s = brother(nodes, n);
    bh_set(bh_set(rotated(m, s, p, nodes[p as int].left == s), p, (m.bh)(p) - 1), s, (m.bh)(s) + 1)
}

/// One node in case 3 of the deletion fixup.
#[verifier::spinoff_prover]
#[verifier::rlimit(60)]
proof fn lemma_del_outer_node(
    nodes: Seq<RBTreeNode>,
    nodes2: Seq<RBTreeNode>,
    nodes3: Seq<RBTreeNode>,
    root: usize,
    m: TreeModel,
    n: usize,
    d: usize,
    x: usize,
)
    requires
        del_inv(nodes, root, m, n, d),
        n != root,
        nodes[brother(nodes, n) as int].col() == RBTreeColor::BLACK,
        color_of(nodes, nephew(nodes, n, false)) == RBTreeColor::RED,
        rotation_of(nodes, nodes2, root, brother(nodes, n)),
        same_links(nodes2, nodes3),
        outer_colors(nodes, nodes2, nodes3, n),
        has(m, x),
    ensures
        ({
            let m3 = outer_model(nodes, m, n);
            &&& (m3.bh)(x) >= 0
            &&& red_ok(nodes3, x)
            &&& x != d ==> del_bh_ok(nodes3, m3, d, x)
        }),
{
    let p = nodes[n as int].parent();
    let s = brother(nodes, n);
    let i = nephew(nodes, n, true);
    let o = nephew(nodes, n, false);
    let m3 = outer_model(nodes, m, n);
    lemma_del_family(nodes, root, m, n, d);
    lemma_node(nodes, root, m, n);
    lemma_node(nodes, root, m, p);
    lemma_node(nodes, root, m, s);
    lemma_node(nodes, root, m, o);
    if i != nil() {
        lemma_node(nodes, root, m, i);
    }
    if p != root {
        lemma_node(nodes, root, m, nodes[p as int].parent());
        let g = nodes[p as int].parent();
        assert(m.seq[(m.pos)(g)] == g);
        assert(red_ok(nodes, g) && del_bh_ok(nodes, m, d, g));
    }
    assert(m.seq[(m.pos)(n)] == n && m.seq[(m.pos)(p)] == p && m.seq[(m.pos)(s)] == s && m.seq[(m.pos)(o)] == o);
    assert(red_ok(nodes, p) && red_ok(nodes, s) && del_bh_ok(nodes, m, d, s) && del_bh_ok(nodes, m, d, o));
    assert((m.bh)(o) >= 0 && (m.bh)(s) >= 0 && (m.bh)(p) >= 0);
    assert(m.seq[(m.pos)(x)] == x);
    assert((m.bh)(x) >= 0);
    assert(red_ok(nodes, x));
    lemma_node(nodes, root, m, x);
    let l = nodes[x as int].left;
    let r = nodes[x as int].right;
    if l != nil() {
        lemma_node(nodes, root, m, l);
    }
    if r != nil() {
        lemma_node(nodes, root, m, r);
    }
    if x != d && x != p {
        assert(del_bh_ok(nodes, m, d, x));
    }
    if x != p && x != s && x != i && (p == root || x != nodes[p as int].parent()) {
        assert(nodes2[x as int] == nodes[x as int]);
        if l != nil() {
            assert(l != p && l != s);
        }
        if r != nil() {
            assert(r != p && r != s);
        }
    }
}

/// Case 3 of the deletion fixup: the brother `s` of the short node is black
/// and its far child red. Rotating `s` above the parent, giving it the
/// parent's color and painting the parent and the far child black leaves
/// nothing short.
#[verifier::spinoff_prover]
pub proof fn lemma_del_outer(
    nodes: Seq<RBTreeNode>,
    nodes2: Seq<RBTreeNode>,
    nodes3: Seq<RBTreeNode>,
    root: usize,
    m: TreeModel,
    n: usize,
    d: usize,
)
    requires
        del_inv(nodes, root, m, n, d),
        n != root,
        nodes[brother(nodes, n) as int].col() == RBTreeColor::BLACK,
        color_of(nodes, nephew(nodes, n, false)) == RBTreeColor::RED,
        rotation_of(nodes, nodes2, root, brother(nodes, n)),
        same_links(nodes2, nodes3),
        outer_colors(nodes, nodes2, nodes3, n),
    ensures
        ({
            let p = nodes[n as int].parent();
            let root3 = if p == root { brother(nodes, n) } else { root };
            del_inv(nodes3, root3, outer_model(nodes, m, n), root3, d)
        }),
{
    let p = nodes[n as int].parent();
    let s = brother(nodes, n);
    let root3 = if p == root { s } else { root };
    let m2 = rotated(m, s, p, nodes[p as int].left == s);
    let m3 = outer_model(nodes, m, n);
    lemma_del_family(nodes, root, m, n, d);
    lemma_node(nodes, root, m, s);
    lemma_rotate_shape(nodes, nodes2, root, m, s);
    lemma_same_links_shape(nodes2, nodes3, root3, m2);
    lemma_shape_bh(nodes3, root3, m2, m3);
    lemma_node(nodes, root, m, root);
    lemma_node(nodes, root, m, d);
    lemma_node(nodes, root, m, p);
    lemma_node(nodes, root, m, s);
    assert forall|j: int| 0 <= j < m3.seq.len() implies (m3.bh)(#[trigger] m3.seq[j]) >= 0
        && red_ok(nodes3, m3.seq[j])
        && (m3.seq[j] != d && (root3 == root3 || m3.seq[j] != nodes3[root3 as int].parent()) ==> del_bh_ok(nodes3, m3, d, m3.seq[j])) by {
        lemma_del_outer_node(nodes, nodes2, nodes3, root, m, n, d, m.seq[j]);
    }
    assert(nodes3[d as int].left == nil() && nodes3[d as int].right == nil());
}

/// One node in case 1 of the deletion fixup.
#[verifier::spinoff_prover]
#[verifier::rlimit(60)]
proof fn lemma_del_red_brother_node(
    nodes: Seq<RBTreeNode>,
    nodes2: Seq<RBTreeNode>,
    nodes3: Seq<RBTreeNode>,
    root: usize,
    m: TreeModel,
    n: usize,
    d: usize,
    x: usize,
)
    requires
        del_inv(nodes, root, m, n, d),
        n != root,
        nodes[brother(nodes, n) as int].col() == RBTreeColor::RED,
        rotation_of(nodes, nodes2, root, brother(nodes, n)),
        same_links(nodes2, nodes3),
        forall|y: int| 0 <= y < nodes.len() ==> (#[trigger] nodes3[y]).col() == (if y == nodes[n as int].parent() {
            RBTreeColor::RED
        } else if y == brother(nodes, n) {
            RBTreeColor::BLACK
        } else {
            nodes2[y].col()
        }),
        has(m, x),
    ensures
        ({
            let p = nodes[n as int].parent();
            let m2 = rotated(m, brother(nodes, n), p, nodes[p as int].left == brother(nodes, n));
            &&& red_ok(nodes3, x)
            &&& x != d && x != p ==> del_bh_ok(nodes3, m2, d, x)
        }),
{
    let p = nodes[n as int].parent();
    let s = brother(nodes, n);
    let i = nephew(nodes, n, true);
    let o = nephew(nodes, n, false);
    lemma_del_family(nodes, root, m, n, d);
    lemma_node(nodes, root, m, n);
    lemma_node(nodes, root, m, p);
    lemma_node(nodes, root, m, s);
    lemma_node(nodes, root, m, o);
    lemma_node(nodes, root, m, i);
    if p != root {
        lemma_node(nodes, root, m, nodes[p as int].parent());
        let g = nodes[p as int].parent();
        assert(m.seq[(m.pos)(g)] == g);
        assert(red_ok(nodes, g) && del_bh_ok(nodes, m, d, g));
    }
    assert(m.seq[(m.pos)(n)] == n && m.seq[(m.pos)(p)] == p && m.seq[(m.pos)(s)] == s);
    assert(red_ok(nodes, p) && red_ok(nodes, s) && del_bh_ok(nodes, m, d, s));
    assert(m.seq[(m.pos)(x)] == x);
    assert(red_ok(nodes, x));
    lemma_node(nodes, root, m, x);
    let l = nodes[x as int].left;
    let r = nodes[x as int].right;
    if l != nil() {
        lemma_node(nodes, root, m, l);
    }
    if r != nil() {
        lemma_node(nodes, root, m, r);
    }
    if x != d && x != p {
        assert(del_bh_ok(nodes, m, d, x));
    }
    if x != p && x != s && x != i && (p == root || x != nodes[p as int].parent()) {
        assert(nodes2[x as int] == nodes[x as int]);
        if l != nil() {
            assert(l != p && l != s);
        }
        if r != nil() {
            assert(r != p && r != s);
        }
    }
}

/// Case 1 of the deletion fixup: the brother `s` of the short node is red.
/// Rotating `s` above the parent and swapping their colors leaves the same
/// node short, now with a black brother.
#[verifier::spinoff_prover]
pub proof fn lemma_del_red_brother(
    nodes: Seq<RBTreeNode>,
    nodes2: Seq<RBTreeNode>,
    nodes3: Seq<RBTreeNode>,
    root: usize,
    m: TreeModel,
    n: usize,
    d: usize,
)
    requires
        del_inv(nodes, root, m, n, d),
        n != root,
        nodes[brother(nodes, n) as int].col() == RBTreeColor::RED,
        rotation_of(nodes, nodes2, root, brother(nodes, n)),
        same_links(nodes2, nodes3),
        forall|y: int| 0 <= y < nodes.len() ==> (#[trigger] nodes3[y]).col() == (if y == nodes[n as int].parent() {
            RBTreeColor::RED
        } else if y == brother(nodes, n) {
            RBTreeColor::BLACK
        } else {
            nodes2[y].col()
        }),
    ensures
        ({
            let p = nodes[n as int].parent();
            let s = brother(nodes, n);
            let root3 = if p == root { s } else { root };
            &&& del_inv(nodes3, root3, rotated(m, s, p, nodes[p as int].left == s), n, d)
            &&& n != root3
            &&& nodes3[n as int].parent() == p
            &&& (nodes3[p as int].left == n) == (nodes[p as int].left == n)
            &&& brother(nodes3, n) == nephew(nodes, n, true)
            &&& nodes3[p as int].col() == RBTreeColor::RED
            &&& nodes3[brother(nodes3, n) as int].col() == RBTreeColor::BLACK
        }),
{
    let p = nodes[n as int].parent();
    let s = brother(nodes, n);
    let i = nephew(nodes, n, true);
    let root3 = if p == root { s } else { root };
    let m2 = rotated(m, s, p, nodes[p as int].left == s);
    lemma_del_family(nodes, root, m, n, d);
    lemma_node(nodes, root, m, s);
    lemma_node(nodes, root, m, n);
    lemma_node(nodes, root, m, i);
    lemma_rotate_shape(nodes, nodes2, root, m, s);
    lemma_same_links_shape(nodes2, nodes3, root3, m2);
    lemma_node(nodes, root, m, root);
    lemma_node(nodes, root, m, d);
    lemma_node(nodes, root, m, p);
    assert(m.seq[(m.pos)(s)] == s && m.seq[(m.pos)(p)] == p);
    assert(del_bh_ok(nodes, m, d, s));
    assert forall|j: int| 0 <= j < m2.seq.len() implies (m2.bh)(#[trigger] m2.seq[j]) >= 0
        && red_ok(nodes3, m2.seq[j])
        && (m2.seq[j] != d && (n == root3 || m2.seq[j] != nodes3[n as int].parent()) ==> del_bh_ok(nodes3, m2, d, m2.seq[j])) by {
        assert((m.bh)(m.seq[j]) >= 0);
        lemma_del_red_brother_node(nodes, nodes2, nodes3, root, m, n, d, m.seq[j]);
    }
    assert(nodes3[d as int].left == nil() && nodes3[d as int].right == nil());
    assert(short_ok(nodes3, m2, d, n));
}

/// The colors after case 2 of the deletion fixup.
pub open spec fn inner_colors(nodes: Seq<RBTreeNode>, nodes2: Seq<RBTreeNode>, nodes3: Seq<RBTreeNode>, n: usize) -> bool {
    forall|y: int| 0 <= y < nodes.len() ==> (#[trigger] nodes3[y]).col() == (if y == nephew(nodes, n, true) {
        RBTreeColor::BLACK
    } else if y == brother(nodes, n) {
        RBTreeColor::RED
    } else {
        nodes2[y].col()
    })
}

/// One node in case 2 of the deletion fixup.
#[verifier::spinoff_prover]
#[verifier::rlimit(60)]
proof fn lemma_del_inner_node(
    nodes: Seq<RBTreeNode>,
    nodes2: Seq<RBTreeNode>,
    nodes3: Seq<RBTreeNode>,
    root: usize,
    m: TreeModel,
    n: usize,
    d: usize,
    x: usize,
)
    requires
        del_inv(nodes, root, m, n, d),
        n != root,
        nodes[brother(nodes, n) as int].col() == RBTreeColor::BLACK,
        color_of(nodes, nephew(nodes, n, true)) == RBTreeColor::RED,
        color_of(nodes, nephew(nodes, n, false)) == RBTreeColor::BLACK,
        rotation_of(nodes, nodes2, root, nephew(nodes, n, true)),
        same_links(nodes2, nodes3),
        inner_colors(nodes, nodes2, nodes3, n),
        has(m, x),
    ensures
        ({
            let s = brother(nodes, n);
            let i = nephew(nodes, n, true);
            let m2 = rotated(m, i, s, nodes[s as int].left == i);
            &&& red_ok(nodes3, x)
            &&& x != d && x != nodes[n as int].parent() ==> del_bh_ok(nodes3, m2, d, x)
        }),
{
    let p = nodes[n as int].parent();
    let s = brother(nodes, n);
    let i = nephew(nodes, n, true);
    let o = nephew(nodes, n, false);
    lemma_del_family(nodes, root, m, n, d);
    lemma_node(nodes, root, m, n);
    lemma_node(nodes, root, m, p);
    lemma_node(nodes, root, m, s);
    lemma_node(nodes, root, m, i);
    if o != nil() {
        lemma_node(nodes, root, m, o);
    }
    let il = nodes[i as int].left;
    let ir = nodes[i as int].right;
    if il != nil() {
        lemma_node(nodes, root, m, il);
    }
    if ir != nil() {
        lemma_node(nodes, root, m, ir);
    }
    assert(m.seq[(m.pos)(i)] == i && m.seq[(m.pos)(s)] == s);
    assert(red_ok(nodes, i) && del_bh_ok(nodes, m, d, s) && del_bh_ok(nodes, m, d, i));
    assert(m.seq[(m.pos)(x)] == x);
    assert(red_ok(nodes, x));
    lemma_node(nodes, root, m, x);
    let l = nodes[x as int].left;
    let r = nodes[x as int].right;
    if l != nil() {
        lemma_node(nodes, root, m, l);
    }
    if r != nil() {
        lemma_node(nodes, root, m, r);
    }
    if x != d && x != p {
        assert(del_bh_ok(nodes, m, d, x));
    }
    let t2 = if nodes[s as int].left == i { ir } else { il };
    if x != s && x != i && (t2 == nil() || x != t2) && x != p {
        assert(nodes2[x as int] == nodes[x as int]);
        if l != nil() {
            assert(l != s && l != i);
        }
        if r != nil() {
            assert(r != s && r != i);
        }
    }
}

/// Case 2 of the deletion fixup: the brother `s` of the short node is black,
/// its near child red and its far child black. Rotating the near child above
/// `s` and swapping their colors leaves the same node short, with a black
/// brother whose far child is red.
#[verifier::spinoff_prover]
pub proof fn lemma_del_inner(
    nodes: Seq<RBTreeNode>,
    nodes2: Seq<RBTreeNode>,
    nodes3: Seq<RBTreeNode>,
    root: usize,
    m: TreeModel,
    n: usize,
    d: usize,
)
    requires
        del_inv(nodes, root, m, n, d),
        n != root,
        nodes[brother(nodes, n) as int].col() == RBTreeColor::BLACK,
        color_of(nodes, nephew(nodes, n, true)) == RBTreeColor::RED,
        color_of(nodes, nephew(nodes, n, false)) == RBTreeColor::BLACK,
        rotation_of(nodes, nodes2, root, nephew(nodes, n, true)),
        same_links(nodes2, nodes3),
        inner_colors(nodes, nodes2, nodes3, n),
    ensures
        ({
            let p = nodes[n as int].parent();
            let s = brother(nodes, n);
            let i = nephew(nodes, n, true);
            &&& del_inv(nodes3, root, rotated(m, i, s, nodes[s as int].left == i), n, d)
            &&& nodes3[n as int].parent() == p
            &&& (nodes3[p as int].left == n) == (nodes[p as int].left == n)
            &&& brother(nodes3, n) == i
            &&& nodes3[i as int].col() == RBTreeColor::BLACK
            &&& color_of(nodes3, nephew(nodes3, n, false)) == RBTreeColor::RED
        }),
{
    let p = nodes[n as int].parent();
    let s = brother(nodes, n);
    let i = nephew(nodes, n, true);
    let m2 = rotated(m, i, s, nodes[s as int].left == i);
    lemma_del_family(nodes, root, m, n, d);
    lemma_node(nodes, root, m, s);
    lemma_node(nodes, root, m, i);
    lemma_node(nodes, root, m, n);
    lemma_node(nodes, root, m, p);
    lemma_rotate_shape(nodes, nodes2, root, m, i);
    lemma_same_links_shape(nodes2, nodes3, root, m2);
    lemma_node(nodes, root, m, root);
    lemma_node(nodes, root, m, d);
    assert(m.seq[(m.pos)(s)] == s && m.seq[(m.pos)(i)] == i);
    assert(del_bh_ok(nodes, m, d, s) && del_bh_ok(nodes, m, d, i));
    assert forall|j: int| 0 <= j < m2.seq.len() implies (m2.bh)(#[trigger] m2.seq[j]) >= 0
        && red_ok(nodes3, m2.seq[j])
        && (m2.seq[j] != d && (n == root || m2.seq[j] != nodes3[n as int].parent()) ==> del_bh_ok(nodes3, m2, d, m2.seq[j])) by {
        assert((m.bh)(m.seq[j]) >= 0);
        lemma_del_inner_node(nodes, nodes2, nodes3, root, m, n, d, m.seq[j]);
    }
    assert(nodes3[d as int].left == nil() && nodes3[d as int].right == nil());
    assert(short_ok(nodes3, m2, d, n));
}

/// One round of the deletion fixup at the short node `n`, on the views:
/// the views after it, the root, the parent of `n`, and whether the fixup is
/// done.
pub open spec fn vdel_step(v: Seq<NodeView>, root: usize, n: usize) -> (Seq<NodeView>, usize, usize, bool) {
    let p = v[n as int].parent;
    let nl = v[p as int].left == n;
    let s0 = if nl { v[p as int].right } else { v[p as int].left };
    let red = v[s0 as int].col == RBTreeColor::RED;
    let a = vrotate(v, root, s0);
    let v1 = if red { vcolor(vcolor(a.0, p, RBTreeColor::RED), s0, RBTreeColor::BLACK) } else { v };
    let r1 = if red { a.1 } else { root };
    let s1 = if nl { v1[p as int].right } else { v1[p as int].left };
    let near = if nl { v1[s1 as int].left } else { v1[s1 as int].right };
    let far = if nl { v1[s1 as int].right } else { v1[s1 as int].left };
    let inner = vcol(v1, near) == RBTreeColor::RED && vcol(v1, far) == RBTreeColor::BLACK;
    let b = vrotate(v1, r1, near);
    let v2 = if inner { vcolor(vcolor(b.0, near, RBTreeColor::BLACK), s1, RBTreeColor::RED) } else { v1 };
    let r2 = if inner { b.1 } else { r1 };
    let s2 = if inner { near } else { s1 };
    let far2 = if nl { v2[s2 as int].right } else { v2[s2 as int].left };
    let pc = v2[p as int].col;
    if vcol(v2, far2) == RBTreeColor::RED {
        let c = vrotate(v2, r2, s2);
        (vcolor(vcolor(vcolor(c.0, s2, pc), p, RBTreeColor::BLACK), far2, RBTreeColor::BLACK), c.1, p, true)
    } else {
        let w = if pc == RBTreeColor::RED { vcolor(v2, p, RBTreeColor::BLACK) } else { v2 };
        (vcolor(w, s2, RBTreeColor::RED), r2, p, pc == RBTreeColor::RED)
    }
}

/// The deletion fixup from the short node `n` on the views, for at most
/// `fuel` rounds: the views after it and the root.
pub open spec fn vdel_fix(v: Seq<NodeView>, root: usize, n: usize, fuel: nat) -> (Seq<NodeView>, usize)
    decreases fuel,
{
    if fuel == 0 || v[n as int].parent == n {
        (v, root)
    } else {
        let st = vdel_step(v, root, n);
        if st.3 {
            (st.0, st.1)
        } else {
            vdel_fix(st.0, st.1, st.2, (fuel - 1) as nat)
        }
    }
}

/// The nodes outside the modelled tree are as they were.
pub open spec fn outside_kept(nodes: Seq<RBTreeNode>, nodes2: Seq<RBTreeNode>, m: TreeModel) -> bool {
    &&& nodes2.len() == nodes.len()
    &&& forall|x: usize| x < nodes.len() && !m.seq.contains(x) ==> #[trigger] nodes2[x as int] == nodes[x as int]
}

impl<'a, L: RBTreeNodeIndex> RBTreeMut<'a, L> {
    /// Case 1 of the deletion fixup: rotate the red brother `s` above the
    /// parent `p` and swap their colors.
    fn del_fix_red_brother(&mut self, root: &mut usize, n: usize, p: usize, s: usize, Ghost(d): Ghost<usize>, Ghost(m): Ghost<TreeModel>) -> (m2: Ghost<TreeModel>)
        requires
            del_inv(old(self).nodes(), *old(root), m, n, d),
            n != *old(root),
            p == old(self).nodes()[n as int].parent(),
            s == brother(old(self).nodes(), n),
            old(self).nodes()[s as int].col() == RBTreeColor::RED,
        ensures
            *final(final(self).container) == *final(old(self).container),
            m2@.seq == m.seq,
            (m2@.lo)(n) == (m.lo)(n),
            (m2@.hi)(n) == (m.hi)(n),
            del_inv(final(self).nodes(), *final(root), m2@, n, d),
            n != *final(root),
            final(self).nodes()[n as int].parent() == p,
            (final(self).nodes()[p as int].left == n) == (old(self).nodes()[p as int].left == n),
            final(self).nodes()[brother(final(self).nodes(), n) as int].col() == RBTreeColor::BLACK,
            outside_kept(old(self).nodes(), final(self).nodes(), m),
            final(self).keys() == old(self).keys(),
            views(final(self).nodes()) == vcolor(
                vcolor(vrotate(views(old(self).nodes()), *old(root), s).0, p, RBTreeColor::RED),
                s,
                RBTreeColor::BLACK,
            ),
            *final(root) == vrotate(views(old(self).nodes()), *old(root), s).1,
    {
        proof {
            lemma_del_family(self.nodes(), *root, m, n, d);
            lemma_node(self.nodes(), *root, m, s);
            lemma_node(self.nodes(), *root, m, p);
            lemma_node(self.nodes(), *root, m, n);
            let t2 = nephew(self.nodes(), n, true);
            lemma_node(self.nodes(), *root, m, t2);
            if p != *root {
                lemma_node(self.nodes(), *root, m, self.nodes()[p as int].parent());
                assert(m.seq.contains(self.nodes()[p as int].parent()));
            }
            assert(m.seq.contains(p) && m.seq.contains(s) && m.seq.contains(t2));
        }
        let ghost root0 = *root;
        let ghost nodes0 = self.nodes();
        self.rotate_impl(root, s, Ghost(m));
        let ghost nodes2 = self.nodes();
        proof {
            let m2 = rotated(m, s, p, nodes0[p as int].left == s);
            lemma_rotate_shape(nodes0, nodes2, root0, m, s);
            lemma_node(nodes2, *root, m2, p);
            lemma_node(nodes2, *root, m2, s);
            lemma_views_rotate(nodes0, nodes2, root0, m, s);
        }
        self.set_color(p, color::RED);
        let ghost nodes3 = self.nodes();
        self.set_color(s, color::BLACK);
        proof {
            lemma_views_color(nodes2, nodes3, p, RBTreeColor::RED);
            lemma_views_color(nodes3, self.nodes(), s, RBTreeColor::BLACK);
            assert(same_links(nodes2, self.nodes()));
            lemma_del_red_brother(nodes0, nodes2, self.nodes(), root0, m, n, d);
        }
        Ghost(rotated(m, s, p, nodes0[p as int].left == s))
    }

    /// Case 2 of the deletion fixup: rotate the red near child `i` of the
    /// black brother `s` above `s` and swap their colors.
    fn del_fix_inner(&mut self, root: &mut usize, n: usize, s: usize, i: usize, Ghost(d): Ghost<usize>, Ghost(m): Ghost<TreeModel>) -> (m2: Ghost<TreeModel>)
        requires
            del_inv(old(self).nodes(), *old(root), m, n, d),
            n != *old(root),
            s == brother(old(self).nodes(), n),
            old(self).nodes()[s as int].col() == RBTreeColor::BLACK,
            i == nephew(old(self).nodes(), n, true),
            color_of(old(self).nodes(), i) == RBTreeColor::RED,
            color_of(old(self).nodes(), nephew(old(self).nodes(), n, false)) == RBTreeColor::BLACK,
        ensures
            *final(final(self).container) == *final(old(self).container),
            m2@.seq == m.seq,
            (m2@.lo)(n) == (m.lo)(n),
            (m2@.hi)(n) == (m.hi)(n),
            *final(root) == *old(root),
            del_inv(final(self).nodes(), *final(root), m2@, n, d),
            final(self).nodes()[n as int].parent() == old(self).nodes()[n as int].parent(),
            (final(self).nodes()[old(self).nodes()[n as int].parent() as int].left == n)
                == (old(self).nodes()[old(self).nodes()[n as int].parent() as int].left == n),
            brother(final(self).nodes(), n) == i,
            final(self).nodes()[i as int].col() == RBTreeColor::BLACK,
            color_of(final(self).nodes(), nephew(final(self).nodes(), n, false)) == RBTreeColor::RED,
            outside_kept(old(self).nodes(), final(self).nodes(), m),
            final(self).keys() == old(self).keys(),
            views(final(self).nodes()) == vcolor(
                vcolor(vrotate(views(old(self).nodes()), *old(root), i).0, i, RBTreeColor::BLACK),
                s,
                RBTreeColor::RED,
            ),
            *final(root) == vrotate(views(old(self).nodes()), *old(root), i).1,
    {
        let ghost p = self.nodes()[n as int].parent();
        proof {
            lemma_del_family(self.nodes(), *root, m, n, d);
            lemma_node(self.nodes(), *root, m, s);
            lemma_node(self.nodes(), *root, m, p);
            lemma_node(self.nodes(), *root, m, i);
            let il = self.nodes()[i as int].left;
            let ir = self.nodes()[i as int].right;
            if il != nil() {
                lemma_node(self.nodes(), *root, m, il);
                assert(m.seq.contains(il));
            }
            if ir != nil() {
                lemma_node(self.nodes(), *root, m, ir);
                assert(m.seq.contains(ir));
            }
            assert(m.seq.contains(p) && m.seq.contains(s) && m.seq.contains(i));
        }
        let ghost root0 = *root;
        let ghost nodes0 = self.nodes();
        self.rotate_impl(root, i, Ghost(m));
        let ghost nodes2 = self.nodes();
        proof {
            let m2 = rotated(m, i, s, nodes0[s as int].left == i);
            lemma_rotate_shape(nodes0, nodes2, root0, m, i);
            lemma_node(nodes2, *root, m2, i);
            lemma_node(nodes2, *root, m2, s);
            lemma_views_rotate(nodes0, nodes2, root0, m, i);
        }
        self.set_color(i, color::BLACK);
        let ghost nodes3 = self.nodes();
        self.set_color(s, color::RED);
        proof {
            lemma_views_color(nodes2, nodes3, i, RBTreeColor::BLACK);
            lemma_views_color(nodes3, self.nodes(), s, RBTreeColor::RED);
            assert(same_links(nodes2, self.nodes()));
            lemma_del_inner(nodes0, nodes2, self.nodes(), root0, m, n, d);
        }
        Ghost(rotated(m, i, s, nodes0[s as int].left == i))
    }

    /// Case 3 of the deletion fixup: rotate the black brother `s`, whose far
    /// child `o` is red, above the parent `p`; `s` takes the color of `p`,
    /// and `p` and `o` turn black.
    fn del_fix_outer(&mut self, root: &mut usize, n: usize, p: usize, s: usize, o: usize, Ghost(d): Ghost<usize>, Ghost(m): Ghost<TreeModel>) -> (m2: Ghost<TreeModel>)
        requires
            del_inv(old(self).nodes(), *old(root), m, n, d),
            n != *old(root),
            p == old(self).nodes()[n as int].parent(),
            s == brother(old(self).nodes(), n),
            old(self).nodes()[s as int].col() == RBTreeColor::BLACK,
            o == nephew(old(self).nodes(), n, false),
            color_of(old(self).nodes(), o) == RBTreeColor::RED,
        ensures
            *final(final(self).container) == *final(old(self).container),
            m2@.seq == m.seq,
            del_inv(final(self).nodes(), *final(root), m2@, *final(root), d),
            outside_kept(old(self).nodes(), final(self).nodes(), m),
            final(self).keys() == old(self).keys(),
            views(final(self).nodes()) == vcolor(
                vcolor(
                    vcolor(vrotate(views(old(self).nodes()), *old(root), s).0, s, old(self).nodes()[p as int].col()),
                    p,
                    RBTreeColor::BLACK,
                ),
                o,
                RBTreeColor::BLACK,
            ),
            *final(root) == vrotate(views(old(self).nodes()), *old(root), s).1,
    {
        proof {
            lemma_del_family(self.nodes(), *root, m, n, d);
            lemma_node(self.nodes(), *root, m, s);
            lemma_node(self.nodes(), *root, m, p);
            lemma_node(self.nodes(), *root, m, o);
            let t2 = nephew(self.nodes(), n, true);
            if t2 != nil() {
                lemma_node(self.nodes(), *root, m, t2);
                assert(m.seq.contains(t2));
            }
            if p != *root {
                lemma_node(self.nodes(), *root, m, self.nodes()[p as int].parent());
                assert(m.seq.contains(self.nodes()[p as int].parent()));
            }
            assert(m.seq.contains(p) && m.seq.contains(s) && m.seq.contains(o));
        }
        let ghost root0 = *root;
        let ghost nodes0 = self.nodes();
        let pc = self.node(p).get_color();
        self.rotate_impl(root, s, Ghost(m));
        let ghost nodes2 = self.nodes();
        proof {
            let m2 = rotated(m, s, p, nodes0[p as int].left == s);
            lemma_rotate_shape(nodes0, nodes2, root0, m, s);
            lemma_node(nodes2, *root, m2, p);
            lemma_node(nodes2, *root, m2, s);
            lemma_node(nodes2, *root, m2, o);
            lemma_views_rotate(nodes0, nodes2, root0, m, s);
        }
        self.set_color(s, pc);
        let ghost nodes3 = self.nodes();
        self.set_color(p, color::BLACK);
        let ghost nodes4 = self.nodes();
        self.set_color(o, color::BLACK);
        proof {
            lemma_views_color(nodes2, nodes3, s, pc);
            lemma_views_color(nodes3, nodes4, p, RBTreeColor::BLACK);
            lemma_views_color(nodes4, self.nodes(), o, RBTreeColor::BLACK);
            assert(same_links(nodes2, self.nodes()));
            assert(outer_colors(nodes0, nodes2, self.nodes(), n));
            lemma_del_outer(nodes0, nodes2, self.nodes(), root0, m, n, d);
        }
        Ghost(outer_model(nodes0, m, n))
    }

    /// Cases 4 and 5 of the deletion fixup: the black brother `s` with black
    /// children turns red, and the parent `p`, if red, black.
    fn del_fix_recolor(&mut self, root: usize, n: usize, p: usize, s: usize, pc: RBTreeColor, Ghost(d): Ghost<usize>, Ghost(m): Ghost<TreeModel>) -> (m2: Ghost<TreeModel>)
        requires
            del_inv(old(self).nodes(), root, m, n, d),
            n != root,
            p == old(self).nodes()[n as int].parent(),
            pc == old(self).nodes()[p as int].col(),
            s == brother(old(self).nodes(), n),
            old(self).nodes()[s as int].col() == RBTreeColor::BLACK,
            color_of(old(self).nodes(), nephew(old(self).nodes(), n, true)) == RBTreeColor::BLACK,
            color_of(old(self).nodes(), nephew(old(self).nodes(), n, false)) == RBTreeColor::BLACK,
        ensures
            *final(final(self).container) == *final(old(self).container),
            m2@.seq == m.seq,
            del_inv(final(self).nodes(), root, m2@, if pc == RBTreeColor::RED { root } else { p }, d),
            (m2@.hi)(p) - (m2@.lo)(p) > (m.hi)(n) - (m.lo)(n),
            p != nil(),
            p < final(self).nodes().len(),
            final(self).nodes()[p as int].linked(),
            outside_kept(old(self).nodes(), final(self).nodes(), m),
            final(self).keys() == old(self).keys(),
            views(final(self).nodes()) == vcolor(
                if pc == RBTreeColor::RED { vcolor(views(old(self).nodes()), p, RBTreeColor::BLACK) } else { views(old(self).nodes()) },
                s,
                RBTreeColor::RED,
            ),
    {
        proof {
            lemma_del_family(self.nodes(), root, m, n, d);
            lemma_node(self.nodes(), root, m, s);
            lemma_node(self.nodes(), root, m, p);
            lemma_node(self.nodes(), root, m, n);
            if p != root {
                lemma_node(self.nodes(), root, m, self.nodes()[p as int].parent());
            }
            assert(m.seq.contains(p) && m.seq.contains(s));
        }
        let ghost nodes0 = self.nodes();
        if pc == color::RED {
            self.set_color(p, color::BLACK);
            proof {
                lemma_views_color(nodes0, self.nodes(), p, RBTreeColor::BLACK);
            }
        }
        let ghost nodes1 = self.nodes();
        self.set_color(s, color::RED);
        proof {
            lemma_views_color(nodes1, self.nodes(), s, RBTreeColor::RED);
            assert(same_links(nodes0, self.nodes()));
            lemma_del_recolor(nodes0, self.nodes(), root, m, n, d);
        }
        Ghost(bh_set(m, p, (m.bh)(p) - 1))
    }

    /// One round of the deletion fixup at the short node `n`: either nothing
    /// is short any more, or the parent of `n`, returned, is now short.
    #[verifier::spinoff_prover]
    #[verifier::rlimit(30)]
    fn del_fix_step(&mut self, root: &mut usize, n: usize, Ghost(d): Ghost<usize>, Ghost(m): Ghost<TreeModel>) -> (r: (bool, usize, Ghost<TreeModel>))
        requires
            del_inv(old(self).nodes(), *old(root), m, n, d),
            n != *old(root),
        ensures
            *final(final(self).container) == *final(old(self).container),
            r.2@.seq == m.seq,
            r.0 ==> del_inv(final(self).nodes(), *final(root), r.2@, *final(root), d),
            !r.0 ==> del_inv(final(self).nodes(), *final(root), r.2@, r.1, d),
            !r.0 ==> (r.2@.hi)(r.1) - (r.2@.lo)(r.1) > (m.hi)(n) - (m.lo)(n),
            !r.0 ==> r.1 != nil() && r.1 < final(self).nodes().len() && final(self).nodes()[r.1 as int].linked(),
            outside_kept(old(self).nodes(), final(self).nodes(), m),
            final(self).keys() == old(self).keys(),
            views(final(self).nodes()) == vdel_step(views(old(self).nodes()), *old(root), n).0,
            *final(root) == vdel_step(views(old(self).nodes()), *old(root), n).1,
            r.1 == vdel_step(views(old(self).nodes()), *old(root), n).2,
            r.0 == vdel_step(views(old(self).nodes()), *old(root), n).3,
    {
        let ghost m0 = m;
        let ghost mut m = m;
        proof {
            lemma_node(self.nodes(), *root, m, n);
            lemma_del_family(self.nodes(), *root, m, n, d);
            lemma_node(self.nodes(), *root, m, self.nodes()[n as int].parent());
            lemma_node(self.nodes(), *root, m, brother(self.nodes(), n));
        }
        let ghost m_start = m;
        let p = self.node(n).get_parent();
        let n_left = self.node(p).left == n;
        let mut s = if n_left { self.node(p).right } else { self.node(p).left };
        if self.node(s).get_color() == color::RED {
            let m1 = self.del_fix_red_brother(root, n, p, s, Ghost(d), Ghost(m));
            proof {
                m = m1@;
                lemma_del_family(self.nodes(), *root, m, n, d);
                lemma_node(self.nodes(), *root, m, brother(self.nodes(), n));
            }
            s = if n_left { self.node(p).right } else { self.node(p).left };
        }
        proof {
            let i = nephew(self.nodes(), n, true);
            let o = nephew(self.nodes(), n, false);
            if i != nil() {
                lemma_node(self.nodes(), *root, m, i);
            }
            if o != nil() {
                lemma_node(self.nodes(), *root, m, o);
            }
        }
        let near = if n_left { self.node(s).left } else { self.node(s).right };
        let far = if n_left { self.node(s).right } else { self.node(s).left };
        if self.to_immut().color_nullable(near) == color::RED && self.to_immut().color_nullable(far) == color::BLACK {
            let m1 = self.del_fix_inner(root, n, s, near, Ghost(d), Ghost(m));
            proof {
                m = m1@;
                lemma_del_family(self.nodes(), *root, m, n, d);
                lemma_node(self.nodes(), *root, m, brother(self.nodes(), n));
                lemma_node(self.nodes(), *root, m, nephew(self.nodes(), n, false));
            }
            s = near;
        }
        let far = if n_left { self.node(s).right } else { self.node(s).left };
        if self.to_immut().color_nullable(far) == color::RED {
            let mf = self.del_fix_outer(root, n, p, s, far, Ghost(d), Ghost(m));
            return (true, p, mf);
        }
        proof {
            lemma_del_family(self.nodes(), *root, m, n, d);
            lemma_node(self.nodes(), *root, m, p);
        }
        let pc = self.node(p).get_color();
        let m1 = self.del_fix_recolor(*root, n, p, s, pc, Ghost(d), Ghost(m));
        proof {
            m = m1@;
        }
        (pc == color::RED, p, Ghost(m))
    }

    /// Restores the black heights before the black leaf `d` is cut out: `n`
    /// is the node whose side is short, at first `d` itself.
    fn fixup_delete(&mut self, root: &mut usize, n: usize, Ghost(d): Ghost<usize>, Ghost(m0): Ghost<TreeModel>) -> (mf: Ghost<TreeModel>)
        requires
            del_inv(old(self).nodes(), *old(root), m0, n, d),
        ensures
            *final(final(self).container) == *final(old(self).container),
            del_inv(final(self).nodes(), *final(root), mf@, *final(root), d),
            mf@.seq == m0.seq,
            outside_kept(old(self).nodes(), final(self).nodes(), m0),
            final(self).keys() == old(self).keys(),
            views(final(self).nodes()) == vdel_fix(views(old(self).nodes()), *old(root), n, old(self).nodes().len()).0,
            *final(root) == vdel_fix(views(old(self).nodes()), *old(root), n, old(self).nodes().len()).1,
    {
        let ghost root0 = *root;
        let ghost v0 = views(self.nodes());
        let ghost big: nat = self.nodes().len();
        let mut x = n;
        let ghost mut m = m0;
        let ghost mut fuel: nat = big;
        proof {
            lemma_node(self.nodes(), *root, m, x);
            lemma_seq_bounded(self.nodes(), *root, m);
        }
        while !self.to_immut().is_root(x)
            invariant
                *final(self.container) == *final(old(self).container),
                del_inv(self.nodes(), *root, m, x, d),
                x != nil(),
                x < self.nodes().len(),
                self.nodes()[x as int].linked(),
                m.seq == m0.seq,
                outside_kept(old(self).nodes(), self.nodes(), m0),
                self.keys() == old(self).keys(),
                fuel > m.seq.len() - ((m.hi)(x) - (m.lo)(x)),
                vdel_fix(views(self.nodes()), *root, x, fuel) == vdel_fix(v0, root0, n, big),
                v0 == views(old(self).nodes()),
                root0 == *old(root),
                big == old(self).nodes().len(),
            decreases m.seq.len() - ((m.hi)(x) - (m.lo)(x)),
        {
            proof {
                lemma_node(self.nodes(), *root, m, x);
            }
            let ghost nodes1 = self.nodes();
            let ghost root1 = *root;
            let (done, p, m1) = self.del_fix_step(root, x, Ghost(d), Ghost(m));
            proof {
                m = m1@;
                assert forall|x: usize| x < old(self).nodes().len() && !m0.seq.contains(x) implies #[trigger] self.nodes()[x as int] == old(self).nodes()[x as int] by {
                    assert(self.nodes()[x as int] == nodes1[x as int]);
                }
                assert(views(nodes1)[x as int].parent == nodes1[x as int].parent());
                assert(vdel_fix(views(nodes1), root1, x, fuel) == (if done {
                    (views(self.nodes()), *root)
                } else {
                    vdel_fix(views(self.nodes()), *root, p, (fuel - 1) as nat)
                }));
            }
            if done {
                return m1;
            }
            proof {
                lemma_node(self.nodes(), *root, m, p);
                fuel = (fuel - 1) as nat;
            }
            x = p;
        }
        proof {
            assert(views(self.nodes())[x as int].parent == self.nodes()[x as int].parent());
        }
        Ghost(m)
    }
}

/// The first node of the subtree below `x` has no left child.
pub proof fn lemma_first_no_left(nodes: Seq<RBTreeNode>, root: usize, m: TreeModel, x: usize)
    requires
        shape(nodes, root, m),
        has(m, x),
    ensures
        ({
            let y = m.seq[(m.lo)(x)];
            &&& has(m, y)
            &&& nodes[y as int].left == nil()
            &&& (m.lo)(y) == (m.lo)(x)
            &&& (m.pos)(y) == (m.lo)(x)
            &&& (m.hi)(y) <= (m.hi)(x)
        }),
    decreases (m.hi)(x) - (m.lo)(x),
{
    lemma_node(nodes, root, m, x);
    let l = nodes[x as int].left;
    if l != nil() {
        lemma_node(nodes, root, m, l);
        lemma_first_no_left(nodes, root, m, l);
    }
}

/// Where a node with at most one child stands before it is cut out of a
/// red-black tree.
pub proof fn lemma_delete_prep(nodes: Seq<RBTreeNode>, root: usize, m: TreeModel, d: usize)
    requires
        rb_model(nodes, root, m),
        has(m, d),
        nodes[d as int].left == nil() || nodes[d as int].right == nil(),
    ensures
        ({
            let c = only_child(nodes, d);
            &&& d < nodes.len()
            &&& nodes[d as int].linked()
            &&& nodes[d as int].parent() < ptr_bound()
            &&& c != nil() ==> has(m, c) && c < nodes.len() && nodes[c as int].linked() && nodes[c as int].parent() == d
            &&& nodes[d as int].col() == RBTreeColor::RED ==> splice_ready(nodes, root, m, d) && c == nil()
            &&& nodes[d as int].col() == RBTreeColor::BLACK && c == nil() ==> del_inv(nodes, root, m, d, d)
            &&& nodes[d as int].col() == RBTreeColor::BLACK && c != nil() ==> nodes[c as int].col() == RBTreeColor::RED
        }),
{
    let c = only_child(nodes, d);
    lemma_node(nodes, root, m, d);
    lemma_node(nodes, root, m, root);
    assert(m.seq[(m.pos)(d)] == d);
    assert(bh_ok(nodes, m, d) && red_ok(nodes, d));
    if d != root {
        lemma_node(nodes, root, m, nodes[d as int].parent());
    }
    if c != nil() {
        lemma_node(nodes, root, m, c);
        assert(m.seq[(m.pos)(c)] == c);
        lemma_bh_nonneg(nodes, root, m, c);
    }
    if nodes[d as int].col() == RBTreeColor::RED {
        assert forall|i: int| 0 <= i < m.seq.len() && #[trigger] m.seq[i] != d implies splice_bh_ok(nodes, m, d, m.seq[i])
            && splice_red_ok(nodes, d, m.seq[i]) by {
            assert(bh_ok(nodes, m, m.seq[i]) && red_ok(nodes, m.seq[i]));
        }
    }
    if nodes[d as int].col() == RBTreeColor::BLACK && c == nil() {
        assert forall|i: int| 0 <= i < m.seq.len() implies (m.bh)(#[trigger] m.seq[i]) >= 0 by {
            lemma_bh_nonneg(nodes, root, m, m.seq[i]);
        }
        assert forall|i: int| 0 <= i < m.seq.len() && #[trigger] m.seq[i] != d && (d == root || m.seq[i] != nodes[d as int].parent())
            implies del_bh_ok(nodes, m, d, m.seq[i]) by {
            let x = m.seq[i];
            assert(bh_ok(nodes, m, x));
            lemma_node(nodes, root, m, x);
        }
        if d != root {
            let q = nodes[d as int].parent();
            assert(m.seq[(m.pos)(q)] == q);
            assert(bh_ok(nodes, m, q));
            lemma_bh_nonneg(nodes, root, m, d);
            assert(short_ok(nodes, m, d, d));
        }
    }
}

/// A black node with one red child: once the child is black and the node
/// red, the node can be cut out.
pub proof fn lemma_delete_recolor(nodes: Seq<RBTreeNode>, nodes2: Seq<RBTreeNode>, root: usize, m: TreeModel, d: usize)
    requires
        rb_model(nodes, root, m),
        has(m, d),
        nodes[d as int].left == nil() || nodes[d as int].right == nil(),
        nodes[d as int].col() == RBTreeColor::BLACK,
        only_child(nodes, d) != nil(),
        same_links(nodes, nodes2),
        forall|y: int| 0 <= y < nodes.len() ==> (#[trigger] nodes2[y]).col() == (if y == d {
            RBTreeColor::RED
        } else if y == only_child(nodes, d) {
            RBTreeColor::BLACK
        } else {
            nodes[y].col()
        }),
    ensures
        splice_ready(nodes2, root, m, d),
        only_child(nodes2, d) == only_child(nodes, d),
{
    let c = only_child(nodes, d);
    lemma_delete_prep(nodes, root, m, d);
    lemma_same_links_shape(nodes, nodes2, root, m);
    lemma_node(nodes, root, m, d);
    lemma_node(nodes, root, m, c);
    lemma_node(nodes, root, m, root);
    assert(m.seq[(m.pos)(d)] == d && m.seq[(m.pos)(c)] == c);
    assert(bh_ok(nodes, m, d) && bh_ok(nodes, m, c));
    assert forall|i: int| 0 <= i < m.seq.len() && #[trigger] m.seq[i] != d implies splice_bh_ok(nodes2, m, d, m.seq[i])
        && splice_red_ok(nodes2, d, m.seq[i]) by {
        let x = m.seq[i];
        assert(bh_ok(nodes, m, x) && red_ok(nodes, x));
        lemma_node(nodes, root, m, x);
        let l = nodes[x as int].left;
        let r = nodes[x as int].right;
        if l != nil() {
            lemma_node(nodes, root, m, l);
        }
        if r != nil() {
            lemma_node(nodes, root, m, r);
        }
    }
}

/// Swapping two neighbours of a sequence and taking out the second is
/// taking out the first.
proof fn lemma_swap_remove(s: Seq<usize>, k: int, a: usize, b: usize)
    requires
        0 <= k,
        k + 1 < s.len(),
        s[k] == a,
        s[k + 1] == b,
        s.no_duplicates(),
    ensures
        s.map_values(|x: usize| swap_map(a, b, x)).remove(k + 1) == s.remove(k),
{
    let t = s.map_values(|x: usize| swap_map(a, b, x));
    assert forall|j: int| 0 <= j < s.len() - 1 implies #[trigger] t.remove(k + 1)[j] == s.remove(k)[j] by {
        if j < k {
            assert(s[j] != a && s[j] != b);
        } else if j > k {
            assert(s[j + 1] != a && s[j + 1] != b);
        }
    }
    assert(t.remove(k + 1) =~= s.remove(k));
}

/// Swapping two nodes of a tree changes no node outside it.
#[verifier::spinoff_prover]
#[verifier::rlimit(30)]
proof fn lemma_swap_outside(nodes: Seq<RBTreeNode>, nodes2: Seq<RBTreeNode>, root: usize, m: TreeModel, a: usize, b: usize)
    requires
        shape(nodes, root, m),
        has(m, a),
        has(m, b),
        a != b,
        swapped(nodes, nodes2, a, b),
    ensures
        outside_kept(nodes, nodes2, m),
        forall|x: usize| #[trigger] swapped_model(m, a, b).seq.contains(x) == m.seq.contains(x),
{
    lemma_node(nodes, root, m, a);
    lemma_node(nodes, root, m, b);
    let na = nodes[a as int];
    let nb = nodes[b as int];
    if na.left != nil() { lemma_node(nodes, root, m, na.left); }
    if na.right != nil() { lemma_node(nodes, root, m, na.right); }
    if a != root { lemma_node(nodes, root, m, na.parent()); }
    if nb.left != nil() { lemma_node(nodes, root, m, nb.left); }
    if nb.right != nil() { lemma_node(nodes, root, m, nb.right); }
    if b != root { lemma_node(nodes, root, m, nb.parent()); }
    assert(m.seq[(m.pos)(a)] == a && m.seq[(m.pos)(b)] == b);
    assert forall|x: usize| x < nodes.len() && !m.seq.contains(x) implies #[trigger] nodes2[x as int] == nodes[x as int] by {
        if touched(nodes, a, b, x) {
            if x == na.left { assert(m.seq[(m.pos)(x)] == x); }
            if x == na.right { assert(m.seq[(m.pos)(x)] == x); }
            if x == na.parent() { assert(m.seq[(m.pos)(x)] == x); }
            if x == nb.left { assert(m.seq[(m.pos)(x)] == x); }
            if x == nb.right { assert(m.seq[(m.pos)(x)] == x); }
            if x == nb.parent() { assert(m.seq[(m.pos)(x)] == x); }
        }
    }
    let m2 = swapped_model(m, a, b);
    assert forall|x: usize| #[trigger] m2.seq.contains(x) == m.seq.contains(x) by {
        if m2.seq.contains(x) {
            let j = choose|j: int| 0 <= j < m2.seq.len() && m2.seq[j] == x;
            let y = m.seq[j];
            if x == a {
                assert(m.seq[(m.pos)(a)] == a);
            } else if x == b {
                assert(m.seq[(m.pos)(b)] == b);
            } else {
                assert(y == x);
            }
        }
        if m.seq.contains(x) {
            let j = choose|j: int| 0 <= j < m.seq.len() && m.seq[j] == x;
            if x == a {
                assert(m2.seq[(m.pos)(b)] == a);
            } else if x == b {
                assert(m2.seq[(m.pos)(a)] == b);
            } else {
                assert(m2.seq[j] == x);
            }
        }
    }
}

/// Cutting out a node of a tree changes no node outside it.
proof fn lemma_splice_outside(nodes: Seq<RBTreeNode>, nodes2: Seq<RBTreeNode>, root: usize, m: TreeModel, d: usize)
    requires
        splice_ready(nodes, root, m, d),
        removal_of(nodes, nodes2, root, d),
    ensures
        outside_kept(nodes, nodes2, m),
{
    lemma_splice_family(nodes, root, m, d);
    lemma_node(nodes, root, m, d);
    let c = only_child(nodes, d);
    let p = nodes[d as int].parent();
    assert(m.seq[(m.pos)(d)] == d);
    if c != nil() {
        assert(m.seq[(m.pos)(c)] == c);
    }
    if d != root {
        assert(m.seq[(m.pos)(p)] == p);
    }
}

/// Taking the node `n`, with at most one child, out of the tree at `root`,
/// on the views: a black `n` with a red child trades colors with it, a black
/// leaf first has the deletion fixup run from it (for at most `fuel`
/// rounds), and then `n` is cut out. The views after it and the new root.
pub open spec fn vdelete_lower(v: Seq<NodeView>, root: usize, n: usize, fuel: nat) -> (Seq<NodeView>, usize) {
    let c = if v[n as int].left == nil() { v[n as int].right } else { v[n as int].left };
    let v2 = if v[n as int].col == RBTreeColor::BLACK && c != nil() && v[c as int].col == RBTreeColor::RED {
        vcolor(vcolor(v, c, RBTreeColor::BLACK), n, RBTreeColor::RED)
    } else {
        v
    };
    let f = if v2[n as int].col == RBTreeColor::BLACK { vdel_fix(v2, root, n, fuel) } else { (v2, root) };
    vdetach(f.0, f.1, n)
}

/// Deleting the node `n` from the tree at `root`, on the views: a node with
/// two children first trades places with its successor. The views after it
/// and the new root.
pub open spec fn vdelete(nodes: Seq<RBTreeNode>, root: usize, n: usize) -> (Seq<NodeView>, usize) {
    let v = views(nodes);
    let s = inorder(nodes, root);
    let t = s[s.index_of(n) + 1];
    let two = v[n as int].left != nil() && v[n as int].right != nil();
    let v1 = if two { vswap(v, n, t) } else { v };
    let r1 = if two && root == n { t } else { root };
    vdelete_lower(v1, r1, n, nodes.len())
}

/// Cutting out a node, seen through the views.
proof fn lemma_views_splice(nodes: Seq<RBTreeNode>, nodes2: Seq<RBTreeNode>, root: usize, m: TreeModel, d: usize)
    requires
        splice_ready(nodes, root, m, d),
        removal_of(nodes, nodes2, root, d),
    ensures
        views(nodes2) == vdetach(views(nodes), root, d).0,
{
    lemma_splice_family(nodes, root, m, d);
    lemma_node(nodes, root, m, d);
    let c = only_child(nodes, d);
    let p = nodes[d as int].parent();
    if c != nil() {
        lemma_node(nodes, root, m, c);
    }
    if d != root {
        lemma_node(nodes, root, m, p);
    }
    let w = vdetach(views(nodes), root, d).0;
    assert(w.len() == nodes.len());
    assert(nview(nodes2[d as int]) == detached_view());
    assert forall|i: int| 0 <= i < nodes2.len() implies #[trigger] views(nodes2)[i] == w[i] by {
        if i == d {
        } else if c != nil() && i == c {
            assert(views(nodes2)[i] == nview(nodes2[i]));
        } else if d != root && i == p {
            assert(views(nodes2)[i] == nview(nodes2[i]));
            assert(nodes2[i].parent() == nodes[i].parent() && nodes2[i].col() == nodes[i].col() && nodes2[i].linked() == nodes[i].linked());
        } else {
            assert(nodes2[i] == nodes[i]);
        }
    }
    assert(views(nodes2) =~= w);
}

impl<'a, L: RBTreeNodeIndex> RBTreeMut<'a, L> {
    /// Cuts the node `d`, whose only child is `c`, out of the tree: `c`
    /// takes its place.
    fn splice_out(&mut self, root: &mut usize, d: usize, c: usize, Ghost(m): Ghost<TreeModel>)
        requires
            splice_ready(old(self).nodes(), *old(root), m, d),
            c == only_child(old(self).nodes(), d),
        ensures
            *final(final(self).container) == *final(old(self).container),
            removal_of(old(self).nodes(), final(self).nodes(), *old(root), d),
            *final(root) == (if d == *old(root) { c } else { *old(root) }),
            views(final(self).nodes()) == vdetach(views(old(self).nodes()), *old(root), d).0,
            *final(root) == vdetach(views(old(self).nodes()), *old(root), d).1,
            final(self).keys() == old(self).keys(),
    {
        proof {
            lemma_splice_family(self.nodes(), *root, m, d);
            lemma_node(self.nodes(), *root, m, d);
            if c != nil() {
                lemma_node(self.nodes(), *root, m, c);
            }
            if d != *root {
                lemma_node(self.nodes(), *root, m, self.nodes()[d as int].parent());
            }
        }
        let ghost nodes0 = self.nodes();
        let ghost root0 = *root;
        let p = self.node(d).get_parent();
        self.set_left(d, usize::nullptr());
        self.set_right(d, usize::nullptr());
        self.set_parent_col(d, RBTreePtrColorUsize::nullptr_color());
        if p == d {
            *root = c;
            if !c.null() {
                self.set_parent_col(c, RBTreePtrColorUsize::combine(c, color::BLACK));
            }
        } else {
            if self.node(p).left == d {
                self.relink_left_child(p, c);
            } else {
                self.relink_right_child(p, c);
            }
        }
        proof {
            assert(self.nodes()[d as int].is_detached());
            lemma_views_splice(nodes0, self.nodes(), root0, m, d);
        }
    }

    /// Trades the places of `n`, which has two children, and its successor,
    /// so that `n` has no left child.
    #[verifier::spinoff_prover]
    #[verifier::rlimit(30)]
    fn swap_with_successor(&mut self, root: &mut usize, n: usize, Ghost(m0): Ghost<TreeModel>) -> (m1: Ghost<TreeModel>)
        requires
            rb_model(old(self).nodes(), *old(root), m0),
            has(m0, n),
            old(self).nodes()[n as int].left != nil(),
            old(self).nodes()[n as int].right != nil(),
            old(self).nodes().len() <= usize::MAX,
        ensures
            *final(final(self).container) == *final(old(self).container),
            rb_model(final(self).nodes(), *final(root), m1@),
            has(m1@, n),
            final(self).nodes()[n as int].left == nil(),
            m1@.seq.remove((m1@.pos)(n)) == m0.seq.remove((m0.pos)(n)),
            forall|x: usize| #[trigger] m1@.seq.contains(x) == m0.seq.contains(x),
            outside_kept(old(self).nodes(), final(self).nodes(), m0),
            final(self).keys() == old(self).keys(),
            views(final(self).nodes()) == vswap(views(old(self).nodes()), n, m0.seq[(m0.pos)(n) + 1]),
            *final(root) == (if *old(root) == n { m0.seq[(m0.pos)(n) + 1] } else { *old(root) }),
    {
        let ghost nodes0 = self.nodes();
        let ghost root0 = *root;
        proof {
            lemma_node(nodes0, root0, m0, n);
            lemma_inorder(nodes0, root0, m0);
            assert(m0.seq[(m0.pos)(n)] == n);
            lemma_tree_member(nodes0, root0, m0, n);
            assert(tree_valid(nodes0, root0));
            assert(inorder(nodes0, root0).contains(n));
            assert(in_some_tree(nodes0, n));
        }
        let t = self.to_immut().successor(n);
        proof {
            let r = nodes0[n as int].right;
            lemma_node(nodes0, root0, m0, r);
            lemma_first_no_left(nodes0, root0, m0, r);
            assert(t == m0.seq[(m0.pos)(n) + 1]);
            lemma_node(nodes0, root0, m0, t);
            lemma_node(nodes0, root0, m0, root0);
            assert(t != root0);
            assert(m0.seq[(m0.pos)(t)] == t);
            assert(inorder(nodes0, root0).contains(t));
            assert(in_some_tree(nodes0, t));
            assert(swap_pair(nodes0, m0, n, t));
        }
        self.swap(n, t);
        if *root == n {
            *root = t;
        }
        proof {
            lemma_swap_tree(nodes0, self.nodes(), root0, m0, n, t);
            lemma_swap_outside(nodes0, self.nodes(), root0, m0, n, t);
            lemma_views_swap(nodes0, self.nodes(), n, t);
            let m1 = swapped_model(m0, n, t);
            assert(self.nodes()[n as int] == self.nodes()[n as int]);
            assert(*root == swap_map(n, t, root0));
            assert(m1.seq[(m0.pos)(n) + 1] == n);
            assert(m1.seq[(m0.pos)(n)] == t);
            assert(has(m1, n));
            lemma_swap_remove(m0.seq, (m0.pos)(n), n, t);
        }
        Ghost(swapped_model(m0, n, t))
    }

    /// Takes the node `n`, which has at most one child, out of the
    /// red-black tree at `root`.
    #[verifier::spinoff_prover]
    #[verifier::rlimit(30)]
    fn delete_lower(&mut self, root: &mut usize, n: usize, Ghost(m1): Ghost<TreeModel>) -> (mr: Ghost<TreeModel>)
        requires
            rb_model(old(self).nodes(), *old(root), m1),
            has(m1, n),
            old(self).nodes()[n as int].left == nil() || old(self).nodes()[n as int].right == nil(),
        ensures
            *final(final(self).container) == *final(old(self).container),
            rb_model(final(self).nodes(), *final(root), mr@),
            mr@.seq == m1.seq.remove((m1.pos)(n)),
            final(self).nodes()[n as int].is_detached(),
            outside_kept(old(self).nodes(), final(self).nodes(), m1),
            final(self).keys() == old(self).keys(),
            views(final(self).nodes()) == vdelete_lower(views(old(self).nodes()), *old(root), n, old(self).nodes().len()).0,
            *final(root) == vdelete_lower(views(old(self).nodes()), *old(root), n, old(self).nodes().len()).1,
    {
        let ghost nodes1 = self.nodes();
        let ghost root1 = *root;
        proof {
            lemma_delete_prep(nodes1, root1, m1, n);
        }
        let l = self.node(n).left;
        let r = self.node(n).right;
        let c = if !l.null() { l } else { r };
        if self.node(n).get_color() == color::BLACK {
            if !c.null() && self.node(c).get_color() == color::RED {
                proof {
                    lemma_node(nodes1, root1, m1, c);
                    lemma_node(nodes1, root1, m1, n);
                    assert(m1.seq[(m1.pos)(c)] == c && m1.seq[(m1.pos)(n)] == n);
                }
                self.set_color(c, color::BLACK);
                let ghost nodes_c = self.nodes();
                self.set_color(n, color::RED);
                proof {
                    lemma_views_color(nodes1, nodes_c, c, RBTreeColor::BLACK);
                    lemma_views_color(nodes_c, self.nodes(), n, RBTreeColor::RED);
                    assert(same_links(nodes1, self.nodes()));
                    lemma_delete_recolor(nodes1, self.nodes(), root1, m1, n);
                }
            }
        }
        let ghost mut m2 = m1;
        let ghost nodes2 = self.nodes();
        if self.node(n).get_color() == color::BLACK {
            let mf = self.fixup_delete(root, n, Ghost(n), Ghost(m1));
            proof {
                m2 = mf@;
                lemma_del_ready(self.nodes(), *root, m2, n);
            }
        }
        let ghost nodes3 = self.nodes();
        let ghost root3 = *root;
        proof {
            assert(splice_ready(nodes3, root3, m2, n));
            assert(only_child(nodes3, n) == c);
            lemma_index_of(m1, n);
            lemma_index_of(m2, n);
        }
        self.splice_out(root, n, c, Ghost(m2));
        proof {
            lemma_splice(nodes3, self.nodes(), root3, m2, n);
            lemma_splice_outside(nodes3, self.nodes(), root3, m2, n);
            assert forall|x: usize| x < nodes1.len() && !m1.seq.contains(x) implies #[trigger] self.nodes()[x as int] == nodes1[x as int] by {
                assert(self.nodes()[x as int] == nodes3[x as int]);
                assert(nodes3[x as int] == nodes2[x as int]);
            }
        }
        Ghost(removed(m2, n))
    }

    /// Takes the node `n` out of the red-black tree at `root`, keeping it a
    /// red-black tree; `n` is left detached. Every node ends up as `vdelete`
    /// describes.
    pub fn delete(&mut self, root: &mut usize, n: usize)
        requires
            rb_valid(old(self).nodes(), *old(root)),
            inorder(old(self).nodes(), *old(root)).contains(n),
        ensures
            *final(final(self).container) == *final(old(self).container),
            rb_valid(final(self).nodes(), *final(root)),
            inorder(final(self).nodes(), *final(root)) == inorder(old(self).nodes(), *old(root)).remove(
                inorder(old(self).nodes(), *old(root)).index_of(n),
            ),
            final(self).nodes()[n as int].is_detached(),
            final(self).nodes().len() == old(self).nodes().len(),
            final(self).keys() == old(self).keys(),
            forall|x: usize| x < old(self).nodes().len() && !inorder(old(self).nodes(), *old(root)).contains(x)
                ==> #[trigger] final(self).nodes()[x as int] == old(self).nodes()[x as int],
            views(final(self).nodes()) == vdelete(old(self).nodes(), *old(root), n).0,
            *final(root) == vdelete(old(self).nodes(), *old(root), n).1,
    {
        let ghost nodes0 = self.nodes();
        let ghost root0 = *root;
        let ghost m0 = choose|m: TreeModel| rb_model(nodes0, root0, m);
        proof {
            lemma_tree_member(nodes0, root0, m0, n);
            lemma_node(nodes0, root0, m0, n);
        }
        let ghost mut m1 = m0;
        if !self.node(n).left.null() && !self.node(n).right.null() {
            let mm = self.swap_with_successor(root, n, Ghost(m0));
            proof {
                m1 = mm@;
            }
        }
        let ghost nodes1 = self.nodes();
        let mr = self.delete_lower(root, n, Ghost(m1));
        proof {
            lemma_inorder(self.nodes(), *root, mr@);
            lemma_inorder(nodes0, root0, m0);
            lemma_index_of(m0, n);
            assert forall|x: usize| x < nodes0.len() && !inorder(nodes0, root0).contains(x) implies #[trigger] self.nodes()[x as int] == nodes0[x as int] by {
                assert(!m1.seq.contains(x));
                assert(self.nodes()[x as int] == nodes1[x as int]);
            }
        }
    }

    /// Restores the black heights of the tree at `root` before the black
    /// leaf `n` is cut out of it: the rotations and recolorings of the
    /// deletion fixup, starting at `n`, after which `n` is still a black leaf
    /// of the tree and can be cut out.
    pub fn delete_fixup(&mut self, root: &mut usize, n: usize)
        requires
            rb_valid(old(self).nodes(), *old(root)),
            inorder(old(self).nodes(), *old(root)).contains(n),
            old(self).nodes()[n as int].left == nil(),
            old(self).nodes()[n as int].right == nil(),
            old(self).nodes()[n as int].col() == RBTreeColor::BLACK,
        ensures
            *final(final(self).container) == *final(old(self).container),
            views(final(self).nodes()) == vdel_fix(views(old(self).nodes()), *old(root), n, old(self).nodes().len()).0,
            *final(root) == vdel_fix(views(old(self).nodes()), *old(root), n, old(self).nodes().len()).1,
            final(self).nodes()[n as int].linked(),
            final(self).nodes()[n as int].col() == RBTreeColor::BLACK,
            leaf_removable(final(self).nodes(), *final(root), n),
            inorder(final(self).nodes(), *final(root)) == inorder(old(self).nodes(), *old(root)),
            final(self).nodes().len() == old(self).nodes().len(),
            final(self).keys() == old(self).keys(),
            forall|x: usize| x < old(self).nodes().len() && !inorder(old(self).nodes(), *old(root)).contains(x)
                ==> #[trigger] final(self).nodes()[x as int] == old(self).nodes()[x as int],
    {
        let ghost nodes0 = self.nodes();
        let ghost root0 = *root;
        let ghost m = choose|m: TreeModel| rb_model(nodes0, root0, m);
        proof {
            lemma_tree_member(nodes0, root0, m, n);
            lemma_delete_prep(nodes0, root0, m, n);
        }
        let mf = self.fixup_delete(root, n, Ghost(n), Ghost(m));
        proof {
            lemma_del_ready(self.nodes(), *root, mf@, n);
            lemma_node(self.nodes(), *root, mf@, n);
            lemma_inorder(nodes0, root0, m);
            lemma_inorder(self.nodes(), *root, mf@);
        }
    }
}

/// `n` is a leaf of the tree at `root` whose removal leaves a red-black tree.
pub open spec fn leaf_removable(nodes: Seq<RBTreeNode>, root: usize, n: usize) -> bool {
    &&& only_child(nodes, n) == nil()
    &&& exists|m: TreeModel| splice_ready(nodes, root, m, n)
}

} // verus!
