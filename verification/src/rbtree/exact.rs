use vstd::prelude::*;
use crate::ptr::nil;
use crate::rbtree::{RBTreeColor, RBTreeNode, lemma_ptr_color_eq};
use crate::rbtree::model::{TreeModel, has, shape, lemma_node};
use crate::rbtree::rotate::rotation_of;
use crate::rbtree::swap::{swap_map, swapped, touched};

verus! {

/// What the getters of a node show: its children, its parent, its color and
/// whether it is in a tree.
pub struct NodeView {
    pub left: usize,
    pub right: usize,
    pub parent: usize,
    pub col: RBTreeColor,
    pub linked: bool,
}

/// The view of one node.
pub open spec fn nview(nd: RBTreeNode) -> NodeView {
    NodeView { left: nd.left, right: nd.right, parent: nd.parent(), col: nd.col(), linked: nd.linked() }
}

/// The views of all nodes of an arena.
pub open spec fn views(nodes: Seq<RBTreeNode>) -> Seq<NodeView> {
    nodes.map_values(|nd: RBTreeNode| nview(nd))
}

/// The view of a node in no tree.
pub open spec fn detached_view() -> NodeView {
    NodeView { left: nil(), right: nil(), parent: nil(), col: RBTreeColor::BLACK, linked: false }
}

/// The color of a possibly null link; null links count as black.
pub open spec fn vcol(v: Seq<NodeView>, c: usize) -> RBTreeColor {
    if c == nil() {
        RBTreeColor::BLACK
    } else {
        v[c as int].col
    }
}

/// The views with node `x` painted `c`.
pub open spec fn vcolor(v: Seq<NodeView>, x: usize, c: RBTreeColor) -> Seq<NodeView> {
    v.update(x as int, NodeView { col: c, ..v[x as int] })
}

/// The views after `n` is rotated above its parent, and the new root.
pub open spec fn vrotate(v: Seq<NodeView>, root: usize, n: usize) -> (Seq<NodeView>, usize) {
    let p = v[n as int].parent;
    let g = v[p as int].parent;
    let is_left = v[p as int].left == n;
    let t2 = if is_left { v[n as int].right } else { v[n as int].left };
    let v1 = v.update(p as int, NodeView {
        left: if is_left { t2 } else { v[p as int].left },
        right: if is_left { v[p as int].right } else { t2 },
        parent: n,
        ..v[p as int]
    });
    let v2 = if t2 == nil() { v1 } else { v1.update(t2 as int, NodeView { parent: p, ..v1[t2 as int] }) };
    let v3 = if p == root {
        v2
    } else {
        v2.update(g as int, NodeView {
            left: if v[g as int].left == p { n } else { v[g as int].left },
            right: if v[g as int].left == p { v[g as int].right } else { n },
            ..v2[g as int]
        })
    };
    let v4 = v3.update(n as int, NodeView {
        left: if is_left { v[n as int].left } else { p },
        right: if is_left { p } else { v[n as int].right },
        parent: if p == root { n } else { g },
        ..v[n as int]
    });
    (v4, if p == root { n } else { root })
}

/// Node `x` was touched by exchanging `a` and `b`: it is one of them or
/// linked to one of them.
pub open spec fn vtouched(v: Seq<NodeView>, a: usize, b: usize, x: usize) -> bool {
    ||| x == a
    ||| x == b
    ||| x != nil() && (x == v[a as int].left || x == v[a as int].right || x == v[a as int].parent
        || x == v[b as int].left || x == v[b as int].right || x == v[b as int].parent)
}

/// The view `nv` with the names `a` and `b` exchanged in its links.
pub open spec fn vrelabel(nv: NodeView, a: usize, b: usize) -> NodeView {
    NodeView {
        left: swap_map(a, b, nv.left),
        right: swap_map(a, b, nv.right),
        parent: swap_map(a, b, nv.parent),
        ..nv
    }
}

/// The views after the nodes `a` and `b` traded places.
pub open spec fn vswap(v: Seq<NodeView>, a: usize, b: usize) -> Seq<NodeView> {
    Seq::new(
        v.len(),
        |x: int|
            if vtouched(v, a, b, x as usize) {
                vrelabel(v[swap_map(a, b, x as usize) as int], a, b)
            } else {
                v[x]
            },
    )
}

/// The views after the node `d`, with at most one child, was cut out of the
/// tree at `root`, and the new root.
pub open spec fn vdetach(v: Seq<NodeView>, root: usize, d: usize) -> (Seq<NodeView>, usize) {
    let c = if v[d as int].left == nil() { v[d as int].right } else { v[d as int].left };
    let p = v[d as int].parent;
    let w = v.update(d as int, detached_view());
    if d == root {
        (
            if c == nil() {
                w
            } else {
                w.update(c as int, NodeView { parent: c, col: RBTreeColor::BLACK, ..w[c as int] })
            },
            c,
        )
    } else {
        let w2 = w.update(p as int, NodeView {
            left: if v[p as int].left == d { c } else { v[p as int].left },
            right: if v[p as int].left == d { v[p as int].right } else { c },
            ..w[p as int]
        });
        (if c == nil() { w2 } else { w2.update(c as int, NodeView { parent: p, ..w2[c as int] }) }, root)
    }
}

/// Painting a node of a tree changes its view in the color only.
pub proof fn lemma_views_color(nodes: Seq<RBTreeNode>, nodes2: Seq<RBTreeNode>, x: usize, c: RBTreeColor)
    requires
        nodes2.len() == nodes.len(),
        x < nodes.len(),
        nodes2[x as int].left == nodes[x as int].left,
        nodes2[x as int].right == nodes[x as int].right,
        nodes2[x as int].parent() == nodes[x as int].parent(),
        nodes2[x as int].linked() == nodes[x as int].linked(),
        nodes2[x as int].col() == c,
        forall|i: int| 0 <= i < nodes.len() && i != x ==> #[trigger] nodes2[i] == nodes[i],
    ensures
        views(nodes2) == vcolor(views(nodes), x, c),
{
    assert(views(nodes2) =~= vcolor(views(nodes), x, c));
}

/// A rotation, seen through the views.
pub proof fn lemma_views_rotate(nodes: Seq<RBTreeNode>, nodes2: Seq<RBTreeNode>, root: usize, m: TreeModel, n: usize)
    requires
        shape(nodes, root, m),
        has(m, n),
        n != root,
        rotation_of(nodes, nodes2, root, n),
    ensures
        views(nodes2) == vrotate(views(nodes), root, n).0,
{
    let v = views(nodes);
    let p = nodes[n as int].parent();
    lemma_node(nodes, root, m, n);
    lemma_node(nodes, root, m, p);
    let is_left = nodes[p as int].left == n;
    let t2 = if is_left { nodes[n as int].right } else { nodes[n as int].left };
    if t2 != nil() {
        lemma_node(nodes, root, m, t2);
    }
    if p != root {
        lemma_node(nodes, root, m, nodes[p as int].parent());
    }
    let w = vrotate(v, root, n).0;
    assert(w.len() == nodes2.len());
    assert forall|i: int| 0 <= i < nodes2.len() implies #[trigger] views(nodes2)[i] == w[i] by {
        if i != n && i != p && (t2 == nil() || i != t2) && (p == root || i != nodes[p as int].parent()) {
            assert(nodes2[i] == nodes[i]);
        }
    }
    assert(views(nodes2) =~= w);
}

/// Two nodes trading places, seen through the views.
pub proof fn lemma_views_swap(nodes: Seq<RBTreeNode>, nodes2: Seq<RBTreeNode>, a: usize, b: usize)
    requires
        a < nodes.len(),
        b < nodes.len(),
        nodes.len() <= usize::MAX,
        swapped(nodes, nodes2, a, b),
    ensures
        views(nodes2) == vswap(views(nodes), a, b),
{
    let v = views(nodes);
    let w = vswap(v, a, b);
    assert forall|i: int| 0 <= i < nodes2.len() implies #[trigger] views(nodes2)[i] == w[i] by {
        let x = i as usize;
        assert(nodes2[x as int] == nodes2[i]);
        assert(vtouched(v, a, b, x) == touched(nodes, a, b, x));
    }
    assert(views(nodes2) =~= w);
}

/// Two nodes trading places twice leaves every view as it was.
pub proof fn lemma_vswap_twice(v: Seq<NodeView>, a: usize, b: usize)
    requires
        a < v.len(),
        b < v.len(),
        v.len() <= usize::MAX,
    ensures
        vswap(vswap(v, a, b), a, b) == v,
{
    let v1 = vswap(v, a, b);
    let v2 = vswap(v1, a, b);
    assert(v1[a as int] == vrelabel(v[b as int], a, b));
    assert(v1[b as int] == vrelabel(v[a as int], a, b));
    assert forall|i: int| 0 <= i < v.len() implies #[trigger] v2[i] == v[i] by {
        let x = i as usize;
        assert(vtouched(v1, a, b, x) == vtouched(v, a, b, x));
        if vtouched(v, a, b, x) {
            let y = swap_map(a, b, x);
            assert(vtouched(v, a, b, y));
            assert(v1[y as int] == vrelabel(v[swap_map(a, b, y) as int], a, b));
        }
    }
    assert(v2 =~= v);
}

/// A node is what its getters show: two nodes with the same view are equal.
pub proof fn lemma_node_from_view(a: RBTreeNode, b: RBTreeNode)
    requires
        nview(a) == nview(b),
    ensures
        a == b,
{
    lemma_ptr_color_eq(a.parent_col, b.parent_col);
}

/// Two arenas with the same views are equal.
pub proof fn lemma_nodes_from_views(n1: Seq<RBTreeNode>, n2: Seq<RBTreeNode>)
    requires
        views(n1) == views(n2),
    ensures
        n1 == n2,
{
    assert(n1.len() == views(n1).len());
    assert(n2.len() == views(n2).len());
    assert forall|i: int| 0 <= i < n1.len() implies #[trigger] n1[i] == n2[i] by {
        assert(views(n1)[i] == views(n2)[i]);
        assert(views(n1)[i] == nview(n1[i]));
        assert(views(n2)[i] == nview(n2[i]));
        lemma_node_from_view(n1[i], n2[i]);
    }
    assert(n1 =~= n2);
}

/// Trading the places of `a` and `b` is trading those of `b` and `a`.
pub proof fn lemma_vswap_symmetric(v: Seq<NodeView>, a: usize, b: usize)
    ensures
        vswap(v, a, b) == vswap(v, b, a),
{
    assert forall|x: usize| #[trigger] swap_map(a, b, x) == swap_map(b, a, x) by {}
    assert(vswap(v, a, b) =~= vswap(v, b, a));
}

} // verus!
