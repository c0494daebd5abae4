use vstd::prelude::*;
use crate::ptr::{nil, NullablePtr};
use crate::rbtree::{RBTreeMut, RBTreeNode, RBTreeNodeIndex, RBTreePtrColor, RBTreePtrColorUsize, ptr_bound};
use crate::rbtree::model::{TreeModel, has, node_ok, shape, lemma_node, lemma_node_intro, bh_ok, red_ok, rb_model, tree_valid, rb_valid, inorder, in_some_tree, lemma_inorder};
use crate::rbtree::query::lemma_tree_member;

verus! {

/// `x` with the names `a` and `b` exchanged.
pub open spec fn swap_map(a: usize, b: usize, x: usize) -> usize {
    if x == a {
        b
    } else if x == b {
        a
    } else {
        x
    }
}

/// `x` is `a`, `b`, or a node linked to one of them.
pub open spec fn touched(nodes: Seq<RBTreeNode>, a: usize, b: usize, x: usize) -> bool {
    ||| x == a
    ||| x == b
    ||| x != nil() && (x == nodes[a as int].left || x == nodes[a as int].right || x
        == nodes[a as int].parent() || x == nodes[b as int].left || x == nodes[b as int].right || x
        == nodes[b as int].parent())
}

/// `nd2` is `nd` with the names `a` and `b` exchanged in its links.
pub open spec fn relabeled(nd2: RBTreeNode, nd: RBTreeNode, a: usize, b: usize) -> bool {
    &&& nd2.left == swap_map(a, b, nd.left)
    &&& nd2.right == swap_map(a, b, nd.right)
    &&& nd2.parent() == swap_map(a, b, nd.parent())
    &&& nd2.linked() == nd.linked()
    &&& nd2.col() == nd.col()
}

/// The arena `nodes2` is `nodes` with nodes `a` and `b` trading places in
/// their tree: each takes over the other's links and color.
pub open spec fn swapped(nodes: Seq<RBTreeNode>, nodes2: Seq<RBTreeNode>, a: usize, b: usize) -> bool {
    &&& nodes2.len() == nodes.len()
    &&& forall|x: usize|
        x < nodes.len() ==> if touched(nodes, a, b, x) {
            relabeled(#[trigger] nodes2[x as int], nodes[swap_map(a, b, x) as int], a, b)
        } else {
            nodes2[x as int] == nodes[x as int]
        }
}

/// What `swap(a, b)` makes of the arena `nodes`: nothing when `a` and `b`
/// are one node or both in no tree, otherwise the two trade places.
pub open spec fn swap_done(nodes: Seq<RBTreeNode>, nodes2: Seq<RBTreeNode>, a: usize, b: usize) -> bool {
    if a == b || (!nodes[a as int].linked() && !nodes[b as int].linked()) {
        nodes2 == nodes
    } else {
        swapped(nodes, nodes2, a, b)
    }
}

/// The model after `a` and `b` traded places.
pub open spec fn swapped_model(m: TreeModel, a: usize, b: usize) -> TreeModel {
    TreeModel {
        seq: m.seq.map_values(|x: usize| swap_map(a, b, x)),
        pos: |x: usize| (m.pos)(swap_map(a, b, x)),
        lo: |x: usize| (m.lo)(swap_map(a, b, x)),
        hi: |x: usize| (m.hi)(swap_map(a, b, x)),
        bh: |x: usize| (m.bh)(swap_map(a, b, x)),
    }
}

/// A node outside a tree, with no links.
pub open spec fn loose(nodes: Seq<RBTreeNode>, x: usize) -> bool {
    x < nodes.len() && nodes[x as int].is_detached()
}

/// Nodes `a` and `b` may trade places in the tree with the given model,
/// which holds at least one of them.
pub open spec fn swap_pair(nodes: Seq<RBTreeNode>, m: TreeModel, a: usize, b: usize) -> bool {
    &&& a != b
    &&& a != nil()
    &&& b != nil()
    &&& a < ptr_bound()
    &&& b < ptr_bound()
    &&& a < nodes.len()
    &&& b < nodes.len()
    &&& has(m, a) || has(m, b)
}

/// The node now at the renamed place of a tree node `z` holds `z`'s links,
/// renamed.
proof fn lemma_relabeled_at(
    nodes: Seq<RBTreeNode>,
    nodes2: Seq<RBTreeNode>,
    root: usize,
    m: TreeModel,
    a: usize,
    b: usize,
    z: usize,
)
    requires
        shape(nodes, root, m),
        swap_pair(nodes, m, a, b),
        swapped(nodes, nodes2, a, b),
        has(m, z),
    ensures
        swap_map(a, b, z) < nodes.len(),
        relabeled(nodes2[swap_map(a, b, z) as int], nodes[z as int], a, b),
{
    lemma_node(nodes, root, m, z);
    let x = swap_map(a, b, z);
    if has(m, a) {
        lemma_node(nodes, root, m, a);
    }
    if has(m, b) {
        lemma_node(nodes, root, m, b);
    }
    assert(nodes2[x as int] == nodes2[x as int]);
    if !touched(nodes, a, b, x) {
        assert(x == z);
        let nd = nodes[z as int];
        if nd.left != nil() {
            lemma_node(nodes, root, m, nd.left);
        }
        if nd.right != nil() {
            lemma_node(nodes, root, m, nd.right);
        }
        if z != root {
            lemma_node(nodes, root, m, nd.parent());
        }
    }
}

/// Relabelling keeps the links of one node in agreement with the model.
#[verifier::spinoff_prover]
proof fn lemma_swap_node(
    nodes: Seq<RBTreeNode>,
    nodes2: Seq<RBTreeNode>,
    root: usize,
    m: TreeModel,
    a: usize,
    b: usize,
    y: usize,
)
    requires
        shape(nodes, root, m),
        swap_pair(nodes, m, a, b),
        swapped(nodes, nodes2, a, b),
        has(m, y),
    ensures
        node_ok(nodes2, swap_map(a, b, root), swapped_model(m, a, b), swap_map(a, b, y)),
{
    let m2 = swapped_model(m, a, b);
    let x = swap_map(a, b, y);
    let root2 = swap_map(a, b, root);
    lemma_node(nodes, root, m, y);
    let nd = nodes[y as int];
    lemma_relabeled_at(nodes, nodes2, root, m, a, b, y);
    assert(m2.seq[(m.pos)(y)] == x);
    if nd.left != nil() {
        lemma_node(nodes, root, m, nd.left);
        lemma_relabeled_at(nodes, nodes2, root, m, a, b, nd.left);
        assert(m2.seq[(m.pos)(nd.left)] == swap_map(a, b, nd.left));
    }
    if nd.right != nil() {
        lemma_node(nodes, root, m, nd.right);
        lemma_relabeled_at(nodes, nodes2, root, m, a, b, nd.right);
        assert(m2.seq[(m.pos)(nd.right)] == swap_map(a, b, nd.right));
    }
    if y != root {
        lemma_node(nodes, root, m, nd.parent());
        lemma_relabeled_at(nodes, nodes2, root, m, a, b, nd.parent());
        assert(m2.seq[(m.pos)(nd.parent())] == swap_map(a, b, nd.parent()));
    }
    lemma_node_intro(nodes2, root2, m2, x);
}

/// Relabelling keeps the colors and black heights around one node.
#[verifier::spinoff_prover]
proof fn lemma_swap_rb_node(
    nodes: Seq<RBTreeNode>,
    nodes2: Seq<RBTreeNode>,
    root: usize,
    m: TreeModel,
    a: usize,
    b: usize,
    y: usize,
)
    requires
        rb_model(nodes, root, m),
        swap_pair(nodes, m, a, b),
        swapped(nodes, nodes2, a, b),
        has(m, y),
    ensures
        bh_ok(nodes2, swapped_model(m, a, b), swap_map(a, b, y)),
        red_ok(nodes2, swap_map(a, b, y)),
{
    let m2 = swapped_model(m, a, b);
    lemma_node(nodes, root, m, y);
    let nd = nodes[y as int];
    lemma_relabeled_at(nodes, nodes2, root, m, a, b, y);
    assert(m.seq[(m.pos)(y)] == y);
    assert(bh_ok(nodes, m, y) && red_ok(nodes, y));
    if nd.left != nil() {
        lemma_node(nodes, root, m, nd.left);
        lemma_relabeled_at(nodes, nodes2, root, m, a, b, nd.left);
    }
    if nd.right != nil() {
        lemma_node(nodes, root, m, nd.right);
        lemma_relabeled_at(nodes, nodes2, root, m, a, b, nd.right);
    }
}

/// Two nodes trading places keeps a well-formed tree, and a red-black tree,
/// whose in-order sequence has the two names exchanged.
pub proof fn lemma_swap_tree(
    nodes: Seq<RBTreeNode>,
    nodes2: Seq<RBTreeNode>,
    root: usize,
    m: TreeModel,
    a: usize,
    b: usize,
)
    requires
        shape(nodes, root, m),
        swap_pair(nodes, m, a, b),
        swapped(nodes, nodes2, a, b),
    ensures
        shape(nodes2, swap_map(a, b, root), swapped_model(m, a, b)),
        rb_model(nodes, root, m) ==> rb_model(nodes2, swap_map(a, b, root), swapped_model(m, a, b)),
{
    let m2 = swapped_model(m, a, b);
    let root2 = swap_map(a, b, root);
    assert(root != nil()) by {
        if has(m, a) {} if has(m, b) {}
    }
    lemma_node(nodes, root, m, root);
    assert(m2.seq[(m.pos)(root)] == root2);
    assert forall|i: int| 0 <= i < m2.seq.len() implies (m2.pos)(#[trigger] m2.seq[i]) == i
        && node_ok(nodes2, root2, m2, m2.seq[i]) by {
        assert(m.seq[i] == m.seq[i]);
        assert(m2.seq[i] == swap_map(a, b, m.seq[i]));
        assert(swap_map(a, b, swap_map(a, b, m.seq[i])) == m.seq[i]);
        lemma_swap_node(nodes, nodes2, root, m, a, b, m.seq[i]);
    }
    assert forall|i: int, j: int| 0 <= i < j < m2.seq.len() implies m2.seq[i] != m2.seq[j] by {
        assert(m.seq[i] != m.seq[j]);
    }
    if rb_model(nodes, root, m) {
        lemma_relabeled_at(nodes, nodes2, root, m, a, b, root);
        assert forall|i: int| 0 <= i < m2.seq.len() implies bh_ok(nodes2, m2, #[trigger] m2.seq[i])
            && red_ok(nodes2, m2.seq[i]) by {
            lemma_swap_rb_node(nodes, nodes2, root, m, a, b, m.seq[i]);
        }
    }
}

/// Nodes `a` and `b` may trade places: they are the same node, both outside
/// any tree, or each is a node of some tree or a loose node.
pub open spec fn swappable(nodes: Seq<RBTreeNode>, a: usize, b: usize) -> bool {
    ||| a == b
    ||| !nodes[a as int].linked() && !nodes[b as int].linked()
    ||| {
        &&& a < ptr_bound()
        &&& b < ptr_bound()
        &&& loose(nodes, a) || in_some_tree(nodes, a)
        &&& loose(nodes, b) || in_some_tree(nodes, b)
    }
}

/// The tree at `r` holds `a` or `b`.
pub open spec fn pair_in(nodes: Seq<RBTreeNode>, r: usize, a: usize, b: usize) -> bool {
    inorder(nodes, r).contains(a) || inorder(nodes, r).contains(b)
}

/// A link that is null or leads to a node whose parent can carry a color.
pub open spec fn link_ok(nodes: Seq<RBTreeNode>, y: usize) -> bool {
    y == nil() || (y < nodes.len() && (nodes[y as int].linked() ==> nodes[y as int].parent() < ptr_bound()))
}

/// The nodes other than `a` and `b` that are linked to one of them.
pub open spec fn neighbours(nodes: Seq<RBTreeNode>, a: usize, b: usize) -> Set<usize> {
    Set::new(|x: usize| x != nil() && x != a && x != b && touched(nodes, a, b, x))
}

/// The nodes other than `a` and `b` among the first `n` links of `ls`.
pub open spec fn fresh_links(ls: Seq<usize>, n: int, a: usize, b: usize) -> Set<usize> {
    Set::new(|x: usize| x != nil() && x != a && x != b && exists|k: int| 0 <= k < n && ls[k] == x)
}

/// The nodes of `s` are relabelled in `cur`, the others are as in `g`.
pub open spec fn relabel_done(g: Seq<RBTreeNode>, cur: Seq<RBTreeNode>, a: usize, b: usize, s: Set<usize>) -> bool {
    &&& cur.len() == g.len()
    &&& forall|x: usize|
        x < g.len() ==> if s.contains(x) {
            relabeled(#[trigger] cur[x as int], g[x as int], a, b)
        } else {
            cur[x as int] == g[x as int]
        }
}

/// The parent of a tree node is a node below the pointer bound.
proof fn lemma_parent_bound(nodes: Seq<RBTreeNode>, root: usize, m: TreeModel, y: usize)
    requires
        shape(nodes, root, m),
        has(m, y),
    ensures
        y < nodes.len(),
        nodes[y as int].linked(),
        nodes[y as int].parent() < ptr_bound(),
{
    lemma_node(nodes, root, m, y);
    if y != root {
        lemma_node(nodes, root, m, nodes[y as int].parent());
    }
}

/// The links of a loose node or a tree node lead where swapping may write.
proof fn lemma_swap_local(nodes: Seq<RBTreeNode>, a: usize)
    requires
        a < ptr_bound(),
        loose(nodes, a) || in_some_tree(nodes, a),
    ensures
        link_ok(nodes, a),
        a < nodes.len(),
        link_ok(nodes, nodes[a as int].left),
        link_ok(nodes, nodes[a as int].right),
        link_ok(nodes, nodes[a as int].parent()),
{
    if !loose(nodes, a) {
        let r = choose|root: usize| tree_valid(nodes, root) && #[trigger] inorder(nodes, root).contains(a);
        let m = choose|m: TreeModel| shape(nodes, r, m);
        lemma_tree_member(nodes, r, m, a);
        lemma_parent_bound(nodes, r, m, a);
        lemma_node(nodes, r, m, a);
        let na = nodes[a as int];
        if na.left != nil() {
            lemma_parent_bound(nodes, r, m, na.left);
        }
        if na.right != nil() {
            lemma_parent_bound(nodes, r, m, na.right);
        }
        lemma_node(nodes, r, m, a);
        if a != r {
            lemma_parent_bound(nodes, r, m, na.parent());
        }
    }
}

/// A node of a well-formed tree is linked.
proof fn lemma_member_linked(nodes: Seq<RBTreeNode>, r: usize, x: usize)
    requires
        tree_valid(nodes, r),
        inorder(nodes, r).contains(x),
    ensures
        x < nodes.len(),
        nodes[x as int].linked(),
{
    let m = choose|m: TreeModel| shape(nodes, r, m);
    lemma_tree_member(nodes, r, m, x);
    lemma_node(nodes, r, m, x);
}

/// After `a` and `b` traded places, each tree that held one of them is a
/// tree again, with the two names exchanged in its in-order sequence.
proof fn lemma_swap_result(g: Seq<RBTreeNode>, nodes2: Seq<RBTreeNode>, a: usize, b: usize)
    requires
        a != b,
        a < ptr_bound(),
        b < ptr_bound(),
        a < g.len(),
        b < g.len(),
        swapped(g, nodes2, a, b),
    ensures
        forall|r: usize|
            tree_valid(g, r) && pair_in(g, r, a, b) ==> {
                &&& tree_valid(nodes2, swap_map(a, b, r))
                &&& inorder(nodes2, swap_map(a, b, r)) == inorder(g, r).map_values(
                    |x: usize| swap_map(a, b, x),
                )
                &&& rb_valid(g, r) ==> rb_valid(nodes2, swap_map(a, b, r))
            },
{
    assert forall|r: usize| tree_valid(g, r) && pair_in(g, r, a, b) implies {
        &&& tree_valid(nodes2, swap_map(a, b, r))
        &&& inorder(nodes2, swap_map(a, b, r)) == inorder(g, r).map_values(|x: usize| swap_map(a, b, x))
        &&& rb_valid(g, r) ==> rb_valid(nodes2, swap_map(a, b, r))
    } by {
        let m = if rb_valid(g, r) {
            choose|m: TreeModel| rb_model(g, r, m)
        } else {
            choose|m: TreeModel| shape(g, r, m)
        };
        assert(shape(g, r, m));
        lemma_inorder(g, r, m);
        if inorder(g, r).contains(a) {
            lemma_tree_member(g, r, m, a);
        }
        if inorder(g, r).contains(b) {
            lemma_tree_member(g, r, m, b);
        }
        assert(swap_pair(g, m, a, b));
        lemma_swap_tree(g, nodes2, r, m, a, b);
        let m2 = swapped_model(m, a, b);
        lemma_inorder(nodes2, swap_map(a, b, r), m2);
    }
}

/// The arena before and after leaving every node as it was: the same trees.
proof fn lemma_swap_same(g: Seq<RBTreeNode>, a: usize)
    ensures
        forall|r: usize|
            tree_valid(g, r) ==> {
                &&& tree_valid(g, swap_map(a, a, r))
                &&& inorder(g, swap_map(a, a, r)) == inorder(g, r).map_values(|x: usize| swap_map(a, a, x))
                &&& rb_valid(g, r) ==> rb_valid(g, swap_map(a, a, r))
            },
{
    assert forall|r: usize| tree_valid(g, r) implies {
        &&& tree_valid(g, swap_map(a, a, r))
        &&& inorder(g, swap_map(a, a, r)) == inorder(g, r).map_values(|x: usize| swap_map(a, a, x))
        &&& rb_valid(g, r) ==> rb_valid(g, swap_map(a, a, r))
    } by {
        assert(swap_map(a, a, r) == r);
        assert(inorder(g, r).map_values(|x: usize| swap_map(a, a, x)) =~= inorder(g, r));
    }
}

/// `x` with the names `a` and `b` exchanged.
fn swap_index(x: usize, a: usize, b: usize) -> (r: usize)
    ensures
        r == swap_map(a, b, x),
{
    if x == a {
        b
    } else if x == b {
        a
    } else {
        x
    }
}

/// The node `nd` with the names `a` and `b` exchanged in its links.
fn relabel(nd: RBTreeNode, a: usize, b: usize) -> (r: RBTreeNode)
    requires
        a < ptr_bound(),
        b < ptr_bound(),
        nd.linked() ==> nd.parent() < ptr_bound(),
    ensures
        relabeled(r, nd, a, b),
{
    let parent_col = if nd.in_tree() {
        let (p, c) = nd.parent_col.separate();
        RBTreePtrColorUsize::combine(swap_index(p, a, b), c)
    } else {
        nd.parent_col
    };
    RBTreeNode { left: swap_index(nd.left, a, b), right: swap_index(nd.right, a, b), parent_col: parent_col }
}

impl<'a, L: RBTreeNodeIndex> RBTreeMut<'a, L> {
    /// Relabels the node `x`, which was not relabelled yet.
    fn relabel_at(&mut self, x: usize, a: usize, b: usize, Ghost(g): Ghost<Seq<RBTreeNode>>, Ghost(s): Ghost<Set<usize>>)
        requires
            a < ptr_bound(),
            b < ptr_bound(),
            x < g.len(),
            !s.contains(x),
            g[x as int].linked() ==> g[x as int].parent() < ptr_bound(),
            relabel_done(g, old(self).nodes(), a, b, s),
        ensures
            *final(final(self).container) == *final(old(self).container),
            relabel_done(g, final(self).nodes(), a, b, s.insert(x)),
            final(self).keys() == old(self).keys(),
    {
        let nd = self.node(x);
        let v = relabel(nd, a, b);
        self.set_node(x, v);
        proof {
            let cur = self.nodes();
            assert forall|y: usize| y < g.len() implies if s.insert(x).contains(y) {
                relabeled(#[trigger] cur[y as int], g[y as int], a, b)
            } else {
                cur[y as int] == g[y as int]
            } by {
                if y != x {
                    assert(cur[y as int] == old(self).nodes()[y as int]);
                }
            }
        }
    }

    /// Relabels every node linked to `a` or `b`, other than the two.
    #[verifier::spinoff_prover]
    #[verifier::rlimit(30)]
    fn relabel_neighbours(&mut self, a: usize, b: usize, na: RBTreeNode, nb: RBTreeNode)
        requires
            a != b,
            a < ptr_bound(),
            b < ptr_bound(),
            a < old(self).nodes().len(),
            b < old(self).nodes().len(),
            na == old(self).nodes()[a as int],
            nb == old(self).nodes()[b as int],
            link_ok(old(self).nodes(), na.left),
            link_ok(old(self).nodes(), na.right),
            link_ok(old(self).nodes(), na.parent()),
            link_ok(old(self).nodes(), nb.left),
            link_ok(old(self).nodes(), nb.right),
            link_ok(old(self).nodes(), nb.parent()),
        ensures
            *final(final(self).container) == *final(old(self).container),
            relabel_done(old(self).nodes(), final(self).nodes(), a, b, neighbours(old(self).nodes(), a, b)),
            final(self).keys() == old(self).keys(),
    {
        let ghost g = self.nodes();
        let links: [usize; 6] = [na.left, na.right, na.get_parent(), nb.left, nb.right, nb.get_parent()];
        let ghost ls = seq![na.left, na.right, na.parent(), nb.left, nb.right, nb.parent()];
        assert(links@ =~= ls);
        assert(relabel_done(g, self.nodes(), a, b, fresh_links(ls, 0, a, b))) by {
            assert(fresh_links(ls, 0, a, b) =~= Set::empty());
        }
        let mut i: usize = 0;
        while i < 6
            invariant
                *final(self.container) == *final(old(self).container),
                i <= 6,
                links@ == ls,
                ls.len() == 6,
                a < ptr_bound(),
                b < ptr_bound(),
                forall|k: int| 0 <= k < 6 ==> link_ok(g, #[trigger] ls[k]),
                relabel_done(g, self.nodes(), a, b, fresh_links(ls, i as int, a, b)),
                self.keys() == old(self).keys(),
            decreases 6 - i,
        {
            let x = links[i];
            let mut seen = false;
            let mut j: usize = 0;
            while j < i
                invariant
                    j <= i,
                    i < 6,
                    links@ == ls,
                    x == ls[i as int],
                    seen <==> exists|k: int| 0 <= k < j && ls[k] == x,
                decreases i - j,
            {
                if links[j] == x {
                    seen = true;
                }
                j += 1;
            }
            let ghost before = fresh_links(ls, i as int, a, b);
            assert(link_ok(g, ls[i as int]));
            if !x.null() && x != a && x != b && !seen {
                self.relabel_at(x, a, b, Ghost(g), Ghost(before));
                assert(fresh_links(ls, i + 1, a, b) =~= before.insert(x));
            } else {
                assert(fresh_links(ls, i + 1, a, b) =~= before);
            }
            i += 1;
        }
        assert(fresh_links(ls, 6, a, b) =~= neighbours(g, a, b)) by {
            assert forall|x: usize| neighbours(g, a, b).contains(x) implies fresh_links(ls, 6, a, b).contains(x) by {
                if x == ls[0] {} else if x == ls[1] {} else if x == ls[2] {} else if x == ls[3] {} else if x == ls[4] {} else {
                    assert(x == ls[5]);
                }
            }
        }
    }

    /// Swaps the places of the nodes of `a` and `b` in their trees: each
    /// takes over the links and color of the other, so that each tree that
    /// held one of them stays well-formed (and red-black, if it was) with the
    /// two names exchanged in its in-order sequence. The caller fixes a root
    /// that was `a` or `b`.
    #[verifier::spinoff_prover]
    #[verifier::rlimit(30)]
    pub fn swap(&mut self, a: usize, b: usize)
        requires
            a != nil(),
            b != nil(),
            a < old(self).nodes().len(),
            b < old(self).nodes().len(),
            swappable(old(self).nodes(), a, b),
        ensures
            *final(final(self).container) == *final(old(self).container),
            final(self).nodes().len() == old(self).nodes().len(),
            final(self).keys() == old(self).keys(),
            swap_done(old(self).nodes(), final(self).nodes(), a, b),
            forall|r: usize|
                tree_valid(old(self).nodes(), r) && pair_in(old(self).nodes(), r, a, b) ==> {
                    &&& tree_valid(final(self).nodes(), swap_map(a, b, r))
                    &&& inorder(final(self).nodes(), swap_map(a, b, r)) == inorder(old(self).nodes(), r).map_values(
                        |x: usize| swap_map(a, b, x),
                    )
                    &&& rb_valid(old(self).nodes(), r) ==> rb_valid(final(self).nodes(), swap_map(a, b, r))
                },
    {
        let ghost g = self.nodes();
        if a == b {
            proof {
                lemma_swap_same(g, a);
            }
            return;
        }
        if !self.node(a).in_tree() && !self.node(b).in_tree() {
            proof {
                assert forall|r: usize| tree_valid(g, r) implies !pair_in(g, r, a, b) by {
                    if inorder(g, r).contains(a) {
                        lemma_member_linked(g, r, a);
                    }
                    if inorder(g, r).contains(b) {
                        lemma_member_linked(g, r, b);
                    }
                }
            }
            return;
        }
        proof {
            lemma_swap_local(g, a);
            lemma_swap_local(g, b);
        }
        let na = self.node(a);
        let nb = self.node(b);
        self.relabel_neighbours(a, b, na, nb);
        let va = relabel(nb, a, b);
        let vb = relabel(na, a, b);
        self.set_node(a, va);
        self.set_node(b, vb);
        proof {
            let cur = self.nodes();
            assert forall|x: usize| x < g.len() implies if touched(g, a, b, x) {
                relabeled(#[trigger] cur[x as int], g[swap_map(a, b, x) as int], a, b)
            } else {
                cur[x as int] == g[x as int]
            } by {
                if x != a && x != b {
                    assert(neighbours(g, a, b).contains(x) == touched(g, a, b, x));
                }
            }
            assert(swapped(g, self.nodes(), a, b));
            lemma_swap_result(g, self.nodes(), a, b);
        }
    }
}

} // verus!
