use vstd::prelude::*;
use crate::ptr::{nil, NullablePtr};
use crate::rbtree::{RBTree, RBTreeMut, RBTreeNode, RBTreeNodeIndexKey, ptr_bound};
use crate::rbtree::model::{TreeModel, has, shape, lemma_node, tree_valid, rb_valid, rb_model, inorder, in_some_tree, lemma_inorder};
use crate::rbtree::query::lemma_tree_member;
use crate::rbtree::insert::{lemma_index_of, lemma_insert_index, lemma_not_in_tree, vinsert_at};
use crate::rbtree::exact::views;

verus! {

/// The key of the node at place `q` of the model.
pub open spec fn kat(keys: Seq<usize>, m: TreeModel, q: int) -> usize {
    keys[m.seq[q] as int]
}

/// The nodes at places `lo .. hi` of the model have keys, in order.
pub open spec fn sorted_range(keys: Seq<usize>, m: TreeModel, lo: int, hi: int) -> bool {
    &&& forall|a: int| lo <= a < hi ==> #[trigger] m.seq[a] < keys.len()
    &&& forall|a: int, b: int| lo <= a <= b < hi ==> #[trigger] kat(keys, m, a) <= #[trigger] kat(keys, m, b)
}

/// Every node of `t` has a key, and `t` is ordered by key.
pub open spec fn sorted_by_key(keys: Seq<usize>, t: Seq<usize>) -> bool {
    &&& forall|a: int| 0 <= a < t.len() ==> #[trigger] t[a] < keys.len()
    &&& forall|a: int, b: int| 0 <= a <= b < t.len() ==> keys[#[trigger] t[a] as int] <= keys[#[trigger] t[b] as int]
}

/// Every node below the link `root` has a key, and the in-order sequence
/// of the nodes is ordered by key.
pub open spec fn keys_sorted(nodes: Seq<RBTreeNode>, keys: Seq<usize>, root: usize) -> bool {
    sorted_by_key(keys, inorder(nodes, root))
}

/// Some node below `root` has the key `k`.
pub open spec fn has_key(nodes: Seq<RBTreeNode>, keys: Seq<usize>, root: usize, k: usize) -> bool {
    exists|x: usize| #[trigger] inorder(nodes, root).contains(x) && keys[x as int] == k
}

/// `r` is where the search for the key `k` below `root` ends: a node with
/// key `k` whose subtree holds every node with that key, or, when no node
/// has the key, the node below which a node with key `k` belongs.
pub open spec fn located(nodes: Seq<RBTreeNode>, keys: Seq<usize>, root: usize, k: usize, r: usize) -> bool {
    let t = inorder(nodes, root);
    let i = t.index_of(r);
    &&& t.contains(r)
    &&& {
        ||| keys[r as int] == k && forall|y: usize| #[trigger] t.contains(y) && keys[y as int] == k ==> inorder(nodes, r).contains(y)
        ||| k < keys[r as int] && nodes[r as int].left == nil() && forall|q: int| 0 <= q < i ==> keys[#[trigger] t[q] as int] < k
        ||| k > keys[r as int] && nodes[r as int].right == nil() && forall|q: int| i < q < t.len() ==> keys[#[trigger] t[q] as int] > k
    }
}

/// The in-order sequence `t2` is `t` with the node `i` inserted at a place
/// after every key below `k` and before every key above it (before every
/// key equal to `k` too, if `first`, after them, if not).
pub open spec fn inserted_by_key(keys: Seq<usize>, t: Seq<usize>, t2: Seq<usize>, i: usize, k: usize, first: bool) -> bool {
    exists|q: int| {
        &&& 0 <= q <= t.len()
        &&& t2 == t.insert(q, i)
        &&& forall|p: int| 0 <= p < q ==> if first { keys[#[trigger] t[p] as int] < k } else { keys[t[p] as int] <= k }
        &&& forall|p: int| q <= p < t.len() ==> if first { keys[#[trigger] t[p] as int] >= k } else { keys[t[p] as int] > k }
    }
}

/// The nodes of the subtree below `x` are the model's places of it.
proof fn lemma_subtree_members(nodes: Seq<RBTreeNode>, root: usize, m: TreeModel, x: usize)
    requires
        shape(nodes, root, m),
        has(m, x),
    ensures
        inorder(nodes, x) == m.seq.subrange((m.lo)(x), (m.hi)(x)),
        forall|y: usize| #[trigger] inorder(nodes, x).contains(y) <==> has(m, y) && (m.lo)(x) <= (m.pos)(y) < (m.hi)(x),
        forall|y: usize| has(m, y) && (m.lo)(x) <= (m.pos)(y) < (m.hi)(x) ==> #[trigger] inorder(nodes, x).index_of(y) == (m.pos)(y) - (m.lo)(x),
{
    lemma_inorder(nodes, root, m);
    lemma_node(nodes, root, m, x);
    assert(m.seq[(m.pos)(x)] == x);
    lemma_tree_member(nodes, root, m, x);
    let s = inorder(nodes, x);
    assert forall|y: usize| #[trigger] s.contains(y) <==> has(m, y) && (m.lo)(x) <= (m.pos)(y) < (m.hi)(x) by {
        if s.contains(y) {
            let j = choose|j: int| 0 <= j < s.len() && s[j] == y;
            assert(m.seq[(m.lo)(x) + j] == y);
        }
        if has(m, y) && (m.lo)(x) <= (m.pos)(y) < (m.hi)(x) {
            assert(s[(m.pos)(y) - (m.lo)(x)] == y);
        }
    }
    assert forall|y: usize| has(m, y) && (m.lo)(x) <= (m.pos)(y) < (m.hi)(x) implies #[trigger] s.index_of(y) == (m.pos)(y) - (m.lo)(x) by {
        let j = (m.pos)(y) - (m.lo)(x);
        assert(s[j] == y);
        assert(s.contains(y));
        let i = s.index_of(y);
        assert(s[i] == y);
        assert(m.seq[(m.lo)(x) + i] == y);
    }
}

impl<'a, L: RBTreeNodeIndexKey> RBTree<'a, L> {
    /// The key of the element `i`.
    fn key(&self, i: usize) -> (r: usize)
        requires
            i < self.keys().len(),
        ensures
            r == self.keys()[i as int],
    {
        *L::key(self.container, i)
    }

    /// Follows the search path for the key `k` from the node `j0`.
    #[verifier::spinoff_prover]
    #[verifier::rlimit(30)]
    fn locate_in(&self, j0: usize, k: usize, Ghost(root): Ghost<usize>, Ghost(m): Ghost<TreeModel>) -> (r: usize)
        requires
            shape(self.nodes(), root, m),
            has(m, j0),
            sorted_range(self.keys(), m, (m.lo)(j0), (m.hi)(j0)),
        ensures
            has(m, r),
            (m.lo)(j0) <= (m.lo)(r) <= (m.pos)(r) < (m.hi)(r) <= (m.hi)(j0),
            ({
                let keys = self.keys();
                ||| kat(keys, m, (m.pos)(r)) == k && forall|q: int| (m.lo)(j0) <= q < (m.hi)(j0) && #[trigger] kat(keys, m, q) == k
                    ==> (m.lo)(r) <= q < (m.hi)(r)
                ||| k < kat(keys, m, (m.pos)(r)) && self.nodes()[r as int].left == nil()
                    && forall|q: int| (m.lo)(j0) <= q < (m.pos)(r) ==> #[trigger] kat(keys, m, q) < k
                ||| k > kat(keys, m, (m.pos)(r)) && self.nodes()[r as int].right == nil()
                    && forall|q: int| (m.pos)(r) < q < (m.hi)(j0) ==> #[trigger] kat(keys, m, q) > k
            }),
    {
        let ghost keys = self.keys();
        let mut j = j0;
        proof {
            lemma_node(self.nodes(), root, m, j);
        }
        loop
            invariant
                shape(self.nodes(), root, m),
                keys == self.keys(),
                has(m, j),
                sorted_range(keys, m, (m.lo)(j0), (m.hi)(j0)),
                (m.lo)(j0) <= (m.lo)(j) <= (m.pos)(j) < (m.hi)(j) <= (m.hi)(j0),
                forall|q: int| (m.lo)(j0) <= q < (m.lo)(j) ==> #[trigger] kat(keys, m, q) < k,
                forall|q: int| (m.hi)(j) <= q < (m.hi)(j0) ==> #[trigger] kat(keys, m, q) > k,
            decreases (m.hi)(j) - (m.lo)(j),
        {
            proof {
                lemma_node(self.nodes(), root, m, j);
                assert(m.seq[(m.pos)(j)] == j);
                assert(m.seq[(m.pos)(j)] < keys.len());
            }
            let kj = self.key(j);
            if k == kj {
                return j;
            } else if k < kj {
                let l = self.node(j).left;
                if l.null() {
                    return j;
                }
                proof {
                    lemma_node(self.nodes(), root, m, l);
                    assert forall|q: int| (m.pos)(j) <= q < (m.hi)(j0) implies #[trigger] kat(keys, m, q) > k by {
                        assert(kat(keys, m, (m.pos)(j)) <= kat(keys, m, q));
                    }
                }
                j = l;
            } else {
                let r = self.node(j).right;
                if r.null() {
                    return j;
                }
                proof {
                    lemma_node(self.nodes(), root, m, r);
                    assert forall|q: int| (m.lo)(j0) <= q <= (m.pos)(j) implies #[trigger] kat(keys, m, q) < k by {
                        assert(kat(keys, m, q) <= kat(keys, m, (m.pos)(j)));
                    }
                }
                j = r;
            }
        }
    }

    /// Where the search for the key `k` in the tree below `root` ends: null
    /// for an empty tree, else as `located` describes.
    pub fn locate(&self, root: usize, k: &usize) -> (r: usize)
        requires
            root == nil() || in_some_tree(self.nodes(), root),
            keys_sorted(self.nodes(), self.keys(), root),
        ensures
            root == nil() ==> r == nil(),
            root != nil() ==> located(self.nodes(), self.keys(), root, *k, r),
    {
        if root.null() {
            return usize::nullptr();
        }
        let ghost tr = choose|tr: usize| tree_valid(self.nodes(), tr) && #[trigger] inorder(self.nodes(), tr).contains(root);
        let ghost m = choose|m: TreeModel| shape(self.nodes(), tr, m);
        proof {
            lemma_tree_member(self.nodes(), tr, m, root);
            lemma_sorted_range(self.nodes(), self.keys(), tr, m, root);
        }
        let r = self.locate_in(root, *k, Ghost(tr), Ghost(m));
        proof {
            lemma_located(self.nodes(), self.keys(), tr, m, root, *k, r);
        }
        r
    }
}

/// Sorted keys below a node are sorted over the model's places of it.
proof fn lemma_sorted_range(nodes: Seq<RBTreeNode>, keys: Seq<usize>, root: usize, m: TreeModel, x: usize)
    requires
        shape(nodes, root, m),
        has(m, x),
        keys_sorted(nodes, keys, x),
    ensures
        sorted_range(keys, m, (m.lo)(x), (m.hi)(x)),
{
    lemma_subtree_members(nodes, root, m, x);
    lemma_node(nodes, root, m, x);
    let t = inorder(nodes, x);
    let lo = (m.lo)(x);
    assert forall|a: int| lo <= a < (m.hi)(x) implies #[trigger] m.seq[a] < keys.len() by {
        assert(t[a - lo] == m.seq[a]);
    }
    assert forall|a: int, b: int| lo <= a <= b < (m.hi)(x) implies #[trigger] kat(keys, m, a) <= #[trigger] kat(keys, m, b) by {
        assert(t[a - lo] == m.seq[a]);
        assert(t[b - lo] == m.seq[b]);
    }
}

/// The end of the search in the model is where the search ends.
proof fn lemma_located(nodes: Seq<RBTreeNode>, keys: Seq<usize>, root: usize, m: TreeModel, x: usize, k: usize, r: usize)
    requires
        shape(nodes, root, m),
        has(m, x),
        has(m, r),
        (m.lo)(x) <= (m.lo)(r) <= (m.pos)(r) < (m.hi)(r) <= (m.hi)(x),
        m.seq[(m.pos)(r)] < keys.len(),
        ({
            ||| kat(keys, m, (m.pos)(r)) == k && forall|q: int| (m.lo)(x) <= q < (m.hi)(x) && #[trigger] kat(keys, m, q) == k
                ==> (m.lo)(r) <= q < (m.hi)(r)
            ||| k < kat(keys, m, (m.pos)(r)) && nodes[r as int].left == nil()
                && forall|q: int| (m.lo)(x) <= q < (m.pos)(r) ==> #[trigger] kat(keys, m, q) < k
            ||| k > kat(keys, m, (m.pos)(r)) && nodes[r as int].right == nil()
                && forall|q: int| (m.pos)(r) < q < (m.hi)(x) ==> #[trigger] kat(keys, m, q) > k
        }),
    ensures
        located(nodes, keys, x, k, r),
{
    lemma_subtree_members(nodes, root, m, x);
    lemma_subtree_members(nodes, root, m, r);
    lemma_node(nodes, root, m, x);
    let t = inorder(nodes, x);
    let lo = (m.lo)(x);
    assert(m.seq[(m.pos)(r)] == r);
    assert(t.contains(r));
    assert(t.index_of(r) == (m.pos)(r) - lo);
    assert(t == m.seq.subrange(lo, (m.hi)(x)));
    assert(t.len() == (m.hi)(x) - lo);
    if kat(keys, m, (m.pos)(r)) == k {
        assert forall|y: usize| #[trigger] t.contains(y) && keys[y as int] == k implies inorder(nodes, r).contains(y) by {
            assert(m.seq[(m.pos)(y)] == y);
            assert(kat(keys, m, (m.pos)(y)) == k);
        }
    } else if k < kat(keys, m, (m.pos)(r)) {
        assert(forall|q: int| (m.lo)(x) <= q < (m.pos)(r) ==> #[trigger] kat(keys, m, q) < k);
        assert forall|q: int| 0 <= q < t.index_of(r) implies keys[#[trigger] t[q] as int] < k by {
            assert(t[q] == m.seq[lo + q]);
            assert(kat(keys, m, lo + q) < k);
        }
    } else {
        assert(forall|q: int| (m.pos)(r) < q < (m.hi)(x) ==> #[trigger] kat(keys, m, q) > k);
        assert forall|q: int| t.index_of(r) < q < t.len() implies keys[#[trigger] t[q] as int] > k by {
            assert(t[q] == m.seq[lo + q]);
            assert(kat(keys, m, lo + q) > k);
        }
    }
}

/// A node below a node of some tree is a node of that tree.
pub proof fn lemma_below_member(nodes: Seq<RBTreeNode>, x: usize, y: usize)
    requires
        in_some_tree(nodes, x),
        inorder(nodes, x).contains(y),
    ensures
        y != nil(),
        y < nodes.len(),
        nodes[y as int].linked(),
        in_some_tree(nodes, y),
{
    let tr = choose|tr: usize| tree_valid(nodes, tr) && #[trigger] inorder(nodes, tr).contains(x);
    let m = choose|m: TreeModel| shape(nodes, tr, m);
    lemma_tree_member(nodes, tr, m, x);
    lemma_subtree_members(nodes, tr, m, x);
    lemma_node(nodes, tr, m, y);
    lemma_inorder(nodes, tr, m);
    assert(m.seq[(m.pos)(y)] == y);
    assert(inorder(nodes, tr).contains(y));
}

/// Inserting a node with key `k` where it fits keeps a sequence ordered.
pub proof fn lemma_insert_sorted(keys: Seq<usize>, t: Seq<usize>, q: int, i: usize)
    requires
        sorted_by_key(keys, t),
        i < keys.len(),
        0 <= q <= t.len(),
        forall|p: int| 0 <= p < q ==> keys[#[trigger] t[p] as int] <= keys[i as int],
        forall|p: int| q <= p < t.len() ==> keys[#[trigger] t[p] as int] >= keys[i as int],
    ensures
        sorted_by_key(keys, t.insert(q, i)),
{
    let t2 = t.insert(q, i);
    assert forall|a: int| 0 <= a < t2.len() implies #[trigger] t2[a] < keys.len() by {
        if a < q {
            assert(t2[a] == t[a]);
        } else if a > q {
            assert(t2[a] == t[a - 1]);
        }
    }
    assert forall|a: int, b: int| 0 <= a <= b < t2.len() implies keys[#[trigger] t2[a] as int] <= keys[#[trigger] t2[b] as int] by {
        let a1 = if a < q { a } else { a - 1 };
        let b1 = if b < q { b } else { b - 1 };
        if a != q && b != q {
            assert(t2[a] == t[a1] && t2[b] == t[b1]);
        } else if a == q && b != q {
            assert(t2[b] == t[b1]);
        } else if a != q && b == q {
            assert(t2[a] == t[a1]);
        }
    }
}

/// When the search for `k` ends at a node with another key, no node has
/// the key `k`.
proof fn lemma_not_found(nodes: Seq<RBTreeNode>, keys: Seq<usize>, root: usize, k: usize, r: usize)
    requires
        keys_sorted(nodes, keys, root),
        located(nodes, keys, root, k, r),
        keys[r as int] != k,
    ensures
        !has_key(nodes, keys, root, k),
        ({
            let t = inorder(nodes, root);
            let i = t.index_of(r);
            &&& 0 <= i < t.len()
            &&& t[i] == r
            &&& k < keys[r as int] ==> forall|p: int| i <= p < t.len() ==> keys[#[trigger] t[p] as int] > k
            &&& k > keys[r as int] ==> forall|p: int| 0 <= p <= i ==> keys[#[trigger] t[p] as int] < k
        }),
{
    let t = inorder(nodes, root);
    let i = t.index_of(r);
    assert(t[i] == r);
    if k < keys[r as int] {
        assert forall|p: int| i <= p < t.len() implies keys[#[trigger] t[p] as int] > k by {
            assert(keys[t[i] as int] <= keys[t[p] as int]);
        }
    } else {
        assert forall|p: int| 0 <= p <= i implies keys[#[trigger] t[p] as int] < k by {
            assert(keys[t[p] as int] <= keys[t[i] as int]);
        }
    }
    if has_key(nodes, keys, root, k) {
        let x = choose|x: usize| #[trigger] inorder(nodes, root).contains(x) && keys[x as int] == k;
        let j = t.index_of(x);
        assert(t[j] == x);
    }
}

impl<'a, L: RBTreeNodeIndexKey> RBTree<'a, L> {
    /// A node with key `k` below `root`, the one where the search for `k`
    /// ends, or null if no node has that key.
    pub fn find(&self, root: usize, k: &usize) -> (r: usize)
        requires
            root == nil() || in_some_tree(self.nodes(), root),
            keys_sorted(self.nodes(), self.keys(), root),
        ensures
            (r == nil()) == !has_key(self.nodes(), self.keys(), root, *k),
            r != nil() ==> located(self.nodes(), self.keys(), root, *k, r) && self.keys()[r as int] == *k,
    {
        let j = self.locate(root, k);
        if j.null() {
            proof {
                if root != nil() {
                    lemma_below_member(self.nodes(), root, j);
                }
                assert(inorder(self.nodes(), root) =~= Seq::<usize>::empty());
            }
            return usize::nullptr();
        }
        proof {
            let t = inorder(self.nodes(), root);
            assert(t[t.index_of(j)] == j);
        }
        if *k != self.key(j) {
            proof {
                lemma_not_found(self.nodes(), self.keys(), root, *k, j);
            }
            return usize::nullptr();
        }
        proof {
            assert(inorder(self.nodes(), root).contains(j));
        }
        j
    }

    /// From a node `i` whose subtree holds every node of the subtree of `x0`
    /// with the key of `i`, the first of those nodes.
    #[verifier::spinoff_prover]
    #[verifier::rlimit(30)]
    fn shift_first(&self, i: usize, Ghost(x0): Ghost<usize>, Ghost(root): Ghost<usize>, Ghost(m): Ghost<TreeModel>) -> (r: usize)
        requires
            shape(self.nodes(), root, m),
            has(m, x0),
            has(m, i),
            sorted_range(self.keys(), m, (m.lo)(x0), (m.hi)(x0)),
            (m.lo)(x0) <= (m.lo)(i) <= (m.pos)(i) < (m.hi)(i) <= (m.hi)(x0),
            forall|q: int| (m.lo)(x0) <= q < (m.hi)(x0) && #[trigger] kat(self.keys(), m, q) == self.keys()[i as int]
                ==> (m.lo)(i) <= q < (m.hi)(i),
        ensures
            has(m, r),
            (m.lo)(x0) <= (m.pos)(r) < (m.hi)(x0),
            self.keys()[r as int] == self.keys()[i as int],
            forall|q: int| (m.lo)(x0) <= q < (m.pos)(r) ==> #[trigger] kat(self.keys(), m, q) < self.keys()[i as int],
    {
        let ghost keys = self.keys();
        proof {
            lemma_node(self.nodes(), root, m, i);
            assert(m.seq[(m.pos)(i)] == i);
            assert(m.seq[(m.pos)(i)] < keys.len());
        }
        let k = self.key(i);
        proof {
            assert forall|q: int| (m.lo)(x0) <= q < (m.lo)(i) implies #[trigger] kat(keys, m, q) < k by {
                assert(kat(keys, m, q) <= kat(keys, m, (m.pos)(i)));
            }
        }
        let mut i = i;
        loop
            invariant
                shape(self.nodes(), root, m),
                keys == self.keys(),
                has(m, x0),
                has(m, i),
                sorted_range(keys, m, (m.lo)(x0), (m.hi)(x0)),
                (m.lo)(x0) <= (m.lo)(i) <= (m.pos)(i) < (m.hi)(i) <= (m.hi)(x0),
                m.seq[(m.pos)(i)] == i,
                keys[i as int] == k,
                forall|q: int| (m.lo)(x0) <= q < (m.lo)(i) ==> #[trigger] kat(keys, m, q) < k,
            ensures
                has(m, i),
                (m.lo)(x0) <= (m.pos)(i) < (m.hi)(x0),
                keys[i as int] == k,
                forall|q: int| (m.lo)(x0) <= q < (m.pos)(i) ==> #[trigger] kat(keys, m, q) < k,
            decreases (m.hi)(i) - (m.lo)(i),
        {
            proof {
                lemma_node(self.nodes(), root, m, i);
            }
            let l = self.node(i).left;
            if l.null() {
                break;
            }
            proof {
                lemma_node(self.nodes(), root, m, l);
            }
            let j = self.locate_in(l, k, Ghost(root), Ghost(m));
            proof {
                lemma_node(self.nodes(), root, m, j);
                assert(m.seq[(m.pos)(j)] == j);
                assert(m.seq[(m.pos)(j)] < keys.len());
            }
            if k != self.key(j) {
                proof {
                    assert forall|q: int| (m.lo)(x0) <= q < (m.pos)(i) implies #[trigger] kat(keys, m, q) < k by {
                        if q >= (m.lo)(i) {
                            assert(kat(keys, m, q) <= kat(keys, m, (m.pos)(i)));
                            if kat(keys, m, q) == k {
                                assert(kat(keys, m, q) <= kat(keys, m, (m.pos)(j)) || kat(keys, m, (m.pos)(j)) <= kat(keys, m, q));
                            }
                        }
                    }
                }
                break;
            }
            proof {
                assert forall|q: int| (m.lo)(x0) <= q < (m.lo)(j) implies #[trigger] kat(keys, m, q) < k by {
                    if q >= (m.lo)(i) {
                        assert(kat(keys, m, q) <= kat(keys, m, (m.pos)(j)));
                    }
                }
            }
            i = j;
        }
        i
    }

    /// From a node `i` whose subtree holds every node of the subtree of `x0`
    /// with the key of `i`, the last of those nodes.
    #[verifier::spinoff_prover]
    #[verifier::rlimit(30)]
    fn shift_last(&self, i: usize, Ghost(x0): Ghost<usize>, Ghost(root): Ghost<usize>, Ghost(m): Ghost<TreeModel>) -> (r: usize)
        requires
            shape(self.nodes(), root, m),
            has(m, x0),
            has(m, i),
            sorted_range(self.keys(), m, (m.lo)(x0), (m.hi)(x0)),
            (m.lo)(x0) <= (m.lo)(i) <= (m.pos)(i) < (m.hi)(i) <= (m.hi)(x0),
            forall|q: int| (m.lo)(x0) <= q < (m.hi)(x0) && #[trigger] kat(self.keys(), m, q) == self.keys()[i as int]
                ==> (m.lo)(i) <= q < (m.hi)(i),
        ensures
            has(m, r),
            (m.lo)(x0) <= (m.pos)(r) < (m.hi)(x0),
            self.keys()[r as int] == self.keys()[i as int],
            forall|q: int| (m.pos)(r) < q < (m.hi)(x0) ==> #[trigger] kat(self.keys(), m, q) > self.keys()[i as int],
    {
        let ghost keys = self.keys();
        proof {
            lemma_node(self.nodes(), root, m, i);
            assert(m.seq[(m.pos)(i)] == i);
            assert(m.seq[(m.pos)(i)] < keys.len());
        }
        let k = self.key(i);
        proof {
            assert forall|q: int| (m.hi)(i) <= q < (m.hi)(x0) implies #[trigger] kat(keys, m, q) > k by {
                assert(kat(keys, m, (m.pos)(i)) <= kat(keys, m, q));
            }
        }
        let mut i = i;
        loop
            invariant
                shape(self.nodes(), root, m),
                keys == self.keys(),
                has(m, x0),
                has(m, i),
                sorted_range(keys, m, (m.lo)(x0), (m.hi)(x0)),
                (m.lo)(x0) <= (m.lo)(i) <= (m.pos)(i) < (m.hi)(i) <= (m.hi)(x0),
                m.seq[(m.pos)(i)] == i,
                keys[i as int] == k,
                forall|q: int| (m.hi)(i) <= q < (m.hi)(x0) ==> #[trigger] kat(keys, m, q) > k,
            ensures
                has(m, i),
                (m.lo)(x0) <= (m.pos)(i) < (m.hi)(x0),
                keys[i as int] == k,
                forall|q: int| (m.pos)(i) < q < (m.hi)(x0) ==> #[trigger] kat(keys, m, q) > k,
            decreases (m.hi)(i) - (m.lo)(i),
        {
            proof {
                lemma_node(self.nodes(), root, m, i);
            }
            let r = self.node(i).right;
            if r.null() {
                break;
            }
            proof {
                lemma_node(self.nodes(), root, m, r);
            }
            let j = self.locate_in(r, k, Ghost(root), Ghost(m));
            proof {
                lemma_node(self.nodes(), root, m, j);
                assert(m.seq[(m.pos)(j)] == j);
                assert(m.seq[(m.pos)(j)] < keys.len());
            }
            if k != self.key(j) {
                proof {
                    assert forall|q: int| (m.pos)(i) < q < (m.hi)(x0) implies #[trigger] kat(keys, m, q) > k by {
                        if q < (m.hi)(i) {
                            assert(kat(keys, m, (m.pos)(i)) <= kat(keys, m, q));
                            if kat(keys, m, q) == k {
                                assert(kat(keys, m, q) <= kat(keys, m, (m.pos)(j)) || kat(keys, m, (m.pos)(j)) <= kat(keys, m, q));
                            }
                        }
                    }
                }
                break;
            }
            proof {
                assert forall|q: int| (m.hi)(j) <= q < (m.hi)(x0) implies #[trigger] kat(keys, m, q) > k by {
                    if q < (m.hi)(i) {
                        assert(kat(keys, m, (m.pos)(j)) <= kat(keys, m, q));
                    }
                }
            }
            i = j;
        }
        i
    }

    /// The first node with key `k` in the in-order sequence below `root`, or
    /// null if no node has that key.
    pub fn find_first(&self, root: usize, k: &usize) -> (r: usize)
        requires
            root == nil() || in_some_tree(self.nodes(), root),
            keys_sorted(self.nodes(), self.keys(), root),
        ensures
            (r == nil()) == !has_key(self.nodes(), self.keys(), root, *k),
            r != nil() ==> {
                let t = inorder(self.nodes(), root);
                &&& t.contains(r)
                &&& self.keys()[r as int] == *k
                &&& forall|q: int| 0 <= q < t.index_of(r) ==> self.keys()[#[trigger] t[q] as int] < *k
            },
    {
        let j = self.find(root, k);
        if j.null() {
            return j;
        }
        let ghost tr = choose|tr: usize| tree_valid(self.nodes(), tr) && #[trigger] inorder(self.nodes(), tr).contains(root);
        let ghost m = choose|m: TreeModel| shape(self.nodes(), tr, m);
        proof {
            lemma_found_in_model(self.nodes(), self.keys(), tr, m, root, *k, j);
        }
        let r = self.shift_first(j, Ghost(root), Ghost(tr), Ghost(m));
        proof {
            lemma_subtree_members(self.nodes(), tr, m, root);
            lemma_node(self.nodes(), tr, m, root);
            let t = inorder(self.nodes(), root);
            let lo = (m.lo)(root);
            lemma_node(self.nodes(), tr, m, r);
            assert(m.seq[(m.pos)(r)] == r);
            assert(t.index_of(r) == (m.pos)(r) - lo);
            assert forall|q: int| 0 <= q < t.index_of(r) implies self.keys()[#[trigger] t[q] as int] < *k by {
                assert(t[q] == m.seq[lo + q]);
                assert(kat(self.keys(), m, lo + q) < *k);
            }
        }
        r
    }

    /// The last node with key `k` in the in-order sequence below `root`, or
    /// null if no node has that key.
    pub fn find_last(&self, root: usize, k: &usize) -> (r: usize)
        requires
            root == nil() || in_some_tree(self.nodes(), root),
            keys_sorted(self.nodes(), self.keys(), root),
        ensures
            (r == nil()) == !has_key(self.nodes(), self.keys(), root, *k),
            r != nil() ==> {
                let t = inorder(self.nodes(), root);
                &&& t.contains(r)
                &&& self.keys()[r as int] == *k
                &&& forall|q: int| t.index_of(r) < q < t.len() ==> self.keys()[#[trigger] t[q] as int] > *k
            },
    {
        let j = self.find(root, k);
        if j.null() {
            return j;
        }
        let ghost tr = choose|tr: usize| tree_valid(self.nodes(), tr) && #[trigger] inorder(self.nodes(), tr).contains(root);
        let ghost m = choose|m: TreeModel| shape(self.nodes(), tr, m);
        proof {
            lemma_found_in_model(self.nodes(), self.keys(), tr, m, root, *k, j);
        }
        let r = self.shift_last(j, Ghost(root), Ghost(tr), Ghost(m));
        proof {
            lemma_subtree_members(self.nodes(), tr, m, root);
            lemma_node(self.nodes(), tr, m, root);
            let t = inorder(self.nodes(), root);
            let lo = (m.lo)(root);
            lemma_node(self.nodes(), tr, m, r);
            assert(m.seq[(m.pos)(r)] == r);
            assert(t.index_of(r) == (m.pos)(r) - lo);
            assert forall|q: int| t.index_of(r) < q < t.len() implies self.keys()[#[trigger] t[q] as int] > *k by {
                assert(t[q] == m.seq[lo + q]);
                assert(kat(self.keys(), m, lo + q) > *k);
            }
        }
        r
    }
}

/// A node whose place lies in the subtree of `x` has its subtree inside
/// that of `x`.
pub proof fn lemma_nested(nodes: Seq<RBTreeNode>, root: usize, m: TreeModel, x: usize, y: usize)
    requires
        shape(nodes, root, m),
        has(m, x),
        has(m, y),
        (m.lo)(x) <= (m.pos)(y) < (m.hi)(x),
    ensures
        (m.lo)(x) <= (m.lo)(y),
        (m.hi)(y) <= (m.hi)(x),
    decreases (m.hi)(x) - (m.lo)(x),
{
    lemma_node(nodes, root, m, x);
    lemma_node(nodes, root, m, y);
    if x != y {
        assert(m.seq[(m.pos)(x)] == x && m.seq[(m.pos)(y)] == y);
        let l = nodes[x as int].left;
        let r = nodes[x as int].right;
        if (m.pos)(y) < (m.pos)(x) {
            lemma_node(nodes, root, m, l);
            lemma_nested(nodes, root, m, l, y);
        } else {
            lemma_node(nodes, root, m, r);
            lemma_nested(nodes, root, m, r, y);
        }
    }
}

/// A node found by the search for `k` below `x`, seen in the tree's model.
proof fn lemma_found_in_model(nodes: Seq<RBTreeNode>, keys: Seq<usize>, tr: usize, m: TreeModel, x: usize, k: usize, j: usize)
    requires
        shape(nodes, tr, m),
        inorder(nodes, tr).contains(x),
        keys_sorted(nodes, keys, x),
        located(nodes, keys, x, k, j),
        keys[j as int] == k,
    ensures
        has(m, x),
        has(m, j),
        sorted_range(keys, m, (m.lo)(x), (m.hi)(x)),
        (m.lo)(x) <= (m.lo)(j) <= (m.pos)(j) < (m.hi)(j) <= (m.hi)(x),
        forall|q: int| (m.lo)(x) <= q < (m.hi)(x) && #[trigger] kat(keys, m, q) == keys[j as int] ==> (m.lo)(j) <= q < (m.hi)(j),
{
    lemma_tree_member(nodes, tr, m, x);
    lemma_subtree_members(nodes, tr, m, x);
    lemma_sorted_range(nodes, keys, tr, m, x);
    assert(has(m, j));
    lemma_subtree_members(nodes, tr, m, j);
    lemma_node(nodes, tr, m, j);
    lemma_nested(nodes, tr, m, x, j);
    assert forall|q: int| (m.lo)(x) <= q < (m.hi)(x) && #[trigger] kat(keys, m, q) == keys[j as int] implies (m.lo)(j) <= q < (m.hi)(j) by {
        let y = m.seq[q];
        lemma_node(nodes, tr, m, x);
        assert(has(m, y));
        assert(inorder(nodes, x).contains(y));
        assert(inorder(nodes, j).contains(y));
    }
}

/// Inserting where every key before is below `k` and every key after is
/// above it.
proof fn lemma_inserted_at(keys: Seq<usize>, t: Seq<usize>, q: int, i: usize, k: usize)
    requires
        sorted_by_key(keys, t),
        i < keys.len(),
        keys[i as int] == k,
        0 <= q <= t.len(),
        forall|p: int| 0 <= p < q ==> keys[#[trigger] t[p] as int] < k,
        forall|p: int| q <= p < t.len() ==> keys[#[trigger] t[p] as int] > k,
    ensures
        sorted_by_key(keys, t.insert(q, i)),
        inserted_by_key(keys, t, t.insert(q, i), i, k, true),
        inserted_by_key(keys, t, t.insert(q, i), i, k, false),
{
    lemma_insert_sorted(keys, t, q, i);
}

/// Witnesses `inserted_by_key` at the place `q`.
proof fn lemma_by_key_intro(keys: Seq<usize>, t: Seq<usize>, i: usize, k: usize, first: bool, q: int)
    requires
        0 <= q <= t.len(),
        forall|p: int| 0 <= p < q ==> if first { keys[#[trigger] t[p] as int] < k } else { keys[t[p] as int] <= k },
        forall|p: int| q <= p < t.len() ==> if first { keys[#[trigger] t[p] as int] >= k } else { keys[t[p] as int] > k },
    ensures
        inserted_by_key(keys, t, t.insert(q, i), i, k, first),
{
}

/// A tree with a node of key `k` is not empty.
proof fn lemma_nonempty_root(nodes: Seq<RBTreeNode>, keys: Seq<usize>, root: usize, k: usize)
    requires
        tree_valid(nodes, root),
        has_key(nodes, keys, root, k),
    ensures
        root != nil(),
        inorder(nodes, root).contains(root),
        in_some_tree(nodes, root),
{
    if root == nil() {
        assert(inorder(nodes, root) =~= Seq::<usize>::empty());
    }
    lemma_root_member(nodes, root);
}

/// A non-null root of a well-formed tree is a node of some tree.
proof fn lemma_root_member(nodes: Seq<RBTreeNode>, root: usize)
    requires
        tree_valid(nodes, root),
        root != nil(),
    ensures
        inorder(nodes, root).contains(root),
        in_some_tree(nodes, root),
{
    let m = choose|m: TreeModel| shape(nodes, root, m);
    lemma_inorder(nodes, root, m);
    assert(m.seq[(m.pos)(root)] == root);
    assert(tree_valid(nodes, root) && inorder(nodes, root).contains(root));
}

impl<'a, L: RBTreeNodeIndexKey> RBTreeMut<'a, L> {
    /// Finds the node where the search for the key of `i` ends if it has
    /// that key; otherwise inserts `i` in key order and returns null.
    #[verifier::spinoff_prover]
    #[verifier::rlimit(30)]
    pub fn find_or_insert(&mut self, root: &mut usize, i: usize) -> (r: usize)
        requires
            rb_valid(old(self).nodes(), *old(root)),
            keys_sorted(old(self).nodes(), old(self).keys(), *old(root)),
            i != nil(),
            i < old(self).nodes().len(),
            i < ptr_bound(),
            i < old(self).keys().len(),
            old(self).nodes()[i as int].is_detached(),
        ensures
            *final(final(self).container) == *final(old(self).container),
            final(self).nodes().len() == old(self).nodes().len(),
            final(self).keys() == old(self).keys(),
            has_key(old(self).nodes(), old(self).keys(), *old(root), old(self).keys()[i as int]) ==> {
                &&& located(old(self).nodes(), old(self).keys(), *old(root), old(self).keys()[i as int], r)
                &&& old(self).keys()[r as int] == old(self).keys()[i as int]
                &&& final(self).nodes() == old(self).nodes()
                &&& *final(root) == *old(root)
            },
            !has_key(old(self).nodes(), old(self).keys(), *old(root), old(self).keys()[i as int]) ==> {
                &&& r == nil()
                &&& rb_valid(final(self).nodes(), *final(root))
                &&& keys_sorted(final(self).nodes(), final(self).keys(), *final(root))
                &&& inserted_by_key(old(self).keys(), inorder(old(self).nodes(), *old(root)), inorder(final(self).nodes(), *final(root)), i, old(self).keys()[i as int], true)
                &&& inserted_by_key(old(self).keys(), inorder(old(self).nodes(), *old(root)), inorder(final(self).nodes(), *final(root)), i, old(self).keys()[i as int], false)
                &&& views(final(self).nodes()) == vinsert_at(old(self).nodes(), *old(root), inorder(final(self).nodes(), *final(root)).index_of(i), i).0
                &&& *final(root) == vinsert_at(old(self).nodes(), *old(root), inorder(final(self).nodes(), *final(root)).index_of(i), i).1
            },
            forall|x: usize| x < old(self).nodes().len() && x != i && !inorder(old(self).nodes(), *old(root)).contains(x)
                ==> #[trigger] final(self).nodes()[x as int] == old(self).nodes()[x as int],
    {
        let ghost nodes0 = self.nodes();
        let ghost keys = self.keys();
        let ghost t = inorder(nodes0, *root);
        proof {
            if *root != nil() {
                lemma_root_member(nodes0, *root);
            }
        }
        let k = self.to_immut().key(i);
        let j = self.to_immut().locate(*root, &k);
        if j.null() {
            proof {
                if *root != nil() {
                    lemma_below_member(nodes0, *root, j);
                }
                assert(t =~= Seq::<usize>::empty());
                lemma_inserted_at(keys, t, 0, i, k);
                assert(t.insert(0, i) =~= seq![i]);
                assert(seq![i][0] == i);
            }
            let p = *root;
            self.insert_left(root, p, i);
            return usize::nullptr();
        }
        proof {
            lemma_below_member(nodes0, *root, j);
            assert(t[t.index_of(j)] == j);
        }
        let kj = self.to_immut().key(j);
        if k == kj {
            proof {
                assert(t.contains(j));
            }
            return j;
        }
        proof {
            lemma_not_found(nodes0, keys, *root, k, j);
        }
        let ghost root0 = *root;
        let ghost m = choose|m: TreeModel| rb_model(nodes0, root0, m);
        proof {
            lemma_tree_member(nodes0, root0, m, j);
            lemma_node(nodes0, root0, m, j);
            lemma_not_in_tree(nodes0, root0, m, i);
            assert(t[t.index_of(j)] == j);
        }
        if k < kj {
            self.insert_left(root, j, i);
            proof {
                lemma_inserted_at(keys, t, t.index_of(j), i, k);
                lemma_insert_index(t, t.index_of(j), i);
            }
        } else {
            proof {
                if t.index_of(j) + 1 < t.len() {
                    lemma_node(nodes0, root0, m, root0);
                    lemma_adjacent(nodes0, root0, m, root0, t.index_of(j));
                    let y = t[t.index_of(j) + 1];
                    lemma_node(nodes0, root0, m, y);
                    assert(views(nodes0)[y as int].left == nodes0[y as int].left);
                }
            }
            self.insert_right(root, j, i);
            proof {
                lemma_inserted_at(keys, t, t.index_of(j) + 1, i, k);
                lemma_insert_index(t, t.index_of(j) + 1, i);
            }
        }
        usize::nullptr()
    }

    /// Inserts `i` in key order; among nodes with the same key, its place
    /// is after the node where the search for the key ends.
    pub fn insert(&mut self, root: &mut usize, i: usize)
        requires
            rb_valid(old(self).nodes(), *old(root)),
            keys_sorted(old(self).nodes(), old(self).keys(), *old(root)),
            i != nil(),
            i < old(self).nodes().len(),
            i < ptr_bound(),
            i < old(self).keys().len(),
            old(self).nodes()[i as int].is_detached(),
        ensures
            *final(final(self).container) == *final(old(self).container),
            rb_valid(final(self).nodes(), *final(root)),
            keys_sorted(final(self).nodes(), final(self).keys(), *final(root)),
            final(self).nodes().len() == old(self).nodes().len(),
            final(self).keys() == old(self).keys(),
            forall|x: usize| x < old(self).nodes().len() && x != i && !inorder(old(self).nodes(), *old(root)).contains(x)
                ==> #[trigger] final(self).nodes()[x as int] == old(self).nodes()[x as int],
            has_key(old(self).nodes(), old(self).keys(), *old(root), old(self).keys()[i as int]) ==> exists|j: usize| {
                &&& #[trigger] located(old(self).nodes(), old(self).keys(), *old(root), old(self).keys()[i as int], j)
                &&& old(self).keys()[j as int] == old(self).keys()[i as int]
                &&& inorder(final(self).nodes(), *final(root)) == inorder(old(self).nodes(), *old(root)).insert(
                    inorder(old(self).nodes(), *old(root)).index_of(j) + 1,
                    i,
                )
            },
            !has_key(old(self).nodes(), old(self).keys(), *old(root), old(self).keys()[i as int]) ==> inserted_by_key(
                old(self).keys(),
                inorder(old(self).nodes(), *old(root)),
                inorder(final(self).nodes(), *final(root)),
                i,
                old(self).keys()[i as int],
                true,
            ),
            views(final(self).nodes()) == vinsert_at(old(self).nodes(), *old(root), inorder(final(self).nodes(), *final(root)).index_of(i), i).0,
            *final(root) == vinsert_at(old(self).nodes(), *old(root), inorder(final(self).nodes(), *final(root)).index_of(i), i).1,
    {
        self.insert_option(root, i);
    }

    fn insert_option(&mut self, root: &mut usize, i: usize) -> (r: Option<()>)
        requires
            rb_valid(old(self).nodes(), *old(root)),
            keys_sorted(old(self).nodes(), old(self).keys(), *old(root)),
            i != nil(),
            i < old(self).nodes().len(),
            i < ptr_bound(),
            i < old(self).keys().len(),
            old(self).nodes()[i as int].is_detached(),
        ensures
            *final(final(self).container) == *final(old(self).container),
            (r is Some) == has_key(old(self).nodes(), old(self).keys(), *old(root), old(self).keys()[i as int]),
            rb_valid(final(self).nodes(), *final(root)),
            keys_sorted(final(self).nodes(), final(self).keys(), *final(root)),
            final(self).nodes().len() == old(self).nodes().len(),
            final(self).keys() == old(self).keys(),
            forall|x: usize| x < old(self).nodes().len() && x != i && !inorder(old(self).nodes(), *old(root)).contains(x)
                ==> #[trigger] final(self).nodes()[x as int] == old(self).nodes()[x as int],
            has_key(old(self).nodes(), old(self).keys(), *old(root), old(self).keys()[i as int]) ==> exists|j: usize| {
                &&& #[trigger] located(old(self).nodes(), old(self).keys(), *old(root), old(self).keys()[i as int], j)
                &&& old(self).keys()[j as int] == old(self).keys()[i as int]
                &&& inorder(final(self).nodes(), *final(root)) == inorder(old(self).nodes(), *old(root)).insert(
                    inorder(old(self).nodes(), *old(root)).index_of(j) + 1,
                    i,
                )
            },
            !has_key(old(self).nodes(), old(self).keys(), *old(root), old(self).keys()[i as int]) ==> inserted_by_key(
                old(self).keys(),
                inorder(old(self).nodes(), *old(root)),
                inorder(final(self).nodes(), *final(root)),
                i,
                old(self).keys()[i as int],
                true,
            ),
            views(final(self).nodes()) == vinsert_at(old(self).nodes(), *old(root), inorder(final(self).nodes(), *final(root)).index_of(i), i).0,
            *final(root) == vinsert_at(old(self).nodes(), *old(root), inorder(final(self).nodes(), *final(root)).index_of(i), i).1,
    {
        let ghost nodes0 = self.nodes();
        let ghost keys = self.keys();
        let ghost t = inorder(nodes0, *root);
        let j = self.find_or_insert(root, i).to_option()?;
        proof {
            lemma_nonempty_root(nodes0, keys, *root, keys[i as int]);
            lemma_below_member(nodes0, *root, j);
            assert(t[t.index_of(j)] == j);
            let q = t.index_of(j) + 1;
            assert forall|p: int| 0 <= p < q implies keys[#[trigger] t[p] as int] <= keys[i as int] by {
                assert(keys[t[p] as int] <= keys[t[t.index_of(j)] as int]);
            }
            assert forall|p: int| q <= p < t.len() implies keys[#[trigger] t[p] as int] >= keys[i as int] by {
                assert(keys[t[t.index_of(j)] as int] <= keys[t[p] as int]);
            }
            lemma_insert_sorted(keys, t, q, i);
        }
        let ghost root1 = *root;
        proof {
            let m = choose|m: TreeModel| rb_model(nodes0, root1, m);
            lemma_not_in_tree(nodes0, root1, m, i);
            lemma_inorder(nodes0, root1, m);
        }
        self.insert_after(root, j, i);
        proof {
            lemma_insert_index(t, t.index_of(j) + 1, i);
        }
        Some(())
    }

    /// Inserts `i` in key order, before every node with the same key.
    pub fn insert_first(&mut self, root: &mut usize, i: usize)
        requires
            rb_valid(old(self).nodes(), *old(root)),
            keys_sorted(old(self).nodes(), old(self).keys(), *old(root)),
            i != nil(),
            i < old(self).nodes().len(),
            i < ptr_bound(),
            i < old(self).keys().len(),
            old(self).nodes()[i as int].is_detached(),
        ensures
            *final(final(self).container) == *final(old(self).container),
            rb_valid(final(self).nodes(), *final(root)),
            keys_sorted(final(self).nodes(), final(self).keys(), *final(root)),
            final(self).nodes().len() == old(self).nodes().len(),
            final(self).keys() == old(self).keys(),
            forall|x: usize| x < old(self).nodes().len() && x != i && !inorder(old(self).nodes(), *old(root)).contains(x)
                ==> #[trigger] final(self).nodes()[x as int] == old(self).nodes()[x as int],
            inserted_by_key(
                old(self).keys(),
                inorder(old(self).nodes(), *old(root)),
                inorder(final(self).nodes(), *final(root)),
                i,
                old(self).keys()[i as int],
                true,
            ),
            views(final(self).nodes()) == vinsert_at(old(self).nodes(), *old(root), inorder(final(self).nodes(), *final(root)).index_of(i), i).0,
            *final(root) == vinsert_at(old(self).nodes(), *old(root), inorder(final(self).nodes(), *final(root)).index_of(i), i).1,
    {
        self.insert_first_option(root, i);
    }

    fn insert_first_option(&mut self, root: &mut usize, i: usize) -> (r: Option<()>)
        requires
            rb_valid(old(self).nodes(), *old(root)),
            keys_sorted(old(self).nodes(), old(self).keys(), *old(root)),
            i != nil(),
            i < old(self).nodes().len(),
            i < ptr_bound(),
            i < old(self).keys().len(),
            old(self).nodes()[i as int].is_detached(),
        ensures
            *final(final(self).container) == *final(old(self).container),
            (r is Some) == has_key(old(self).nodes(), old(self).keys(), *old(root), old(self).keys()[i as int]),
            rb_valid(final(self).nodes(), *final(root)),
            keys_sorted(final(self).nodes(), final(self).keys(), *final(root)),
            final(self).nodes().len() == old(self).nodes().len(),
            final(self).keys() == old(self).keys(),
            forall|x: usize| x < old(self).nodes().len() && x != i && !inorder(old(self).nodes(), *old(root)).contains(x)
                ==> #[trigger] final(self).nodes()[x as int] == old(self).nodes()[x as int],
            inserted_by_key(
                old(self).keys(),
                inorder(old(self).nodes(), *old(root)),
                inorder(final(self).nodes(), *final(root)),
                i,
                old(self).keys()[i as int],
                true,
            ),
            views(final(self).nodes()) == vinsert_at(old(self).nodes(), *old(root), inorder(final(self).nodes(), *final(root)).index_of(i), i).0,
            *final(root) == vinsert_at(old(self).nodes(), *old(root), inorder(final(self).nodes(), *final(root)).index_of(i), i).1,
    {
        let ghost nodes0 = self.nodes();
        let ghost keys = self.keys();
        let ghost t = inorder(nodes0, *root);
        let j = self.find_or_insert(root, i).to_option()?;
        let ghost rt = *root;
        let ghost m = choose|m: TreeModel| shape(nodes0, rt, m);
        proof {
            lemma_nonempty_root(nodes0, keys, rt, keys[i as int]);
            lemma_below_member(nodes0, rt, j);
            lemma_found_in_model(nodes0, keys, rt, m, rt, keys[i as int], j);
        }
        let j = self.to_immut().shift_first(j, Ghost(rt), Ghost(rt), Ghost(m));
        proof {
            lemma_inorder(nodes0, rt, m);
            lemma_node(nodes0, rt, m, rt);
            lemma_node(nodes0, rt, m, j);
            assert(m.seq[(m.pos)(j)] == j);
            crate::rbtree::insert::lemma_index_of(m, j);
            let q = (m.pos)(j);
            assert forall|p: int| 0 <= p < q implies keys[#[trigger] t[p] as int] <= keys[i as int] by {
                assert(kat(keys, m, p) < keys[i as int]);
            }
            assert forall|p: int| q <= p < t.len() implies keys[#[trigger] t[p] as int] >= keys[i as int] by {
                assert(kat(keys, m, q) <= kat(keys, m, p));
            }
            lemma_insert_sorted(keys, t, q, i);
            assert forall|p: int| 0 <= p < q implies keys[#[trigger] t[p] as int] < keys[i as int] by {
                assert(kat(keys, m, p) < keys[i as int]);
            }
            lemma_by_key_intro(keys, t, i, keys[i as int], true, q);
            assert(t.insert(q, i) == t.insert(t.index_of(j), i));
        }
        proof {
            lemma_not_in_tree(nodes0, rt, m, i);
        }
        self.insert_before(root, j, i);
        proof {
            lemma_insert_index(t, t.index_of(j), i);
        }
        Some(())
    }

    /// Inserts `i` in key order, after every node with the same key.
    pub fn insert_last(&mut self, root: &mut usize, i: usize)
        requires
            rb_valid(old(self).nodes(), *old(root)),
            keys_sorted(old(self).nodes(), old(self).keys(), *old(root)),
            i != nil(),
            i < old(self).nodes().len(),
            i < ptr_bound(),
            i < old(self).keys().len(),
            old(self).nodes()[i as int].is_detached(),
        ensures
            *final(final(self).container) == *final(old(self).container),
            rb_valid(final(self).nodes(), *final(root)),
            keys_sorted(final(self).nodes(), final(self).keys(), *final(root)),
            final(self).nodes().len() == old(self).nodes().len(),
            final(self).keys() == old(self).keys(),
            forall|x: usize| x < old(self).nodes().len() && x != i && !inorder(old(self).nodes(), *old(root)).contains(x)
                ==> #[trigger] final(self).nodes()[x as int] == old(self).nodes()[x as int],
            inserted_by_key(
                old(self).keys(),
                inorder(old(self).nodes(), *old(root)),
                inorder(final(self).nodes(), *final(root)),
                i,
                old(self).keys()[i as int],
                false,
            ),
            views(final(self).nodes()) == vinsert_at(old(self).nodes(), *old(root), inorder(final(self).nodes(), *final(root)).index_of(i), i).0,
            *final(root) == vinsert_at(old(self).nodes(), *old(root), inorder(final(self).nodes(), *final(root)).index_of(i), i).1,
    {
        self.insert_last_option(root, i);
    }

    fn insert_last_option(&mut self, root: &mut usize, i: usize) -> (r: Option<()>)
        requires
            rb_valid(old(self).nodes(), *old(root)),
            keys_sorted(old(self).nodes(), old(self).keys(), *old(root)),
            i != nil(),
            i < old(self).nodes().len(),
            i < ptr_bound(),
            i < old(self).keys().len(),
            old(self).nodes()[i as int].is_detached(),
        ensures
            *final(final(self).container) == *final(old(self).container),
            (r is Some) == has_key(old(self).nodes(), old(self).keys(), *old(root), old(self).keys()[i as int]),
            rb_valid(final(self).nodes(), *final(root)),
            keys_sorted(final(self).nodes(), final(self).keys(), *final(root)),
            final(self).nodes().len() == old(self).nodes().len(),
            final(self).keys() == old(self).keys(),
            forall|x: usize| x < old(self).nodes().len() && x != i && !inorder(old(self).nodes(), *old(root)).contains(x)
                ==> #[trigger] final(self).nodes()[x as int] == old(self).nodes()[x as int],
            inserted_by_key(
                old(self).keys(),
                inorder(old(self).nodes(), *old(root)),
                inorder(final(self).nodes(), *final(root)),
                i,
                old(self).keys()[i as int],
                false,
            ),
            views(final(self).nodes()) == vinsert_at(old(self).nodes(), *old(root), inorder(final(self).nodes(), *final(root)).index_of(i), i).0,
            *final(root) == vinsert_at(old(self).nodes(), *old(root), inorder(final(self).nodes(), *final(root)).index_of(i), i).1,
    {
        let ghost nodes0 = self.nodes();
        let ghost keys = self.keys();
        let ghost t = inorder(nodes0, *root);
        let j = self.find_or_insert(root, i).to_option()?;
        let ghost rt = *root;
        let ghost m = choose|m: TreeModel| shape(nodes0, rt, m);
        proof {
            lemma_nonempty_root(nodes0, keys, rt, keys[i as int]);
            lemma_below_member(nodes0, rt, j);
            lemma_found_in_model(nodes0, keys, rt, m, rt, keys[i as int], j);
        }
        let j = self.to_immut().shift_last(j, Ghost(rt), Ghost(rt), Ghost(m));
        proof {
            lemma_inorder(nodes0, rt, m);
            lemma_node(nodes0, rt, m, rt);
            lemma_node(nodes0, rt, m, j);
            assert(m.seq[(m.pos)(j)] == j);
            crate::rbtree::insert::lemma_index_of(m, j);
            let q = (m.pos)(j) + 1;
            assert forall|p: int| 0 <= p < q implies keys[#[trigger] t[p] as int] <= keys[i as int] by {
                assert(kat(keys, m, p) <= kat(keys, m, (m.pos)(j)));
            }
            assert forall|p: int| q <= p < t.len() implies keys[#[trigger] t[p] as int] >= keys[i as int] by {
                assert(kat(keys, m, p) > keys[i as int]);
            }
            lemma_insert_sorted(keys, t, q, i);
            assert forall|p: int| q <= p < t.len() implies keys[#[trigger] t[p] as int] > keys[i as int] by {
                assert(kat(keys, m, p) > keys[i as int]);
            }
            lemma_by_key_intro(keys, t, i, keys[i as int], false, q);
            assert(t.insert(q, i) == t.insert(t.index_of(j) + 1, i));
            lemma_not_in_tree(nodes0, rt, m, i);
        }
        self.insert_after(root, j, i);
        proof {
            lemma_insert_index(t, t.index_of(j) + 1, i);
        }
        Some(())
    }
}

/// Of two adjacent places in a subtree, the node at the first has a right
/// child or the node at the second a left child.
pub proof fn lemma_adjacent(nodes: Seq<RBTreeNode>, root: usize, m: TreeModel, z: usize, a: int)
    requires
        shape(nodes, root, m),
        has(m, z),
        (m.lo)(z) <= a,
        a + 1 < (m.hi)(z),
    ensures
        nodes[m.seq[a] as int].right != nil() || nodes[m.seq[a + 1] as int].left != nil(),
    decreases (m.hi)(z) - (m.lo)(z),
{
    lemma_node(nodes, root, m, z);
    let p = (m.pos)(z);
    let l = nodes[z as int].left;
    let r = nodes[z as int].right;
    if p == a {
        assert(m.seq[a] == z);
    } else if p == a + 1 {
        assert(m.seq[a + 1] == z);
    } else if p < a {
        lemma_node(nodes, root, m, r);
        lemma_adjacent(nodes, root, m, r, a);
    } else {
        lemma_node(nodes, root, m, l);
        lemma_adjacent(nodes, root, m, l, a);
    }
}

/// Two distinct nodes, each in the subtree of the other, do not exist.
proof fn lemma_mutual_subtrees(nodes: Seq<RBTreeNode>, root: usize, m: TreeModel, x: usize, y: usize)
    requires
        shape(nodes, root, m),
        has(m, x),
        has(m, y),
        (m.lo)(x) <= (m.pos)(y) < (m.hi)(x),
        (m.lo)(y) <= (m.pos)(x) < (m.hi)(y),
    ensures
        x == y,
{
    lemma_node(nodes, root, m, x);
    lemma_node(nodes, root, m, y);
    if x != y {
        assert(m.seq[(m.pos)(x)] == x && m.seq[(m.pos)(y)] == y);
        let l = nodes[x as int].left;
        let r = nodes[x as int].right;
        if (m.pos)(y) < (m.pos)(x) {
            lemma_node(nodes, root, m, l);
            lemma_nested(nodes, root, m, l, y);
        } else {
            lemma_node(nodes, root, m, r);
            lemma_nested(nodes, root, m, r, y);
        }
    }
}

/// When the search for `k` could end both at a node without a left child
/// whose key is above `k` and at a node without a right child whose key is
/// below `k`, the two are one node: so this never happens.
proof fn lemma_no_gap(nodes: Seq<RBTreeNode>, keys: Seq<usize>, tr: usize, m: TreeModel, root: usize, k: usize, rl: usize, rg: usize)
    requires
        shape(nodes, tr, m),
        has(m, root),
        inorder(nodes, root) == m.seq.subrange((m.lo)(root), (m.hi)(root)),
        0 <= (m.lo)(root) <= (m.hi)(root) <= m.seq.len(),
        keys_sorted(nodes, keys, root),
        located(nodes, keys, root, k, rl),
        located(nodes, keys, root, k, rg),
        k < keys[rl as int],
        k > keys[rg as int],
    ensures
        rl == rg,
{
    let t = inorder(nodes, root);
    let lo = (m.lo)(root);
    let b = t.index_of(rl);
    let a = t.index_of(rg);
    assert(t[a] == rg && t[b] == rl);
    assert(forall|q: int| 0 <= q < b ==> keys[#[trigger] t[q] as int] < k);
    assert(forall|q: int| a < q < t.len() ==> keys[#[trigger] t[q] as int] > k);
    assert(a < b) by {
        if a > b {
            assert(keys[t[b] as int] <= keys[t[a] as int]);
        }
    }
    assert(b == a + 1) by {
        if b > a + 1 {
            assert(keys[t[a + 1] as int] < k);
        }
    }
    assert(m.seq[lo + a] == rg && m.seq[lo + b] == rl);
    lemma_adjacent(nodes, tr, m, root, lo + a);
}

/// The search for a key ends at one node only: `located` describes the
/// result of `locate` exactly.
pub proof fn law_located_unique(nodes: Seq<RBTreeNode>, keys: Seq<usize>, root: usize, k: usize, r1: usize, r2: usize)
    requires
        in_some_tree(nodes, root),
        keys_sorted(nodes, keys, root),
        located(nodes, keys, root, k, r1),
        located(nodes, keys, root, k, r2),
    ensures
        r1 == r2,
{
    let tr = choose|tr: usize| tree_valid(nodes, tr) && #[trigger] inorder(nodes, tr).contains(root);
    let m = choose|m: TreeModel| shape(nodes, tr, m);
    lemma_tree_member(nodes, tr, m, root);
    lemma_subtree_members(nodes, tr, m, root);
    lemma_node(nodes, tr, m, root);
    let t = inorder(nodes, root);
    let lo = (m.lo)(root);
    let i1 = t.index_of(r1);
    let i2 = t.index_of(r2);
    assert(t[i1] == r1 && t[i2] == r2);
    assert(m.seq[lo + i1] == r1 && m.seq[lo + i2] == r2);
    if i1 != i2 {
        let e1 = keys[r1 as int] == k;
        let e2 = keys[r2 as int] == k;
        if e1 && e2 {
            lemma_subtree_members(nodes, tr, m, r1);
            lemma_subtree_members(nodes, tr, m, r2);
            assert(inorder(nodes, r1).contains(r2));
            assert(inorder(nodes, r2).contains(r1));
            lemma_mutual_subtrees(nodes, tr, m, r1, r2);
        } else if e1 {
            assert(keys[t[i1] as int] <= keys[t[i2] as int] || keys[t[i2] as int] <= keys[t[i1] as int]);
        } else if e2 {
            assert(keys[t[i1] as int] <= keys[t[i2] as int] || keys[t[i2] as int] <= keys[t[i1] as int]);
        } else {
            let lt1 = k < keys[r1 as int];
            let lt2 = k < keys[r2 as int];
            if lt1 == lt2 {
                assert(keys[t[i1] as int] <= keys[t[i2] as int] || keys[t[i2] as int] <= keys[t[i1] as int]);
            } else {
                if lt1 {
                    lemma_no_gap(nodes, keys, tr, m, root, k, r1, r2);
                } else {
                    lemma_no_gap(nodes, keys, tr, m, root, k, r2, r1);
                }
            }
        }
    }
}

} // verus!
