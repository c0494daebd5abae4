use vstd::prelude::*;
use crate::list::{ListNode, detached, is_ring, in_ring, list_seq, list_valid, lists_ok, ring_from, ring_pred, ring_succ};
use crate::ptr::nil;
use crate::rbtree::keyed::{sorted_by_key, inserted_by_key};
use crate::rbtree::swap::{swap_map, swapped, swap_done, touched};
use crate::rbtree::exact::{views, lemma_views_swap, lemma_vswap_twice, lemma_vswap_symmetric, lemma_nodes_from_views};
use crate::rbtree::RBTreeNode;
use crate::rbtree::model::{TreeModel, shape, tree_valid, inorder, in_some_tree, root_of, lemma_node};
use crate::rbtree::query::lemma_tree_member;

verus! {

/// Popping the back of a list right after appending `p` gives back `p` and
/// the list as it was before.
pub proof fn law_pop_back_after_append(
    n0: Seq<ListNode>,
    h0: usize,
    n1: Seq<ListNode>,
    h1: usize,
    n2: Seq<ListNode>,
    h2: usize,
    p: usize,
    r: usize,
)
    requires
        list_seq(n1, h1) == list_seq(n0, h0).push(p),
        r == list_seq(n1, h1).last(),
        list_seq(n2, h2) == list_seq(n1, h1).drop_last(),
    ensures
        r == p,
        list_seq(n2, h2) == list_seq(n0, h0),
{
    assert(list_seq(n0, h0).push(p).drop_last() =~= list_seq(n0, h0));
}

/// Appending the detached node `p` to a list and popping the back right
/// after gives back `p` and leaves the head and every node of the arena as
/// they were.
pub proof fn law_append_pop_back_restores(
    n0: Seq<ListNode>,
    h0: usize,
    n1: Seq<ListNode>,
    h1: usize,
    n2: Seq<ListNode>,
    h2: usize,
    p: usize,
    r: usize,
)
    requires
        list_valid(n0, h0),
        n0.len() <= usize::MAX,
        p < n0.len(),
        n0[p as int] == detached(),
        n1.len() == n0.len(),
        list_valid(n1, h1),
        list_seq(n1, h1) == list_seq(n0, h0).push(p),
        forall|i: usize| i < n0.len() && i != p && !list_seq(n0, h0).contains(i) ==> #[trigger] n1[i as int] == n0[i as int],
        r == list_seq(n1, h1).last(),
        n2[r as int] == detached(),
        n2.len() == n1.len(),
        list_valid(n2, h2),
        list_seq(n2, h2) == list_seq(n1, h1).drop_last(),
        forall|i: usize| i < n1.len() && !list_seq(n1, h1).contains(i) ==> #[trigger] n2[i as int] == n1[i as int],
    ensures
        r == p,
        h2 == h0,
        n2 == n0,
{
    let s0 = list_seq(n0, h0);
    let s1 = list_seq(n1, h1);
    assert(s0.push(p).drop_last() =~= s0);
    assert(s1[s1.len() - 1] == p);
    if h0 != nil() {
        assert(in_ring(n0, h0));
        assert(is_ring(n0, s0) && s0[0] == h0);
    }
    if h2 != nil() {
        assert(in_ring(n2, h2));
        assert(is_ring(n2, list_seq(n2, h2)) && list_seq(n2, h2)[0] == h2);
    }
    assert forall|i: int| 0 <= i < n0.len() implies #[trigger] n2[i] == n0[i] by {
        let x = i as usize;
        if x == p {
        } else if s0.contains(x) {
            let j = choose|j: int| 0 <= j < s0.len() && s0[j] == x;
            assert(n2[s0[j] as int] == n0[s0[j] as int]);
        } else {
            assert(!s1.contains(x)) by {
                if s1.contains(x) {
                    let j = choose|j: int| 0 <= j < s1.len() && s1[j] == x;
                    if j < s0.len() {
                        assert(s0[j] == x);
                    }
                }
            }
            assert(n2[x as int] == n1[x as int]);
        }
    }
    assert(n2 =~= n0);
}

/// An arena of fresh nodes has every node detached or in a list; every
/// mutating call of `ListMut` keeps that so, so it holds after any sequence
/// of calls.
pub proof fn law_fresh_arena_lists_ok(nodes: Seq<ListNode>)
    requires
        forall|x: int| 0 <= x < nodes.len() ==> #[trigger] nodes[x] == detached(),
    ensures
        lists_ok(nodes),
{
    assert forall|x: usize| x < nodes.len() implies #[trigger] nodes[x as int] == detached() || in_ring(nodes, x) by {
        assert(nodes[x as int] == detached());
    }
}

/// Over any run of calls on an arena that starts with fresh nodes, where each
/// step keeps every node detached or in a list (as each mutating call of
/// `ListMut` ensures), every state of the run has consistent links: a node
/// has a `prev` exactly when it has a `next`, and a node in a list is the
/// `prev` of its `next` and the `next` of its `prev`.
pub proof fn law_lists_well_formed_over_calls(run: Seq<Seq<ListNode>>)
    requires
        run.len() > 0,
        forall|x: int| 0 <= x < run[0].len() ==> #[trigger] run[0][x] == detached(),
        forall|i: int| 0 <= i < run.len() - 1 ==> (lists_ok(#[trigger] run[i]) ==> lists_ok(run[i + 1])),
    ensures
        forall|i: int, x: usize| 0 <= i < run.len() && x < run[i].len() ==> {
            let n = #[trigger] run[i][x as int];
            &&& (n.prev == nil()) == (n.next == nil())
            &&& n.prev != nil() ==> run[i][n.next as int].prev == x && run[i][n.prev as int].next == x
        },
{
    law_fresh_arena_lists_ok(run[0]);
    assert forall|i: int| 0 <= i < run.len() implies lists_ok(#[trigger] run[i]) by {
        lemma_run_lists_ok(run, i);
    }
    assert forall|i: int, x: usize| 0 <= i < run.len() && x < run[i].len() implies {
        let n = #[trigger] run[i][x as int];
        &&& (n.prev == nil()) == (n.next == nil())
        &&& n.prev != nil() ==> run[i][n.next as int].prev == x && run[i][n.prev as int].next == x
    } by {
        assert(lists_ok(run[i]));
        law_lists_ok_links(run[i], x);
    }
}

/// Along a run whose steps keep `lists_ok`, it holds up to step `i`.
proof fn lemma_run_lists_ok(run: Seq<Seq<ListNode>>, i: int)
    requires
        0 <= i < run.len(),
        lists_ok(run[0]),
        forall|j: int| 0 <= j < run.len() - 1 ==> (lists_ok(#[trigger] run[j]) ==> lists_ok(run[j + 1])),
    ensures
        lists_ok(run[i]),
    decreases i,
{
    if i > 0 {
        lemma_run_lists_ok(run, i - 1);
        assert(lists_ok(run[i - 1]) ==> lists_ok(run[(i - 1) + 1]));
    }
}

/// Where every node is detached or in a list, a node has a `prev` exactly
/// when it has a `next`, and a node in a list is the `prev` of its `next`
/// and the `next` of its `prev`.
pub proof fn law_lists_ok_links(nodes: Seq<ListNode>, x: usize)
    requires
        lists_ok(nodes),
        x < nodes.len(),
    ensures
        (nodes[x as int].prev == nil()) == (nodes[x as int].next == nil()),
        nodes[x as int].prev != nil() ==> {
            &&& nodes[x as int].next < nodes.len()
            &&& nodes[x as int].prev < nodes.len()
            &&& nodes[nodes[x as int].next as int].prev == x
            &&& nodes[nodes[x as int].prev as int].next == x
        },
{
    if nodes[x as int] != detached() {
        assert(in_ring(nodes, x));
        let s = choose|s: Seq<usize>| is_ring(nodes, s) && s[0] == x;
        let n = s.len() as int;
        assert(nodes[s[0] as int].next == ring_succ(s, 0));
        assert(nodes[s[0] as int].prev == ring_pred(s, 0));
        let j = if n == 1 { 0 } else { 1 };
        assert(nodes[s[j] as int].prev == ring_pred(s, j));
        assert(nodes[s[n - 1] as int].next == ring_succ(s, n - 1));
    }
}

/// Popping the front of a list right after prepending `p` gives back `p` and
/// the list as it was before.
pub proof fn law_pop_front_after_prepend(
    n0: Seq<ListNode>,
    h0: usize,
    n1: Seq<ListNode>,
    h1: usize,
    n2: Seq<ListNode>,
    h2: usize,
    p: usize,
    r: usize,
)
    requires
        list_seq(n1, h1) == seq![p] + list_seq(n0, h0),
        r == list_seq(n1, h1)[0],
        list_seq(n2, h2) == list_seq(n1, h1).drop_first(),
    ensures
        r == p,
        list_seq(n2, h2) == list_seq(n0, h0),
{
    assert((seq![p] + list_seq(n0, h0)).drop_first() =~= list_seq(n0, h0));
}

/// Removing the node `p` right after it was inserted behind the head `l` of
/// a list gives back the list as it was.
pub proof fn law_remove_after_insert_after(
    n0: Seq<ListNode>,
    n1: Seq<ListNode>,
    h2: usize,
    n2: Seq<ListNode>,
    l: usize,
    p: usize,
)
    requires
        l != nil(),
        list_valid(n0, l),
        !list_seq(n0, l).contains(p),
        ring_from(n1, l) == ring_from(n0, l).insert(1, p),
        list_seq(n2, h2) == list_seq(n1, l).remove(list_seq(n1, l).index_of(p)),
    ensures
        list_seq(n2, h2) == list_seq(n0, l),
{
    let s0 = ring_from(n0, l);
    let s1 = s0.insert(1, p);
    assert(s0.len() > 0) by {
        let s = choose|s: Seq<usize>| crate::list::is_ring(n0, s) && s[0] == l;
    }
    assert(s1[1] == p);
    assert(s1.contains(p));
    let k = s1.index_of(p);
    assert(s1[k] == p);
    assert(k == 1) by {
        if k != 1 {
            if k == 0 {
                assert(s1[0] == s0[0]);
                assert(s0.contains(s0[0]));
            } else {
                assert(s1[k] == s0[k - 1]);
                assert(s0.contains(s0[k - 1]));
            }
        }
    }
    assert(s1.remove(1) =~= s0);
}

/// Deleting the node `j` of a tree right after it was inserted gives back
/// the in-order sequence of the tree as it was.
pub proof fn law_delete_after_insert(t0: Seq<usize>, t1: Seq<usize>, t2: Seq<usize>, q: int, j: usize)
    requires
        t0.no_duplicates(),
        !t0.contains(j),
        0 <= q <= t0.len(),
        t1 == t0.insert(q, j),
        t2 == t1.remove(t1.index_of(j)),
    ensures
        t2 == t0,
{
    assert(t1[q] == j);
    assert(t1.contains(j));
    let k = t1.index_of(j);
    assert(t1[k] == j);
    assert(k == q) by {
        if k < q {
            assert(t1[k] == t0[k]);
            assert(t0.contains(t0[k]));
        } else if k > q {
            assert(t1[k] == t0[k - 1]);
            assert(t0.contains(t0[k - 1]));
        }
    }
    assert(t1.remove(q) =~= t0);
}

/// Deleting a node keeps the in-order sequence ordered by key.
pub proof fn law_delete_keeps_order(keys: Seq<usize>, t: Seq<usize>, k: int)
    requires
        sorted_by_key(keys, t),
        0 <= k < t.len(),
    ensures
        sorted_by_key(keys, t.remove(k)),
{
    let t2 = t.remove(k);
    assert forall|a: int| 0 <= a < t2.len() implies #[trigger] t2[a] < keys.len() by {
        if a < k {
            assert(t2[a] == t[a]);
        } else {
            assert(t2[a] == t[a + 1]);
        }
    }
    assert forall|a: int, b: int| 0 <= a <= b < t2.len() implies keys[#[trigger] t2[a] as int] <= keys[#[trigger] t2[b] as int] by {
        let a1 = if a < k { a } else { a + 1 };
        let b1 = if b < k { b } else { b + 1 };
        assert(t2[a] == t[a1] && t2[b] == t[b1]);
    }
}

/// After `i` was inserted before every node with its key, the first node
/// with that key is `i`.
pub proof fn law_find_first_after_insert_first(keys: Seq<usize>, t: Seq<usize>, t2: Seq<usize>, i: usize, r: usize)
    requires
        t2.no_duplicates(),
        inserted_by_key(keys, t, t2, i, keys[i as int], true),
        t2.contains(r),
        keys[r as int] == keys[i as int],
        forall|q: int| 0 <= q < t2.index_of(r) ==> keys[#[trigger] t2[q] as int] < keys[i as int],
    ensures
        r == i,
{
    let k = keys[i as int];
    let q = choose|q: int| {
        &&& 0 <= q <= t.len()
        &&& t2 == t.insert(q, i)
        &&& forall|p: int| 0 <= p < q ==> if true { keys[#[trigger] t[p] as int] < k } else { keys[t[p] as int] <= k }
        &&& forall|p: int| q <= p < t.len() ==> if true { keys[#[trigger] t[p] as int] >= k } else { keys[t[p] as int] > k }
    };
    let j = t2.index_of(r);
    assert(t2[j] == r);
    assert(t2[q] == i);
    if j < q {
        assert(t2[j] == t[j]);
    } else if j > q {
        assert(keys[t2[q] as int] < k);
    }
}

/// After `i` was inserted behind every node with its key, the last node
/// with that key is `i`.
pub proof fn law_find_last_after_insert_last(keys: Seq<usize>, t: Seq<usize>, t2: Seq<usize>, i: usize, r: usize)
    requires
        t2.no_duplicates(),
        inserted_by_key(keys, t, t2, i, keys[i as int], false),
        t2.contains(r),
        keys[r as int] == keys[i as int],
        forall|q: int| t2.index_of(r) < q < t2.len() ==> keys[#[trigger] t2[q] as int] > keys[i as int],
    ensures
        r == i,
{
    let k = keys[i as int];
    let q = choose|q: int| {
        &&& 0 <= q <= t.len()
        &&& t2 == t.insert(q, i)
        &&& forall|p: int| 0 <= p < q ==> if false { keys[#[trigger] t[p] as int] < k } else { keys[t[p] as int] <= k }
        &&& forall|p: int| q <= p < t.len() ==> if false { keys[#[trigger] t[p] as int] >= k } else { keys[t[p] as int] > k }
    };
    let j = t2.index_of(r);
    assert(t2[j] == r);
    assert(t2[q] == i);
    if j > q {
        assert(t2[j] == t[j - 1]);
    } else if j < q {
        assert(keys[t2[q] as int] > k);
    }
}

/// After a node was inserted by its key, the tree holds it, so that a node
/// with that key is found.
pub proof fn law_found_after_insert(keys: Seq<usize>, t: Seq<usize>, t2: Seq<usize>, i: usize, first: bool)
    requires
        inserted_by_key(keys, t, t2, i, keys[i as int], first),
    ensures
        t2.contains(i),
{
    let k = keys[i as int];
    let q = choose|q: int| {
        &&& 0 <= q <= t.len()
        &&& t2 == t.insert(q, i)
        &&& forall|p: int| 0 <= p < q ==> if first { keys[#[trigger] t[p] as int] < k } else { keys[t[p] as int] <= k }
        &&& forall|p: int| q <= p < t.len() ==> if first { keys[#[trigger] t[p] as int] >= k } else { keys[t[p] as int] > k }
    };
    assert(t2[q] == i);
}

/// Swapping the same two nodes twice gives back every in-order sequence.
pub proof fn law_swap_twice(t: Seq<usize>, a: usize, b: usize)
    ensures
        t.map_values(|x: usize| swap_map(a, b, x)).map_values(|x: usize| swap_map(a, b, x)) == t,
{
    assert(t.map_values(|x: usize| swap_map(a, b, x)).map_values(|x: usize| swap_map(a, b, x)) =~= t);
}

/// Swapping `a` and `b`, then swapping them again (in either order), gives
/// back the arena as it was.
pub proof fn law_swap_twice_restores(n0: Seq<RBTreeNode>, n1: Seq<RBTreeNode>, n2: Seq<RBTreeNode>, a: usize, b: usize)
    requires
        a < n0.len(),
        b < n0.len(),
        n0.len() <= usize::MAX,
        swap_done(n0, n1, a, b),
        swap_done(n1, n2, a, b) || swap_done(n1, n2, b, a),
    ensures
        n2 == n0,
{
    if a == b || (!n0[a as int].linked() && !n0[b as int].linked()) {
    } else {
        assert(touched(n0, a, b, a) && touched(n0, a, b, b));
        assert(n1[a as int].linked() == n0[b as int].linked());
        assert(n1[b as int].linked() == n0[a as int].linked());
        assert(swapped(n1, n2, a, b) || swapped(n1, n2, b, a));
        lemma_views_swap(n0, n1, a, b);
        if swapped(n1, n2, a, b) {
            lemma_views_swap(n1, n2, a, b);
        } else {
            lemma_views_swap(n1, n2, b, a);
            lemma_vswap_symmetric(views(n1), a, b);
        }
        lemma_vswap_twice(views(n0), a, b);
        lemma_nodes_from_views(n2, n0);
    }
}

/// `swap(a, b)` and `swap(b, a)` have the same effect.
pub proof fn law_swap_symmetric(n0: Seq<RBTreeNode>, n1: Seq<RBTreeNode>, n2: Seq<RBTreeNode>, a: usize, b: usize)
    requires
        a < n0.len(),
        b < n0.len(),
        n0.len() <= usize::MAX,
        swap_done(n0, n1, a, b),
        swap_done(n0, n2, b, a),
    ensures
        n1 == n2,
{
    if a == b || (!n0[a as int].linked() && !n0[b as int].linked()) {
    } else {
        lemma_views_swap(n0, n1, a, b);
        lemma_views_swap(n0, n2, b, a);
        lemma_vswap_symmetric(views(n0), a, b);
        lemma_nodes_from_views(n1, n2);
    }
}

/// The predecessor of the successor of a node is the node itself.
pub proof fn law_predecessor_after_successor(nodes: Seq<RBTreeNode>, p: usize, s: usize, r: usize)
    requires
        in_some_tree(nodes, p),
        s == ({
            let t = inorder(nodes, root_of(nodes, p));
            if t.index_of(p) + 1 < t.len() { t[t.index_of(p) + 1] } else { nil() }
        }),
        s != nil(),
        r == ({
            let t = inorder(nodes, root_of(nodes, s));
            if t.index_of(s) > 0 { t[t.index_of(s) - 1] } else { nil() }
        }),
    ensures
        r == p,
{
    let tr = choose|tr: usize| tree_valid(nodes, tr) && #[trigger] inorder(nodes, tr).contains(p);
    let m = choose|m: TreeModel| shape(nodes, tr, m);
    lemma_tree_member(nodes, tr, m, p);
    let t = m.seq;
    let i = t.index_of(p);
    assert(t[i] == p);
    assert(t[i + 1] == s);
    assert(t.contains(s));
    lemma_tree_member(nodes, tr, m, s);
    assert(t.index_of(s) == i + 1) by {
        let j = t.index_of(s);
        assert(t[j] == s);
    }
}

/// The successor of the predecessor of a node is the node itself.
pub proof fn law_successor_after_predecessor(nodes: Seq<RBTreeNode>, p: usize, q: usize, r: usize)
    requires
        in_some_tree(nodes, p),
        q == ({
            let t = inorder(nodes, root_of(nodes, p));
            if t.index_of(p) > 0 { t[t.index_of(p) - 1] } else { nil() }
        }),
        q != nil(),
        r == ({
            let t = inorder(nodes, root_of(nodes, q));
            if t.index_of(q) + 1 < t.len() { t[t.index_of(q) + 1] } else { nil() }
        }),
    ensures
        r == p,
{
    let tr = choose|tr: usize| tree_valid(nodes, tr) && #[trigger] inorder(nodes, tr).contains(p);
    let m = choose|m: TreeModel| shape(nodes, tr, m);
    lemma_tree_member(nodes, tr, m, p);
    let t = m.seq;
    let i = t.index_of(p);
    assert(t[i] == p);
    assert(t[i - 1] == q);
    assert(t.contains(q));
    lemma_tree_member(nodes, tr, m, q);
    assert(t.index_of(q) == i - 1) by {
        let j = t.index_of(q);
        assert(t[j] == q);
    }
}

/// A node has no predecessor exactly when it is the first node of its tree,
/// and no successor exactly when it is the last.
pub proof fn law_no_neighbour_at_the_ends(nodes: Seq<RBTreeNode>, p: usize)
    requires
        in_some_tree(nodes, p),
    ensures
        ({
            let t = inorder(nodes, root_of(nodes, p));
            &&& (t.index_of(p) > 0) == (p != t[0])
            &&& (t.index_of(p) + 1 < t.len()) == (p != t.last())
        }),
{
    let tr = choose|tr: usize| tree_valid(nodes, tr) && #[trigger] inorder(nodes, tr).contains(p);
    let m = choose|m: TreeModel| shape(nodes, tr, m);
    lemma_tree_member(nodes, tr, m, p);
    let t = m.seq;
    let i = t.index_of(p);
    assert(t[i] == p);
    lemma_node(nodes, tr, m, t[0]);
    lemma_node(nodes, tr, m, t[t.len() - 1]);
}

/// A deleted node is no longer in the tree.
pub proof fn law_deleted_not_member(t: Seq<usize>, n: usize)
    requires
        t.no_duplicates(),
        t.contains(n),
    ensures
        !t.remove(t.index_of(n)).contains(n),
{
    let k = t.index_of(n);
    assert(t[k] == n);
    let t2 = t.remove(k);
    if t2.contains(n) {
        let j = choose|j: int| 0 <= j < t2.len() && t2[j] == n;
        if j < k {
            assert(t2[j] == t[j]);
        } else {
            assert(t2[j] == t[j + 1]);
        }
    }
}

} // verus!
