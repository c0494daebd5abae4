use vstd::prelude::*;
use crate::ptr::{nil, NullablePtr};

verus! {

/// The links of one element in a circular doubly linked list.
///
/// A node whose `prev` is null is not in any list.
#[derive(Clone, Copy, Debug, PartialEq, Eq, Structural)]
pub struct ListNode {
    pub prev: usize,
    pub next: usize,
}

/// A node that belongs to no list.
pub open spec fn detached() -> ListNode {
    ListNode { prev: nil(), next: nil() }
}

/// The element after position `i` of the ring `s`.
pub open spec fn ring_succ(s: Seq<usize>, i: int) -> usize {
    if i + 1 == s.len() {
        s[0]
    } else {
        s[i + 1]
    }
}

/// The element before position `i` of the ring `s`.
pub open spec fn ring_pred(s: Seq<usize>, i: int) -> usize {
    if i == 0 {
        s[s.len() - 1]
    } else {
        s[i - 1]
    }
}

/// `s` lists, in `next` order, the distinct indices of one circular list in `nodes`.
pub open spec fn is_ring(nodes: Seq<ListNode>, s: Seq<usize>) -> bool {
    &&& s.len() > 0
    &&& s.no_duplicates()
    &&& forall|i: int| 0 <= i < s.len() ==> #[trigger] s[i] < nodes.len() && s[i] != nil()
    &&& forall|i: int|
        0 <= i < s.len() ==> nodes[#[trigger] s[i] as int].next == ring_succ(s, i)
    &&& forall|i: int|
        0 <= i < s.len() ==> nodes[#[trigger] s[i] as int].prev == ring_pred(s, i)
}

/// `x` is an element of a well-formed circular list of `nodes`.
pub open spec fn in_ring(nodes: Seq<ListNode>, x: usize) -> bool {
    exists|s: Seq<usize>| is_ring(nodes, s) && s[0] == x
}

/// The circular list through `x`, read in `next` order starting at `x`.
pub open spec fn ring_from(nodes: Seq<ListNode>, x: usize) -> Seq<usize> {
    choose|s: Seq<usize>| is_ring(nodes, s) && s[0] == x
}

/// `head` is null (the empty list) or the head of a well-formed list.
pub open spec fn list_valid(nodes: Seq<ListNode>, head: usize) -> bool {
    head == nil() || in_ring(nodes, head)
}

/// The elements of the list with head `head`, in order; empty when `head` is null.
pub open spec fn list_seq(nodes: Seq<ListNode>, head: usize) -> Seq<usize> {
    if head == nil() {
        Seq::empty()
    } else {
        ring_from(nodes, head)
    }
}

/// The ring `s` read from its position `k` onwards.
pub open spec fn rotate(s: Seq<usize>, k: int) -> Seq<usize> {
    s.subrange(k, s.len() as int) + s.subrange(0, k)
}

proof fn lemma_ring_prefix_agree(nodes: Seq<ListNode>, s1: Seq<usize>, s2: Seq<usize>, i: int)
    requires
        is_ring(nodes, s1),
        is_ring(nodes, s2),
        s1[0] == s2[0],
        0 <= i < s1.len(),
        i < s2.len(),
    ensures
        s1[i] == s2[i],
    decreases i,
{
    if i > 0 {
        lemma_ring_prefix_agree(nodes, s1, s2, i - 1);
        assert(nodes[s1[i - 1] as int].next == ring_succ(s1, i - 1));
        assert(nodes[s2[i - 1] as int].next == ring_succ(s2, i - 1));
    }
}

proof fn lemma_ring_not_shorter(nodes: Seq<ListNode>, s1: Seq<usize>, s2: Seq<usize>)
    requires
        is_ring(nodes, s1),
        is_ring(nodes, s2),
        s1[0] == s2[0],
    ensures
        s1.len() >= s2.len(),
{
    if s1.len() < s2.len() {
        let n = s1.len() as int;
        lemma_ring_prefix_agree(nodes, s1, s2, n - 1);
        assert(nodes[s1[n - 1] as int].next == ring_succ(s1, n - 1));
        assert(nodes[s2[n - 1] as int].next == ring_succ(s2, n - 1));
        assert(s2[n] == s2[0]);
    }
}

/// A ring is determined by its first element.
pub proof fn lemma_ring_unique(nodes: Seq<ListNode>, s1: Seq<usize>, s2: Seq<usize>)
    requires
        is_ring(nodes, s1),
        is_ring(nodes, s2),
        s1[0] == s2[0],
    ensures
        s1 == s2,
{
    lemma_ring_not_shorter(nodes, s1, s2);
    lemma_ring_not_shorter(nodes, s2, s1);
    assert forall|i: int| 0 <= i < s1.len() implies s1[i] == s2[i] by {
        lemma_ring_prefix_agree(nodes, s1, s2, i);
    }
    assert(s1 =~= s2);
}

/// A ring, read from any of its positions, is again a ring.
#[verifier::spinoff_prover]
#[verifier::rlimit(30)]
proof fn lemma_rotate_is_ring(nodes: Seq<ListNode>, s: Seq<usize>, k: int)
    requires
        is_ring(nodes, s),
        0 <= k < s.len(),
    ensures
        is_ring(nodes, rotate(s, k)),
        rotate(s, k).len() == s.len(),
        rotate(s, k)[0] == s[k],
        forall|j: int| 0 <= j < s.len() ==> #[trigger] rotate(s, k)[j] == s[(j + k) % (s.len() as int)],
{
    let n = s.len() as int;
    let t = rotate(s, k);
    assert forall|j: int| 0 <= j < n implies #[trigger] t[j] == s[(j + k) % n] by {
        if j + k < n {
            assert((j + k) % n == j + k) by (nonlinear_arith)
                requires 0 <= j + k < n;
        } else {
            assert((j + k) % n == j + k - n) by (nonlinear_arith)
                requires n <= j + k < 2 * n;
        }
    }
    assert forall|a: int, b: int| 0 <= a < b < n implies t[a] != t[b] by {
        assert(t[a] == s[(a + k) % n]);
        assert(t[b] == s[(b + k) % n]);
        if (a + k) % n == (b + k) % n {
            if a + k < n {
                assert((a + k) % n == a + k) by (nonlinear_arith) requires 0 <= a + k < n;
            } else {
                assert((a + k) % n == a + k - n) by (nonlinear_arith) requires n <= a + k < 2 * n;
            }
            if b + k < n {
                assert((b + k) % n == b + k) by (nonlinear_arith) requires 0 <= b + k < n;
            } else {
                assert((b + k) % n == b + k - n) by (nonlinear_arith) requires n <= b + k < 2 * n;
            }
        }
    }
    assert forall|j: int| 0 <= j < n implies #[trigger] t[j] < nodes.len() && t[j] != nil()
        && nodes[t[j] as int].next == ring_succ(t, j) && nodes[t[j] as int].prev == ring_pred(t, j) by {
        if j < n - k {
            assert(t[j] == s[j + k]);
            if j + 1 < n {
                if j + 1 < n - k {
                    assert(t[j + 1] == s[j + k + 1]);
                } else {
                    assert(t[j + 1] == s[0]);
                }
            } else {
                assert(k == 0);
            }
            if j > 0 {
                assert(t[j - 1] == s[j + k - 1]);
            } else {
                if k > 0 {
                    assert(t[n - 1] == s[k - 1]);
                }
            }
        } else {
            assert(t[j] == s[j + k - n]);
            if j + 1 < n {
                assert(t[j + 1] == s[j + k - n + 1]);
            } else {
                assert(t[0] == s[k]);
            }
            if j > n - k {
                assert(t[j - 1] == s[j + k - n - 1]);
            } else {
                assert(t[j - 1] == s[n - 1]);
            }
        }
    }
}

/// Any element of a ring starts the same ring, rotated.
pub proof fn lemma_ring_from_at(nodes: Seq<ListNode>, s: Seq<usize>, k: int)
    requires
        is_ring(nodes, s),
        0 <= k < s.len(),
    ensures
        in_ring(nodes, s[k]),
        ring_from(nodes, s[k]) == rotate(s, k),
        is_ring(nodes, ring_from(nodes, s[k])),
{
    lemma_rotate_is_ring(nodes, s, k);
    let t = ring_from(nodes, s[k]);
    assert(is_ring(nodes, rotate(s, k)) && rotate(s, k)[0] == s[k]);
    lemma_ring_unique(nodes, t, rotate(s, k));
}

/// A ring is the ring that starts at its first element.
pub proof fn lemma_ring_from(nodes: Seq<ListNode>, s: Seq<usize>)
    requires
        is_ring(nodes, s),
    ensures
        in_ring(nodes, s[0]),
        ring_from(nodes, s[0]) == s,
{
    lemma_ring_from_at(nodes, s, 0);
    assert(rotate(s, 0) =~= s);
}

/// What `ring_from` returns for an element of a ring.
proof fn lemma_ring_from_valid(nodes: Seq<ListNode>, x: usize)
    requires
        in_ring(nodes, x),
    ensures
        is_ring(nodes, ring_from(nodes, x)),
        ring_from(nodes, x)[0] == x,
{
}

/// Every element of a ring is marked as being in a list.
proof fn lemma_ring_members_linked(nodes: Seq<ListNode>, s: Seq<usize>, x: usize)
    requires
        is_ring(nodes, s),
        0 <= x < nodes.len(),
        nodes[x as int].prev == nil(),
    ensures
        !s.contains(x),
{
    if s.contains(x) {
        let j = choose|j: int| 0 <= j < s.len() && s[j] == x;
        assert(nodes[s[j] as int].prev == ring_pred(s, j));
        if j == 0 {
            assert(s[s.len() - 1] != nil());
        } else {
            assert(s[j - 1] != nil());
        }
    }
}

/// Two rings that share one element are rotations of each other.
proof fn lemma_rings_overlap(nodes: Seq<ListNode>, s1: Seq<usize>, s2: Seq<usize>, i: int, j: int)
    requires
        is_ring(nodes, s1),
        is_ring(nodes, s2),
        0 <= i < s1.len(),
        0 <= j < s2.len(),
        s1[i] == s2[j],
    ensures
        s1.contains(s2[0]),
        s1.len() == s2.len(),
{
    lemma_ring_from_at(nodes, s1, i);
    lemma_ring_from_at(nodes, s2, j);
    lemma_rotate_is_ring(nodes, s1, i);
    lemma_rotate_is_ring(nodes, s2, j);
    let n = s2.len() as int;
    let m = if j == 0 { 0 } else { n - j };
    assert((m + j) % n == 0) by (nonlinear_arith)
        requires m == if j == 0 { 0 } else { n - j }, 0 <= j < n;
    assert(rotate(s2, j)[m] == s2[(m + j) % n]);
    assert(rotate(s1, i)[m] == s1[(m + i) % (s1.len() as int)]);
    assert(0 <= (m + i) % (s1.len() as int) < s1.len()) by (nonlinear_arith)
        requires s1.len() > 0;
}


/// Reading a ring from another position keeps its elements.
proof fn lemma_rotate_same_elements(s: Seq<usize>, k: int)
    requires
        0 <= k < s.len(),
    ensures
        forall|x: usize| #[trigger] rotate(s, k).contains(x) <==> s.contains(x),
{
    let n = s.len() as int;
    assert forall|x: usize| #[trigger] rotate(s, k).contains(x) <==> s.contains(x) by {
        if s.contains(x) {
            let i = choose|i: int| 0 <= i < n && s[i] == x;
            let j = if i >= k { i - k } else { i + n - k };
            assert(rotate(s, k)[j] == s[i]);
        }
        if rotate(s, k).contains(x) {
            let j = choose|j: int| 0 <= j < n && rotate(s, k)[j] == x;
            if j < n - k {
                assert(rotate(s, k)[j] == s[j + k]);
            } else {
                assert(rotate(s, k)[j] == s[j + k - n]);
            }
        }
    }
}

/// After the element at position `k > 0` left the ring `s`, the rest read
/// from the old head is `s` without that element.
#[verifier::spinoff_prover]
#[verifier::rlimit(30)]
proof fn lemma_ring_remove_rest(nodes: Seq<ListNode>, s: Seq<usize>, k: int)
    requires
        0 < k < s.len(),
        is_ring(nodes, rotate(s, k).drop_first()),
    ensures
        in_ring(nodes, s[0]),
        ring_from(nodes, s[0]) == s.remove(k),
{
    let n = s.len() as int;
    let t = rotate(s, k).drop_first();
    let j = n - 1 - k;
    assert(t[j] == s[0]);
    lemma_ring_from_at(nodes, t, j);
    assert(rotate(t, j) =~= s.remove(k));
}

/// One step of clearing a list: the first remaining element was detached
/// and only the remaining elements were touched.
proof fn lemma_clear_step(
    orig: Seq<ListNode>,
    before: Seq<ListNode>,
    after: Seq<ListNode>,
    s: Seq<usize>,
    m: int,
)
    requires
        0 <= m < s.len(),
        s.no_duplicates(),
        before.len() == orig.len(),
        after.len() == orig.len(),
        forall|j: int| 0 <= j < s.len() ==> #[trigger] s[j] < orig.len(),
        forall|j: int| 0 <= j < m ==> before[#[trigger] s[j] as int] == detached(),
        forall|i: usize|
            i < orig.len() && !s.contains(i) ==> #[trigger] before[i as int] == orig[i as int],
        after[s[m] as int] == detached(),
        forall|i: usize|
            i < orig.len() && !s.subrange(m, s.len() as int).contains(i)
                ==> #[trigger] after[i as int] == before[i as int],
    ensures
        forall|j: int| 0 <= j < m + 1 ==> after[#[trigger] s[j] as int] == detached(),
        forall|i: usize|
            i < orig.len() && !s.contains(i) ==> #[trigger] after[i as int] == orig[i as int],
{
    let n = s.len() as int;
    let t = s.subrange(m, n);
    assert forall|j: int| 0 <= j < m + 1 implies after[#[trigger] s[j] as int] == detached() by {
        if j < m {
            if t.contains(s[j]) {
                let k = choose|k: int| 0 <= k < n - m && #[trigger] t[k] == s[j];
                assert(t[k] == s[m + k]);
            }
            assert(after[s[j] as int] == before[s[j] as int]);
        }
    }
    assert forall|i: usize| i < orig.len() && !s.contains(i) implies #[trigger] after[i as int]
        == orig[i as int] by {
        if t.contains(i) {
            let k = choose|k: int| 0 <= k < n - m && #[trigger] t[k] == i;
            assert(t[k] == s[m + k]);
        }
        assert(after[i as int] == before[i as int]);
    }
}

/// Linking `p` between the first two elements of the ring `s`.
proof fn lemma_ring_insert(before: Seq<ListNode>, after: Seq<ListNode>, s: Seq<usize>, p: usize)
    requires
        is_ring(before, s),
        p < before.len(),
        p != nil(),
        !s.contains(p),
        after.len() == before.len(),
        after[s[0] as int] == (ListNode { prev: if s.len() == 1 { p } else { before[s[0] as int].prev }, next: p }),
        after[p as int] == (ListNode { prev: s[0], next: ring_succ(s, 0) }),
        s.len() > 1 ==> after[s[1] as int] == (ListNode { prev: p, next: before[s[1] as int].next }),
        forall|i: usize|
            i < before.len() && i != p && i != s[0] && (s.len() == 1 || i != s[1])
                ==> #[trigger] after[i as int] == before[i as int],
    ensures
        in_ring(after, s[0]),
        ring_from(after, s[0]) == s.insert(1, p),
{
    let t = s.insert(1, p);
    let n = s.len() as int;
    assert forall|a: int, b: int| 0 <= a < b < t.len() implies t[a] != t[b] by {
        if a >= 2 {
            assert(t[a] == s[a - 1] && t[b] == s[b - 1]);
        } else if a == 1 {
            assert(t[b] == s[b - 1]);
        } else if b >= 2 {
            assert(t[b] == s[b - 1]);
        }
    }
    assert forall|j: int| 0 <= j < t.len() implies #[trigger] t[j] < after.len() && t[j] != nil()
        && after[t[j] as int].next == ring_succ(t, j) && after[t[j] as int].prev == ring_pred(t, j) by {
        if j >= 2 {
            assert(t[j] == s[j - 1]);
            assert(before[s[j - 1] as int].next == ring_succ(s, j - 1));
            assert(before[s[j - 1] as int].prev == ring_pred(s, j - 1));
            if j + 1 < t.len() {
                assert(t[j + 1] == s[j]);
            }
            if j > 2 {
                assert(t[j - 1] == s[j - 2]);
            }
        } else if j == 0 {
            assert(before[s[0] as int].prev == ring_pred(s, 0));
            if n > 1 {
                assert(t[t.len() - 1] == s[n - 1]);
            }
        } else {
            if n > 1 {
                assert(t[2] == s[1]);
            }
        }
    }
    assert(is_ring(after, t));
    lemma_ring_from(after, t);
}

/// A node linked to itself forms a one-element ring.
proof fn lemma_singleton_ring(nodes: Seq<ListNode>, p: usize)
    requires
        p < nodes.len(),
        p != nil(),
        nodes[p as int].prev == p,
        nodes[p as int].next == p,
    ensures
        in_ring(nodes, p),
        ring_from(nodes, p) == seq![p],
{
    let t = seq![p];
    assert(t[0] == p);
    assert(is_ring(nodes, t));
    lemma_ring_from(nodes, t);
}

/// After `p` was linked behind the last element of the ring `s`, the ring
/// read from the old first element ends with `p`.
proof fn lemma_ring_insert_before(nodes: Seq<ListNode>, s: Seq<usize>, p: usize)
    requires
        s.len() > 0,
        is_ring(nodes, rotate(s, s.len() - 1).insert(1, p)),
    ensures
        in_ring(nodes, s[0]),
        ring_from(nodes, s[0]) == s.push(p),
{
    let n = s.len() as int;
    let t = rotate(s, n - 1).insert(1, p);
    if n == 1 {
        assert(rotate(s, 0) =~= s);
        assert(t =~= s.push(p));
        lemma_ring_from(nodes, t);
    } else {
        assert(t[2] == s[0]);
        lemma_ring_from_at(nodes, t, 2);
        assert(rotate(t, 2) =~= s.push(p));
    }
}

/// Two distinct lists share no element.
proof fn lemma_rings_disjoint(nodes: Seq<ListNode>, s1: Seq<usize>, s2: Seq<usize>)
    requires
        is_ring(nodes, s1),
        is_ring(nodes, s2),
        !s1.contains(s2[0]),
    ensures
        forall|i: int, j: int| 0 <= i < s1.len() && 0 <= j < s2.len() ==> #[trigger] s1[i] != #[trigger] s2[j],
        forall|x: usize| !(#[trigger] s1.contains(x) && s2.contains(x)),
{
    assert forall|i: int, j: int| 0 <= i < s1.len() && 0 <= j < s2.len() implies #[trigger] s1[i]
        != #[trigger] s2[j] by {
        if s1[i] == s2[j] {
            lemma_rings_overlap(nodes, s1, s2, i, j);
        }
    }
}

/// Splicing the ring `sp` in behind the first element of the ring `sl`.
#[verifier::spinoff_prover]
#[verifier::rlimit(30)]
proof fn lemma_ring_splice(before: Seq<ListNode>, after: Seq<ListNode>, sl: Seq<usize>, sp: Seq<usize>)
    requires
        is_ring(before, sl),
        is_ring(before, sp),
        forall|x: usize| !(#[trigger] sl.contains(x) && sp.contains(x)),
        after.len() == before.len(),
        after == before.update(sl[0] as int, ListNode { prev: before[sl[0] as int].prev, next: sp[0] })
            .update(sp[0] as int, ListNode {
                prev: sl[0],
                next: before.update(sl[0] as int, ListNode { prev: before[sl[0] as int].prev, next: sp[0] })[sp[0] as int].next,
            })
            .update(sp.last() as int, ListNode {
                prev: before.update(sl[0] as int, ListNode { prev: before[sl[0] as int].prev, next: sp[0] })
                    .update(sp[0] as int, ListNode { prev: sl[0], next: before[sp[0] as int].next })[sp.last() as int].prev,
                next: ring_succ(sl, 0),
            })
            .update(ring_succ(sl, 0) as int, ListNode {
                prev: sp.last(),
                next: before.update(sl[0] as int, ListNode { prev: before[sl[0] as int].prev, next: sp[0] })
                    .update(sp[0] as int, ListNode { prev: sl[0], next: before[sp[0] as int].next })
                    .update(sp.last() as int, ListNode { prev: before[sp.last() as int].prev, next: ring_succ(sl, 0) })[ring_succ(sl, 0) as int].next,
            }),
    ensures
        in_ring(after, sl[0]),
        ring_from(after, sl[0]) == seq![sl[0]] + sp + sl.drop_first(),
{
    let t = seq![sl[0]] + sp + sl.drop_first();
    let a = sp.len() as int;
    let n = sl.len() as int;
    assert(sl.contains(sl[0]));
    assert(sp.contains(sp[0]));
    assert(sp.contains(sp[a - 1]));
    assert(before[sl[0] as int].next == ring_succ(sl, 0));
    assert(before[sp[0] as int].prev == ring_pred(sp, 0));
    assert(before[sp[a - 1] as int].next == ring_succ(sp, a - 1));
    assert(before[sl[0] as int].prev == ring_pred(sl, 0));
    if n > 1 {
        assert(sl.contains(sl[1]));
        assert(before[sl[1] as int].prev == ring_pred(sl, 1));
        assert(before[sl[1] as int].next == ring_succ(sl, 1));
    }
    if a > 1 {
        assert(before[sp[0] as int].next == ring_succ(sp, 0));
        assert(before[sp[a - 1] as int].prev == ring_pred(sp, a - 1));
    }
    assert forall|i: int| 0 <= i < t.len() implies #[trigger] t[i] == if i == 0 {
        sl[0]
    } else if i <= a {
        sp[i - 1]
    } else {
        sl[i - a]
    } by {}
    assert forall|i: int, j: int| 0 <= i < j < t.len() implies t[i] != t[j] by {
        if i == 0 {
            if j <= a {
                assert(sp.contains(sp[j - 1]));
            }
        } else if i <= a {
            if j > a {
                assert(sp.contains(sp[i - 1]));
                assert(sl.contains(sl[j - a]));
            }
        }
    }
    assert forall|i: int| 0 <= i < t.len() implies #[trigger] t[i] < after.len() && t[i] != nil()
        && after[t[i] as int].next == ring_succ(t, i) && after[t[i] as int].prev == ring_pred(t, i) by {
        if i == 0 {
        } else if i <= a {
            let x = sp[i - 1];
            assert(sp.contains(x));
            assert(!sl.contains(x));
            assert(before[x as int].next == ring_succ(sp, i - 1));
            assert(before[x as int].prev == ring_pred(sp, i - 1));
            if i < a {
                assert(t[i + 1] == sp[i]);
            }
            if i > 1 {
                assert(t[i - 1] == sp[i - 2]);
            }
            if i == a && n > 1 {
                assert(t[i + 1] == sl[1]);
            }
        } else {
            let x = sl[i - a];
            assert(sl.contains(x));
            assert(!sp.contains(x));
            assert(before[x as int].next == ring_succ(sl, i - a));
            assert(before[x as int].prev == ring_pred(sl, i - a));
            if i + 1 < t.len() {
                assert(t[i + 1] == sl[i - a + 1]);
            }
            if i - 1 > a {
                assert(t[i - 1] == sl[i - a - 1]);
            }
        }
    }
    assert(is_ring(after, t));
    lemma_ring_from(after, t);
}

/// The links after `l` was pointed at `p`, `p` back at `l`, and the old
/// neighbours `prev` (before `p`) and `next` (after `l`) at each other.
pub open spec fn relinked(
    before: Seq<ListNode>,
    after: Seq<ListNode>,
    l: usize,
    p: usize,
    prev: usize,
    next: usize,
) -> bool {
    &&& after.len() == before.len()
    &&& forall|x: int|
        0 <= x < before.len() ==> (#[trigger] after[x]).next == (if x == prev {
            next
        } else if x == l {
            p
        } else {
            before[x].next
        }) && after[x].prev == (if x == next {
            prev
        } else if x == p {
            l
        } else {
            before[x].prev
        })
}

/// The ring that keeps `s[0]` when `s[k]` is spliced in behind `s[0]`.
pub open spec fn split_head(s: Seq<usize>, k: int) -> Seq<usize> {
    if k == 0 {
        seq![s[0]]
    } else {
        seq![s[0]] + s.subrange(k, s.len() as int)
    }
}

/// The ring cut off when `s[k]` is spliced in behind `s[0]`; empty when
/// nothing is cut off.
pub open spec fn split_rest(s: Seq<usize>, k: int) -> Seq<usize> {
    if k == 0 {
        s.subrange(1, s.len() as int)
    } else {
        s.subrange(1, k)
    }
}

/// The part of the ring that keeps `s[0]` is again a ring.
#[verifier::spinoff_prover]
#[verifier::rlimit(30)]
proof fn lemma_split_head(before: Seq<ListNode>, after: Seq<ListNode>, s: Seq<usize>, k: int)
    requires
        is_ring(before, s),
        0 <= k < s.len(),
        relinked(before, after, s[0], s[k], ring_pred(s, k), ring_succ(s, 0)),
    ensures
        is_ring(after, split_head(s, k)),
{
    let n = s.len() as int;
    let a = split_head(s, k);
    let m = a.len() as int;
    assert(s.contains(s[0]));
    if k == 0 {
        assert(after[s[0] as int].next == s[0]);
        assert(after[s[0] as int].prev == s[0]);
    } else {
        assert forall|i: int| 0 <= i < m implies #[trigger] a[i] < after.len() && a[i] != nil() by {
            if i > 0 {
                assert(a[i] == s[k + i - 1]);
            }
        }
        assert forall|i: int, j: int| 0 <= i < j < m implies a[i] != a[j] by {
            if i == 0 {
                assert(a[j] == s[k + j - 1]);
            } else {
                assert(a[i] == s[k + i - 1] && a[j] == s[k + j - 1]);
            }
        }
        assert forall|i: int| 0 <= i < m implies after[#[trigger] a[i] as int].next == ring_succ(a, i)
            && after[a[i] as int].prev == ring_pred(a, i) by {
            if i == 0 {
                assert(before[s[0] as int].prev == ring_pred(s, 0));
                assert(s[n - 1] == a[m - 1]);
                if k == 1 {
                    assert(before[s[0] as int].next == ring_succ(s, 0));
                } else {
                    assert(s[0] != s[k - 1]);
                }
                assert(s[0] != s[1]);
            } else {
                let j = k + i - 1;
                assert(a[i] == s[j]);
                assert(before[s[j] as int].next == ring_succ(s, j));
                assert(before[s[j] as int].prev == ring_pred(s, j));
                assert(s[j] != s[0]);
                if j != k - 1 {
                    assert(s[j] != s[k - 1]);
                }
                if j != 1 {
                    assert(s[j] != s[1]);
                }
                if i + 1 < m {
                    assert(a[i + 1] == s[j + 1]);
                }
                if i > 1 {
                    assert(a[i - 1] == s[j - 1]);
                    assert(s[j] != s[k]);
                }
            }
        }
    }
}

/// The part of the ring cut off from `s[0]` is again a ring.
proof fn lemma_split_rest(before: Seq<ListNode>, after: Seq<ListNode>, s: Seq<usize>, k: int)
    requires
        is_ring(before, s),
        0 <= k < s.len(),
        relinked(before, after, s[0], s[k], ring_pred(s, k), ring_succ(s, 0)),
        split_rest(s, k).len() > 0,
    ensures
        is_ring(after, split_rest(s, k)),
{
    let n = s.len() as int;
    let b = split_rest(s, k);
    let q = b.len() as int;
    let e = if k == 0 { n } else { k };
    assert(q == e - 1);
    assert forall|i: int| 0 <= i < q implies #[trigger] b[i] == s[1 + i] by {}
    assert forall|i: int| 0 <= i < q implies #[trigger] b[i] < after.len() && b[i] != nil() by {
        assert(b[i] == s[1 + i]);
    }
    assert forall|i: int, j: int| 0 <= i < j < q implies b[i] != b[j] by {
        assert(b[i] == s[1 + i] && b[j] == s[1 + j]);
    }
    assert(ring_pred(s, k) == s[e - 1]);
    assert forall|i: int| 0 <= i < q implies after[#[trigger] b[i] as int].next == ring_succ(b, i)
        && after[b[i] as int].prev == ring_pred(b, i) by {
        let j = 1 + i;
        assert(b[i] == s[j]);
        assert(before[s[j] as int].next == ring_succ(s, j));
        assert(before[s[j] as int].prev == ring_pred(s, j));
        assert(s[j] != s[0]);
        assert(s[j] != s[k] || k == 0);
        if j != e - 1 {
            assert(s[j] != s[e - 1]);
        }
        if j != 1 {
            assert(s[j] != s[1]);
        }
        if i + 1 < q {
            assert(b[i + 1] == s[j + 1]);
        } else {
            assert(b[0] == s[1]);
        }
        if i > 0 {
            assert(b[i - 1] == s[j - 1]);
        } else {
            assert(b[q - 1] == s[e - 1]);
        }
    }
}

/// Splicing `s[j]` in behind the element before `s[0]`, seen from `s[0]`.
proof fn lemma_split_before(s: Seq<usize>, j: int)
    requires
        0 <= j < s.len(),
        s.no_duplicates(),
    ensures
        ({
            let n = s.len() as int;
            let s2 = rotate(s, n - 1);
            let k2 = if j == n - 1 { 0 } else { j + 1 };
            &&& s2.index_of(s[j]) == k2
            &&& k2 == 0 ==> split_head(s2, k2) == s.subrange(j, n)
            &&& k2 > 0 ==> split_head(s2, k2)[1] == s[j] && split_head(s2, k2).len() > 1
                && rotate(split_head(s2, k2), 1) == s.subrange(j, n)
            &&& split_rest(s2, k2) == (if j > 0 { s.subrange(0, j) } else { Seq::<usize>::empty() })
            &&& j > 0 ==> s2[1] == s[0]
        }),
{
    let n = s.len() as int;
    let s2 = rotate(s, n - 1);
    let k2 = if j == n - 1 { 0 } else { j + 1 };
    assert forall|i: int| 0 <= i < n implies #[trigger] s2[i] == (if i == 0 { s[n - 1] } else { s[i - 1] }) by {}
    assert(s2[k2] == s[j]);
    assert(s2.contains(s[j]));
    let q = s2.index_of(s[j]);
    assert(s2[q] == s[j]);
    assert(q == k2) by {
        let iq = if q == 0 { n - 1 } else { q - 1 };
        assert(s2[q] == s[iq]);
    }
    if k2 == 0 {
        assert(split_head(s2, k2) =~= s.subrange(j, n));
        assert(split_rest(s2, k2) =~= (if j > 0 { s.subrange(0, j) } else { Seq::<usize>::empty() }));
    } else {
        let h = split_head(s2, k2);
        assert(h[1] == s2[k2]);
        assert(rotate(h, 1) =~= s.subrange(j, n));
        assert(split_rest(s2, k2) =~= (if j > 0 { s.subrange(0, j) } else { Seq::<usize>::empty() }));
    }
}

/// After the ring `sp` was spliced in behind the last element of the ring `sl`,
/// the ring read from the first element of `sp` is `sp` followed by `sl`.
#[verifier::spinoff_prover]
#[verifier::rlimit(40)]
proof fn lemma_ring_splice_before(nodes: Seq<ListNode>, sl: Seq<usize>, sp: Seq<usize>)
    requires
        sl.len() > 0,
        sp.len() > 0,
        is_ring(nodes, seq![sl.last()] + sp + rotate(sl, sl.len() - 1).drop_first()),
    ensures
        in_ring(nodes, sp[0]),
        ring_from(nodes, sp[0]) == sp + sl,
{
    let n = sl.len() as int;
    let t = seq![sl.last()] + sp + rotate(sl, n - 1).drop_first();
    assert(rotate(sl, n - 1).drop_first() =~= sl.subrange(0, n - 1));
    assert(t =~= seq![sl.last()] + sp + sl.subrange(0, n - 1));
    assert(t[1] == sp[0]);
    lemma_ring_from_at(nodes, t, 1);
    assert(rotate(t, 1) =~= sp + sl);
}

impl ListNode {
    /// A node that is in no list.
    pub fn new() -> (r: Self)
        ensures
            r == detached(),
    {
        ListNode { prev: usize::nullptr(), next: usize::nullptr() }
    }

    /// The links of a list that holds only `p`.
    pub fn new_indexed(p: usize) -> (r: Self)
        requires
            p != nil(),
        ensures
            r.prev == p,
            r.next == p,
    {
        ListNode { prev: p, next: p }
    }

    /// Tells whether the node is in a list.
    pub fn in_list(&self) -> (b: bool)
        ensures
            b == (self.prev != nil()),
    {
        !self.prev.null()
    }

    /// The element before this one in its list.
    pub fn get_prev(&self) -> (r: usize)
        ensures
            r == self.prev,
    {
        self.prev
    }

    /// The element after this one in its list.
    pub fn get_next(&self) -> (r: usize)
        ensures
            r == self.next,
    {
        self.next
    }
}

impl Default for ListNode {
    fn default() -> (r: Self)
        ensures
            r == detached(),
    {
        ListNode::new()
    }
}

/// Tells the list code where the `ListNode` of element `i` lives inside a
/// container of the user's choice.
pub trait ListNodeIndex {
    type Container;

    /// The list nodes of a container, by index.
    spec fn nodes(c: &Self::Container) -> Seq<ListNode>;

    fn index(c: &Self::Container, i: usize) -> (r: &ListNode)
        requires
            i < Self::nodes(c).len(),
        ensures
            *r == Self::nodes(c)[i as int],
    ;

    fn index_mut(c: &mut Self::Container, i: usize) -> (r: &mut ListNode)
        requires
            i < Self::nodes(old(c)).len(),
        ensures
            *r == Self::nodes(old(c))[i as int],
            Self::nodes(final(c)) == Self::nodes(old(c)).update(i as int, *final(r)),
    ;
}

/// A container that is a plain vector of list nodes.
pub struct VecListNodes;

impl ListNodeIndex for VecListNodes {
    type Container = Vec<ListNode>;

    open spec fn nodes(c: &Vec<ListNode>) -> Seq<ListNode> {
        c@
    }

    fn index(c: &Vec<ListNode>, i: usize) -> (r: &ListNode) {
        &c[i]
    }

    fn index_mut(c: &mut Vec<ListNode>, i: usize) -> (r: &mut ListNode) {
        &mut c[i]
    }
}

/// Mutating list operations on the nodes of a borrowed container.
pub struct ListMut<'a, L: ListNodeIndex> {
    pub list: &'a mut L::Container,
}

impl<'a, L: ListNodeIndex> ListMut<'a, L> {
    /// The list nodes of the borrowed container.
    pub closed spec fn nodes(&self) -> Seq<ListNode> {
        L::nodes(&*self.list)
    }

    /// Borrows the container for list updates; what is done through the
    /// handle is what the container holds once the borrow ends.
    pub fn new(list: &'a mut L::Container) -> (r: Self)
        ensures
            r.nodes() == L::nodes(old(list)),
            *final(list) == *final(r.list),
    {
        ListMut { list: list }
    }

    /// The node at index `p` of the container.
    pub fn node(&self, p: usize) -> (r: ListNode)
        requires
            p < self.nodes().len(),
        ensures
            r == self.nodes()[p as int],
    {
        *L::index(&*self.list, p)
    }

    fn set_prev(&mut self, p: usize, v: usize)
        requires
            p < old(self).nodes().len(),
        ensures
            *final(final(self).list) == *final(old(self).list),
            final(self).nodes() == old(self).nodes().update(
                p as int,
                ListNode { prev: v, next: old(self).nodes()[p as int].next },
            ),
    {
        let r = L::index_mut(self.list, p);
        r.prev = v;
    }

    fn set_next(&mut self, p: usize, v: usize)
        requires
            p < old(self).nodes().len(),
        ensures
            *final(final(self).list) == *final(old(self).list),
            final(self).nodes() == old(self).nodes().update(
                p as int,
                ListNode { prev: old(self).nodes()[p as int].prev, next: v },
            ),
    {
        let r = L::index_mut(self.list, p);
        r.next = v;
    }

    fn set_node(&mut self, p: usize, v: ListNode)
        requires
            p < old(self).nodes().len(),
        ensures
            *final(final(self).list) == *final(old(self).list),
            final(self).nodes() == old(self).nodes().update(p as int, v),
    {
        let r = L::index_mut(self.list, p);
        *r = v;
    }

    /// Remove the p from the list it is in.
    ///
    /// Return the next node of p, or nullptr
    /// if there's no next node of this node.
    #[verifier::spinoff_prover]
    #[verifier::rlimit(30)]
    pub fn remove_from_list(&mut self, p: usize) -> (r: usize)
        requires
            in_ring(old(self).nodes(), p),
        ensures
            *final(final(self).list) == *final(old(self).list),
            final(self).nodes().len() == old(self).nodes().len(),
            final(self).nodes()[p as int] == detached(),
            ({
                let s = ring_from(old(self).nodes(), p);
                &&& s.len() == 1 ==> r == nil()
                &&& s.len() > 1 ==> r == s[1] && in_ring(final(self).nodes(), r)
                    && ring_from(final(self).nodes(), r) == s.drop_first()
                &&& forall|i: usize|
                    i < old(self).nodes().len() && !s.contains(i)
                        ==> #[trigger] final(self).nodes()[i as int] == old(self).nodes()[i as int]
            }),
            lists_ok(old(self).nodes()) ==> lists_ok(final(self).nodes()),
    {
        let ghost s = ring_from(self.nodes(), p);
        let ghost n = s.len() as int;
        proof {
            lemma_ring_from_valid(self.nodes(), p);
            assert(self.nodes()[s[0] as int].prev == ring_pred(s, 0));
            assert(self.nodes()[s[0] as int].next == ring_succ(s, 0));
        }
        let prev = self.node(p).prev;
        let next = self.node(p).next;
        // When p is a single node list, p.prev == p.next == p, so the
        // neighbours are relinked before p itself is cleared.
        self.set_next(prev, next);
        self.set_prev(next, prev);
        self.set_prev(p, usize::nullptr());
        self.set_next(p, usize::nullptr());
        proof {
            let old_nodes = old(self).nodes();
            let new_nodes = self.nodes();
            assert forall|i: usize|
                i < old_nodes.len() && !s.contains(i)
                    implies #[trigger] new_nodes[i as int] == old_nodes[i as int] by {
                assert(s[n - 1] == prev);
                if n > 1 {
                    assert(s[1] == next);
                }
            }
            if n > 1 {
                let t = s.drop_first();
                assert(s[1] == next);
                assert(s[n - 1] == prev);
                assert forall|j: int| 0 <= j < t.len() implies new_nodes[#[trigger] t[j] as int].next
                    == ring_succ(t, j) && new_nodes[t[j] as int].prev == ring_pred(t, j) by {
                    assert(t[j] == s[j + 1]);
                    assert(s[j + 1] != s[0]);
                    assert(old_nodes[s[j + 1] as int].next == ring_succ(s, j + 1));
                    assert(old_nodes[s[j + 1] as int].prev == ring_pred(s, j + 1));
                    if j + 1 == n - 1 {
                        assert(s[j + 1] == prev);
                    } else {
                        assert(s[j + 1] != prev);
                    }
                    if j == 0 {
                        assert(s[j + 1] == next);
                    } else {
                        assert(s[j + 1] != next);
                    }
                }
                assert(is_ring(new_nodes, t));
                lemma_ring_from(new_nodes, t);
            }
        }
        let r = if next == p {
            usize::nullptr()
        } else {
            next
        };
        proof {
            if lists_ok(old(self).nodes()) {
                assert forall|x: usize| x < old(self).nodes().len() && (list_seq(old(self).nodes(), p).contains(x)
                    || list_seq(old(self).nodes(), nil()).contains(x) || x == nil())
                    implies #[trigger] self.nodes()[x as int] == detached() || list_seq(self.nodes(), r).contains(x)
                    || list_seq(self.nodes(), nil()).contains(x) by {
                    if x != p && s.contains(x) {
                        let i = choose|i: int| 0 <= i < s.len() && s[i] == x;
                        assert(i > 0);
                        assert(s.drop_first()[i - 1] == x);
                    }
                }
                lemma_lists_rebuilt(old(self).nodes(), self.nodes(), p, nil(), nil(), r, nil());
            }
        }
        r
    }

    /// Remove p while fixing the head.
    pub fn remove(&mut self, head: &mut usize, p: usize)
        requires
            list_valid(old(self).nodes(), *old(head)),
            list_seq(old(self).nodes(), *old(head)).contains(p),
        ensures
            *final(final(self).list) == *final(old(self).list),
            ({
                let s = list_seq(old(self).nodes(), *old(head));
                let k = s.index_of(p);
                &&& list_valid(final(self).nodes(), *final(head))
                &&& list_seq(final(self).nodes(), *final(head)) == s.remove(k)
                &&& *final(head) == (if p != *old(head) {
                    *old(head)
                } else if s.len() == 1 {
                    nil()
                } else {
                    s[1]
                })
                &&& final(self).nodes().len() == old(self).nodes().len()
                &&& final(self).nodes()[p as int] == detached()
                &&& forall|i: usize|
                    i < old(self).nodes().len() && !s.contains(i)
                        ==> #[trigger] final(self).nodes()[i as int] == old(self).nodes()[i as int]
            }),
            lists_ok(old(self).nodes()) ==> lists_ok(final(self).nodes()),
    {
        let ghost s = list_seq(self.nodes(), *head);
        let ghost k = s.index_of(p);
        proof {
            lemma_ring_from_valid(self.nodes(), *head);
            lemma_ring_from_at(self.nodes(), s, k);
            lemma_rotate_same_elements(s, k);
        }
        let r = self.remove_from_list(p);
        proof {
            if p == *head {
                assert(rotate(s, 0) =~= s);
                assert(s.remove(0) =~= s.drop_first());
            } else {
                lemma_ring_from_valid(self.nodes(), r);
                lemma_ring_remove_rest(self.nodes(), s, k);
            }
        }
        if p == *head {
            *head = r;
        }
    }

    /// Pop the last item in the list
    /// and return it.
    ///
    /// If the list is empty, then nullptr
    /// will be returned.
    pub fn pop_back(&mut self, head: &mut usize) -> (r: usize)
        requires
            list_valid(old(self).nodes(), *old(head)),
        ensures
            *final(final(self).list) == *final(old(self).list),
            ({
                let s = list_seq(old(self).nodes(), *old(head));
                &&& s.len() == 0 ==> r == nil() && *final(head) == *old(head)
                    && final(self).nodes() == old(self).nodes()
                &&& s.len() > 0 ==> r == s.last() && final(self).nodes()[r as int] == detached()
                &&& list_valid(final(self).nodes(), *final(head))
                &&& s.len() > 0 ==> list_seq(final(self).nodes(), *final(head)) == s.drop_last()
                &&& final(self).nodes().len() == old(self).nodes().len()
                &&& forall|i: usize|
                    i < old(self).nodes().len() && !s.contains(i)
                        ==> #[trigger] final(self).nodes()[i as int] == old(self).nodes()[i as int]
            }),
            lists_ok(old(self).nodes()) ==> lists_ok(final(self).nodes()),
    {
        if head.null() {
            return usize::nullptr();
        }
        let ghost s = list_seq(self.nodes(), *head);
        let ghost n = s.len() as int;
        proof {
            lemma_ring_from_valid(self.nodes(), *head);
            assert(self.nodes()[s[0] as int].prev == ring_pred(s, 0));
            assert(s.contains(s[n - 1]));
            assert(s.index_of(s[n - 1]) == n - 1);
            assert(s.remove(n - 1) =~= s.drop_last());
        }
        let last = self.node(*head).prev;
        self.remove(head, last);
        last
    }

    /// Pop the first item in the list
    /// and return it.
    pub fn pop_front(&mut self, head: &mut usize) -> (r: usize)
        requires
            list_valid(old(self).nodes(), *old(head)),
        ensures
            *final(final(self).list) == *final(old(self).list),
            ({
                let s = list_seq(old(self).nodes(), *old(head));
                &&& s.len() == 0 ==> r == nil() && *final(head) == *old(head)
                    && final(self).nodes() == old(self).nodes()
                &&& s.len() > 0 ==> r == s[0] && final(self).nodes()[r as int] == detached()
                &&& list_valid(final(self).nodes(), *final(head))
                &&& s.len() > 0 ==> list_seq(final(self).nodes(), *final(head)) == s.drop_first()
                &&& final(self).nodes().len() == old(self).nodes().len()
                &&& forall|i: usize|
                    i < old(self).nodes().len() && !s.contains(i)
                        ==> #[trigger] final(self).nodes()[i as int] == old(self).nodes()[i as int]
            }),
            lists_ok(old(self).nodes()) ==> lists_ok(final(self).nodes()),
    {
        if head.null() {
            return usize::nullptr();
        }
        let ghost s = list_seq(self.nodes(), *head);
        proof {
            lemma_ring_from_valid(self.nodes(), *head);
            assert(s.contains(s[0]));
            assert(s.index_of(s[0]) == 0);
            assert(s.remove(0) =~= s.drop_first());
        }
        let first = *head;
        self.remove(head, first);
        first
    }

    /// Clear the list.
    ///
    /// For the list pointed at head, we will
    /// remove every node in the list so that
    /// those node are not in list.
    pub fn clear(&mut self, head: usize)
        requires
            list_valid(old(self).nodes(), head),
        ensures
            *final(final(self).list) == *final(old(self).list),
            final(self).nodes().len() == old(self).nodes().len(),
            forall|i: usize|
                i < old(self).nodes().len() ==> #[trigger] final(self).nodes()[i as int] == if list_seq(
                    old(self).nodes(),
                    head,
                ).contains(i) {
                    detached()
                } else {
                    old(self).nodes()[i as int]
                },
            lists_ok(old(self).nodes()) ==> lists_ok(final(self).nodes()),
    {
        self.clear_option(head);
        proof {
            if lists_ok(old(self).nodes()) {
                lemma_lists_rebuilt(old(self).nodes(), self.nodes(), head, nil(), nil(), nil(), nil());
            }
        }
    }

    #[verifier::rlimit(50)]
    #[verifier::spinoff_prover]
    fn clear_option(&mut self, head: usize) -> (r: Option<()>)
        requires
            list_valid(old(self).nodes(), head),
        ensures
            *final(final(self).list) == *final(old(self).list),
            r is None,
            final(self).nodes().len() == old(self).nodes().len(),
            forall|i: usize|
                i < old(self).nodes().len() ==> #[trigger] final(self).nodes()[i as int] == if list_seq(
                    old(self).nodes(),
                    head,
                ).contains(i) {
                    detached()
                } else {
                    old(self).nodes()[i as int]
                },
    {
        let ghost s = list_seq(self.nodes(), head);
        let ghost n = s.len() as int;
        let ghost m: int = 0;
        proof {
            if head != nil() {
                lemma_ring_from_valid(self.nodes(), head);
                assert forall|j: int| 0 <= j < n implies #[trigger] s[j] < old(self).nodes().len() by {}
            }
            assert(s.subrange(0, n) =~= s);
        }
        let mut curr = head.to_option()?;
        loop
            invariant
                *final(self.list) == *final(old(self).list),
                0 <= m <= n,
                s == list_seq(old(self).nodes(), head),
                n == s.len(),
                s.no_duplicates(),
                list_valid(self.nodes(), curr),
                list_seq(self.nodes(), curr) == s.subrange(m, n),
                self.nodes().len() == old(self).nodes().len(),
                forall|j: int| 0 <= j < n ==> #[trigger] s[j] < old(self).nodes().len(),
                forall|j: int| 0 <= j < m ==> self.nodes()[#[trigger] s[j] as int] == detached(),
                forall|i: usize|
                    i < old(self).nodes().len() && !s.contains(i)
                        ==> #[trigger] self.nodes()[i as int] == old(self).nodes()[i as int],
            decreases n - m,
        {
            let p = match curr.to_option() {
                Some(p) => p,
                None => {
                    proof {
                        assert(s.subrange(m, n).len() == 0);
                        assert forall|i: usize| i < old(self).nodes().len() implies #[trigger] self.nodes()[i as int]
                            == if s.contains(i) {
                            detached()
                        } else {
                            old(self).nodes()[i as int]
                        } by {
                            if s.contains(i) {
                                let j = choose|j: int| 0 <= j < n && #[trigger] s[j] == i;
                            }
                        }
                    }
                    return None;
                },
            };
            proof {
                assert(s.subrange(m, n)[0] == s[m]);
                lemma_ring_from_valid(self.nodes(), curr);
                assert(list_seq(self.nodes(), curr).contains(p));
            }
            let ghost before = self.nodes();
            self.remove(&mut curr, p);
            proof {
                let t = s.subrange(m, n);
                assert(t.index_of(p) == 0);
                assert(t.remove(0) =~= s.subrange(m + 1, n));
                lemma_clear_step(old(self).nodes(), before, self.nodes(), s, m);
                m = m + 1;
            }
        }
    }

    // insert p after l after checked.
    //
    // Have checked that p is not in list
    // and l is in list. There must be
    // l -> p -> l.next after insertion.
    fn insert_checked(&mut self, l: usize, p: usize)
        requires
            in_ring(old(self).nodes(), l),
            p < old(self).nodes().len(),
            p != nil(),
            old(self).nodes()[p as int].prev == nil(),
        ensures
            *final(final(self).list) == *final(old(self).list),
            final(self).nodes().len() == old(self).nodes().len(),
            in_ring(final(self).nodes(), l),
            ring_from(final(self).nodes(), l) == ring_from(old(self).nodes(), l).insert(1, p),
            forall|i: usize|
                i < old(self).nodes().len() && i != p && !ring_from(old(self).nodes(), l).contains(i)
                    ==> #[trigger] final(self).nodes()[i as int] == old(self).nodes()[i as int],
    {
        let ghost s = ring_from(self.nodes(), l);
        proof {
            lemma_ring_from_valid(self.nodes(), l);
            lemma_ring_members_linked(self.nodes(), s, p);
            assert(self.nodes()[s[0] as int].next == ring_succ(s, 0));
        }
        let next = self.node(l).next;
        self.set_next(l, p);
        self.set_prev(p, l);
        self.set_next(p, next);
        self.set_prev(next, p);
        proof {
            lemma_ring_insert(old(self).nodes(), self.nodes(), s, p);
        }
    }

    /// Insert p after l.
    ///
    /// Here, l can be nullptr, p will be
    /// fixed into a one-element list and
    /// returned. Otherwise p will be inserted
    /// after l, and l will be returned.
    ///
    /// p must not be in a list, and l must be
    /// nullptr or in a list.
    pub fn insert_after(&mut self, l: usize, p: usize) -> (r: usize)
        requires
            p != nil(),
            p < old(self).nodes().len(),
            old(self).nodes()[p as int].prev == nil(),
            list_valid(old(self).nodes(), l),
        ensures
            *final(final(self).list) == *final(old(self).list),
            final(self).nodes().len() == old(self).nodes().len(),
            r == (if l == nil() { p } else { l }),
            in_ring(final(self).nodes(), r),
            ring_from(final(self).nodes(), r) == (if l == nil() {
                seq![p]
            } else {
                ring_from(old(self).nodes(), l).insert(1, p)
            }),
            forall|i: usize|
                i < old(self).nodes().len() && i != p && !list_seq(old(self).nodes(), l).contains(i)
                    ==> #[trigger] final(self).nodes()[i as int] == old(self).nodes()[i as int],
            lists_ok(old(self).nodes()) ==> lists_ok(final(self).nodes()),
    {
        let r = if l.null() {
            self.set_node(p, ListNode::new_indexed(p));
            proof {
                lemma_singleton_ring(self.nodes(), p);
            }
            p
        } else {
            self.insert_checked(l, p);
            l
        };
        proof {
            if lists_ok(old(self).nodes()) {
                let sl = list_seq(old(self).nodes(), l);
                let t = ring_from(self.nodes(), r);
                assert(t[if l == nil() { 0 } else { 1 }] == p);
                assert forall|x: usize| x < old(self).nodes().len() && (sl.contains(x) || list_seq(old(self).nodes(), nil()).contains(x) || x == p)
                    implies #[trigger] self.nodes()[x as int] == detached() || list_seq(self.nodes(), r).contains(x)
                    || list_seq(self.nodes(), nil()).contains(x) by {
                    if x != p && sl.contains(x) {
                        let i = choose|i: int| 0 <= i < sl.len() && sl[i] == x;
                        if i == 0 {
                            assert(t[0] == x);
                        } else {
                            assert(t[i + 1] == x);
                        }
                    }
                }
                lemma_lists_rebuilt(old(self).nodes(), self.nodes(), l, nil(), p, r, nil());
            }
        }
        r
    }

    /// Insert p before l.
    ///
    /// The constrain is the same as
    /// insert_after(l, p). See also
    /// the document of that function.
    pub fn insert_before(&mut self, l: usize, p: usize) -> (r: usize)
        requires
            p != nil(),
            p < old(self).nodes().len(),
            old(self).nodes()[p as int].prev == nil(),
            list_valid(old(self).nodes(), l),
        ensures
            *final(final(self).list) == *final(old(self).list),
            final(self).nodes().len() == old(self).nodes().len(),
            r == (if l == nil() { p } else { l }),
            in_ring(final(self).nodes(), r),
            ring_from(final(self).nodes(), r) == list_seq(old(self).nodes(), l).push(p),
            forall|i: usize|
                i < old(self).nodes().len() && i != p && !list_seq(old(self).nodes(), l).contains(i)
                    ==> #[trigger] final(self).nodes()[i as int] == old(self).nodes()[i as int],
            lists_ok(old(self).nodes()) ==> lists_ok(final(self).nodes()),
    {
        let r = if l.null() {
            self.set_node(p, ListNode::new_indexed(p));
            proof {
                lemma_singleton_ring(self.nodes(), p);
                assert(seq![p] =~= Seq::<usize>::empty().push(p));
            }
            p
        } else {
            let ghost s = ring_from(self.nodes(), l);
            let ghost n = s.len() as int;
            proof {
                lemma_ring_from_valid(self.nodes(), l);
                assert(self.nodes()[s[0] as int].prev == ring_pred(s, 0));
                lemma_ring_from_at(self.nodes(), s, n - 1);
                lemma_rotate_same_elements(s, n - 1);
            }
            let prev = self.node(l).prev;
            self.insert_checked(prev, p);
            proof {
                lemma_ring_from_valid(self.nodes(), prev);
                lemma_ring_insert_before(self.nodes(), s, p);
            }
            l
        };
        proof {
            if lists_ok(old(self).nodes()) {
                let sl = list_seq(old(self).nodes(), l);
                let t = ring_from(self.nodes(), r);
                assert(t[sl.len() as int] == p);
                assert forall|x: usize| x < old(self).nodes().len() && (sl.contains(x) || list_seq(old(self).nodes(), nil()).contains(x) || x == p)
                    implies #[trigger] self.nodes()[x as int] == detached() || list_seq(self.nodes(), r).contains(x)
                    || list_seq(self.nodes(), nil()).contains(x) by {
                    if x != p && sl.contains(x) {
                        let i = choose|i: int| 0 <= i < sl.len() && sl[i] == x;
                        assert(t[i] == x);
                    }
                }
                lemma_lists_rebuilt(old(self).nodes(), self.nodes(), l, nil(), p, r, nil());
            }
        }
        r
    }

    /// Append to the list specified by head.
    pub fn append(&mut self, head: &mut usize, p: usize)
        requires
            p != nil(),
            p < old(self).nodes().len(),
            old(self).nodes()[p as int].prev == nil(),
            list_valid(old(self).nodes(), *old(head)),
        ensures
            *final(final(self).list) == *final(old(self).list),
            final(self).nodes().len() == old(self).nodes().len(),
            *final(head) == (if *old(head) == nil() { p } else { *old(head) }),
            list_valid(final(self).nodes(), *final(head)),
            list_seq(final(self).nodes(), *final(head)) == list_seq(old(self).nodes(), *old(head)).push(p),
            forall|i: usize|
                i < old(self).nodes().len() && i != p && !list_seq(old(self).nodes(), *old(head)).contains(i)
                    ==> #[trigger] final(self).nodes()[i as int] == old(self).nodes()[i as int],
            lists_ok(old(self).nodes()) ==> lists_ok(final(self).nodes()),
    {
        *head = self.insert_before(*head, p);
    }

    /// Prepend to the list specified by head.
    pub fn prepend(&mut self, head: &mut usize, p: usize)
        requires
            p != nil(),
            p < old(self).nodes().len(),
            old(self).nodes()[p as int].prev == nil(),
            list_valid(old(self).nodes(), *old(head)),
        ensures
            *final(final(self).list) == *final(old(self).list),
            final(self).nodes().len() == old(self).nodes().len(),
            *final(head) == p,
            list_valid(final(self).nodes(), *final(head)),
            list_seq(final(self).nodes(), *final(head)) == seq![p] + list_seq(old(self).nodes(), *old(head)),
            forall|i: usize|
                i < old(self).nodes().len() && i != p && !list_seq(old(self).nodes(), *old(head)).contains(i)
                    ==> #[trigger] final(self).nodes()[i as int] == old(self).nodes()[i as int],
            lists_ok(old(self).nodes()) ==> lists_ok(final(self).nodes()),
    {
        let ghost s = list_seq(self.nodes(), *head);
        let l = self.insert_before(*head, p);
        proof {
            let t = s.push(p);
            lemma_ring_from_valid(self.nodes(), l);
            lemma_ring_from_at(self.nodes(), t, s.len() as int);
            assert(rotate(t, s.len() as int) =~= seq![p] + s);
        }
        *head = p;
    }

    // Splice p after l after checked.
    //
    // Have checked that both l and p are in
    // list. There must be l -> p -> l.next
    // after splicing.
    #[verifier::spinoff_prover]
    #[verifier::rlimit(60)]
    fn splice_checked(&mut self, l: usize, p: usize)
        requires
            in_ring(old(self).nodes(), l),
            in_ring(old(self).nodes(), p),
        ensures
            *final(final(self).list) == *final(old(self).list),
            final(self).nodes().len() == old(self).nodes().len(),
            in_ring(final(self).nodes(), l),
            !ring_from(old(self).nodes(), l).contains(p) ==> ring_from(final(self).nodes(), l) == seq![l]
                + ring_from(old(self).nodes(), p) + ring_from(old(self).nodes(), l).drop_first(),
            ring_from(old(self).nodes(), l).contains(p) ==> {
                let s = ring_from(old(self).nodes(), l);
                let k = s.index_of(p);
                &&& ring_from(final(self).nodes(), l) == split_head(s, k)
                &&& split_rest(s, k).len() > 0 ==> in_ring(final(self).nodes(), s[1])
                    && ring_from(final(self).nodes(), s[1]) == split_rest(s, k)
            },
            forall|i: usize|
                i < old(self).nodes().len() && !ring_from(old(self).nodes(), l).contains(i)
                    && !ring_from(old(self).nodes(), p).contains(i)
                    ==> #[trigger] final(self).nodes()[i as int] == old(self).nodes()[i as int],
            lists_ok(old(self).nodes()) ==> lists_ok(final(self).nodes()),
    {
        let ghost sl = ring_from(self.nodes(), l);
        let ghost sp = ring_from(self.nodes(), p);
        proof {
            lemma_ring_from_valid(self.nodes(), l);
            lemma_ring_from_valid(self.nodes(), p);
            assert(self.nodes()[sl[0] as int].next == ring_succ(sl, 0));
            assert(self.nodes()[sp[0] as int].prev == ring_pred(sp, 0));
            if !sl.contains(p) {
                lemma_rings_disjoint(self.nodes(), sl, sp);
            } else {
                let k = sl.index_of(p);
                assert(sl[k] == p);
                assert(self.nodes()[sl[k] as int].prev == ring_pred(sl, k));
                lemma_rotate_same_elements(sl, k);
                lemma_ring_from_at(self.nodes(), sl, k);
                assert forall|x: usize| #[trigger] sp.contains(x) implies sl.contains(x) by {
                    assert(rotate(sl, k).contains(x));
                }
            }
        }
        let next = self.node(l).next;
        let prev = self.node(p).prev;
        self.set_next(l, p);
        self.set_prev(p, l);
        self.set_next(prev, next);
        self.set_prev(next, prev);
        proof {
            if !sl.contains(p) {
                lemma_ring_splice(old(self).nodes(), self.nodes(), sl, sp);
            } else {
                let k = sl.index_of(p);
                let before = old(self).nodes();
                let after = self.nodes();
                assert forall|x: int| 0 <= x < before.len() implies (#[trigger] after[x]).next == (if x == prev {
                    next
                } else if x == l {
                    p
                } else {
                    before[x].next
                }) && after[x].prev == (if x == next {
                    prev
                } else if x == p {
                    l
                } else {
                    before[x].prev
                }) by {}
                lemma_split_head(before, after, sl, k);
                lemma_ring_from(after, split_head(sl, k));
                if split_rest(sl, k).len() > 0 {
                    lemma_split_rest(before, after, sl, k);
                    lemma_ring_from(after, split_rest(sl, k));
                    assert(split_rest(sl, k)[0] == sl[1]);
                }
            }
            if lists_ok(old(self).nodes()) {
                lemma_lists_after_splice(old(self).nodes(), self.nodes(), l, p);
            }
        }
    }

    /// Splice p after l.
    ///
    /// Both p and l must be lists, and the
    /// segment of list which p points to will
    /// be inserted between l and l.next. That is,
    /// l -> p -> l.next then.
    ///
    /// If l is nullptr it will be viewed as an empty
    /// list and thus p will be returned. This also
    /// do for p and l will be returned.
    pub fn splice_after(&mut self, l: usize, p: usize) -> (r: usize)
        requires
            list_valid(old(self).nodes(), l),
            list_valid(old(self).nodes(), p),
        ensures
            *final(final(self).list) == *final(old(self).list),
            final(self).nodes().len() == old(self).nodes().len(),
            r == (if l == nil() { p } else { l }),
            list_valid(final(self).nodes(), r),
            l == nil() || p == nil() ==> final(self).nodes() == old(self).nodes() && list_seq(final(self).nodes(), r)
                == list_seq(old(self).nodes(), r),
            l != nil() && p != nil() && !ring_from(old(self).nodes(), l).contains(p) ==> list_seq(final(self).nodes(), l)
                == seq![l] + ring_from(old(self).nodes(), p) + ring_from(old(self).nodes(), l).drop_first(),
            l != nil() && p != nil() && ring_from(old(self).nodes(), l).contains(p) ==> {
                let s = ring_from(old(self).nodes(), l);
                let k = s.index_of(p);
                &&& list_seq(final(self).nodes(), l) == split_head(s, k)
                &&& split_rest(s, k).len() > 0 ==> list_valid(final(self).nodes(), s[1]) && list_seq(
                    final(self).nodes(),
                    s[1],
                ) == split_rest(s, k)
            },
            forall|i: usize|
                i < old(self).nodes().len() && !list_seq(old(self).nodes(), l).contains(i)
                    && !list_seq(old(self).nodes(), p).contains(i)
                    ==> #[trigger] final(self).nodes()[i as int] == old(self).nodes()[i as int],
            lists_ok(old(self).nodes()) ==> lists_ok(final(self).nodes()),
    {
        if l.null() {
            return p;
        }
        if p.null() {
            return l;
        }
        self.splice_checked(l, p);
        l
    }

    /// Splice p before l.
    ///
    /// The calling convention are the same as
    /// splice_after(l, p), except for there will
    /// be l.prev -> p -> l after splicing.
    ///
    /// The result will be p if p is not empty list,
    /// or l will be returned.
    #[verifier::spinoff_prover]
    #[verifier::rlimit(30)]
    pub fn splice_before(&mut self, l: usize, p: usize) -> (r: usize)
        requires
            list_valid(old(self).nodes(), l),
            list_valid(old(self).nodes(), p),
        ensures
            *final(final(self).list) == *final(old(self).list),
            final(self).nodes().len() == old(self).nodes().len(),
            r == (if l == nil() || p != nil() { p } else { l }),
            list_valid(final(self).nodes(), r),
            !(l != nil() && p != nil() && ring_from(old(self).nodes(), l).contains(p)) ==> list_seq(
                final(self).nodes(),
                r,
            ) == list_seq(old(self).nodes(), p) + list_seq(old(self).nodes(), l),
            l != nil() && p != nil() && ring_from(old(self).nodes(), l).contains(p) ==> {
                let s = ring_from(old(self).nodes(), l);
                let j = s.index_of(p);
                &&& list_seq(final(self).nodes(), p) == s.subrange(j, s.len() as int)
                &&& j > 0 ==> list_valid(final(self).nodes(), l) && list_seq(final(self).nodes(), l)
                    == s.subrange(0, j)
            },
            l == nil() || p == nil() ==> final(self).nodes() == old(self).nodes(),
            forall|i: usize|
                i < old(self).nodes().len() && !list_seq(old(self).nodes(), l).contains(i)
                    && !list_seq(old(self).nodes(), p).contains(i)
                    ==> #[trigger] final(self).nodes()[i as int] == old(self).nodes()[i as int],
            lists_ok(old(self).nodes()) ==> lists_ok(final(self).nodes()),
    {
        if l.null() {
            proof {
                assert(list_seq(self.nodes(), p) + Seq::<usize>::empty() =~= list_seq(self.nodes(), p));
            }
            return p;
        }
        if p.null() {
            proof {
                assert(Seq::<usize>::empty() + list_seq(self.nodes(), l) =~= list_seq(self.nodes(), l));
            }
            return l;
        }
        let ghost sl = ring_from(self.nodes(), l);
        let ghost n = sl.len() as int;
        proof {
            lemma_ring_from_valid(self.nodes(), l);
            assert(self.nodes()[sl[0] as int].prev == ring_pred(sl, 0));
            lemma_ring_from_at(self.nodes(), sl, n - 1);
            lemma_rotate_same_elements(sl, n - 1);
        }
        let prev = self.node(l).prev;
        self.splice_checked(prev, p);
        proof {
            lemma_ring_from_valid(self.nodes(), prev);
            if !sl.contains(p) {
                lemma_ring_splice_before(self.nodes(), sl, ring_from(old(self).nodes(), p));
            } else {
                let j = sl.index_of(p);
                assert(sl[j] == p);
                lemma_split_before(sl, j);
                let s2 = rotate(sl, n - 1);
                let k2 = if j == n - 1 { 0 } else { j + 1 };
                assert(s2.contains(p));
                if k2 > 0 {
                    lemma_ring_from_at(self.nodes(), split_head(s2, k2), 1);
                }
                if j > 0 {
                    assert(s2[1] == l);
                }
            }
        }
        p
    }
}

/// Every node of the arena is detached or an element of a well-formed
/// circular list.
pub open spec fn lists_ok(nodes: Seq<ListNode>) -> bool {
    forall|x: usize| x < nodes.len() ==> #[trigger] nodes[x as int] == detached() || in_ring(nodes, x)
}

/// Every element of a ring is in a ring.
proof fn lemma_ring_members(nodes: Seq<ListNode>, s: Seq<usize>)
    requires
        is_ring(nodes, s),
    ensures
        forall|x: usize| #[trigger] s.contains(x) ==> in_ring(nodes, x),
{
    assert forall|x: usize| #[trigger] s.contains(x) implies in_ring(nodes, x) by {
        let i = choose|i: int| 0 <= i < s.len() && s[i] == x;
        lemma_ring_from_at(nodes, s, i);
    }
}

/// Every element of a well-formed list is in a ring.
proof fn lemma_list_members(nodes: Seq<ListNode>, h: usize)
    requires
        list_valid(nodes, h),
    ensures
        forall|x: usize| #[trigger] list_seq(nodes, h).contains(x) ==> in_ring(nodes, x),
{
    if h != nil() {
        lemma_ring_from_valid(nodes, h);
        lemma_ring_members(nodes, list_seq(nodes, h));
    }
}

/// The ring through an element of a ring has the same elements.
proof fn lemma_ring_closed(nodes: Seq<ListNode>, s: Seq<usize>)
    requires
        is_ring(nodes, s),
    ensures
        forall|y: usize, z: usize| #[trigger] s.contains(y) && #[trigger] ring_from(nodes, y).contains(z) ==> s.contains(z),
{
    assert forall|y: usize, z: usize| #[trigger] s.contains(y) && #[trigger] ring_from(nodes, y).contains(z) implies s.contains(z) by {
        let i = choose|i: int| 0 <= i < s.len() && s[i] == y;
        lemma_ring_from_at(nodes, s, i);
        lemma_rotate_same_elements(s, i);
    }
}

/// The ring through an element of a well-formed list has the list's
/// elements.
proof fn lemma_list_closed(nodes: Seq<ListNode>, h: usize)
    requires
        list_valid(nodes, h),
    ensures
        forall|y: usize, z: usize| #[trigger] list_seq(nodes, h).contains(y) && #[trigger] ring_from(nodes, y).contains(z)
            ==> list_seq(nodes, h).contains(z),
{
    if h != nil() {
        lemma_ring_from_valid(nodes, h);
        lemma_ring_closed(nodes, list_seq(nodes, h));
    }
}

/// A node whose `prev` is null is in no ring.
proof fn lemma_unlinked_not_in_ring(nodes: Seq<ListNode>, p: usize)
    requires
        nodes[p as int].prev == nil(),
    ensures
        !in_ring(nodes, p),
{
    if in_ring(nodes, p) {
        lemma_ring_from_valid(nodes, p);
        let s = ring_from(nodes, p);
        assert(nodes[s[0] as int].prev == ring_pred(s, 0));
    }
}

/// A change confined to the set `d` of nodes, where `d` holds whole rings,
/// keeps every node detached or in a ring, as long as the nodes of `d` are.
proof fn lemma_lists_kept(n0: Seq<ListNode>, n1: Seq<ListNode>, d: Set<usize>)
    requires
        lists_ok(n0),
        n1.len() == n0.len(),
        forall|x: usize| x < n0.len() && !d.contains(x) ==> #[trigger] n1[x as int] == n0[x as int],
        forall|y: usize, z: usize| #[trigger] d.contains(y) && in_ring(n0, y) && #[trigger] ring_from(n0, y).contains(z) ==> d.contains(z),
        forall|x: usize| x < n0.len() && #[trigger] d.contains(x) ==> n1[x as int] == detached() || in_ring(n1, x),
    ensures
        lists_ok(n1),
{
    assert forall|x: usize| x < n1.len() implies #[trigger] n1[x as int] == detached() || in_ring(n1, x) by {
        if !d.contains(x) {
            assert(n1[x as int] == n0[x as int]);
            if n0[x as int] != detached() {
                assert(in_ring(n0, x));
                lemma_ring_from_valid(n0, x);
                let s = ring_from(n0, x);
                assert forall|i: int| 0 <= i < s.len() implies !d.contains(#[trigger] s[i]) by {
                    if d.contains(s[i]) {
                        lemma_ring_from_at(n0, s, i);
                        lemma_rotate_same_elements(s, i);
                        assert(s.contains(x));
                        assert(ring_from(n0, s[i]).contains(x));
                    }
                }
                assert forall|i: int| 0 <= i < s.len() implies n1[#[trigger] s[i] as int] == n0[s[i] as int] by {
                    assert(!d.contains(s[i]));
                }
                assert(is_ring(n1, s));
            }
        }
    }
}

/// A change confined to the lists at `a` and `b` of `nodes` and to the node
/// `p`, which is in no list (or null), keeps every node detached or in a
/// ring, when each of those nodes ends up detached or in the new lists at
/// `ha` and `hb`.
proof fn lemma_lists_rebuilt(n0: Seq<ListNode>, n1: Seq<ListNode>, a: usize, b: usize, p: usize, ha: usize, hb: usize)
    requires
        lists_ok(n0),
        n1.len() == n0.len(),
        list_valid(n0, a),
        list_valid(n0, b),
        p == nil() || n0[p as int].prev == nil(),
        list_valid(n1, ha),
        list_valid(n1, hb),
        forall|i: usize|
            i < n0.len() && i != p && !list_seq(n0, a).contains(i) && !list_seq(n0, b).contains(i)
                ==> #[trigger] n1[i as int] == n0[i as int],
        forall|x: usize|
            x < n0.len() && (list_seq(n0, a).contains(x) || list_seq(n0, b).contains(x) || x == p) ==> #[trigger] n1[x as int]
                == detached() || list_seq(n1, ha).contains(x) || list_seq(n1, hb).contains(x),
    ensures
        lists_ok(n1),
{
    let d = Set::new(|x: usize| list_seq(n0, a).contains(x) || list_seq(n0, b).contains(x) || x == p);
    lemma_list_closed(n0, a);
    lemma_list_closed(n0, b);
    lemma_list_members(n1, ha);
    lemma_list_members(n1, hb);
    if p != nil() {
        lemma_unlinked_not_in_ring(n0, p);
    } else {
        if in_ring(n0, p) {
            lemma_ring_from_valid(n0, p);
        }
    }
    assert forall|y: usize, z: usize| #[trigger] d.contains(y) && in_ring(n0, y) && #[trigger] ring_from(n0, y).contains(z)
        implies d.contains(z) by {
        if list_seq(n0, a).contains(y) {
            assert(list_seq(n0, a).contains(z));
        } else if list_seq(n0, b).contains(y) {
            assert(list_seq(n0, b).contains(z));
        }
    }
    assert forall|x: usize| x < n0.len() && !d.contains(x) implies #[trigger] n1[x as int] == n0[x as int] by {
        assert(x != p && !list_seq(n0, a).contains(x) && !list_seq(n0, b).contains(x));
    }
    assert forall|x: usize| x < n0.len() && #[trigger] d.contains(x) implies n1[x as int] == detached() || in_ring(n1, x) by {
        assert(list_seq(n0, a).contains(x) || list_seq(n0, b).contains(x) || x == p);
    }
    lemma_lists_kept(n0, n1, d);
}

/// Splicing the list at `p` in behind `l` keeps every node detached or in a
/// ring.
#[verifier::spinoff_prover]
#[verifier::rlimit(30)]
proof fn lemma_lists_after_splice(n0: Seq<ListNode>, n1: Seq<ListNode>, l: usize, p: usize)
    requires
        lists_ok(n0),
        in_ring(n0, l),
        in_ring(n0, p),
        n1.len() == n0.len(),
        in_ring(n1, l),
        !ring_from(n0, l).contains(p) ==> ring_from(n1, l) == seq![l] + ring_from(n0, p) + ring_from(n0, l).drop_first(),
        ring_from(n0, l).contains(p) ==> {
            let s = ring_from(n0, l);
            let k = s.index_of(p);
            &&& ring_from(n1, l) == split_head(s, k)
            &&& split_rest(s, k).len() > 0 ==> in_ring(n1, s[1]) && ring_from(n1, s[1]) == split_rest(s, k)
        },
        forall|i: usize|
            i < n0.len() && !ring_from(n0, l).contains(i) && !ring_from(n0, p).contains(i)
                ==> #[trigger] n1[i as int] == n0[i as int],
    ensures
        lists_ok(n1),
{
    let sl = ring_from(n0, l);
    let sp = ring_from(n0, p);
    lemma_ring_from_valid(n0, l);
    lemma_ring_from_valid(n0, p);
    let t = ring_from(n1, l);
    if !sl.contains(p) {
        assert forall|x: usize| x < n0.len() && (list_seq(n0, l).contains(x) || list_seq(n0, p).contains(x) || x == nil())
            implies #[trigger] n1[x as int] == detached() || list_seq(n1, l).contains(x) || list_seq(n1, nil()).contains(x) by {
            if sl.contains(x) {
                let i = choose|i: int| 0 <= i < sl.len() && sl[i] == x;
                if i == 0 {
                    assert(t[0] == x);
                } else {
                    assert(t[sp.len() + i] == x);
                }
            } else if sp.contains(x) {
                let i = choose|i: int| 0 <= i < sp.len() && sp[i] == x;
                assert(t[1 + i] == x);
            }
        }
        lemma_lists_rebuilt(n0, n1, l, p, nil(), l, nil());
    } else {
        let k = sl.index_of(p);
        assert(sl[k] == p);
        lemma_ring_closed(n0, sl);
        let rest = split_rest(sl, k);
        let hb = if rest.len() > 0 { sl[1] } else { nil() };
        assert forall|x: usize| x < n0.len() && (list_seq(n0, l).contains(x) || list_seq(n0, p).contains(x) || x == nil())
            implies #[trigger] n1[x as int] == detached() || list_seq(n1, l).contains(x) || list_seq(n1, hb).contains(x) by {
            if sp.contains(x) {
                assert(sl.contains(p) && ring_from(n0, p).contains(x));
            }
            if sl.contains(x) {
                let i = choose|i: int| 0 <= i < sl.len() && sl[i] == x;
                if i == 0 {
                    assert(t[0] == x);
                } else if k == 0 {
                    assert(rest[i - 1] == x);
                } else if i >= k {
                    assert(t[1 + i - k] == x);
                } else {
                    assert(rest[i - 1] == x);
                }
            }
        }
        lemma_lists_rebuilt(n0, n1, l, p, nil(), l, hb);
    }
}

} // verus!

verus! {

/// Read-only access to the list nodes of a borrowed container.
pub struct List<'a, L: ListNodeIndex> {
    list: &'a L::Container,
}

/// Walks the elements of one list, from its head, in `next` order.
pub struct ListIterator<'a, L: ListNodeIndex> {
    list: &'a L::Container,
    head: usize,
    curr: usize,
}

impl<'a, L: ListNodeIndex> List<'a, L> {
    /// The list nodes of the borrowed container.
    pub closed spec fn nodes(&self) -> Seq<ListNode> {
        L::nodes(self.list)
    }

    /// Borrows the container for reading lists.
    pub fn new(list: &'a L::Container) -> (r: Self)
        ensures
            r.nodes() == L::nodes(list),
    {
        List { list: list }
    }

    /// The node at index `p` of the container.
    pub fn node(&self, p: usize) -> (r: ListNode)
        requires
            p < self.nodes().len(),
        ensures
            r == self.nodes()[p as int],
    {
        *L::index(self.list, p)
    }

    /// Iterates over the elements of the list with head `head`.
    pub fn iter_head(&self, head: usize) -> (r: ListIterator<'a, L>)
        requires
            list_valid(self.nodes(), head),
        ensures
            r.wf(),
            r.nodes() == self.nodes(),
            r.remaining() == list_seq(self.nodes(), head),
    {
        ListIterator { list: self.list, head: head, curr: usize::nullptr() }
    }
}

impl<'a, L: ListNodeIndex> ListIterator<'a, L> {
    /// The list nodes the iterator walks.
    pub closed spec fn nodes(&self) -> Seq<ListNode> {
        L::nodes(self.list)
    }

    /// The iterator points into a well-formed list.
    pub closed spec fn wf(&self) -> bool {
        &&& list_valid(self.nodes(), self.head)
        &&& self.head != nil() && self.curr != nil() ==> ring_from(self.nodes(), self.head).contains(
            self.curr,
        )
    }

    /// The elements that the iterator has yet to return, in order.
    pub closed spec fn remaining(&self) -> Seq<usize> {
        let s = ring_from(self.nodes(), self.head);
        if self.head == nil() || self.curr == self.head {
            Seq::empty()
        } else if self.curr == nil() {
            s
        } else {
            s.subrange(s.index_of(self.curr), s.len() as int)
        }
    }

    /// Returns the next element of the list, or `None` once every element
    /// was returned.
    pub fn next(&mut self) -> (r: Option<usize>)
        requires
            old(self).wf(),
        ensures
            final(self).wf(),
            final(self).nodes() == old(self).nodes(),
            old(self).remaining().len() == 0 ==> r is None && final(self).remaining().len() == 0,
            old(self).remaining().len() > 0 ==> r == Some(old(self).remaining()[0])
                && final(self).remaining() == old(self).remaining().drop_first(),
    {
        // Empty list has no item to iterate.
        if self.head.null() {
            return None;
        }
        if self.curr == self.head {
            return None;
        }
        let ghost s = ring_from(self.nodes(), self.head);
        let ghost n = s.len() as int;
        proof {
            lemma_ring_from_valid(self.nodes(), self.head);
        }
        let result = if self.curr.null() {
            self.head
        } else {
            self.curr
        };
        let ghost k = if self.curr == nil() { 0 } else { s.index_of(self.curr) };
        proof {
            assert(s[k] == result);
            assert(self.nodes()[s[k] as int].next == ring_succ(s, k));
            if k + 1 < n {
                assert(s.contains(s[k + 1]));
                assert(s.index_of(s[k + 1]) == k + 1);
            }
            assert(s.subrange(k, n)[0] == result);
            assert(s.subrange(k, n).drop_first() =~= s.subrange(k + 1, n));
            if self.curr == nil() {
                assert(s.subrange(0, n) =~= s);
            }
        }
        self.curr = L::index(self.list, result).next;
        Some(result)
    }
}

} // verus!
