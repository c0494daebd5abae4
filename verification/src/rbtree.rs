use vstd::prelude::*;
use crate::ptr::{nil, NullablePtr};

pub mod color;
pub mod model;
pub mod query;
pub mod rotate;
pub mod insert;
pub mod swap;
pub mod delete;
pub mod keyed;
pub mod exact;

verus! {

/// The color of a red-black tree node.
#[allow(non_camel_case_types)]
#[derive(Copy, Clone, PartialEq, Eq, Debug, Structural)]
pub enum RBTreeColor {
    RED,
    BLACK,
}

/// Pointers into a tree must stay below this bound, so that one bit of the
/// index is left free for the color.
pub open spec fn ptr_bound() -> usize {
    (usize::MAX / 2) as usize
}

/// RBTreePtrColor tells the RBTree implementation how to
/// store the index and color.
///
/// This type arises from the idea of storing rbtree
/// attributes into the pointer, since the structs of
/// an RBTree node must be aligned and the lower bits
/// of that points will always be zeroes.
pub trait RBTreePtrColor<P: NullablePtr>: Copy + Sized {
    /// The null value holds no pointer.
    spec fn is_null_color(&self) -> bool;

    /// The pointer held.
    spec fn ptr_view(&self) -> P;

    /// The color held.
    spec fn color_view(&self) -> RBTreeColor;

    /// Pointers that can be combined with a color.
    spec fn holds(p: P) -> bool;

    fn nullptr_color() -> (r: Self)
        ensures
            r.is_null_color(),
            r.ptr_view() == P::null_value(),
            r.color_view() == RBTreeColor::BLACK,
    ;

    fn combine(p: P, col: RBTreeColor) -> (r: Self)
        requires
            p == P::null_value() || Self::holds(p),
        ensures
            p == P::null_value() ==> r.is_null_color() && r.ptr_view() == p && r.color_view()
                == RBTreeColor::BLACK,
            p != P::null_value() ==> !r.is_null_color() && r.ptr_view() == p && r.color_view() == col,
    ;

    fn separate(&self) -> (r: (P, RBTreeColor))
        ensures
            r == (self.ptr_view(), self.color_view()),
    ;

    fn null(&self) -> (b: bool)
        ensures
            b == self.is_null_color(),
    ;

    fn ptr(&self) -> (r: P)
        ensures
            r == self.ptr_view(),
    ;

    fn color(&self) -> (r: RBTreeColor)
        ensures
            r == self.color_view(),
    ;
}

/// For the default behaviour, we borrow one bit from the
/// usize space to store the color of the node.
///
/// Please notice that (usize::MAX >> 1) CANNOT be used as
/// a valid pointer, since
/// nullptr_color() == combine(usize::MAX >> 1, BLACK).
#[derive(Clone, Copy, PartialEq, Eq, Debug, Structural)]
pub struct RBTreePtrColorUsize(usize);

/// The bit of the word that holds the color: its top bit.
pub const COLOR_MASK: usize = !(!0usize >> 1u32);

/// The word that stands for the null pointer: all bits set.
pub const NULL_WORD: usize = !0usize;

/// The null word is `usize::MAX`, and the pointers below the bound are the
/// words without the top bit, short of the null word's pointer part.
proof fn lemma_word_consts()
    ensures
        NULL_WORD == usize::MAX,
        ptr_bound() == (!0usize >> 1u32),
        COLOR_MASK != 0,
{
    assert(COLOR_MASK != 0) by (bit_vector);
    assert(usize::BITS == 64 ==> (!0usize >> 1u32) == 0x7fff_ffff_ffff_ffff && !0usize == 0xffff_ffff_ffff_ffff)
        by (bit_vector);
    assert(usize::BITS == 32 ==> (!0usize >> 1u32) == 0x7fff_ffff && !0usize == 0xffff_ffff) by (bit_vector);
}

/// How a pointer below the bound combines with the color bit.
proof fn lemma_word_facts(x: usize, c: usize)
    requires
        x < ptr_bound(),
        c == 0 || c == COLOR_MASK,
    ensures
        (x | c) != NULL_WORD,
        ((x | c) | COLOR_MASK) ^ COLOR_MASK == x,
        ((x | c) & COLOR_MASK == 0) == (c == 0),
{
    lemma_word_consts();
    assert(x < (!0usize >> 1u32) && (c == 0 || c == COLOR_MASK) ==> (x | c) != NULL_WORD
        && ((x | c) | COLOR_MASK) ^ COLOR_MASK == x && (((x | c) & COLOR_MASK == 0) == (c == 0))) by (bit_vector);
}

/// Two words that are both null, or both hold the same pointer and the same
/// color bit, are the same word.
proof fn lemma_word_determined(w1: usize, w2: usize)
    requires
        (w1 == NULL_WORD) == (w2 == NULL_WORD),
        w1 != NULL_WORD ==> (w1 | COLOR_MASK) ^ COLOR_MASK == (w2 | COLOR_MASK) ^ COLOR_MASK,
        w1 != NULL_WORD ==> (w1 & COLOR_MASK == 0) == (w2 & COLOR_MASK == 0),
    ensures
        w1 == w2,
{
    if w1 != NULL_WORD {
        assert((w1 | COLOR_MASK) ^ COLOR_MASK == (w2 | COLOR_MASK) ^ COLOR_MASK && ((w1 & COLOR_MASK == 0) == (w2
            & COLOR_MASK == 0)) ==> w1 == w2) by (bit_vector);
    }
}

impl RBTreePtrColorUsize {
    /// The raw word.
    pub closed spec fn word(self) -> usize {
        self.0
    }
}

/// Two pointer-color words that agree on being null, on the pointer and on
/// the color are the same value: in particular every null word, whatever
/// color it was combined with, is `nullptr_color()`.
pub proof fn lemma_ptr_color_eq(a: RBTreePtrColorUsize, b: RBTreePtrColorUsize)
    requires
        a.is_null_color() == b.is_null_color(),
        a.ptr_view() == b.ptr_view(),
        a.color_view() == b.color_view(),
    ensures
        a == b,
{
    lemma_word_determined(a.0, b.0);
}

impl RBTreePtrColor<usize> for RBTreePtrColorUsize {
    open spec fn is_null_color(&self) -> bool {
        self.word() == NULL_WORD
    }

    open spec fn ptr_view(&self) -> usize {
        if self.word() == NULL_WORD {
            usize::MAX
        } else {
            (self.word() | COLOR_MASK) ^ COLOR_MASK
        }
    }

    open spec fn color_view(&self) -> RBTreeColor {
        if self.word() == NULL_WORD || self.word() & COLOR_MASK != 0 {
            RBTreeColor::BLACK
        } else {
            RBTreeColor::RED
        }
    }

    open spec fn holds(p: usize) -> bool {
        p < ptr_bound()
    }

    fn nullptr_color() -> (r: Self) {
        RBTreePtrColorUsize(NULL_WORD)
    }

    fn combine(p: usize, col: RBTreeColor) -> (r: Self) {
        if p.null() {
            Self::nullptr_color()
        } else {
            let c: usize = match col {
                RBTreeColor::RED => 0,
                RBTreeColor::BLACK => COLOR_MASK,
            };
            let x = p;
            let w = x | c;
            proof {
                lemma_word_facts(x, c);
                lemma_word_consts();
            }
            RBTreePtrColorUsize(w)
        }
    }

    fn separate(&self) -> (r: (usize, RBTreeColor)) {
        if self.null() {
            (usize::nullptr(), RBTreeColor::BLACK)
        } else {
            let q = self.0;
            let x = (q | COLOR_MASK) ^ COLOR_MASK;
            (
                x,
                if q & COLOR_MASK == 0 {
                    RBTreeColor::RED
                } else {
                    RBTreeColor::BLACK
                },
            )
        }
    }

    fn null(&self) -> (b: bool) {
        self.0 == NULL_WORD
    }

    fn ptr(&self) -> (r: usize) {
        self.separate().0
    }

    fn color(&self) -> (r: RBTreeColor) {
        self.separate().1
    }
}


/// The links of one element of a red-black tree: its children, and its
/// parent together with its color. The root is its own parent; a node with
/// a null parent is in no tree.
#[derive(Clone, Copy, PartialEq, Eq, Debug, Structural)]
pub struct RBTreeNode {
    pub left: usize,
    pub right: usize,
    pub parent_col: RBTreePtrColorUsize,
}

impl RBTreeNode {
    /// The parent recorded in the node.
    pub open spec fn parent(self) -> usize {
        self.parent_col.ptr_view()
    }

    /// The color recorded in the node.
    pub open spec fn col(self) -> RBTreeColor {
        self.parent_col.color_view()
    }

    /// The node belongs to a tree.
    pub open spec fn linked(self) -> bool {
        !self.parent_col.is_null_color()
    }

    /// A node that belongs to no tree.
    pub open spec fn is_detached(self) -> bool {
        &&& self.left == nil()
        &&& self.right == nil()
        &&& self.parent_col.is_null_color()
    }

    /// A node in no tree.
    pub fn new() -> (r: Self)
        ensures
            r.is_detached(),
            r.parent() == nil(),
            r.col() == RBTreeColor::BLACK,
    {
        RBTreeNode {
            left: usize::nullptr(),
            right: usize::nullptr(),
            parent_col: RBTreePtrColorUsize::nullptr_color(),
        }
    }

    /// Tells whether the node is in a tree.
    pub fn in_tree(&self) -> (b: bool)
        ensures
            b == self.linked(),
    {
        !self.parent_col.null()
    }

    /// The color of a node that is in a tree.
    pub fn get_color(&self) -> (r: RBTreeColor)
        requires
            self.linked(),
        ensures
            r == self.col(),
    {
        self.parent_col.color()
    }

    fn set_color(&mut self, val: RBTreeColor)
        requires
            !old(self).linked() || old(self).parent() < ptr_bound(),
        ensures
            final(self).left == old(self).left,
            final(self).right == old(self).right,
            final(self).parent() == old(self).parent(),
            final(self).linked() == old(self).linked(),
            old(self).linked() ==> final(self).col() == val,
    {
        let (p, _) = RBTreePtrColorUsize::separate(&self.parent_col);
        self.parent_col = RBTreePtrColorUsize::combine(p, val);
    }

    /// The parent of the node: itself for a root, null outside any tree.
    pub fn get_parent(&self) -> (r: usize)
        ensures
            r == self.parent(),
    {
        self.parent_col.ptr()
    }

    fn set_parent(&mut self, p: usize)
        requires
            p == nil() || p < ptr_bound(),
        ensures
            final(self).left == old(self).left,
            final(self).right == old(self).right,
            final(self).parent() == p,
            p != nil() ==> final(self).linked() && final(self).col() == old(self).col(),
    {
        let (_, col) = RBTreePtrColorUsize::separate(&self.parent_col);
        self.parent_col = RBTreePtrColorUsize::combine(p, col);
    }

    /// The left child of the node, or null.
    pub fn get_left(&self) -> (r: usize)
        ensures
            r == self.left,
    {
        self.left
    }

    /// The right child of the node, or null.
    pub fn get_right(&self) -> (r: usize)
        ensures
            r == self.right,
    {
        self.right
    }
}

/// Tells the tree code where the `RBTreeNode` of element `i` lives inside a
/// container of the user's choice.
pub trait RBTreeNodeIndex {
    type Container;

    /// The tree nodes of a container, by index.
    spec fn nodes(c: &Self::Container) -> Seq<RBTreeNode>;

    /// The ordering keys of a container, by index (empty where the container
    /// holds none).
    spec fn keys(c: &Self::Container) -> Seq<usize>;

    fn index(c: &Self::Container, i: usize) -> (r: &RBTreeNode)
        requires
            i < Self::nodes(c).len(),
        ensures
            *r == Self::nodes(c)[i as int],
            Self::nodes(c).len() <= usize::MAX,
    ;

    fn index_mut(c: &mut Self::Container, i: usize) -> (r: &mut RBTreeNode)
        requires
            i < Self::nodes(old(c)).len(),
        ensures
            *r == Self::nodes(old(c))[i as int],
            Self::nodes(final(c)) == Self::nodes(old(c)).update(i as int, *final(r)),
            Self::keys(final(c)) == Self::keys(old(c)),
    ;
}

/// A container whose elements carry a `usize` key by which the tree is ordered.
pub trait RBTreeNodeIndexKey: RBTreeNodeIndex {
    fn key(container: &Self::Container, i: usize) -> (r: &usize)
        requires
            i < Self::keys(container).len(),
        ensures
            *r == Self::keys(container)[i as int],
    ;
}

/// A container that is a plain vector of tree nodes.
pub struct VecRBTreeNodes;

impl RBTreeNodeIndex for VecRBTreeNodes {
    type Container = Vec<RBTreeNode>;

    open spec fn nodes(c: &Vec<RBTreeNode>) -> Seq<RBTreeNode> {
        c@
    }

    open spec fn keys(c: &Vec<RBTreeNode>) -> Seq<usize> {
        Seq::empty()
    }

    fn index(c: &Vec<RBTreeNode>, i: usize) -> (r: &RBTreeNode) {
        let _ = c.len();
        &c[i]
    }

    fn index_mut(c: &mut Vec<RBTreeNode>, i: usize) -> (r: &mut RBTreeNode) {
        &mut c[i]
    }
}

/// A container that is a vector of tree nodes, each with its key.
pub struct VecKeyedRBTreeNodes;

impl RBTreeNodeIndex for VecKeyedRBTreeNodes {
    type Container = Vec<(RBTreeNode, usize)>;

    open spec fn nodes(c: &Vec<(RBTreeNode, usize)>) -> Seq<RBTreeNode> {
        c@.map_values(|e: (RBTreeNode, usize)| e.0)
    }

    open spec fn keys(c: &Vec<(RBTreeNode, usize)>) -> Seq<usize> {
        c@.map_values(|e: (RBTreeNode, usize)| e.1)
    }

    fn index(c: &Vec<(RBTreeNode, usize)>, i: usize) -> (r: &RBTreeNode) {
        let _ = c.len();
        &c[i].0
    }

    fn index_mut(c: &mut Vec<(RBTreeNode, usize)>, i: usize) -> (r: &mut RBTreeNode) {
        let e = &mut c[i];
        &mut e.0
    }
}

impl RBTreeNodeIndexKey for VecKeyedRBTreeNodes {
    fn key(c: &Vec<(RBTreeNode, usize)>, i: usize) -> (r: &usize) {
        &c[i].1
    }
}


/// Mutating tree operations on the nodes of a borrowed container.
pub struct RBTreeMut<'a, L: RBTreeNodeIndex> {
    pub container: &'a mut L::Container,
}

/// Read-only tree operations on the nodes of a borrowed container.
pub struct RBTree<'a, L: RBTreeNodeIndex> {
    container: &'a L::Container,
}

impl<'a, L: RBTreeNodeIndex> RBTreeMut<'a, L> {
    /// The tree nodes of the borrowed container.
    pub closed spec fn nodes(&self) -> Seq<RBTreeNode> {
        L::nodes(&*self.container)
    }

    /// The keys of the borrowed container.
    pub closed spec fn keys(&self) -> Seq<usize> {
        L::keys(&*self.container)
    }

    /// Borrows the container for tree updates; what is done through the
    /// handle is what the container holds once the borrow ends.
    pub fn new(container: &'a mut L::Container) -> (r: Self)
        ensures
            r.nodes() == L::nodes(old(container)),
            r.keys() == L::keys(old(container)),
            *final(container) == *final(r.container),
    {
        Self { container: container }
    }

    /// A read-only view of the same nodes.
    pub fn to_immut(&self) -> (r: RBTree<'_, L>)
        ensures
            r.nodes() == self.nodes(),
            r.keys() == self.keys(),
    {
        RBTree { container: &*self.container }
    }

    /// The node at index `p` of the container.
    pub fn node(&self, p: usize) -> (r: RBTreeNode)
        requires
            p < self.nodes().len(),
        ensures
            r == self.nodes()[p as int],
            self.nodes().len() <= usize::MAX,
    {
        *L::index(&*self.container, p)
    }

    pub(crate) fn set_left(&mut self, p: usize, v: usize)
        requires
            p < old(self).nodes().len(),
        ensures
            *final(final(self).container) == *final(old(self).container),
            final(self).nodes() == old(self).nodes().update(p as int, RBTreeNode { left: v, ..old(self).nodes()[p as int] }),
            final(self).keys() == old(self).keys(),
    {
        let r = L::index_mut(self.container, p);
        r.left = v;
    }

    pub(crate) fn set_right(&mut self, p: usize, v: usize)
        requires
            p < old(self).nodes().len(),
        ensures
            *final(final(self).container) == *final(old(self).container),
            final(self).nodes() == old(self).nodes().update(p as int, RBTreeNode { right: v, ..old(self).nodes()[p as int] }),
            final(self).keys() == old(self).keys(),
    {
        let r = L::index_mut(self.container, p);
        r.right = v;
    }

    pub(crate) fn set_node(&mut self, p: usize, v: RBTreeNode)
        requires
            p < old(self).nodes().len(),
        ensures
            *final(final(self).container) == *final(old(self).container),
            final(self).nodes() == old(self).nodes().update(p as int, v),
            final(self).keys() == old(self).keys(),
    {
        let r = L::index_mut(self.container, p);
        *r = v;
    }

    pub(crate) fn set_parent_col(&mut self, p: usize, v: RBTreePtrColorUsize)
        requires
            p < old(self).nodes().len(),
        ensures
            *final(final(self).container) == *final(old(self).container),
            final(self).nodes() == old(self).nodes().update(p as int, RBTreeNode { parent_col: v, ..old(self).nodes()[p as int] }),
            final(self).keys() == old(self).keys(),
    {
        let r = L::index_mut(self.container, p);
        r.parent_col = v;
    }

    /// Links `v` under `p` with the given color.
    pub(crate) fn set_parent_color(&mut self, x: usize, v: usize, col: RBTreeColor)
        requires
            x < old(self).nodes().len(),
            v < ptr_bound(),
        ensures
            *final(final(self).container) == *final(old(self).container),
            final(self).nodes().len() == old(self).nodes().len(),
            final(self).nodes()[x as int].left == old(self).nodes()[x as int].left,
            final(self).nodes()[x as int].right == old(self).nodes()[x as int].right,
            final(self).nodes()[x as int].parent() == v,
            final(self).nodes()[x as int].linked(),
            final(self).nodes()[x as int].col() == col,
            forall|i: int| 0 <= i < old(self).nodes().len() && i != x ==> #[trigger] final(self).nodes()[i] == old(self).nodes()[i],
            final(self).keys() == old(self).keys(),
    {
        self.set_parent_col(x, RBTreePtrColorUsize::combine(v, col));
    }

    pub(crate) fn set_color(&mut self, x: usize, col: RBTreeColor)
        requires
            x < old(self).nodes().len(),
            old(self).nodes()[x as int].linked(),
            old(self).nodes()[x as int].parent() < ptr_bound(),
        ensures
            *final(final(self).container) == *final(old(self).container),
            final(self).nodes().len() == old(self).nodes().len(),
            final(self).nodes()[x as int].left == old(self).nodes()[x as int].left,
            final(self).nodes()[x as int].right == old(self).nodes()[x as int].right,
            final(self).nodes()[x as int].parent() == old(self).nodes()[x as int].parent(),
            final(self).nodes()[x as int].linked(),
            final(self).nodes()[x as int].col() == col,
            forall|i: int| 0 <= i < old(self).nodes().len() && i != x ==> #[trigger] final(self).nodes()[i] == old(self).nodes()[i],
            final(self).keys() == old(self).keys(),
    {
        let r = L::index_mut(self.container, x);
        r.set_color(col);
    }

    /// Sets the parent of `x`, keeping its color.
    pub(crate) fn set_parent(&mut self, x: usize, p: usize)
        requires
            x < old(self).nodes().len(),
            p < ptr_bound(),
        ensures
            *final(final(self).container) == *final(old(self).container),
            final(self).nodes().len() == old(self).nodes().len(),
            final(self).nodes()[x as int].left == old(self).nodes()[x as int].left,
            final(self).nodes()[x as int].right == old(self).nodes()[x as int].right,
            final(self).nodes()[x as int].parent() == p,
            final(self).nodes()[x as int].linked(),
            final(self).nodes()[x as int].col() == old(self).nodes()[x as int].col(),
            forall|i: int| 0 <= i < old(self).nodes().len() && i != x ==> #[trigger] final(self).nodes()[i] == old(self).nodes()[i],
            final(self).keys() == old(self).keys(),
    {
        let r = L::index_mut(self.container, x);
        r.set_parent(p);
    }
}

impl<'a, L: RBTreeNodeIndex> RBTree<'a, L> {
    /// The tree nodes of the borrowed container.
    pub closed spec fn nodes(&self) -> Seq<RBTreeNode> {
        L::nodes(self.container)
    }

    /// The keys of the borrowed container.
    pub closed spec fn keys(&self) -> Seq<usize> {
        L::keys(self.container)
    }

    /// Borrows the container for reading trees.
    pub fn new(container: &'a L::Container) -> (r: Self)
        ensures
            r.nodes() == L::nodes(container),
            r.keys() == L::keys(container),
    {
        Self { container: container }
    }

    /// The node at index `p` of the container.
    pub fn node(&self, p: usize) -> (r: RBTreeNode)
        requires
            p < self.nodes().len(),
        ensures
            r == self.nodes()[p as int],
    {
        *L::index(self.container, p)
    }
}

} // verus!
