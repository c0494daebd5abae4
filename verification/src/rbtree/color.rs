use vstd::prelude::*;
use crate::rbtree::RBTreeColor;

verus! {

/// Red.
pub const RED: RBTreeColor = RBTreeColor::RED;

/// Black.
pub const BLACK: RBTreeColor = RBTreeColor::BLACK;

} // verus!
