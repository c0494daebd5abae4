//! Embedded (intrusive) data structures over index-addressed arenas:
//! circular doubly linked lists and red-black trees whose link fields live
//! inside the elements of a user-chosen container.

pub mod ptr;
pub mod list;
pub mod rbtree;

pub mod laws;
