//! Buddy system page allocator.

pub mod buddy;
pub mod linked_list;


pub use linked_list::{Iter, IterMut, LinkedList, ListNode};
