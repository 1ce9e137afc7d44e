//! Small, verified collection types: a growable vector, a ring-buffer
//! deque, a binary max-heap, and an open-addressing hash map and set.
pub mod deque;
pub mod heap;
pub mod key;
pub mod map;
pub mod order;
pub mod set;
pub mod vec;
