//! Hand-built containers: a growable ring-buffer deque, a growable stack and
//! queue, singly and doubly linked lists whose links are indices into a node
//! store, and an unbalanced binary search tree.
pub mod linear;
pub mod render;
pub mod non_linear;
