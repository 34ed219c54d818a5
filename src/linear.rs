pub mod buffer_guard;
pub mod deque;
pub mod stack;
pub mod queue;
pub mod node_store;
pub mod singly_linked_list;
pub mod double_linked_list;
