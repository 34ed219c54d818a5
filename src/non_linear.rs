pub mod bst;
