pub mod avl;
pub mod bst;
pub mod btree;
pub mod page;
