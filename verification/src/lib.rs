pub mod trees;
