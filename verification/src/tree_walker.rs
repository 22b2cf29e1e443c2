pub mod tree_walker;
pub mod walk_laws;
