pub mod bench;
pub mod labels;
pub mod perm;
pub mod stats;
pub mod tree;

