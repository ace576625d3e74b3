pub mod nybble;
pub mod sparse;
pub mod tree;
pub mod node;
pub mod laws;
