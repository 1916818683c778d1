pub mod hasher;
pub mod tree;
