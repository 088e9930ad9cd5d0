use vstd::prelude::*;

pub mod node;
pub mod tree;
pub mod persistent;
