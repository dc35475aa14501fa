//! The parser: the tokenizer together with what it must be told of the tree,
//! which is the stack of the open elements and their namespaces.

pub mod chunks;
pub mod state;
pub mod tree_builder;
