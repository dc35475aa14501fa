//! The tokenizer: one table of states shared by the eager scanner, which finds
//! tags and their names, and the full lexer, which outlines whole lexemes.

pub mod chars;
pub mod chunks;
pub mod eager;
pub mod full;
pub mod state_machine;
