//! What content handlers are handed: elements, end tags, comments, chunks of
//! text and doctypes, with the changes that a handler can ask for.

pub mod element;
pub mod mutations;
pub mod tokens;
