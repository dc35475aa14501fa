//! A streaming HTML rewriter: it tokenizes a byte stream chunk by chunk, matches
//! CSS selectors against the elements as they open, hands the matched tokens to
//! content handlers, and emits the rewritten bytes under a fixed memory budget.
//!
//! The parts, from the leaves up:
//!
//! - [`memory`]: the counter of tracked bytes with its ceiling.
//! - [`encoding`]: the encoding of the document, by its label.
//! - [`tokenizer`]: the table of tokenizer states and the run of the machine
//!   over the input; the eager tier, which knows tags by their names, and the
//!   full tier, which outlines attributes, comments and doctypes.
//! - [`html`] and [`parser`]: what the tokenizer must be told of the tree, which
//!   is the stack of the open elements, and the state of the parser between two
//!   tokens.
//! - [`selectors`] and [`selectors_vm`]: the parser of selectors, the program
//!   that they compile to, what it means for the program to match an element of
//!   the tree, and the machine that finds the matches with a stack no higher
//!   than the elements that are open.
//! - [`html_content`]: the elements, end tags, comments, chunks of text and
//!   doctypes that handlers are handed, and how they are written out.
//! - [`rewriter`]: the settings, the dispatcher that calls the handlers in the
//!   order of registration, the controller that decides what each token needs,
//!   and the rewriter itself.
//! - [`transform_stream`]: the input buffer, the output sink, and the loop
//!   over the tokens of a chunk.
//!
//! What the contracts say of a rewriter in which nothing is registered is
//! exact: every byte that is written to it comes out, unchanged and in order,
//! or the write fails, and which of the two is a function of the input.
//!
//! Of a rewriter with handlers the contracts say what the library does around
//! the handlers, whatever these do. A write or the end of the document is a
//! run over the tokens of the input ([`transform_stream::run_made`]). For each
//! token the run records which handlers were called, in which order, what
//! each was handed, what it left and what it returned
//! ([`rewriter::rewrite_controller::HtmlRewriteController::token_handled`]).
//! The handlers of a token are called one after the other on the same handle
//! until one returns an error. What is written for the token is what the last
//! of them left, a token for which no handler is due is written as it was
//! read, and content that a handler has removed is left out. A call fails
//! with the error of a handler exactly if a handler has returned that error,
//! and no handler is called after it; as ambiguous only in strict mode; and
//! for memory exactly where what is kept and what parser and selector
//! matching machine charge pass the limit. Otherwise it succeeds. What a
//! handler does with what it is handed is its own: the contracts say nothing
//! of it.

pub mod encoding;
pub mod errors;
pub mod html;
pub mod html_content;
pub mod memory;
pub mod parser;
pub mod rewriter;
pub mod selectors;
pub mod selectors_vm;
pub mod tokenizer;
pub mod transform_stream;

pub use crate::errors::{
    EncodingError, HandlerError, MemoryLimitExceededError, ParsingAmbiguityError, RewritingError,
};
pub use crate::html_content::element::Element;
pub use crate::html_content::mutations::{ContentError, ContentType};
pub use crate::html_content::tokens::{Comment, Doctype, EndTag, TextChunk};
pub use crate::rewriter::settings::{
    DocumentContentHandlers, ElementContentHandlers, MemorySettings, RewriteStrSettings, Settings,
};
pub use crate::rewriter::{rewrite_str, HtmlRewriter};
pub use crate::selectors::parser::{Selector, SelectorError};
pub use crate::transform_stream::{OutputBuffer, OutputSink};
