//! The settings of a rewriter, and the content handlers that they carry.

use vstd::prelude::*;
use crate::errors::HandlerError;
use crate::html_content::element::Element;
use crate::html_content::tokens::{Comment, Doctype, TextChunk};
use crate::selectors::parser::Selector;

verus! {

/// A handler of elements. What it does to the element is up to it; the
/// rewriter writes the element out as the handler leaves it.
pub trait ElementHandler {
    fn handle(&mut self, element: &mut Element) -> Result<(), HandlerError>;
}

/// A handler of comments.
pub trait CommentHandler {
    fn handle(&mut self, comment: &mut Comment) -> Result<(), HandlerError>;
}

/// A handler of chunks of text.
pub trait TextHandler {
    fn handle(&mut self, chunk: &mut TextChunk) -> Result<(), HandlerError>;
}

/// A handler of doctypes.
pub trait DoctypeHandler {
    fn handle(&mut self, doctype: &mut Doctype) -> Result<(), HandlerError>;
}

/// The handlers for the elements that a selector matches, and for the comments
/// and the text inside them.
pub struct ElementContentHandlers<'h> {
    pub element: Option<Box<dyn ElementHandler + 'h>>,
    pub comments: Option<Box<dyn CommentHandler + 'h>>,
    pub text: Option<Box<dyn TextHandler + 'h>>,
}

impl<'h> ElementContentHandlers<'h> {
    /// No handler.
    pub fn new() -> (r: Self)
        ensures
            r.element is None,
            r.comments is None,
            r.text is None,
    {
        ElementContentHandlers { element: None, comments: None, text: None }
    }

    /// With this handler for the elements.
    pub fn element(self, handler: Box<dyn ElementHandler + 'h>) -> (r: Self)
        ensures
            r.element is Some,
            r.comments is Some == self.comments is Some,
            r.text is Some == self.text is Some,
    {
        ElementContentHandlers { element: Some(handler), comments: self.comments, text: self.text }
    }

    /// With this handler for the comments inside the elements.
    pub fn comments(self, handler: Box<dyn CommentHandler + 'h>) -> (r: Self)
        ensures
            r.comments is Some,
            r.element is Some == self.element is Some,
            r.text is Some == self.text is Some,
    {
        ElementContentHandlers { element: self.element, comments: Some(handler), text: self.text }
    }

    /// With this handler for the text inside the elements.
    pub fn text(self, handler: Box<dyn TextHandler + 'h>) -> (r: Self)
        ensures
            r.text is Some,
            r.element is Some == self.element is Some,
            r.comments is Some == self.comments is Some,
    {
        ElementContentHandlers { element: self.element, comments: self.comments, text: Some(handler) }
    }
}

/// The handlers for the doctype, the comments and the text of the whole
/// document.
pub struct DocumentContentHandlers<'h> {
    pub doctype: Option<Box<dyn DoctypeHandler + 'h>>,
    pub comments: Option<Box<dyn CommentHandler + 'h>>,
    pub text: Option<Box<dyn TextHandler + 'h>>,
}

impl<'h> DocumentContentHandlers<'h> {
    /// No handler.
    pub fn new() -> (r: Self)
        ensures
            r.doctype is None,
            r.comments is None,
            r.text is None,
    {
        DocumentContentHandlers { doctype: None, comments: None, text: None }
    }

    /// With this handler for the doctype.
    pub fn doctype(self, handler: Box<dyn DoctypeHandler + 'h>) -> (r: Self)
        ensures
            r.doctype is Some,
            r.comments is Some == self.comments is Some,
            r.text is Some == self.text is Some,
    {
        DocumentContentHandlers { doctype: Some(handler), comments: self.comments, text: self.text }
    }

    /// With this handler for the comments.
    pub fn comments(self, handler: Box<dyn CommentHandler + 'h>) -> (r: Self)
        ensures
            r.comments is Some,
            r.doctype is Some == self.doctype is Some,
            r.text is Some == self.text is Some,
    {
        DocumentContentHandlers { doctype: self.doctype, comments: Some(handler), text: self.text }
    }

    /// With this handler for the text.
    pub fn text(self, handler: Box<dyn TextHandler + 'h>) -> (r: Self)
        ensures
            r.text is Some,
            r.doctype is Some == self.doctype is Some,
            r.comments is Some == self.comments is Some,
    {
        DocumentContentHandlers { doctype: self.doctype, comments: self.comments, text: Some(handler) }
    }
}

/// How much memory the rewriter may use.
#[derive(Clone, Copy, Debug)]
pub struct MemorySettings {
    /// The room that the parsing buffer is given at the start, in bytes.
    pub preallocated_parsing_buffer_size: usize,
    /// The most that the rewriter may track, in bytes.
    pub max_allowed_memory_usage: usize,
}

impl Default for MemorySettings {
    fn default() -> (r: Self)
        ensures
            r.preallocated_parsing_buffer_size == 1024,
            r.max_allowed_memory_usage == usize::MAX,
    {
        MemorySettings { preallocated_parsing_buffer_size: 1024, max_allowed_memory_usage: usize::MAX }
    }
}

/// The settings of a rewriter.
pub struct Settings<'h, 's> {
    /// The selectors with their handlers, in the order of registration.
    pub element_content_handlers: Vec<(&'s Selector, ElementContentHandlers<'h>)>,
    /// The handlers for the whole document, in the order of registration.
    pub document_content_handlers: Vec<DocumentContentHandlers<'h>>,
    /// The label of the encoding of the document.
    pub encoding: &'s str,
    /// How much memory the rewriter may use.
    pub memory_settings: MemorySettings,
    /// Whether ambiguous markup is an error.
    pub strict: bool,
}

impl<'h, 's> Settings<'h, 's> {
    /// No handlers, `utf-8`, the default memory settings, not strict.
    pub fn new() -> (r: Self)
        ensures
            r.element_content_handlers@.len() == 0,
            r.document_content_handlers@.len() == 0,
            r.encoding@ == "utf-8"@,
            r.memory_settings.max_allowed_memory_usage == usize::MAX,
            r.memory_settings.preallocated_parsing_buffer_size == 1024,
            !r.strict,
    {
        Settings {
            element_content_handlers: Vec::new(),
            document_content_handlers: Vec::new(),
            encoding: "utf-8",
            memory_settings: MemorySettings::default(),
            strict: false,
        }
    }
}

/// The settings for rewriting a string: those of a rewriter without the
/// encoding, which is `utf-8`, and without the memory settings, which are the
/// default ones.
pub struct RewriteStrSettings<'h, 's> {
    /// The selectors with their handlers, in the order of registration.
    pub element_content_handlers: Vec<(&'s Selector, ElementContentHandlers<'h>)>,
    /// The handlers for the whole document, in the order of registration.
    pub document_content_handlers: Vec<DocumentContentHandlers<'h>>,
    /// Whether ambiguous markup is an error.
    pub strict: bool,
}

impl<'h, 's> RewriteStrSettings<'h, 's> {
    /// No handlers, not strict.
    pub fn new() -> (r: Self)
        ensures
            r.element_content_handlers@.len() == 0,
            r.document_content_handlers@.len() == 0,
            !r.strict,
    {
        RewriteStrSettings {
            element_content_handlers: Vec::new(),
            document_content_handlers: Vec::new(),
            strict: false,
        }
    }

    /// The settings of a rewriter that these settings stand for.
    pub fn into_settings(self) -> (r: Settings<'h, 's>)
        ensures
            r.element_content_handlers == self.element_content_handlers,
            r.document_content_handlers == self.document_content_handlers,
            r.encoding@ == "utf-8"@,
            r.memory_settings.max_allowed_memory_usage == usize::MAX,
            r.strict == self.strict,
    {
        Settings {
            element_content_handlers: self.element_content_handlers,
            document_content_handlers: self.document_content_handlers,
            encoding: "utf-8",
            memory_settings: MemorySettings::default(),
            strict: self.strict,
        }
    }
}

impl<'h> Default for ElementContentHandlers<'h> {
    fn default() -> (r: Self)
        ensures
            r.element is None,
            r.comments is None,
            r.text is None,
    {
        ElementContentHandlers::new()
    }
}

impl<'h> Default for DocumentContentHandlers<'h> {
    fn default() -> (r: Self)
        ensures
            r.doctype is None,
            r.comments is None,
            r.text is None,
    {
        DocumentContentHandlers::new()
    }
}

impl<'h, 's> Default for Settings<'h, 's> {
    fn default() -> (r: Self)
        ensures
            r.element_content_handlers@.len() == 0,
            r.document_content_handlers@.len() == 0,
            r.encoding@ == "utf-8"@,
            r.memory_settings.max_allowed_memory_usage == usize::MAX,
            r.memory_settings.preallocated_parsing_buffer_size == 1024,
            !r.strict,
    {
        Settings::new()
    }
}

impl<'h, 's> Default for RewriteStrSettings<'h, 's> {
    fn default() -> (r: Self)
        ensures
            r.element_content_handlers@.len() == 0,
            r.document_content_handlers@.len() == 0,
            !r.strict,
    {
        RewriteStrSettings::new()
    }
}

} // verus!
