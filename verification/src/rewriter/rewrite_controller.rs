//! The controller: for each token it decides what the token needs. A token
//! that no selector and no handler concerns is written out as it was read; a
//! token that a handler concerns is handed to it in full and written out as
//! the handler leaves it.

use vstd::prelude::*;
use crate::encoding::AsciiCompatibleEncoding;
use crate::errors::{fault_of, ErrorKind, HandlerError, RewritingError};
use crate::html_content::element::{Element, EndTagPlan};
use crate::html_content::element::{first_of_each, outlined, pairs, read_attributes};
use crate::html_content::mutations::{push_all, Mutations};
use crate::html_content::tokens::{
    part_of, part_view, Comment, Doctype, EndTag, EndTagHandler, TextChunk,
};
use crate::html::Namespace;
use crate::memory::MemoryLimiter;
use crate::parser::state::TagFeedback;
use crate::rewriter::handlers_dispatcher::{
    comments_due, content_calls, doctype_calls, doctype_due, element_calls, element_due,
    end_tag_calls, lemma_due_calls, none_failed, passed_on, text_due, Call, Content, ContentHandlersDispatcher, DocumentKinds, Handle, HandlerKinds,
};
use crate::selectors::matching::{matching_locators, ElementInfo};
use crate::selectors::run::{with_element, with_level};
use crate::selectors::program::{reads_attributes, Instruction};
use crate::selectors_vm::SelectorMatchingVm;
use crate::tokenizer::chars::{copied, lower_seq};
use crate::tokenizer::eager::{tag_hint, tag_name_span};
use crate::tokenizer::full::{
    attribute_outlines, comment_text_span, doctype_outline, outline_attributes, outline_comment,
    outline_doctype,
};
use crate::tokenizer::state_machine::{TextMode, TokenKind};

verus! {

/// What is to become of the end tag and of the content of an open element.
pub struct OpenPlan {
    /// What is to become of the end tag.
    pub end_tag: EndTagPlan,
    /// Whether what stands inside the element is left out.
    pub removes: bool,
    /// The handlers to call with the end tag, in this order.
    pub handlers: Vec<Box<dyn EndTagHandler>>,
}

impl OpenPlan {
    /// Nothing was asked for: the content is kept and the end tag is written
    /// as it is read.
    pub open spec fn is_plain(&self) -> bool {
        !self.removes && self.end_tag.name is None && self.end_tag.mutations.is_empty()
            && self.handlers@.len() == 0
    }
}

/// The record of what the handlers that were called for a token have seen.
pub struct Handled {
    /// What the first of them was handed.
    pub handed: Handle,
    /// What the last of them left.
    pub left: Handle,
    /// How many of the handlers that could be due were gone through.
    pub made: int,
    /// What the handlers that were called have returned, in the order of the
    /// calls.
    pub returned: Seq<Result<(), HandlerError>>,
    /// What each handler that was called was handed and what it left, in the
    /// order of the calls.
    pub passed: Seq<(Handle, Handle)>,
}

/// Whether what the handlers that were called for a token have returned gives
/// the failure: no handler was called after one that has failed; there is no
/// failure exactly if every handler that was called has returned `Ok`, and
/// the failure is that of a content handler exactly if the last one that was
/// called has returned an error.
pub open spec fn decided(returned: Seq<Result<(), HandlerError>>, fault: Option<ErrorKind>) -> bool {
    &&& forall|i: int| 0 <= i < returned.len() - 1 ==> (#[trigger] returned[i]) is Ok
    &&& match fault {
        None => returned.len() > 0 ==> returned.last() is Ok,
        Some(k) => k == ErrorKind::ContentHandlerError && returned.len() > 0
            && returned.last() is Err,
    }
}

/// Whether the error is the one that the last handler that was called has
/// returned, where it is the error of a handler: the error of a handler is
/// handed on as it is.
pub open spec fn error_carried(results: Seq<Result<(), HandlerError>>, e: RewritingError) -> bool {
    e matches RewritingError::ContentHandlerError(h) ==> results.len() > 0 && results.last()
        == Err::<(), HandlerError>(h)
}

/// Whether the error of a call, if it has failed, is the one that the last
/// handler that was called has returned, where it is the error of a handler.
pub open spec fn carried(results: Seq<Result<(), HandlerError>>, r: Result<(), RewritingError>) -> bool {
    r matches Err(e) ==> error_carried(results, e)
}

/// Whether `a` is the beginning of `b`.
pub open spec fn is_prefix(a: Seq<u8>, b: Seq<u8>) -> bool {
    a.len() <= b.len() && b.subrange(0, a.len() as int) == a
}

/// How many elements are open after a token, where `depth` were open before
/// it.
pub open spec fn depth_after(depth: int, kind: TokenKind, feedback: Option<TagFeedback>) -> int {
    match (kind, feedback) {
        (TokenKind::StartTag { .. }, Some(f)) => if f.stays_open {
            depth + 1
        } else {
            depth
        },
        (TokenKind::EndTag, Some(f)) => depth - f.closed,
        _ => depth,
    }
}

/// The controller of a rewriter.
pub struct HtmlRewriteController<'h> {
    dispatcher: ContentHandlersDispatcher<'h>,
    vm: SelectorMatchingVm,
    plans: Vec<OpenPlan>,
    encoding: AsciiCompatibleEncoding,
    text_open: bool,
    text_mode: TextMode,
    full: bool,
    token: Ghost<Handled>,
    node_end: Ghost<Handled>,
}

/// Whether a handler is due for the content at the place in the tree.
pub open spec fn content_due(
    kinds: Seq<HandlerKinds>,
    document: Seq<DocumentKinds>,
    program: Seq<Instruction>,
    levels: Seq<Seq<ElementInfo>>,
    content: Content,
) -> bool {
    match content {
        Content::Comments => comments_due(kinds, document, program, levels),
        Content::Text => text_due(kinds, document, program, levels),
    }
}

/// Whether the tokens between tags must be read in full at the place in the
/// tree: a handler is due for text, for comments or for doctypes. Where none
/// is, the eager tier suffices: only tags are looked at, and what stands between
/// them is passed through.
pub open spec fn needs_full(
    kinds: Seq<HandlerKinds>,
    document: Seq<DocumentKinds>,
    program: Seq<Instruction>,
    levels: Seq<Seq<ElementInfo>>,
) -> bool {
    content_due(kinds, document, program, levels, Content::Text) || content_due(
        kinds,
        document,
        program,
        levels,
        Content::Comments,
    ) || doctype_due(document)
}

impl<'h> HtmlRewriteController<'h> {
    /// Nothing was registered: no selector and no handler.
    pub closed spec fn is_passive(&self) -> bool {
        self.dispatcher.is_empty()
    }

    /// How many elements are open.
    pub open spec fn depth(&self) -> int {
        self.plans().len() - 1
    }

    /// The bytes charged to the memory limiter for the selector matching
    /// machine.
    pub open spec fn charged(&self) -> nat {
        self.matcher().charged()
    }

    /// The program that the selectors were compiled to.
    pub open spec fn program(&self) -> Seq<Instruction> {
        self.matcher().program()
    }

    /// Which handlers each selector came with, by locator.
    pub closed spec fn kinds(&self) -> Seq<HandlerKinds> {
        self.dispatcher.kinds()
    }

    /// Which handlers for the whole document there are, in the order of
    /// registration.
    pub closed spec fn document_kinds(&self) -> Seq<DocumentKinds> {
        self.dispatcher.document_kinds()
    }

    /// All calls of handlers that were made, in their order.
    pub closed spec fn calls(&self) -> Seq<Call> {
        self.dispatcher.calls()
    }

    /// The tree of the elements that were read and still count, where
    /// selectors are matched.
    pub open spec fn levels(&self) -> Seq<Seq<ElementInfo>> {
        self.matcher().levels()
    }

    /// Whether what stands at the present place is left out of the output: it
    /// stands inside an element whose content a handler has removed.
    pub open spec fn suppressed(&self) -> bool {
        self.plans().len() >= 1 && self.plans().last().removes
    }

    /// Whether a text node is open of which handlers have seen chunks: they
    /// are owed its end.
    pub closed spec fn in_text_node(&self) -> bool {
        self.text_open
    }

    /// The calls of handlers after a comment or a chunk of text, where the
    /// first `n` of the handlers that could be due were gone through: to the
    /// calls before come those that are due for the content at the place where
    /// the parser stands.
    pub open spec fn content_calls_after(before: &Self, content: Content, n: int) -> Seq<Call> {
        before.calls() + content_calls(
            before.kinds(),
            before.document_kinds(),
            before.program(),
            before.levels(),
            content,
            n,
        )
    }

    /// The number of handlers that could be due for a comment or a chunk of
    /// text.
    pub open spec fn content_handlers(&self) -> int {
        (self.kinds().len() + self.document_kinds().len()) as int
    }

    /// The two controllers have the same selectors and kinds of handlers.
    pub open spec fn same_setup(&self, other: &Self) -> bool {
        self.program() == other.program() && self.kinds() == other.kinds()
            && self.document_kinds() == other.document_kinds()
    }

    /// What is to become of the elements that are open, from the outermost
    /// place, which is that of the document, to the innermost.
    pub closed spec fn plans(&self) -> Seq<OpenPlan> {
        self.plans@
    }

    /// The encoding of the document.
    pub closed spec fn encoding(&self) -> AsciiCompatibleEncoding {
        self.encoding
    }

    /// How the text of the text node that is open was read.
    pub closed spec fn text_mode(&self) -> TextMode {
        self.text_mode
    }

    /// The selector matching machine.
    pub closed spec fn matcher(&self) -> SelectorMatchingVm {
        self.vm
    }

    /// What the handlers that were called have returned, in the order of the
    /// calls.
    pub closed spec fn results(&self) -> Seq<Result<(), HandlerError>> {
        self.dispatcher.results()
    }

    /// What the handlers were handed for the last token that any was called
    /// for, and what they left.
    pub closed spec fn token_record(&self) -> Handled {
        self.token@
    }

    /// What the handlers were handed at the last end of a text node, and what
    /// they left.
    pub closed spec fn node_end_record(&self) -> Handled {
        self.node_end@
    }

    /// What is written of `bytes` at the present place: nothing where the
    /// place is left out.
    pub open spec fn kept(&self, bytes: Seq<u8>) -> Seq<u8> {
        if self.suppressed() {
            Seq::empty()
        } else {
            bytes
        }
    }

    /// The place in the tree is the same, and so is the machine.
    pub open spec fn same_place(before: &Self, after: &Self) -> bool {
        after.matcher() == before.matcher() && after.plans() == before.plans()
    }

    /// The text node that was open is open, and none else.
    pub open spec fn same_text_node(before: &Self, after: &Self) -> bool {
        after.in_text_node() == before.in_text_node() && after.text_mode() == before.text_mode()
    }

    /// The end of the text node that is open, if one is. The text handlers
    /// that are due are called, in their order, with a last chunk that is
    /// empty, until one fails; the chunk is written as they leave it. Where no
    /// text node is open, nothing is called and nothing is written.
    pub open spec fn node_ended(
        before: &Self,
        after: &Self,
        out_before: Seq<u8>,
        out_after: Seq<u8>,
        fault: Option<ErrorKind>,
    ) -> bool {
        let h = after.node_end_record();
        &&& !after.in_text_node()
        &&& after.text_mode() == before.text_mode()
        &&& if before.in_text_node() {
            &&& h.handed matches Handle::Text(c) && c.encoding == before.encoding()
                && c.bytes@.len() == 0 && c.text_type == before.text_mode()
                && c.last_in_text_node && c.mutations.is_empty()
            &&& 0 <= h.made <= before.content_handlers()
            &&& after.results() == before.results() + h.returned
            &&& h.returned.len() == after.calls().len() - before.calls().len()
            &&& decided(h.returned, fault)
            &&& h.passed.len() == h.returned.len()
            &&& passed_on(h.handed, h.passed, h.left)
            &&& after.calls() == Self::content_calls_after(before, Content::Text, h.made)
            &&& match fault {
                None => h.made == before.content_handlers() && (h.left matches Handle::Text(c)
                    && out_after == out_before + before.kept(c.output())),
                Some(k) => k == ErrorKind::ContentHandlerError && after.calls().len()
                    > before.calls().len() && out_after == out_before,
            }
        } else {
            fault is None && after.calls() == before.calls() && after.results()
                == before.results() && out_after == out_before
        }
    }

    /// What [`Self::flush_text`] does.
    pub open spec fn text_node_ended(
        before: &Self,
        after: &Self,
        out_before: Seq<u8>,
        out_after: Seq<u8>,
        fault: Option<ErrorKind>,
    ) -> bool {
        Self::same_place(before, after) && Self::node_ended(
            before,
            after,
            out_before,
            out_after,
            fault,
        )
    }

    /// What becomes of a chunk of text with the bytes `raw`. Where a text
    /// handler is due at the place, the handlers that are due are called, in
    /// their order, with the chunk as it was read, until one fails, and the
    /// chunk is written as they leave it. Where none is due, none is called,
    /// and the bytes are written as they were read. Nothing is written at a
    /// place that is left out, and nothing after a handler has failed.
    pub open spec fn text_handled(
        before: &Self,
        after: &Self,
        raw: Seq<u8>,
        mode: TextMode,
        out_before: Seq<u8>,
        out_after: Seq<u8>,
        fault: Option<ErrorKind>,
    ) -> bool {
        let h = after.token_record();
        &&& Self::same_place(before, after)
        &&& if content_due(
            before.kinds(),
            before.document_kinds(),
            before.program(),
            before.levels(),
            Content::Text,
        ) {
            &&& h.handed matches Handle::Text(c) && c.encoding == before.encoding() && c.bytes@
                == raw && c.text_type == mode && !c.last_in_text_node && c.mutations.is_empty()
            &&& 0 <= h.made <= before.content_handlers()
            &&& after.results() == before.results() + h.returned
            &&& h.returned.len() == after.calls().len() - before.calls().len()
            &&& decided(h.returned, fault)
            &&& h.passed.len() == h.returned.len()
            &&& passed_on(h.handed, h.passed, h.left)
            &&& after.calls() == Self::content_calls_after(before, Content::Text, h.made)
            &&& match fault {
                None => h.made == before.content_handlers() && after.in_text_node()
                    && after.text_mode() == mode && (h.left matches Handle::Text(c) && out_after
                    == out_before + before.kept(c.output())),
                Some(k) => k == ErrorKind::ContentHandlerError && after.calls().len()
                    > before.calls().len() && out_after == out_before && Self::same_text_node(
                    before,
                    after,
                ),
            }
        } else {
            fault is None && after.calls() == before.calls() && after.results()
                == before.results() && out_after == out_before
                + before.kept(raw) && Self::same_text_node(before, after)
        }
    }

    /// What becomes of a comment with the bytes `raw`: as for a chunk of text,
    /// with the comment handlers.
    pub open spec fn comment_handled(
        before: &Self,
        after: &Self,
        raw: Seq<u8>,
        out_before: Seq<u8>,
        out_after: Seq<u8>,
        fault: Option<ErrorKind>,
    ) -> bool {
        let h = after.token_record();
        &&& Self::same_place(before, after)
        &&& Self::same_text_node(before, after)
        &&& if content_due(
            before.kinds(),
            before.document_kinds(),
            before.program(),
            before.levels(),
            Content::Comments,
        ) {
            &&& h.handed matches Handle::Comment(c) && c.encoding == before.encoding() && c.text@
                == comment_text_span(raw).of(raw) && !c.modified && c.mutations.is_empty()
            &&& 0 <= h.made <= before.content_handlers()
            &&& after.results() == before.results() + h.returned
            &&& h.returned.len() == after.calls().len() - before.calls().len()
            &&& decided(h.returned, fault)
            &&& h.passed.len() == h.returned.len()
            &&& passed_on(h.handed, h.passed, h.left)
            &&& after.calls() == Self::content_calls_after(before, Content::Comments, h.made)
            &&& match fault {
                None => h.made == before.content_handlers() && (h.left matches Handle::Comment(c)
                    && out_after == out_before + before.kept(c.output(raw))),
                Some(k) => k == ErrorKind::ContentHandlerError && after.calls().len()
                    > before.calls().len() && out_after == out_before,
            }
        } else {
            fault is None && after.calls() == before.calls() && after.results()
                == before.results() && out_after == out_before
                + before.kept(raw)
        }
    }

    /// What becomes of a doctype with the bytes `raw`. Where a doctype
    /// handler was registered, the doctype handlers are called in their order
    /// with what the doctype names, until one fails. The doctype is written as
    /// it was read.
    pub open spec fn doctype_handled(
        before: &Self,
        after: &Self,
        raw: Seq<u8>,
        out_before: Seq<u8>,
        out_after: Seq<u8>,
        fault: Option<ErrorKind>,
    ) -> bool {
        let h = after.token_record();
        let outline = doctype_outline(raw);
        &&& Self::same_place(before, after)
        &&& Self::same_text_node(before, after)
        &&& if doctype_due(before.document_kinds()) {
            &&& h.handed matches Handle::Doctype(d) && d.encoding == before.encoding()
                && part_view(d.name) == (match outline.name {
                Some(s) => Some(lower_seq(s.of(raw))),
                None => None,
            }) && part_view(d.public_id) == part_of(raw, outline.public_id) && part_view(
                d.system_id,
            ) == part_of(raw, outline.system_id) && d.force_quirks == outline.force_quirks
            &&& 0 <= h.made <= before.document_kinds().len()
            &&& after.results() == before.results() + h.returned
            &&& h.returned.len() == after.calls().len() - before.calls().len()
            &&& decided(h.returned, fault)
            &&& h.passed.len() == h.returned.len()
            &&& passed_on(h.handed, h.passed, h.left)
            &&& after.calls() == before.calls() + doctype_calls(before.document_kinds(), h.made)
            &&& match fault {
                None => h.made == before.document_kinds().len() && out_after == out_before
                    + before.kept(raw),
                Some(k) => k == ErrorKind::ContentHandlerError && after.calls().len()
                    > before.calls().len() && out_after == out_before,
            }
        } else {
            fault is None && after.calls() == before.calls() && after.results()
                == before.results() && out_after == out_before
                + before.kept(raw)
        }
    }

    /// What becomes of a token that no handler is called for: it is written
    /// as it was read, unless the place is left out.
    pub open spec fn passed(
        before: &Self,
        after: &Self,
        raw: Seq<u8>,
        out_before: Seq<u8>,
        out_after: Seq<u8>,
        fault: Option<ErrorKind>,
    ) -> bool {
        &&& Self::same_place(before, after)
        &&& Self::same_text_node(before, after)
        &&& fault is None
        &&& after.calls() == before.calls()
        &&& after.results() == before.results()
        &&& out_after == out_before + before.kept(raw)
    }

    /// The attributes that a start tag with the bytes `raw` writes: name and
    /// value of each, the first of each name.
    pub open spec fn attributes_read(raw: Seq<u8>) -> Seq<(Seq<u8>, Seq<u8>)> {
        first_of_each(
            outlined(raw, attribute_outlines(raw, false)),
            attribute_outlines(raw, false).len() as int,
        )
    }

    /// Whether the plans after a start tag are those before it, with `plan`
    /// for the element if it stays open.
    pub open spec fn opened(before: &Self, after: &Self, stays_open: bool, plan: OpenPlan) -> bool {
        if stays_open {
            after.plans() == before.plans().push(plan)
        } else {
            after.plans() == before.plans()
        }
    }

    /// Whether the plan asks for nothing but what its parent asks for.
    pub open spec fn inherits(plan: OpenPlan, removes: bool) -> bool {
        plan.removes == removes && plan.end_tag.name is None && plan.end_tag.mutations.is_empty()
            && plan.handlers@.len() == 0
    }

    /// What becomes of a start tag with the bytes `raw`, for an element in
    /// `namespace` that stays open or not, when `usage` bytes are charged to
    /// the memory limiter, which allows `limit`.
    ///
    /// Where no selector was registered, the tag is written as it was read.
    /// Otherwise the element is counted and matched. That fails, with nothing
    /// called and nothing written, exactly if the limit does not allow what
    /// the machine charges for the tag. Where it does, and a selector that
    /// matches has an element handler, the element handlers of the selectors
    /// that match are called in the order of registration, with the element
    /// as the tag describes it and untouched, until one fails, and the tag is
    /// written as they leave it; what they ask of the content and of the end
    /// tag is kept for the element while it is open. Where no such handler is
    /// due, none is called, and the tag is written as it was read. Nothing is
    /// written at a place that is left out, and what stands inside is left
    /// out too.
    pub open spec fn start_tag_handled(
        before: &Self,
        after: &Self,
        raw: Seq<u8>,
        self_closing: bool,
        namespace: Namespace,
        stays_open: bool,
        usage: int,
        limit: int,
        out_before: Seq<u8>,
        out_after: Seq<u8>,
        fault: Option<ErrorKind>,
    ) -> bool {
        let h = after.token_record();
        let name = tag_name_span(raw, false).of(raw);
        let cost = before.matcher().start_tag_cost(name, stays_open);
        let d = before.levels().len() - 1;
        let k = before.levels()[d].len() as int;
        let info = after.levels()[d][k];
        let matched = Self::start_tag_matches(before, after);
        &&& Self::same_text_node(before, after)
        &&& if !before.matching() {
            &&& fault is None
            &&& after.calls() == before.calls()
            &&& after.results() == before.results()
            &&& after.matcher() == before.matcher()
            &&& out_after == out_before + before.kept(raw)
            &&& exists|plan: OpenPlan| #[trigger]
                Self::opened(before, after, stays_open, plan) && Self::inherits(
                    plan,
                    before.suppressed(),
                )
        } else if usage + cost > limit {
            &&& fault == Some(ErrorKind::MemoryLimitExceeded)
            &&& after.calls() == before.calls()
            &&& after.results() == before.results()
            &&& after.levels() == before.levels()
            &&& after.charged() == before.charged()
            &&& after.matcher().entries() == before.matcher().entries()
            &&& after.plans() == before.plans()
            &&& out_after == out_before
        } else {
            &&& SelectorMatchingVm::counted_after(
                &before.matcher(),
                &after.matcher(),
                name,
                stays_open,
            )
            &&& info.name@ == name
            &&& info.namespace == namespace
            &&& pairs(info.attributes@) == if reads_attributes(before.program()) {
                Self::attributes_read(raw)
            } else {
                Seq::empty()
            }
            &&& info.child_index == before.matcher().next_child_index()
            &&& info.type_index == before.matcher().next_type_index(name)
            &&& after.levels() == if stays_open {
                with_level(with_element(before.levels(), info))
            } else {
                with_element(before.levels(), info)
            }
            &&& after.charged() == before.charged() + cost
            &&& if element_due(before.kinds(), matched) {
                &&& h.handed matches Handle::Element(e) && e.encoding == before.encoding()
                    && e.name@ == name && pairs(e.attributes@) == Self::attributes_read(raw)
                    && e.self_closing == self_closing && e.namespace == namespace
                    && e.can_have_content == stays_open && e.untouched()
                &&& 0 <= h.made <= matched.len()
                &&& after.results() == before.results() + h.returned
                &&& h.returned.len() == after.calls().len() - before.calls().len()
                &&& decided(h.returned, fault)
                &&& h.passed.len() == h.returned.len()
                &&& passed_on(h.handed, h.passed, h.left)
                &&& after.calls() == Self::start_tag_calls(before, after, h.made)
                &&& match fault {
                    None => h.made == matched.len() && (h.left matches Handle::Element(e)
                        && out_after == out_before + before.kept(e.start_tag_output(raw))
                        && Self::opened(
                        before,
                        after,
                        stays_open,
                        OpenPlan {
                            end_tag: e.end_tag,
                            removes: before.suppressed() || e.content_removed,
                            handlers: e.end_tag_handlers,
                        },
                    )),
                    Some(f) => f == ErrorKind::ContentHandlerError && after.calls().len()
                        > before.calls().len() && out_after == out_before && after.plans()
                        == before.plans(),
                }
            } else {
                &&& fault is None
                &&& after.calls() == before.calls()
                &&& after.results() == before.results()
                &&& out_after == out_before + before.kept(raw)
                &&& exists|plan: OpenPlan| #[trigger]
                    Self::opened(before, after, stays_open, plan) && Self::inherits(
                        plan,
                        before.suppressed(),
                    )
            }
        }
    }

    /// The innermost `closed` elements that are open leave the tree, and
    /// what the machine keeps of them goes: the machine charges what it
    /// charged before they were opened. A rewriter without selectors has no
    /// tree.
    pub open spec fn left_tree(before: &Self, after: &Self, closed: int) -> bool {
        if before.matching() {
            &&& after.levels() == before.levels().take(before.levels().len() - closed)
            &&& after.matcher().entries() == before.matcher().entries().take(
                before.matcher().entries().len() - closed,
            )
            &&& after.charged() <= before.charged()
        } else {
            after.matcher() == before.matcher()
        }
    }

    /// What becomes of an end tag with the bytes `raw` that closes the
    /// innermost `closed` elements, the outermost of them by its name.
    ///
    /// Where it closes none, it is written as it was read. Otherwise the
    /// elements leave the tree, and the handlers that wait for the end tag of
    /// the element that the tag names are called in their order, until one
    /// fails, with an end tag that has the name and the content around it that
    /// the handlers of the element have asked for. The tag is written as they
    /// leave it, at the place of the element. Nothing is written for the
    /// elements that end without being named.
    pub open spec fn end_tag_handled(
        before: &Self,
        after: &Self,
        raw: Seq<u8>,
        closed: int,
        out_before: Seq<u8>,
        out_after: Seq<u8>,
        fault: Option<ErrorKind>,
    ) -> bool {
        let h = after.token_record();
        let rest = before.plans().take(before.plans().len() - closed);
        let plan = before.plans()[before.plans().len() - closed];
        &&& Self::same_text_node(before, after)
        &&& if closed == 0 {
            Self::passed(before, after, raw, out_before, out_after, fault)
        } else {
            &&& Self::left_tree(before, after, closed)
            &&& after.plans() == rest
            &&& h.handed matches Handle::EndTag(t) && t.encoding == before.encoding() && t.name@
                == (match plan.end_tag.name {
                Some(name) => name@,
                None => tag_name_span(raw, true).of(raw),
            }) && t.modified == (plan.end_tag.name is Some) && t.mutations
                == plan.end_tag.mutations
            &&& 0 <= h.made <= plan.handlers@.len()
            &&& after.results() == before.results() + h.returned
            &&& h.returned.len() == after.calls().len() - before.calls().len()
            &&& decided(h.returned, fault)
            &&& h.passed.len() == h.returned.len()
            &&& passed_on(h.handed, h.passed, h.left)
            &&& plan.handlers@.len() == 0 ==> h.left == h.handed
            &&& after.calls() == before.calls() + end_tag_calls(h.made)
            &&& match fault {
                None => h.made == plan.handlers@.len() && (h.left matches Handle::EndTag(t)
                    && out_after == out_before + after.kept(t.output(raw))),
                Some(f) => f == ErrorKind::ContentHandlerError && after.calls().len()
                    > before.calls().len() && out_after == out_before,
            }
        }
    }

    /// What becomes of a token of the given kind once the text node that was
    /// open has ended, if the token is no text.
    pub open spec fn step_handled(
        before: &Self,
        after: &Self,
        kind: TokenKind,
        raw: Seq<u8>,
        mode: TextMode,
        feedback: Option<TagFeedback>,
        usage: int,
        limit: int,
        out_before: Seq<u8>,
        out_after: Seq<u8>,
        fault: Option<ErrorKind>,
    ) -> bool {
        match kind {
            TokenKind::Text => Self::text_handled(
                before,
                after,
                raw,
                mode,
                out_before,
                out_after,
                fault,
            ),
            TokenKind::StartTag { self_closing } => feedback matches Some(f)
                && Self::start_tag_handled(
                before,
                after,
                raw,
                self_closing,
                f.namespace,
                f.stays_open,
                usage,
                limit,
                out_before,
                out_after,
                fault,
            ),
            TokenKind::EndTag => feedback matches Some(f) && Self::end_tag_handled(
                before,
                after,
                raw,
                f.closed as int,
                out_before,
                out_after,
                fault,
            ),
            TokenKind::Comment => Self::comment_handled(
                before,
                after,
                raw,
                out_before,
                out_after,
                fault,
            ),
            TokenKind::Doctype => Self::doctype_handled(
                before,
                after,
                raw,
                out_before,
                out_after,
                fault,
            ),
            _ => Self::passed(before, after, raw, out_before, out_after, fault),
        }
    }

    /// What becomes of a token. A token that is no text ends the text node
    /// that is open: `middle` is the controller after that, and `out_middle`
    /// what is written then. If a handler fails there, the token is not taken.
    #[verifier::opaque]
    pub open spec fn token_handled(
        before: &Self,
        middle: &Self,
        after: &Self,
        kind: TokenKind,
        raw: Seq<u8>,
        mode: TextMode,
        feedback: Option<TagFeedback>,
        usage: int,
        limit: int,
        out_before: Seq<u8>,
        out_middle: Seq<u8>,
        out_after: Seq<u8>,
        fault: Option<ErrorKind>,
    ) -> bool {
        if kind is Text {
            middle == before && out_middle == out_before && Self::step_handled(
                before,
                after,
                kind,
                raw,
                mode,
                feedback,
                usage,
                limit,
                out_before,
                out_after,
                fault,
            )
        } else {
            ||| Self::text_node_ended(before, middle, out_before, out_middle, None)
                && Self::step_handled(
                middle,
                after,
                kind,
                raw,
                mode,
                feedback,
                usage,
                limit,
                out_middle,
                out_after,
                fault,
            )
            ||| fault is Some && Self::text_node_ended(
                before,
                middle,
                out_before,
                out_middle,
                fault,
            ) && after == middle && out_after == out_middle
        }
    }

    /// A token that no handler is called for is written as it was read,
    /// unless it stands at a place that is left out. For an end tag that
    /// closes an element this holds where no handler of the element has asked
    /// anything of the end tag.
    pub proof fn lemma_no_call_leaves_token(
        before: &Self,
        after: &Self,
        kind: TokenKind,
        raw: Seq<u8>,
        mode: TextMode,
        feedback: Option<TagFeedback>,
        usage: int,
        limit: int,
        out_before: Seq<u8>,
        out_after: Seq<u8>,
    )
        requires
            Self::step_handled(
                before,
                after,
                kind,
                raw,
                mode,
                feedback,
                usage,
                limit,
                out_before,
                out_after,
                None,
            ),
            after.calls() == before.calls(),
            kind is EndTag && feedback->0.closed > 0 ==> ({
                let plan = before.plans()[before.plans().len() - feedback->0.closed];
                plan.end_tag.name is None && plan.end_tag.mutations.is_empty()
                    && plan.handlers@.len() == 0
            }),
        ensures
            out_after == out_before + if kind is EndTag {
                after.kept(raw)
            } else {
                before.kept(raw)
            },
    {
        lemma_due_calls(
            before.kinds(),
            before.document_kinds(),
            before.program(),
            before.levels(),
            Self::start_tag_matches(before, after),
        );
        if kind is EndTag && feedback->0.closed > 0 {
            let t = after.token_record().left->EndTag_0;
            assert(t.output(raw) =~= raw);
        }
    }

    /// The end of a text node only adds to what was written and to the calls
    /// that were made.
    pub proof fn lemma_node_end_adds(
        before: &Self,
        after: &Self,
        out_before: Seq<u8>,
        out_after: Seq<u8>,
        fault: Option<ErrorKind>,
    )
        requires
            Self::node_ended(before, after, out_before, out_after, fault),
        ensures
            is_prefix(out_before, out_after),
            before.calls().is_prefix_of(after.calls()),
    {
        assert(out_after.subrange(0, out_before.len() as int) =~= out_before);
    }

    /// The handling of a token without the end of the text node before it
    /// only adds to what was written and to the calls that were made.
    pub proof fn lemma_step_adds(
        before: &Self,
        after: &Self,
        kind: TokenKind,
        raw: Seq<u8>,
        mode: TextMode,
        feedback: Option<TagFeedback>,
        usage: int,
        limit: int,
        out_before: Seq<u8>,
        out_after: Seq<u8>,
        fault: Option<ErrorKind>,
    )
        requires
            Self::step_handled(
                before,
                after,
                kind,
                raw,
                mode,
                feedback,
                usage,
                limit,
                out_before,
                out_after,
                fault,
            ),
        ensures
            is_prefix(out_before, out_after),
            before.calls().is_prefix_of(after.calls()),
    {
        assert(out_after.subrange(0, out_before.len() as int) =~= out_before);
    }

    /// Mutations are local: the handling of a token, whatever the handlers
    /// that are called for it do, only adds to what was written and to the
    /// calls that were made. What was written for the tokens before it stays
    /// as it is.
    pub proof fn lemma_token_adds(
        before: &Self,
        middle: &Self,
        after: &Self,
        kind: TokenKind,
        raw: Seq<u8>,
        mode: TextMode,
        feedback: Option<TagFeedback>,
        usage: int,
        limit: int,
        out_before: Seq<u8>,
        out_middle: Seq<u8>,
        out_after: Seq<u8>,
        fault: Option<ErrorKind>,
    )
        requires
            Self::token_handled(
                before,
                middle,
                after,
                kind,
                raw,
                mode,
                feedback,
                usage,
                limit,
                out_before,
                out_middle,
                out_after,
                fault,
            ),
        ensures
            is_prefix(out_before, out_after),
            before.calls().is_prefix_of(after.calls()),
    {
        reveal(HtmlRewriteController::token_handled);
        if kind is Text {
            Self::lemma_step_adds(
                before,
                after,
                kind,
                raw,
                mode,
                feedback,
                usage,
                limit,
                out_before,
                out_after,
                fault,
            );
        } else if Self::text_node_ended(before, middle, out_before, out_middle, None)
            && Self::step_handled(
            middle,
            after,
            kind,
            raw,
            mode,
            feedback,
            usage,
            limit,
            out_middle,
            out_after,
            fault,
        ) {
            Self::lemma_node_end_adds(before, middle, out_before, out_middle, None);
            Self::lemma_step_adds(
                middle,
                after,
                kind,
                raw,
                mode,
                feedback,
                usage,
                limit,
                out_middle,
                out_after,
                fault,
            );
            assert(out_after.subrange(0, out_before.len() as int) =~= out_middle.subrange(
                0,
                out_before.len() as int,
            ));
        } else {
            Self::lemma_node_end_adds(before, middle, out_before, out_middle, fault);
        }
    }

    /// What the end of the document does: the text node that is open ends,
    /// and the elements that are open leave the tree. Nothing is written for
    /// them.
    pub open spec fn document_ended(
        before: &Self,
        after: &Self,
        out_before: Seq<u8>,
        out_after: Seq<u8>,
        fault: Option<ErrorKind>,
    ) -> bool {
        &&& Self::node_ended(before, after, out_before, out_after, fault)
        &&& fault is None ==> after.plans() == before.plans().take(1) && Self::left_tree(
            before,
            after,
            before.depth(),
        )
    }

    /// Whether selectors are matched.
    pub open spec fn matching(&self) -> bool {
        self.kinds().len() > 0
    }

    /// The controller is consistent, but for the mode, which may be out of date.
    pub closed spec fn consistent(&self) -> bool {
        &&& self.dispatcher.wf()
        &&& self.vm.wf()
        &&& self.vm.locators() == self.dispatcher.kinds().len()
        &&& self.plans@.len() >= 1
        &&& if self.matching() {
            self.vm.levels().len() == self.plans@.len()
        } else {
            self.vm.levels().len() == 1 && self.vm.charged() == 0
        }
        &&& self.is_passive() ==> !self.text_open && forall|i: int|
            0 <= i < self.plans@.len() ==> (#[trigger] self.plans@[i]).is_plain()
    }

    /// The controller is consistent, and its mode is the one that the place in
    /// the tree asks for: the tokens between tags are read in full where
    /// [`needs_full`] holds, and passed through otherwise. The mode changes at
    /// tags only.
    pub closed spec fn wf(&self) -> bool {
        self.consistent() && self.full == needs_full(
            self.dispatcher.kinds(),
            self.dispatcher.document_kinds(),
            self.vm.program(),
            self.vm.levels(),
        )
    }

    /// Where nothing was registered, no selector is matched and nothing is
    /// charged to the memory limiter.
    pub proof fn lemma_passive_charges_nothing(&self)
        requires
            self.wf(),
        ensures
            self.is_passive() ==> self.charged() == 0,
    {
    }

    /// A controller for the dispatcher and the machine, with no element open.
    pub fn new(
        dispatcher: ContentHandlersDispatcher<'h>,
        vm: SelectorMatchingVm,
        encoding: AsciiCompatibleEncoding,
    ) -> (r: Self)
        requires
            dispatcher.wf(),
            vm.wf(),
            vm.locators() == dispatcher.kinds().len(),
            vm.levels().len() == 1,
            vm.charged() == 0,
        ensures
            r.wf(),
            r.depth() == 0,
            r.charged() == 0,
            r.is_passive() == dispatcher.is_empty(),
            r.program() == vm.program(),
            r.kinds() == dispatcher.kinds(),
            r.document_kinds() == dispatcher.document_kinds(),
            r.calls() == dispatcher.calls(),
            r.results() == dispatcher.results(),
            r.levels() == vm.levels(),
            r.matcher() == vm,
            r.encoding() == encoding,
            !r.in_text_node(),
            r.plans().len() == 1,
            Self::inherits(r.plans()[0], false),
    {
        let mut plans: Vec<OpenPlan> = Vec::new();
        plans.push(
            OpenPlan {
                end_tag: EndTagPlan { name: None, mutations: Mutations::new() },
                removes: false,
                handlers: Vec::new(),
            },
        );
        let full = dispatcher.wants_text(&vm) || dispatcher.wants_comments(&vm)
            || dispatcher.wants_doctype();
        HtmlRewriteController {
            dispatcher,
            vm,
            plans,
            encoding,
            text_open: false,
            text_mode: TextMode::Data,
            full,
            token: Ghost(
                Handled {
                    handed: Handle::Nothing,
                    left: Handle::Nothing,
                    made: 0,
                    returned: Seq::empty(),
                    passed: Seq::empty(),
                },
            ),
            node_end: Ghost(
                Handled {
                    handed: Handle::Nothing,
                    left: Handle::Nothing,
                    made: 0,
                    returned: Seq::empty(),
                    passed: Seq::empty(),
                },
            ),
        }
    }

    /// Whether nothing was registered.
    pub fn has_no_handlers(&self) -> (r: bool)
        ensures
            r == self.is_passive(),
    {
        self.dispatcher.has_no_handlers()
    }

    /// Sets the mode to the one that the place in the tree asks for. This is
    /// done at tags, where the place changes.
    fn refresh_mode(&mut self)
        requires
            old(self).consistent(),
        ensures
            final(self).wf(),
            final(self).same_setup(old(self)),
            final(self).calls() == old(self).calls(),
            final(self).levels() == old(self).levels(),
            final(self).depth() == old(self).depth(),
            final(self).charged() == old(self).charged(),
            final(self).is_passive() == old(self).is_passive(),
            final(self).in_text_node() == old(self).in_text_node(),
            final(self).plans == old(self).plans,
            final(self).vm == old(self).vm,
            final(self).dispatcher == old(self).dispatcher,
            final(self).encoding == old(self).encoding,
            final(self).text_mode == old(self).text_mode,
            final(self).token == old(self).token,
            final(self).node_end == old(self).node_end,
    {
        self.full = self.dispatcher.wants_text(&self.vm) || self.dispatcher.wants_comments(
            &self.vm,
        ) || self.dispatcher.wants_doctype();
    }

    /// Whether what stands at the present place is left out. Where nothing was
    /// registered, nothing is left out.
    fn removing(&self) -> (r: bool)
        requires
            self.consistent(),
        ensures
            r == self.suppressed(),
            self.is_passive() ==> !r,
    {
        self.plans[self.plans.len() - 1].removes
    }

    /// Writes `raw` unless it is left out.
    fn pass(&self, raw: &[u8], out: &mut Vec<u8>)
        requires
            self.consistent(),
        ensures
            final(out)@ == if self.suppressed() {
                old(out)@
            } else {
                old(out)@ + raw@
            },
            is_prefix(old(out)@, final(out)@),
            self.is_passive() ==> final(out)@ == old(out)@ + raw@,
    {
        if !self.removing() {
            push_all(out, raw);
        }
        assert(out@.subrange(0, old(out)@.len() as int) =~= old(out)@);
    }

    /// Ends the text node that is open, if one is: the text handlers see a last,
    /// empty chunk.
    pub fn flush_text(&mut self, out: &mut Vec<u8>) -> (r: Result<(), RewritingError>)
        requires
            old(self).wf(),
        ensures
            is_prefix(old(out)@, final(out)@),
            final(self).same_setup(old(self)),
            old(self).calls().is_prefix_of(final(self).calls()),
            old(self).is_passive() ==> final(self).calls() == old(self).calls(),
            r is Ok ==> final(self).wf() && final(self).depth() == old(self).depth()
                && final(self).charged() == old(self).charged()
                && final(self).is_passive() == old(self).is_passive(),
            old(self).is_passive() ==> r is Ok && final(out)@ == old(out)@,
            r matches Err(e) ==> e is ContentHandlerError,
            final(self).levels() == old(self).levels(),
            final(self).encoding() == old(self).encoding(),
            carried(final(self).results(), r),
            r is Ok && none_failed(old(self).results()) ==> none_failed(final(self).results()),
            Self::text_node_ended(old(self), final(self), old(out)@, final(out)@, fault_of(r)),
    {
        assert(out@.subrange(0, out@.len() as int) =~= out@);
        assert(out@ + Seq::<u8>::empty() =~= out@);
        if self.text_open {
            self.text_open = false;
            let empty: Vec<u8> = Vec::new();
            let mut chunk = TextChunk::new(self.encoding, empty.as_slice(), self.text_mode, true);
            let ghost handed = chunk;
            let handled = self.dispatcher.handle_text(&self.vm, &mut chunk);
            let ghost mut made: int = old(self).content_handlers();
            proof {
                assert(self.calls().subrange(0, old(self).calls().len() as int) =~= old(self).calls());
            }
            match handled {
                Ok(()) => {},
                Err(e) => {
                    proof {
                        made = choose|n: int|
                            0 <= n <= old(self).kinds().len() + old(self).document_kinds().len()
                                && self.dispatcher.calls() == old(self).dispatcher.calls()
                                + #[trigger] content_calls(
                                old(self).dispatcher.kinds(),
                                old(self).dispatcher.document_kinds(),
                                self.vm.program(),
                                self.vm.levels(),
                                Content::Text,
                                n,
                            );
                    }
                    self.node_end = Ghost(
                        Handled {
                            handed: Handle::Text(handed),
                            left: Handle::Text(chunk),
                            made,
                            returned: self.dispatcher.answers(),
                            passed: self.dispatcher.seen(),
                        },
                    );
                    return Err(RewritingError::ContentHandlerError(e));
                },
            }
            self.node_end = Ghost(
                Handled {
                    handed: Handle::Text(handed),
                    left: Handle::Text(chunk),
                    made,
                    returned: self.dispatcher.answers(),
                    passed: self.dispatcher.seen(),
                },
            );
            if !self.removing() {
                chunk.write(out);
                assert(out@.subrange(0, old(out)@.len() as int) =~= old(out)@);
            }
        }
        Ok(())
    }

    /// Takes a chunk of text.
    pub fn on_text(&mut self, raw: &[u8], mode: TextMode, out: &mut Vec<u8>) -> (r: Result<
        (),
        RewritingError,
    >)
        requires
            old(self).wf(),
        ensures
            is_prefix(old(out)@, final(out)@),
            final(self).same_setup(old(self)),
            old(self).calls().is_prefix_of(final(self).calls()),
            old(self).is_passive() ==> final(self).calls() == old(self).calls(),
            r is Ok ==> final(self).wf() && final(self).depth() == old(self).depth()
                && final(self).charged() == old(self).charged()
                && final(self).is_passive() == old(self).is_passive(),
            old(self).is_passive() ==> r is Ok && final(out)@ == old(out)@ + raw@,
            r matches Err(e) ==> e is ContentHandlerError,
            final(self).levels() == old(self).levels(),
            final(self).encoding() == old(self).encoding(),
            carried(final(self).results(), r),
            r is Ok && none_failed(old(self).results()) ==> none_failed(final(self).results()),
            Self::text_handled(
                old(self),
                final(self),
                raw@,
                mode,
                old(out)@,
                final(out)@,
                fault_of(r),
            ),
    {
        assert(out@ + Seq::<u8>::empty() =~= out@);
        assert(out@.subrange(0, out@.len() as int) =~= out@);
        if self.full && self.dispatcher.wants_text(&self.vm) {
            let mut chunk = TextChunk::new(self.encoding, raw, mode, false);
            let ghost handed = chunk;
            let handled = self.dispatcher.handle_text(&self.vm, &mut chunk);
            let ghost mut made: int = old(self).content_handlers();
            proof {
                assert(self.calls().subrange(0, old(self).calls().len() as int) =~= old(self).calls());
            }
            match handled {
                Ok(()) => {},
                Err(e) => {
                    proof {
                        made = choose|n: int|
                            0 <= n <= old(self).kinds().len() + old(self).document_kinds().len()
                                && self.dispatcher.calls() == old(self).dispatcher.calls()
                                + #[trigger] content_calls(
                                old(self).dispatcher.kinds(),
                                old(self).dispatcher.document_kinds(),
                                self.vm.program(),
                                self.vm.levels(),
                                Content::Text,
                                n,
                            );
                    }
                    self.token = Ghost(
                        Handled {
                            handed: Handle::Text(handed),
                            left: Handle::Text(chunk),
                            made,
                            returned: self.dispatcher.answers(),
                            passed: self.dispatcher.seen(),
                        },
                    );
                    return Err(RewritingError::ContentHandlerError(e));
                },
            }
            self.token = Ghost(
                Handled {
                    handed: Handle::Text(handed),
                    left: Handle::Text(chunk),
                    made,
                    returned: self.dispatcher.answers(),
                    passed: self.dispatcher.seen(),
                },
            );
            self.text_open = true;
            self.text_mode = mode;
            if !self.removing() {
                chunk.write(out);
            }
            assert(out@.subrange(0, old(out)@.len() as int) =~= old(out)@);
        } else {
            self.pass(raw, out);
        }
        Ok(())
    }

    /// Takes a comment.
    pub fn on_comment(&mut self, raw: &[u8], out: &mut Vec<u8>) -> (r: Result<(), RewritingError>)
        requires
            old(self).wf(),
        ensures
            is_prefix(old(out)@, final(out)@),
            final(self).same_setup(old(self)),
            old(self).calls().is_prefix_of(final(self).calls()),
            old(self).is_passive() ==> final(self).calls() == old(self).calls(),
            r is Ok ==> final(self).wf() && final(self).depth() == old(self).depth()
                && final(self).charged() == old(self).charged()
                && final(self).is_passive() == old(self).is_passive(),
            old(self).is_passive() ==> r is Ok && final(out)@ == old(out)@ + raw@,
            r matches Err(e) ==> e is ContentHandlerError,
            final(self).levels() == old(self).levels(),
            final(self).encoding() == old(self).encoding(),
            carried(final(self).results(), r),
            r is Ok && none_failed(old(self).results()) ==> none_failed(final(self).results()),
            Self::comment_handled(
                old(self),
                final(self),
                raw@,
                old(out)@,
                final(out)@,
                fault_of(r),
            ),
    {
        assert(out@ + Seq::<u8>::empty() =~= out@);
        assert(out@.subrange(0, out@.len() as int) =~= out@);
        if self.full && self.dispatcher.wants_comments(&self.vm) {
            let mut comment = Comment::new(self.encoding, raw, outline_comment(raw));
            let ghost handed = comment;
            let handled = self.dispatcher.handle_comment(&self.vm, &mut comment);
            let ghost mut made: int = old(self).content_handlers();
            proof {
                assert(self.calls().subrange(0, old(self).calls().len() as int) =~= old(self).calls());
            }
            match handled {
                Ok(()) => {},
                Err(e) => {
                    proof {
                        made = choose|n: int|
                            0 <= n <= old(self).kinds().len() + old(self).document_kinds().len()
                                && self.dispatcher.calls() == old(self).dispatcher.calls()
                                + #[trigger] content_calls(
                                old(self).dispatcher.kinds(),
                                old(self).dispatcher.document_kinds(),
                                self.vm.program(),
                                self.vm.levels(),
                                Content::Comments,
                                n,
                            );
                    }
                    self.token = Ghost(
                        Handled {
                            handed: Handle::Comment(handed),
                            left: Handle::Comment(comment),
                            made,
                            returned: self.dispatcher.answers(),
                            passed: self.dispatcher.seen(),
                        },
                    );
                    return Err(RewritingError::ContentHandlerError(e));
                },
            }
            self.token = Ghost(
                Handled {
                    handed: Handle::Comment(handed),
                    left: Handle::Comment(comment),
                    made,
                    returned: self.dispatcher.answers(),
                    passed: self.dispatcher.seen(),
                },
            );
            if !self.removing() {
                comment.write(out, raw);
            }
            assert(out@.subrange(0, old(out)@.len() as int) =~= old(out)@);
        } else {
            self.pass(raw, out);
        }
        Ok(())
    }

    /// Takes a doctype.
    pub fn on_doctype(&mut self, raw: &[u8], out: &mut Vec<u8>) -> (r: Result<(), RewritingError>)
        requires
            old(self).wf(),
        ensures
            is_prefix(old(out)@, final(out)@),
            final(self).same_setup(old(self)),
            old(self).calls().is_prefix_of(final(self).calls()),
            old(self).is_passive() ==> final(self).calls() == old(self).calls(),
            r is Ok ==> final(self).wf() && final(self).depth() == old(self).depth()
                && final(self).charged() == old(self).charged()
                && final(self).is_passive() == old(self).is_passive(),
            old(self).is_passive() ==> r is Ok && final(out)@ == old(out)@ + raw@,
            r matches Err(e) ==> e is ContentHandlerError,
            final(self).levels() == old(self).levels(),
            final(self).encoding() == old(self).encoding(),
            carried(final(self).results(), r),
            r is Ok && none_failed(old(self).results()) ==> none_failed(final(self).results()),
            Self::doctype_handled(
                old(self),
                final(self),
                raw@,
                old(out)@,
                final(out)@,
                fault_of(r),
            ),
    {
        assert(out@ + Seq::<u8>::empty() =~= out@);
        assert(out@.subrange(0, out@.len() as int) =~= out@);
        if self.full && self.dispatcher.wants_doctype() {
            let mut doctype = Doctype::new(self.encoding, raw, outline_doctype(raw));
            let ghost handed = doctype;
            let handled = self.dispatcher.handle_doctype(&mut doctype);
            let ghost mut made: int = old(self).document_kinds().len() as int;
            proof {
                assert(self.calls().subrange(0, old(self).calls().len() as int) =~= old(self).calls());
            }
            match handled {
                Ok(()) => {},
                Err(e) => {
                    proof {
                        made = choose|n: int|
                            0 <= n <= old(self).document_kinds().len() && self.calls()
                                == old(self).calls() + #[trigger] doctype_calls(
                                old(self).document_kinds(),
                                n,
                            );
                    }
                    self.token = Ghost(
                        Handled {
                            handed: Handle::Doctype(handed),
                            left: Handle::Doctype(doctype),
                            made,
                            returned: self.dispatcher.answers(),
                            passed: self.dispatcher.seen(),
                        },
                    );
                    return Err(RewritingError::ContentHandlerError(e));
                },
            }
            self.token = Ghost(
                Handled {
                    handed: Handle::Doctype(handed),
                    left: Handle::Doctype(doctype),
                    made,
                    returned: self.dispatcher.answers(),
                    passed: self.dispatcher.seen(),
                },
            );
        }
        self.pass(raw, out);
        Ok(())
    }

    /// The locators of the selectors that match the element that a start tag
    /// has added to the tree, in the order of registration.
    pub open spec fn start_tag_matches(before: &Self, after: &Self) -> Seq<usize> {
        let d = before.levels().len() - 1;
        let k = before.levels()[d].len() as int;
        matching_locators(
            before.program(),
            with_element(before.levels(), after.levels()[d][k]),
            d,
            k,
        )
    }

    /// The calls of handlers after a start tag, where the first `n` of the
    /// matching selectors have had their element handlers called: to the
    /// calls before come those of the element handlers, in the order in which
    /// the selectors were registered.
    pub open spec fn start_tag_calls(before: &Self, after: &Self, n: int) -> Seq<Call> {
        before.calls() + element_calls(before.kinds(), Self::start_tag_matches(before, after), n)
    }

    /// Takes a start tag: matches the selectors against the element, calls
    /// the element handlers of those that match, in the order of registration,
    /// and writes the tag as they leave it.
    pub fn on_start_tag(
        &mut self,
        raw: &[u8],
        self_closing: bool,
        feedback: TagFeedback,
        limiter: &mut MemoryLimiter,
        out: &mut Vec<u8>,
    ) -> (r: Result<(), RewritingError>)
        requires
            old(self).wf(),
            old(self).charged() <= old(limiter).usage(),
        ensures
            final(limiter).limit() == old(limiter).limit(),
            is_prefix(old(out)@, final(out)@),
            final(self).same_setup(old(self)),
            old(self).calls().is_prefix_of(final(self).calls()),
            old(self).is_passive() ==> final(self).calls() == old(self).calls(),
            r is Ok ==> {
                &&& final(self).wf()
                &&& final(self).depth() == old(self).depth() + if feedback.stays_open {
                    1int
                } else {
                    0int
                }
                &&& final(self).is_passive() == old(self).is_passive()
                &&& final(self).charged() <= final(limiter).usage()
                &&& final(limiter).usage() - final(self).charged()
                    == old(limiter).usage() - old(self).charged()
            },
            old(self).is_passive() ==> r is Ok && final(out)@ == old(out)@ + raw@
                && final(self).charged() == old(self).charged(),
            r matches Err(e) ==> !(e is ParsingAmbiguity),
            final(self).encoding() == old(self).encoding(),
            carried(final(self).results(), r),
            r is Ok && none_failed(old(self).results()) ==> none_failed(final(self).results()),
            Self::start_tag_handled(
                old(self),
                final(self),
                raw@,
                self_closing,
                feedback.namespace,
                feedback.stays_open,
                old(limiter).usage() as int,
                old(limiter).limit() as int,
                old(out)@,
                final(out)@,
                fault_of(r),
            ),
    {
        assert(out@.subrange(0, out@.len() as int) =~= out@);
        assert(out@ + Seq::<u8>::empty() =~= out@);
        let ghost calls_before = self.dispatcher.calls();
        let ghost mut made: int = 0;
        let ghost mut due: bool = false;
        proof {
            assert(calls_before.is_prefix_of(calls_before));
        }
        let parent_removes = self.removing();
        let mut plan = OpenPlan {
            end_tag: EndTagPlan { name: None, mutations: Mutations::new() },
            removes: parent_removes,
            handlers: Vec::new(),
        };
        if self.dispatcher.locators() > 0 {
            let hint = tag_hint(raw, TokenKind::StartTag { self_closing }).unwrap();
            let name = copied(raw, hint.name.start, hint.name.end);
            let uses_attributes = self.vm.uses_attributes();
            let attributes = if uses_attributes {
                let outlines = outline_attributes(raw, false);
                read_attributes(raw, &outlines)
            } else {
                Vec::new()
            };
            let outcome = match self.vm.exec_for_start_tag(
                name,
                feedback.namespace,
                attributes,
                feedback.stays_open,
                limiter,
            ) {
                Ok(outcome) => outcome,
                Err(e) => {
                    return Err(RewritingError::MemoryLimitExceeded(e));
                },
            };
            let ghost matched = outcome.matched@;
            let ghost seen = outcome.info;
            proof {
                assert(matched == Self::start_tag_matches(old(self), self));
                let d = old(self).levels().len() - 1;
                let k = old(self).levels()[d].len() as int;
                assert(self.levels()[d][k] == seen);
                if !uses_attributes {
                    assert(pairs(seen.attributes@) =~= Seq::empty());
                }
            }
            if self.dispatcher.wants_element(&outcome.matched) {
                let info = outcome.info;
                let attributes = if uses_attributes {
                    info.attributes
                } else {
                    let outlines = outline_attributes(raw, false);
                    read_attributes(raw, &outlines)
                };
                let mut element = Element::from_parts(
                    self.encoding,
                    info.name,
                    attributes,
                    self_closing,
                    feedback.namespace,
                    feedback.stays_open,
                );
                let ghost handed = element;
                let handled = self.dispatcher.handle_element(&outcome.matched, &mut element);
                proof {
                    assert(self.calls().subrange(0, calls_before.len() as int) =~= calls_before);
                    made = matched.len() as int;
                    due = true;
                }
                match handled {
                    Ok(()) => {},
                    Err(e) => {
                        proof {
                            made = choose|n: int|
                                0 <= n <= matched.len() && self.dispatcher.calls() == calls_before
                                    + #[trigger] element_calls(old(self).kinds(), matched, n);
                        }
                        self.token = Ghost(
                            Handled {
                                handed: Handle::Element(handed),
                                left: Handle::Element(element),
                                made,
                                returned: self.dispatcher.answers(),
                                passed: self.dispatcher.seen(),
                            },
                        );
                        return Err(RewritingError::ContentHandlerError(e));
                    },
                }
                self.token = Ghost(
                    Handled {
                        handed: Handle::Element(handed),
                        left: Handle::Element(element),
                        made,
                        returned: self.dispatcher.answers(),
                        passed: self.dispatcher.seen(),
                    },
                );
                if !parent_removes {
                    element.write_start_tag(out, raw);
                    assert(out@.subrange(0, old(out)@.len() as int) =~= old(out)@);
                }
                plan = OpenPlan {
                    end_tag: element.end_tag,
                    removes: parent_removes || element.content_removed,
                    handlers: element.end_tag_handlers,
                };
            } else {
                if !parent_removes {
                    push_all(out, raw);
                    assert(out@.subrange(0, old(out)@.len() as int) =~= old(out)@);
                }
            }
        } else {
            proof {
                limiter.lemma_within_limit();
            }
            if !parent_removes {
                push_all(out, raw);
                assert(out@.subrange(0, old(out)@.len() as int) =~= old(out)@);
            }
        }
        let ghost plan_made = plan;
        if feedback.stays_open {
            let ghost before = self.plans@;
            self.plans.push(plan);
            assert forall|i: int| 0 <= i < self.plans@.len() && self.is_passive() implies (
            #[trigger] self.plans@[i]).is_plain() by {
                if i < before.len() {
                    assert(before[i].is_plain());
                }
            }
        }
        if self.dispatcher.locators() > 0 {
            self.refresh_mode();
        }
        proof {
            if !due {
                assert(Self::opened(old(self), self, feedback.stays_open, plan_made)
                    && Self::inherits(plan_made, old(self).suppressed()));
            }
        }
        Ok(())
    }

    /// Calls the handlers of an end tag, in their order, until one fails. The
    /// calls that are made are the first of them, and all of them unless one
    /// fails. Where there is no handler, the end tag stays as it is. Nothing of
    /// the controller changes but the record of the calls.
    fn call_end_tag_handlers(
        &mut self,
        handlers: &mut Vec<Box<dyn EndTagHandler>>,
        tag: &mut EndTag,
    ) -> (r: Result<(), RewritingError>)
        requires
            old(self).consistent(),
        ensures
            final(self).consistent(),
            final(self).same_setup(old(self)),
            final(self).vm == old(self).vm,
            final(self).plans == old(self).plans,
            final(self).text_open == old(self).text_open,
            final(self).full == old(self).full,
            final(self).encoding == old(self).encoding,
            final(self).text_mode == old(self).text_mode,
            final(self).token == old(self).token,
            final(self).node_end == old(self).node_end,
            final(self).is_passive() == old(self).is_passive(),
            final(handlers)@.len() == old(handlers)@.len(),
            r is Err ==> final(self).calls().len() > old(self).calls().len(),
            final(self).results() == old(self).results() + final(self).dispatcher.answers(),
            final(self).dispatcher.answers().len() == final(self).calls().len() - old(self).calls().len(),
            decided(final(self).dispatcher.answers(), fault_of(r)),
            final(self).dispatcher.seen().len() == final(self).dispatcher.answers().len(),
            passed_on(
                Handle::EndTag(*old(tag)),
                final(self).dispatcher.seen(),
                Handle::EndTag(*final(tag)),
            ),
            carried(final(self).results(), r),
            r is Ok && none_failed(old(self).results()) ==> none_failed(final(self).results()),
            exists|n: int|
                0 <= n <= old(handlers)@.len() && final(self).calls() == old(self).calls()
                    + #[trigger] end_tag_calls(n),
            r is Ok ==> final(self).calls() == old(self).calls() + end_tag_calls(
                old(handlers)@.len() as int,
            ),
            r matches Err(e) ==> e is ContentHandlerError,
            old(handlers)@.len() == 0 ==> r is Ok && *final(tag) == *old(tag),
    {
        match self.dispatcher.handle_end_tag(handlers, tag) {
            Ok(()) => Ok(()),
            Err(e) => Err(RewritingError::ContentHandlerError(e)),
        }
    }

    /// Takes an end tag.
    pub fn on_end_tag(
        &mut self,
        raw: &[u8],
        feedback: TagFeedback,
        limiter: &mut MemoryLimiter,
        out: &mut Vec<u8>,
    ) -> (r: Result<(), RewritingError>)
        requires
            old(self).wf(),
            old(self).charged() <= old(limiter).usage(),
            feedback.closed <= old(self).depth(),
        ensures
            final(limiter).limit() == old(limiter).limit(),
            is_prefix(old(out)@, final(out)@),
            final(self).same_setup(old(self)),
            old(self).calls().is_prefix_of(final(self).calls()),
            old(self).is_passive() ==> final(self).calls() == old(self).calls(),
            r is Ok ==> {
                &&& final(self).wf()
                &&& final(self).depth() == old(self).depth() - feedback.closed
                &&& final(self).is_passive() == old(self).is_passive()
                &&& final(self).charged() <= final(limiter).usage()
                &&& final(limiter).usage() - final(self).charged()
                    == old(limiter).usage() - old(self).charged()
            },
            old(self).is_passive() ==> r is Ok && final(out)@ == old(out)@ + raw@
                && final(self).charged() == old(self).charged(),
            r matches Err(e) ==> e is ContentHandlerError,
            final(self).encoding() == old(self).encoding(),
            carried(final(self).results(), r),
            r is Ok && none_failed(old(self).results()) ==> none_failed(final(self).results()),
            Self::end_tag_handled(
                old(self),
                final(self),
                raw@,
                feedback.closed as int,
                old(out)@,
                final(out)@,
                fault_of(r),
            ),
    {
        assert(out@.subrange(0, out@.len() as int) =~= out@);
        assert(out@ + Seq::<u8>::empty() =~= out@);
        if feedback.closed == 0 {
            proof {
                limiter.lemma_within_limit();
            }
            self.pass(raw, out);
            return Ok(());
        }
        if self.dispatcher.locators() > 0 {
            self.vm.exec_for_end_tag(feedback.closed, limiter);
        } else {
            proof {
                limiter.lemma_within_limit();
            }
        }
        // The elements that the tag closes without naming them end here
        // without an end tag: nothing is written for them.
        let ghost before = self.plans@;
        let ghost vm_now = self.vm;
        assert(before.take(before.len() as int) =~= before);
        let mut k: usize = 1;
        while k < feedback.closed
            invariant
                1 <= k <= feedback.closed,
                feedback.closed < before.len(),
                before == old(self).plans@,
                self.plans@ == before.take(before.len() - (k - 1)),
                self.dispatcher == old(self).dispatcher,
                self.vm == vm_now,
                self.text_open == old(self).text_open,
                self.text_mode == old(self).text_mode,
                self.encoding == old(self).encoding,
                self.full == old(self).full,
            decreases feedback.closed - k,
        {
            let _implied = self.plans.pop();
            k = k + 1;
            assert(self.plans@ =~= before.take(before.len() - (k - 1)));
        }
        let plan = self.plans.pop().unwrap();
        assert(self.plans@ =~= before.take(before.len() - feedback.closed));
        assert(plan == before[before.len() - feedback.closed]);
        assert(self.is_passive() ==> plan.is_plain());
        assert forall|i: int| 0 <= i < self.plans@.len() && self.is_passive() implies (
        #[trigger] self.plans@[i]).is_plain() by {
            assert(before[i].is_plain());
        }
        let renamed = plan.end_tag.name.is_some();
        let name = match plan.end_tag.name {
            Some(name) => name,
            None => {
                let hint = tag_hint(raw, TokenKind::EndTag).unwrap();
                copied(raw, hint.name.start, hint.name.end)
            },
        };
        let mut tag = EndTag {
            encoding: self.encoding,
            name,
            modified: renamed,
            mutations: plan.end_tag.mutations,
        };
        let mut handlers = plan.handlers;
        let ghost waiting = handlers@.len() as int;
        let ghost handed = tag;
        let called = self.call_end_tag_handlers(&mut handlers, &mut tag);
        let ghost mut made: int = waiting;
        proof {
            assert(self.calls().subrange(0, old(self).calls().len() as int) =~= old(self).calls());
        }
        match called {
            Ok(()) => {},
            Err(e) => {
                proof {
                    made = choose|n: int|
                        0 <= n <= waiting && self.calls() == old(self).calls()
                            + #[trigger] end_tag_calls(n);
                }
                self.token = Ghost(
                    Handled {
                        handed: Handle::EndTag(handed),
                        left: Handle::EndTag(tag),
                        made,
                        returned: self.dispatcher.answers(),
                        passed: self.dispatcher.seen(),
                    },
                );
                return Err(e);
            },
        }
        self.token = Ghost(
            Handled {
                handed: Handle::EndTag(handed),
                left: Handle::EndTag(tag),
                made,
                returned: self.dispatcher.answers(),
                passed: self.dispatcher.seen(),
            },
        );
        if !self.removing() {
            tag.write(out, raw);
            assert(self.is_passive() ==> tag.output(raw@) =~= raw@);
            assert(out@.subrange(0, old(out)@.len() as int) =~= old(out)@);
        }
        if self.dispatcher.locators() > 0 {
            self.refresh_mode();
        }
        Ok(())
    }

    /// Takes a token with the bytes `raw`, of which the parser has said what
    /// `feedback` holds, and writes to `out` what is to be written for it.
    ///
    /// Where nothing was registered, the token is written as it was read.
    /// Otherwise the selectors are matched against the elements, the handlers
    /// that the token concerns are called, and the token is written as they
    /// leave it, unless it stands inside content that was removed.
    pub fn handle_token(
        &mut self,
        kind: TokenKind,
        raw: &[u8],
        mode: TextMode,
        feedback: Option<TagFeedback>,
        limiter: &mut MemoryLimiter,
        out: &mut Vec<u8>,
    ) -> (r: Result<(), RewritingError>)
        requires
            old(self).wf(),
            old(self).charged() <= old(limiter).usage(),
            kind is StartTag || kind is EndTag ==> feedback is Some,
            kind is EndTag ==> feedback->0.closed <= old(self).depth(),
        ensures
            final(limiter).limit() == old(limiter).limit(),
            is_prefix(old(out)@, final(out)@),
            final(self).same_setup(old(self)),
            old(self).calls().is_prefix_of(final(self).calls()),
            old(self).is_passive() ==> final(self).calls() == old(self).calls(),
            r is Ok ==> {
                &&& final(self).wf()
                &&& final(self).depth() == depth_after(old(self).depth(), kind, feedback)
                &&& final(self).is_passive() == old(self).is_passive()
                &&& final(self).charged() <= final(limiter).usage()
                &&& final(limiter).usage() - final(self).charged()
                    == old(limiter).usage() - old(self).charged()
            },
            old(self).is_passive() ==> r is Ok && final(out)@ == old(out)@ + raw@
                && final(self).charged() == old(self).charged(),
            r matches Err(e) ==> !(e is ParsingAmbiguity),
            final(self).encoding() == old(self).encoding(),
            carried(final(self).results(), r),
            r is Ok && none_failed(old(self).results()) ==> none_failed(final(self).results()),
            (r matches Err(e) && e is ContentHandlerError) ==> final(self).calls().len() > old(self).calls().len(),
            exists|between: Self, out_between: Seq<u8>| #[trigger]
                Self::token_handled(
                    old(self),
                    &between,
                    final(self),
                    kind,
                    raw@,
                    mode,
                    feedback,
                    old(limiter).usage() as int,
                    old(limiter).limit() as int,
                    old(out)@,
                    out_between,
                    final(out)@,
                    fault_of(r),
                ),
    {
        let ghost start = out@;
        proof {
            reveal(HtmlRewriteController::token_handled);
        }
        if let TokenKind::Text = kind {
            proof {
                limiter.lemma_within_limit();
            }
            let r = self.on_text(raw, mode, out);
            assert(Self::token_handled(
                old(self),
                old(self),
                self,
                kind,
                raw@,
                mode,
                feedback,
                old(limiter).usage() as int,
                old(limiter).limit() as int,
                start,
                start,
                out@,
                fault_of(r),
            ));
            return r;
        }
        match self.flush_text(out) {
            Ok(()) => {},
            Err(e) => {
                let r: Result<(), RewritingError> = Err(e);
                assert(Self::token_handled(
                    old(self),
                    self,
                    self,
                    kind,
                    raw@,
                    mode,
                    feedback,
                    old(limiter).usage() as int,
                    old(limiter).limit() as int,
                    start,
                    out@,
                    out@,
                    fault_of(r),
                ));
                return r;
            },
        }
        let ghost middle = out@;
        let ghost between = *self;
        let r = match kind {
            TokenKind::StartTag { self_closing } => {
                match feedback {
                    Some(f) => self.on_start_tag(raw, self_closing, f, limiter, out),
                    None => Ok(()),
                }
            },
            TokenKind::EndTag => {
                match feedback {
                    Some(f) => self.on_end_tag(raw, f, limiter, out),
                    None => Ok(()),
                }
            },
            TokenKind::Comment => {
                proof {
                    limiter.lemma_within_limit();
                }
                self.on_comment(raw, out)
            },
            TokenKind::Doctype => {
                proof {
                    limiter.lemma_within_limit();
                }
                self.on_doctype(raw, out)
            },
            _ => {
                proof {
                    limiter.lemma_within_limit();
                }
                self.pass(raw, out);
                Ok(())
            },
        };
        assert(out@.subrange(0, start.len() as int) =~= middle.subrange(0, start.len() as int));
        assert(Self::token_handled(
            old(self),
            &between,
            self,
            kind,
            raw@,
            mode,
            feedback,
            old(limiter).usage() as int,
            old(limiter).limit() as int,
            start,
            middle,
            out@,
            fault_of(r),
        ));
        r
    }

    /// Takes the end of the document: the text node that is open ends, and the
    /// elements that are still open are closed. Nothing is written for them.
    pub fn finish(&mut self, limiter: &mut MemoryLimiter, out: &mut Vec<u8>) -> (r: Result<
        (),
        RewritingError,
    >)
        requires
            old(self).wf(),
            old(self).charged() <= old(limiter).usage(),
        ensures
            final(limiter).limit() == old(limiter).limit(),
            is_prefix(old(out)@, final(out)@),
            final(self).same_setup(old(self)),
            old(self).calls().is_prefix_of(final(self).calls()),
            old(self).is_passive() ==> final(self).calls() == old(self).calls(),
            r is Ok ==> {
                &&& final(self).wf()
                &&& final(self).depth() == 0
                &&& final(self).is_passive() == old(self).is_passive()
                &&& final(self).charged() <= final(limiter).usage()
                &&& final(limiter).usage() - final(self).charged() == old(limiter).usage()
                    - old(self).charged()
            },
            r is Err ==> final(limiter).usage() == old(limiter).usage(),
            old(self).is_passive() ==> r is Ok && final(out)@ == old(out)@ && final(self).charged()
                == old(self).charged(),
            r matches Err(e) ==> e is ContentHandlerError,
            final(self).encoding() == old(self).encoding(),
            carried(final(self).results(), r),
            r is Ok && none_failed(old(self).results()) ==> none_failed(final(self).results()),
            Self::document_ended(old(self), final(self), old(out)@, final(out)@, fault_of(r)),
    {
        proof {
            limiter.lemma_within_limit();
        }
        match self.flush_text(out) {
            Ok(()) => {},
            Err(e) => {
                return Err(e);
            },
        }
        if self.dispatcher.locators() > 0 {
            let depth = self.vm.depth();
            self.vm.exec_for_end_tag(depth, limiter);
        }
        let ghost before = self.plans@;
        self.plans.truncate(1);
        assert forall|i: int| 0 <= i < self.plans@.len() && self.is_passive() implies (
        #[trigger] self.plans@[i]).is_plain() by {
            assert(before[i].is_plain());
        }
        if self.dispatcher.locators() > 0 {
            self.refresh_mode();
        }
        Ok(())
    }
}

} // verus!
