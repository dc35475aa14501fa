//! The dispatcher of content handlers: it keeps the handlers by their
//! locators, knows which of them a token concerns, and calls them in the order
//! of registration.

use vstd::prelude::*;
use crate::errors::HandlerError;
use crate::html_content::element::Element;
use crate::html_content::tokens::{Comment, Doctype, EndTag, EndTagHandler, TextChunk};
use crate::rewriter::settings::{DocumentContentHandlers, ElementContentHandlers};
use crate::selectors::matching::ElementInfo;
use crate::selectors::program::Instruction;
use crate::selectors_vm::{inside_due, SelectorMatchingVm};

verus! {

/// Which handlers a selector came with.
#[derive(Clone, Copy, PartialEq, Eq, Structural, Debug)]
pub struct HandlerKinds {
    pub element: bool,
    pub comments: bool,
    pub text: bool,
}

/// Which handlers for the whole document were registered together.
#[derive(Clone, Copy, PartialEq, Eq, Structural, Debug)]
pub struct DocumentKinds {
    pub doctype: bool,
    pub comments: bool,
    pub text: bool,
}

/// Whether a selector that matches has a handler for elements.
pub open spec fn element_due(kinds: Seq<HandlerKinds>, matched: Seq<usize>) -> bool {
    exists|k: int|
        0 <= k < matched.len() && (#[trigger] matched[k]) < kinds.len()
            && kinds[matched[k] as int].element
}

/// Whether a doctype has a handler.
pub open spec fn doctype_due(document: Seq<DocumentKinds>) -> bool {
    exists|i: int| 0 <= i < document.len() && (#[trigger] document[i]).doctype
}

/// Whether the document has a handler for comments.
pub open spec fn document_comments_due(document: Seq<DocumentKinds>) -> bool {
    exists|i: int| 0 <= i < document.len() && (#[trigger] document[i]).comments
}

/// Whether the document has a handler for text.
pub open spec fn document_text_due(document: Seq<DocumentKinds>) -> bool {
    exists|i: int| 0 <= i < document.len() && (#[trigger] document[i]).text
}

/// Whether a comment inside the open elements of the tree has a handler: one
/// of the document, or one of a selector that matches an open element.
pub open spec fn comments_due(
    kinds: Seq<HandlerKinds>,
    document: Seq<DocumentKinds>,
    program: Seq<Instruction>,
    levels: Seq<Seq<ElementInfo>>,
) -> bool {
    document_comments_due(document) || exists|l: int|
        0 <= l < kinds.len() && (#[trigger] kinds[l]).comments
            && inside_due(program, l as usize, levels)
}

/// Whether text inside the open elements of the tree has a handler: one of
/// the document, or one of a selector that matches an open element.
pub open spec fn text_due(
    kinds: Seq<HandlerKinds>,
    document: Seq<DocumentKinds>,
    program: Seq<Instruction>,
    levels: Seq<Seq<ElementInfo>>,
) -> bool {
    document_text_due(document) || exists|l: int|
        0 <= l < kinds.len() && (#[trigger] kinds[l]).text
            && inside_due(program, l as usize, levels)
}

/// A call of a handler: which handler was called.
pub enum Call {
    /// The element handler of the selector with this locator.
    Element(usize),
    /// The comment handler of the selector with this locator.
    ElementComments(usize),
    /// The text handler of the selector with this locator.
    ElementText(usize),
    /// The doctype handler that stands at this place among the handlers of the
    /// document.
    Doctype(usize),
    /// The comment handler at this place among the handlers of the document.
    Comments(usize),
    /// The text handler at this place among the handlers of the document.
    Text(usize),
    /// The end tag handler at this place among the handlers that were
    /// registered for the element whose end tag was read.
    EndTag(usize),
}

/// Comments or text.
#[derive(Clone, Copy, PartialEq, Eq, Structural, Debug)]
pub enum Content {
    Comments,
    Text,
}

/// The calls that are due for an element that the first `n` of the selectors
/// with the locators `matched` match: those of their element handlers, in the
/// order of the locators.
pub open spec fn element_calls(kinds: Seq<HandlerKinds>, matched: Seq<usize>, n: int) -> Seq<Call>
    decreases n,
{
    if n <= 0 || n > matched.len() {
        Seq::empty()
    } else {
        let rest = element_calls(kinds, matched, n - 1);
        let l = matched[n - 1];
        if l < kinds.len() && kinds[l as int].element {
            rest.push(Call::Element(l))
        } else {
            rest
        }
    }
}

/// Whether a selector came with a handler for the content.
pub open spec fn has_kind(kinds: HandlerKinds, content: Content) -> bool {
    match content {
        Content::Comments => kinds.comments,
        Content::Text => kinds.text,
    }
}

/// Whether the handlers of the document that were registered together hold one
/// for the content.
pub open spec fn document_has_kind(kinds: DocumentKinds, content: Content) -> bool {
    match content {
        Content::Comments => kinds.comments,
        Content::Text => kinds.text,
    }
}

/// The calls that are due for a comment or a chunk of text, as far as the
/// first `n` handlers go: first those of the selectors that match an open
/// element, in the order of the locators, then those of the document, in the
/// order of registration.
pub open spec fn content_calls(
    kinds: Seq<HandlerKinds>,
    document: Seq<DocumentKinds>,
    program: Seq<Instruction>,
    levels: Seq<Seq<ElementInfo>>,
    content: Content,
    n: int,
) -> Seq<Call>
    decreases n,
{
    if n <= 0 || n > kinds.len() + document.len() {
        Seq::empty()
    } else {
        let rest = content_calls(kinds, document, program, levels, content, n - 1);
        if n <= kinds.len() {
            if has_kind(kinds[n - 1], content) && inside_due(program, (n - 1) as usize, levels) {
                rest.push(
                    match content {
                        Content::Comments => Call::ElementComments((n - 1) as usize),
                        Content::Text => Call::ElementText((n - 1) as usize),
                    },
                )
            } else {
                rest
            }
        } else {
            let i = n - 1 - kinds.len();
            if document_has_kind(document[i], content) {
                rest.push(
                    match content {
                        Content::Comments => Call::Comments(i as usize),
                        Content::Text => Call::Text(i as usize),
                    },
                )
            } else {
                rest
            }
        }
    }
}

/// The calls of the first `n` handlers that were registered for the end tag of
/// an element, in the order in which they were registered.
pub open spec fn end_tag_calls(n: int) -> Seq<Call> {
    Seq::new(
        if n >= 0 {
            n as nat
        } else {
            0
        },
        |i: int| Call::EndTag(i as usize),
    )
}

/// The calls that are due for a doctype, as far as the first `n` handlers of
/// the document go.
pub open spec fn doctype_calls(document: Seq<DocumentKinds>, n: int) -> Seq<Call>
    decreases n,
{
    if n <= 0 || n > document.len() {
        Seq::empty()
    } else {
        let rest = doctype_calls(document, n - 1);
        if document[n - 1].doctype {
            rest.push(Call::Doctype((n - 1) as usize))
        } else {
            rest
        }
    }
}

/// The calls that are due for an element are no fewer when more selectors are
/// gone through, and there is one where a selector that matches has an
/// element handler.
pub proof fn lemma_element_calls_made(kinds: Seq<HandlerKinds>, matched: Seq<usize>, m: int, n: int)
    requires
        0 <= m <= n <= matched.len(),
    ensures
        element_calls(kinds, matched, m).len() <= element_calls(kinds, matched, n).len(),
        m < n && matched[m] < kinds.len() && kinds[matched[m] as int].element ==> element_calls(
            kinds,
            matched,
            n,
        ).len() > 0,
    decreases n - m,
{
    if m < n {
        lemma_element_calls_made(kinds, matched, m, n - 1);
        if m < n - 1 {
        } else {
            assert(element_calls(kinds, matched, n).len() >= element_calls(
                kinds,
                matched,
                n - 1,
            ).len());
        }
    }
}

/// The calls that are due for a comment or a chunk of text are no fewer when
/// more handlers are gone through.
pub proof fn lemma_content_calls_grow(
    kinds: Seq<HandlerKinds>,
    document: Seq<DocumentKinds>,
    program: Seq<Instruction>,
    levels: Seq<Seq<ElementInfo>>,
    content: Content,
    m: int,
    n: int,
)
    requires
        0 <= m <= n <= kinds.len() + document.len(),
    ensures
        content_calls(kinds, document, program, levels, content, m).len() <= content_calls(
            kinds,
            document,
            program,
            levels,
            content,
            n,
        ).len(),
    decreases n - m,
{
    if m < n {
        lemma_content_calls_grow(kinds, document, program, levels, content, m, n - 1);
    }
}

/// The calls that are due for a doctype are no fewer when more handlers are
/// gone through.
pub proof fn lemma_doctype_calls_grow(document: Seq<DocumentKinds>, m: int, n: int)
    requires
        0 <= m <= n <= document.len(),
    ensures
        doctype_calls(document, m).len() <= doctype_calls(document, n).len(),
    decreases n - m,
{
    if m < n {
        lemma_doctype_calls_grow(document, m, n - 1);
    }
}

/// Where a handler is due for a token, a call is due for it: the calls of
/// all the handlers that could be due are not empty.
pub proof fn lemma_due_calls(
    kinds: Seq<HandlerKinds>,
    document: Seq<DocumentKinds>,
    program: Seq<Instruction>,
    levels: Seq<Seq<ElementInfo>>,
    matched: Seq<usize>,
)
    ensures
        element_due(kinds, matched) ==> element_calls(kinds, matched, matched.len() as int).len()
            > 0,
        comments_due(kinds, document, program, levels) ==> content_calls(
            kinds,
            document,
            program,
            levels,
            Content::Comments,
            (kinds.len() + document.len()) as int,
        ).len() > 0,
        text_due(kinds, document, program, levels) ==> content_calls(
            kinds,
            document,
            program,
            levels,
            Content::Text,
            (kinds.len() + document.len()) as int,
        ).len() > 0,
        doctype_due(document) ==> doctype_calls(document, document.len() as int).len() > 0,
{
    let total = (kinds.len() + document.len()) as int;
    if element_due(kinds, matched) {
        let k = choose|k: int|
            0 <= k < matched.len() && (#[trigger] matched[k]) < kinds.len()
                && kinds[matched[k] as int].element;
        lemma_element_calls_made(kinds, matched, k, matched.len() as int);
    }
    if comments_due(kinds, document, program, levels) {
        if document_comments_due(document) {
            let i = choose|i: int| 0 <= i < document.len() && (#[trigger] document[i]).comments;
            let n = kinds.len() + i + 1;
            assert(content_calls(kinds, document, program, levels, Content::Comments, n).len() > 0);
            lemma_content_calls_grow(kinds, document, program, levels, Content::Comments, n, total);
        } else {
            let l = choose|l: int|
                0 <= l < kinds.len() && (#[trigger] kinds[l]).comments && inside_due(
                    program,
                    l as usize,
                    levels,
                );
            assert(content_calls(kinds, document, program, levels, Content::Comments, l + 1).len()
                > 0);
            lemma_content_calls_grow(
                kinds,
                document,
                program,
                levels,
                Content::Comments,
                l + 1,
                total,
            );
        }
    }
    if text_due(kinds, document, program, levels) {
        if document_text_due(document) {
            let i = choose|i: int| 0 <= i < document.len() && (#[trigger] document[i]).text;
            let n = kinds.len() + i + 1;
            assert(content_calls(kinds, document, program, levels, Content::Text, n).len() > 0);
            lemma_content_calls_grow(kinds, document, program, levels, Content::Text, n, total);
        } else {
            let l = choose|l: int|
                0 <= l < kinds.len() && (#[trigger] kinds[l]).text && inside_due(
                    program,
                    l as usize,
                    levels,
                );
            assert(content_calls(kinds, document, program, levels, Content::Text, l + 1).len() > 0);
            lemma_content_calls_grow(kinds, document, program, levels, Content::Text, l + 1, total);
        }
    }
    if doctype_due(document) {
        let i = choose|i: int| 0 <= i < document.len() && (#[trigger] document[i]).doctype;
        assert(doctype_calls(document, i + 1).len() > 0);
        lemma_doctype_calls_grow(document, i + 1, document.len() as int);
    }
}

/// Which handlers there are among the handlers of a selector.
pub open spec fn kinds_of_handlers<'h>(handlers: ElementContentHandlers<'h>) -> HandlerKinds {
    HandlerKinds {
        element: handlers.element is Some,
        comments: handlers.comments is Some,
        text: handlers.text is Some,
    }
}

/// Which handlers there are among handlers of the document.
pub open spec fn kinds_of_document_handlers<'h>(handlers: DocumentContentHandlers<'h>) -> DocumentKinds {
    DocumentKinds {
        doctype: handlers.doctype is Some,
        comments: handlers.comments is Some,
        text: handlers.text is Some,
    }
}

/// The dispatcher of content handlers.
pub struct ContentHandlersDispatcher<'h> {
    selector_handlers: Vec<ElementContentHandlers<'h>>,
    document_handlers: Vec<DocumentContentHandlers<'h>>,
    kinds: Vec<HandlerKinds>,
    document_kinds: Vec<DocumentKinds>,
    calls: Ghost<Seq<Call>>,
    results: Ghost<Seq<Result<(), HandlerError>>>,
    answers: Ghost<Seq<Result<(), HandlerError>>>,
    seen: Ghost<Seq<(Handle, Handle)>>,
}

/// What a handler is handed, or what it leaves.
pub enum Handle {
    /// No handler was called.
    Nothing,
    /// An element.
    Element(Element),
    /// An end tag.
    EndTag(EndTag),
    /// A comment.
    Comment(Comment),
    /// A chunk of text.
    Text(TextChunk),
    /// A doctype.
    Doctype(Doctype),
}

/// The handlers that are called for a token are called one after the other on
/// the same handle: the first is handed `first`, each one after it what the
/// one before has left, and `last` is what the last one has left. Where none
/// is called, the handle stays as it is.
pub open spec fn passed_on(first: Handle, seen: Seq<(Handle, Handle)>, last: Handle) -> bool {
    &&& seen.len() == 0 ==> last == first
    &&& seen.len() > 0 ==> seen[0].0 == first && seen.last().1 == last
    &&& forall|i: int| 0 <= i < seen.len() - 1 ==> (#[trigger] seen[i]).1 == seen[i + 1].0
}

/// No handler among those whose results these are has failed.
pub open spec fn none_failed(results: Seq<Result<(), HandlerError>>) -> bool {
    forall|i: int| 0 <= i < results.len() ==> (#[trigger] results[i]) is Ok
}

/// Handlers are called until one fails, and the result is that of the last one
/// that was called: no handler whose answer is among `answers` but the last
/// has failed, and `r` is the answer of the last, or `Ok` if none was called.
/// So `r` is the first error that a handler has returned, and `Ok` if none
/// has returned one.
pub open spec fn answered(answers: Seq<Result<(), HandlerError>>, r: Result<(), HandlerError>) -> bool {
    &&& forall|i: int| 0 <= i < answers.len() - 1 ==> (#[trigger] answers[i]) is Ok
    &&& match r {
        Ok(_) => answers.len() > 0 ==> answers.last() is Ok,
        Err(e) => answers.len() > 0 && answers.last() == Err::<(), HandlerError>(e),
    }
}

/// Handlers that were called are still the handlers that they were: where the
/// handlers of one selector have changed and hold the same kinds of handlers,
/// all hold the kinds that they held.
proof fn lemma_same_kinds<'h>(
    before: Seq<ElementContentHandlers<'h>>,
    after: Seq<ElementContentHandlers<'h>>,
    l: int,
)
    requires
        0 <= l < before.len(),
        after.len() == before.len(),
        forall|j: int| 0 <= j < before.len() && j != l ==> after[j] == before[j],
        kinds_of_handlers(after[l]) == kinds_of_handlers(before[l]),
    ensures
        forall|j: int|
            0 <= j < before.len() ==> kinds_of_handlers(#[trigger] after[j]) == kinds_of_handlers(
                before[j],
            ),
{
}

/// The same for handlers of the document.
proof fn lemma_same_document_kinds<'h>(
    before: Seq<DocumentContentHandlers<'h>>,
    after: Seq<DocumentContentHandlers<'h>>,
    i: int,
)
    requires
        0 <= i < before.len(),
        after.len() == before.len(),
        forall|j: int| 0 <= j < before.len() && j != i ==> after[j] == before[j],
        kinds_of_document_handlers(after[i]) == kinds_of_document_handlers(before[i]),
    ensures
        forall|j: int|
            0 <= j < before.len() ==> kinds_of_document_handlers(#[trigger] after[j])
                == kinds_of_document_handlers(before[j]),
{
}

impl<'h> ContentHandlersDispatcher<'h> {
    /// Which handlers each selector came with, by locator.
    pub closed spec fn kinds(&self) -> Seq<HandlerKinds> {
        self.kinds@
    }

    /// Which handlers for the whole document there are, in the order of
    /// registration.
    pub closed spec fn document_kinds(&self) -> Seq<DocumentKinds> {
        self.document_kinds@
    }

    /// All calls of handlers that the dispatcher has made, in their order.
    pub closed spec fn calls(&self) -> Seq<Call> {
        self.calls@
    }

    /// What the handlers that were called have returned, in the order of the
    /// calls: as many results as calls.
    pub closed spec fn results(&self) -> Seq<Result<(), HandlerError>> {
        self.results@
    }

    /// What the handlers have returned that were called for the last token
    /// for which any could be due.
    pub closed spec fn answers(&self) -> Seq<Result<(), HandlerError>> {
        self.answers@
    }

    /// What each of these handlers was handed and what it left.
    pub closed spec fn seen(&self) -> Seq<(Handle, Handle)> {
        self.seen@
    }

    /// The dispatcher is consistent: it knows which handlers it holds.
    pub closed spec fn wf(&self) -> bool {
        &&& self.kinds@.len() == self.selector_handlers@.len()
        &&& self.document_kinds@.len() == self.document_handlers@.len()
        &&& forall|l: int|
            0 <= l < self.kinds@.len() ==> kinds_of_handlers(#[trigger] self.selector_handlers@[l])
                == self.kinds@[l]
        &&& forall|i: int|
            0 <= i < self.document_kinds@.len() ==> kinds_of_document_handlers(
                #[trigger] self.document_handlers@[i],
            ) == self.document_kinds@[i]
    }

    /// Nothing was registered.
    pub open spec fn is_empty(&self) -> bool {
        self.kinds().len() == 0 && self.document_kinds().len() == 0
    }

    /// A dispatcher without handlers.
    pub fn new() -> (r: Self)
        ensures
            r.wf(),
            r.is_empty(),
            r.calls() == Seq::<Call>::empty(),
            r.results() == Seq::<Result<(), HandlerError>>::empty(),
    {
        ContentHandlersDispatcher {
            selector_handlers: Vec::new(),
            document_handlers: Vec::new(),
            kinds: Vec::new(),
            document_kinds: Vec::new(),
            calls: Ghost(Seq::empty()),
            results: Ghost(Seq::empty()),
            answers: Ghost(Seq::empty()),
            seen: Ghost(Seq::empty()),
        }
    }

    /// The number of locators.
    pub fn locators(&self) -> (r: usize)
        ensures
            r == self.kinds().len(),
    {
        self.kinds.len()
    }

    /// Whether nothing was registered.
    pub fn has_no_handlers(&self) -> (r: bool)
        ensures
            r == self.is_empty(),
    {
        self.kinds.len() == 0 && self.document_kinds.len() == 0
    }

    /// Registers the handlers of a selector and gives their locator, which is
    /// the number of selectors registered before.
    pub fn add_selector_associated_handlers(&mut self, handlers: ElementContentHandlers<'h>) -> (r:
        usize)
        requires
            old(self).wf(),
        ensures
            final(self).wf(),
            r == old(self).kinds().len(),
            final(self).kinds() == old(self).kinds().push(
                HandlerKinds {
                    element: handlers.element is Some,
                    comments: handlers.comments is Some,
                    text: handlers.text is Some,
                },
            ),
            final(self).document_kinds() == old(self).document_kinds(),
            final(self).calls() == old(self).calls(),
            final(self).results() == old(self).results(),
    {
        let locator = self.kinds.len();
        self.kinds.push(
            HandlerKinds {
                element: handlers.element.is_some(),
                comments: handlers.comments.is_some(),
                text: handlers.text.is_some(),
            },
        );
        self.selector_handlers.push(handlers);
        locator
    }

    /// Registers handlers for the whole document.
    pub fn add_document_content_handlers(&mut self, handlers: DocumentContentHandlers<'h>)
        requires
            old(self).wf(),
        ensures
            final(self).wf(),
            final(self).calls() == old(self).calls(),
            final(self).results() == old(self).results(),
            final(self).kinds() == old(self).kinds(),
            final(self).document_kinds() == old(self).document_kinds().push(
                DocumentKinds {
                    doctype: handlers.doctype is Some,
                    comments: handlers.comments is Some,
                    text: handlers.text is Some,
                },
            ),
    {
        self.document_kinds.push(
            DocumentKinds {
                doctype: handlers.doctype.is_some(),
                comments: handlers.comments.is_some(),
                text: handlers.text.is_some(),
            },
        );
        self.document_handlers.push(handlers);
    }

    /// Whether an element that the selectors with these locators match has a
    /// handler.
    pub fn wants_element(&self, matched: &Vec<usize>) -> (r: bool)
        ensures
            r == element_due(self.kinds(), matched@),
    {
        let mut k: usize = 0;
        while k < matched.len()
            invariant
                k <= matched@.len(),
                forall|j: int|
                    0 <= j < k ==> !((#[trigger] matched@[j]) < self.kinds@.len()
                        && self.kinds@[matched@[j] as int].element),
            decreases matched@.len() - k,
        {
            let l = matched[k];
            if l < self.kinds.len() && self.kinds[l].element {
                return true;
            }
            k = k + 1;
        }
        false
    }

    /// Whether a doctype has a handler.
    pub fn wants_doctype(&self) -> (r: bool)
        ensures
            r == doctype_due(self.document_kinds()),
    {
        let mut i: usize = 0;
        while i < self.document_kinds.len()
            invariant
                i <= self.document_kinds@.len(),
                forall|j: int| 0 <= j < i ==> !(#[trigger] self.document_kinds@[j]).doctype,
            decreases self.document_kinds@.len() - i,
        {
            if self.document_kinds[i].doctype {
                return true;
            }
            i = i + 1;
        }
        false
    }

    /// Whether a comment at the place where the machine stands has a handler.
    pub fn wants_comments(&self, vm: &SelectorMatchingVm) -> (r: bool)
        requires
            vm.wf(),
            vm.locators() == self.kinds().len(),
        ensures
            r == comments_due(self.kinds(), self.document_kinds(), vm.program(), vm.levels()),
    {
        let mut i: usize = 0;
        while i < self.document_kinds.len()
            invariant
                i <= self.document_kinds@.len(),
                forall|j: int| 0 <= j < i ==> !(#[trigger] self.document_kinds@[j]).comments,
            decreases self.document_kinds@.len() - i,
        {
            if self.document_kinds[i].comments {
                return true;
            }
            i = i + 1;
        }
        let mut l: usize = 0;
        while l < self.kinds.len()
            invariant
                vm.wf(),
                vm.locators() == self.kinds@.len(),
                l <= self.kinds@.len(),
                !document_comments_due(self.document_kinds@),
                forall|j: int|
                    0 <= j < l ==> !((#[trigger] self.kinds@[j]).comments && inside_due(
                        vm.program(),
                        j as usize,
                        vm.levels(),
                    )),
            decreases self.kinds@.len() - l,
        {
            if self.kinds[l].comments && vm.is_inside(l) {
                return true;
            }
            l = l + 1;
        }
        false
    }

    /// Whether text at the place where the machine stands has a handler.
    pub fn wants_text(&self, vm: &SelectorMatchingVm) -> (r: bool)
        requires
            vm.wf(),
            vm.locators() == self.kinds().len(),
        ensures
            r == text_due(self.kinds(), self.document_kinds(), vm.program(), vm.levels()),
    {
        let mut i: usize = 0;
        while i < self.document_kinds.len()
            invariant
                i <= self.document_kinds@.len(),
                forall|j: int| 0 <= j < i ==> !(#[trigger] self.document_kinds@[j]).text,
            decreases self.document_kinds@.len() - i,
        {
            if self.document_kinds[i].text {
                return true;
            }
            i = i + 1;
        }
        let mut l: usize = 0;
        while l < self.kinds.len()
            invariant
                vm.wf(),
                vm.locators() == self.kinds@.len(),
                l <= self.kinds@.len(),
                !document_text_due(self.document_kinds@),
                forall|j: int|
                    0 <= j < l ==> !((#[trigger] self.kinds@[j]).text && inside_due(
                        vm.program(),
                        j as usize,
                        vm.levels(),
                    )),
            decreases self.kinds@.len() - l,
        {
            if self.kinds[l].text && vm.is_inside(l) {
                return true;
            }
            l = l + 1;
        }
        false
    }

    /// Calls the element handlers of the selectors that match, in the order of
    /// the locators, until one fails. The calls that are made are the first of
    /// those that are due, and all of them unless one fails. Each
    /// handler is handed what the one before it has left. The result is the
    /// first error that a handler has returned, and `Ok` if none has.
    pub fn handle_element(&mut self, matched: &Vec<usize>, element: &mut Element) -> (r: Result<
        (),
        HandlerError,
    >)
        requires
            old(self).wf(),
        ensures
            final(self).wf(),
            final(self).kinds() == old(self).kinds(),
            final(self).document_kinds() == old(self).document_kinds(),
            r is Err ==> final(self).calls().len() > old(self).calls().len(),
            final(self).results() == old(self).results() + final(self).answers(),
            final(self).answers().len() == final(self).calls().len() - old(self).calls().len(),
            answered(final(self).answers(), r),
            r is Ok && none_failed(old(self).results()) ==> none_failed(final(self).results()),
            final(self).seen().len() == final(self).answers().len(),
            passed_on(Handle::Element(*old(element)), final(self).seen(), Handle::Element(*final(element))),
            exists|n: int|
                0 <= n <= matched@.len() && final(self).calls() == old(self).calls()
                    + #[trigger] element_calls(old(self).kinds(), matched@, n),
            r is Ok ==> final(self).calls() == old(self).calls() + element_calls(
                old(self).kinds(),
                matched@,
                matched@.len() as int,
            ),
    {
        proof {
            self.answers@ = Seq::empty();
            self.seen@ = Seq::empty();
            assert(self.results@ + self.answers@ =~= self.results@);
        }
        let mut k: usize = 0;
        assert(self.calls@ + element_calls(self.kinds@, matched@, 0) =~= self.calls@);
        while k < matched.len()
            invariant
                self.wf(),
                self.results@ == old(self).results@ + self.answers@,
                self.seen@.len() == self.answers@.len(),
                passed_on(Handle::Element(*old(element)), self.seen@, Handle::Element(*element)),
                self.answers@.len() == self.calls@.len() - old(self).calls@.len(),
                forall|a: int| 0 <= a < self.answers@.len() ==> (#[trigger] self.answers@[a]) is Ok,
                k <= matched@.len(),
                self.kinds@ == old(self).kinds@,
                self.document_kinds@ == old(self).document_kinds@,
                self.calls@ == old(self).calls@ + element_calls(self.kinds@, matched@, k as int),
            decreases matched@.len() - k,
        {
            let l = matched[k];
            let ghost before = self.calls@;
            let ghost held = self.selector_handlers@;
            if l < self.selector_handlers.len() {
                assert(kinds_of_handlers(held[l as int]) == self.kinds@[l as int]);
                let handlers = &mut self.selector_handlers[l];
                match &mut handlers.element {
                    Some(handler) => {
                        proof {
                            self.calls@ = self.calls@.push(Call::Element(l));
                        }
                        let ghost given = Handle::Element(*element);
                        let answer = handler.handle(element);
                        proof {
                            self.seen@ = self.seen@.push((given, Handle::Element(*element)));
                            self.answers@ = self.answers@.push(answer);
                            self.results@ = self.results@.push(answer);
                            assert(self.results@ =~= old(self).results@ + self.answers@);
                        }
                        match answer {
                            Ok(()) => {},
                            Err(e) => {
                                proof {
                                    assert(self.calls@ =~= old(self).calls@ + element_calls(
                                        self.kinds@,
                                        matched@,
                                        k + 1,
                                    ));
                                    lemma_same_kinds(held, self.selector_handlers@, l as int);
                                    assert(0 <= k + 1 <= matched@.len() && self.calls() == old(self).calls() + element_calls(
                                        old(self).kinds(),
                                        matched@,
                                        (k + 1) as int,
                                    ));
                                }
                                return Err(e);
                            },
                        }
                    },
                    None => {},
                }
                proof {
                    lemma_same_kinds(held, self.selector_handlers@, l as int);
                }
            }
            k = k + 1;
            assert(self.calls@ =~= old(self).calls@
                + element_calls(self.kinds@, matched@, k as int));
        }
        assert(0 <= matched@.len() <= matched@.len() && self.calls() == old(self).calls()
            + element_calls(old(self).kinds(), matched@, matched@.len() as int));
        Ok(())
    }

    /// Calls the comment handlers that the comment concerns: those of the
    /// selectors that match an open element, in the order of the locators, then
    /// those of the document, until one fails. The calls that are made are the
    /// first of those that are due, and all of them unless one fails. Each
    /// handler is handed what the one before it has left. The result is the
    /// first error that a handler has returned, and `Ok` if none has.
    pub fn handle_comment(&mut self, vm: &SelectorMatchingVm, comment: &mut Comment) -> (r: Result<
        (),
        HandlerError,
    >)
        requires
            old(self).wf(),
            vm.wf(),
            vm.locators() == old(self).kinds().len(),
        ensures
            final(self).wf(),
            final(self).kinds() == old(self).kinds(),
            final(self).document_kinds() == old(self).document_kinds(),
            r is Err ==> final(self).calls().len() > old(self).calls().len(),
            final(self).results() == old(self).results() + final(self).answers(),
            final(self).answers().len() == final(self).calls().len() - old(self).calls().len(),
            answered(final(self).answers(), r),
            r is Ok && none_failed(old(self).results()) ==> none_failed(final(self).results()),
            final(self).seen().len() == final(self).answers().len(),
            passed_on(Handle::Comment(*old(comment)), final(self).seen(), Handle::Comment(*final(comment))),
            exists|n: int|
                0 <= n <= old(self).kinds().len() + old(self).document_kinds().len()
                    && final(self).calls() == old(self).calls() + #[trigger] content_calls(
                    old(self).kinds(),
                    old(self).document_kinds(),
                    vm.program(),
                    vm.levels(),
                    Content::Comments,
                    n,
                ),
            r is Ok ==> final(self).calls() == old(self).calls() + content_calls(
                old(self).kinds(),
                old(self).document_kinds(),
                vm.program(),
                vm.levels(),
                Content::Comments,
                (old(self).kinds().len() + old(self).document_kinds().len()) as int,
            ),
    {
        proof {
            self.answers@ = Seq::empty();
            self.seen@ = Seq::empty();
            assert(self.results@ + self.answers@ =~= self.results@);
        }
        let ghost program = vm.program();
        let ghost levels = vm.levels();
        let count: usize = self.selector_handlers.len();
        let mut l: usize = 0;
        assert(self.calls@ + content_calls(
            self.kinds@,
            self.document_kinds@,
            program,
            levels,
            Content::Comments,
            0,
        ) =~= self.calls@);
        while l < count
            invariant
                self.wf(),
                self.results@ == old(self).results@ + self.answers@,
                self.seen@.len() == self.answers@.len(),
                passed_on(Handle::Comment(*old(comment)), self.seen@, Handle::Comment(*comment)),
                self.answers@.len() == self.calls@.len() - old(self).calls@.len(),
                forall|a: int| 0 <= a < self.answers@.len() ==> (#[trigger] self.answers@[a]) is Ok,
                vm.wf(),
                vm.locators() == self.kinds@.len(),
                program == vm.program(),
                levels == vm.levels(),
                count == self.kinds@.len(),
                l <= count,
                self.kinds@ == old(self).kinds@,
                self.document_kinds@ == old(self).document_kinds@,
                self.calls@ == old(self).calls@ + content_calls(
                    self.kinds@,
                    self.document_kinds@,
                    program,
                    levels,
                    Content::Comments,
                    l as int,
                ),
            decreases count - l,
        {
            let ghost held = self.selector_handlers@;
            assert(kinds_of_handlers(held[l as int]) == self.kinds@[l as int]);
            if vm.is_inside(l) {
                let handlers = &mut self.selector_handlers[l];
                match &mut handlers.comments {
                    Some(handler) => {
                        proof {
                            self.calls@ = self.calls@.push(Call::ElementComments(l));
                        }
                        let ghost given = Handle::Comment(*comment);
                        let answer = handler.handle(comment);
                        proof {
                            self.seen@ = self.seen@.push((given, Handle::Comment(*comment)));
                            self.answers@ = self.answers@.push(answer);
                            self.results@ = self.results@.push(answer);
                            assert(self.results@ =~= old(self).results@ + self.answers@);
                        }
                        match answer {
                            Ok(()) => {},
                            Err(e) => {
                                proof {
                                    assert(self.calls@ =~= old(self).calls@ + content_calls(
                                        self.kinds@,
                                        self.document_kinds@,
                                        program,
                                        levels,
                                        Content::Comments,
                                        l + 1,
                                    ));
                                    lemma_same_kinds(held, self.selector_handlers@, l as int);
                                    assert(0 <= l + 1 <= old(self).kinds().len()
                                        + old(self).document_kinds().len()
                                        && self.calls() == old(self).calls() + content_calls(
                                        old(self).kinds(),
                                        old(self).document_kinds(),
                                        vm.program(),
                                        vm.levels(),
                                        Content::Comments,
                                        (l + 1) as int,
                                    ));
                                }
                                return Err(e);
                            },
                        }
                    },
                    None => {},
                }
                proof {
                    lemma_same_kinds(held, self.selector_handlers@, l as int);
                }
            }
            l = l + 1;
            assert(self.calls@ =~= old(self).calls@ + content_calls(
                self.kinds@,
                self.document_kinds@,
                program,
                levels,
                Content::Comments,
                l as int,
            ));
        }
        let documents: usize = self.document_handlers.len();
        let mut i: usize = 0;
        while i < documents
            invariant
                self.wf(),
                self.results@ == old(self).results@ + self.answers@,
                self.seen@.len() == self.answers@.len(),
                passed_on(Handle::Comment(*old(comment)), self.seen@, Handle::Comment(*comment)),
                self.answers@.len() == self.calls@.len() - old(self).calls@.len(),
                forall|a: int| 0 <= a < self.answers@.len() ==> (#[trigger] self.answers@[a]) is Ok,
                program == vm.program(),
                levels == vm.levels(),
                count == self.kinds@.len(),
                documents == self.document_kinds@.len(),
                i <= documents,
                self.kinds@ == old(self).kinds@,
                self.document_kinds@ == old(self).document_kinds@,
                self.calls@ == old(self).calls@ + content_calls(
                    self.kinds@,
                    self.document_kinds@,
                    program,
                    levels,
                    Content::Comments,
                    count + i,
                ),
            decreases documents - i,
        {
            let ghost held = self.document_handlers@;
            assert(kinds_of_document_handlers(held[i as int]) == self.document_kinds@[i as int]);
            let handlers = &mut self.document_handlers[i];
            match &mut handlers.comments {
                Some(handler) => {
                    proof {
                        self.calls@ = self.calls@.push(Call::Comments(i));
                    }
                    let ghost given = Handle::Comment(*comment);
                    let answer = handler.handle(comment);
                    proof {
                        self.seen@ = self.seen@.push((given, Handle::Comment(*comment)));
                        self.answers@ = self.answers@.push(answer);
                        self.results@ = self.results@.push(answer);
                        assert(self.results@ =~= old(self).results@ + self.answers@);
                    }
                    match answer {
                        Ok(()) => {},
                        Err(e) => {
                            proof {
                                assert(self.calls@ =~= old(self).calls@ + content_calls(
                                    self.kinds@,
                                    self.document_kinds@,
                                    program,
                                    levels,
                                    Content::Comments,
                                    count + i + 1,
                                ));
                                lemma_same_document_kinds(held, self.document_handlers@, i as int);
                                    assert(0 <= count + i + 1 <= old(self).kinds().len()
                                        + old(self).document_kinds().len()
                                        && self.calls() == old(self).calls() + content_calls(
                                        old(self).kinds(),
                                        old(self).document_kinds(),
                                        vm.program(),
                                        vm.levels(),
                                        Content::Comments,
                                        (count + i + 1) as int,
                                    ));
                            }
                            return Err(e);
                        },
                    }
                },
                None => {},
            }
            proof {
                lemma_same_document_kinds(held, self.document_handlers@, i as int);
            }
            i = i + 1;
            assert(self.calls@ =~= old(self).calls@ + content_calls(
                self.kinds@,
                self.document_kinds@,
                program,
                levels,
                Content::Comments,
                count + i,
            ));
        }
        assert(0 <= count + documents <= old(self).kinds().len() + old(self).document_kinds().len()
            && self.calls() == old(self).calls() + content_calls(
            old(self).kinds(),
            old(self).document_kinds(),
            vm.program(),
            vm.levels(),
            Content::Comments,
            (count + documents) as int,
        ));
        Ok(())
    }

    /// Calls the text handlers that the chunk concerns: those of the
    /// selectors that match an open element, in the order of the locators, then
    /// those of the document, until one fails. The calls that are made are the
    /// first of those that are due, and all of them unless one fails. Each
    /// handler is handed what the one before it has left. The result is the
    /// first error that a handler has returned, and `Ok` if none has.
    pub fn handle_text(&mut self, vm: &SelectorMatchingVm, chunk: &mut TextChunk) -> (r: Result<
        (),
        HandlerError,
    >)
        requires
            old(self).wf(),
            vm.wf(),
            vm.locators() == old(self).kinds().len(),
        ensures
            final(self).wf(),
            final(self).kinds() == old(self).kinds(),
            final(self).document_kinds() == old(self).document_kinds(),
            r is Err ==> final(self).calls().len() > old(self).calls().len(),
            final(self).results() == old(self).results() + final(self).answers(),
            final(self).answers().len() == final(self).calls().len() - old(self).calls().len(),
            answered(final(self).answers(), r),
            r is Ok && none_failed(old(self).results()) ==> none_failed(final(self).results()),
            final(self).seen().len() == final(self).answers().len(),
            passed_on(Handle::Text(*old(chunk)), final(self).seen(), Handle::Text(*final(chunk))),
            exists|n: int|
                0 <= n <= old(self).kinds().len() + old(self).document_kinds().len()
                    && final(self).calls() == old(self).calls() + #[trigger] content_calls(
                    old(self).kinds(),
                    old(self).document_kinds(),
                    vm.program(),
                    vm.levels(),
                    Content::Text,
                    n,
                ),
            r is Ok ==> final(self).calls() == old(self).calls() + content_calls(
                old(self).kinds(),
                old(self).document_kinds(),
                vm.program(),
                vm.levels(),
                Content::Text,
                (old(self).kinds().len() + old(self).document_kinds().len()) as int,
            ),
    {
        proof {
            self.answers@ = Seq::empty();
            self.seen@ = Seq::empty();
            assert(self.results@ + self.answers@ =~= self.results@);
        }
        let ghost program = vm.program();
        let ghost levels = vm.levels();
        let count: usize = self.selector_handlers.len();
        let mut l: usize = 0;
        assert(self.calls@ + content_calls(
            self.kinds@,
            self.document_kinds@,
            program,
            levels,
            Content::Text,
            0,
        ) =~= self.calls@);
        while l < count
            invariant
                self.wf(),
                self.results@ == old(self).results@ + self.answers@,
                self.seen@.len() == self.answers@.len(),
                passed_on(Handle::Text(*old(chunk)), self.seen@, Handle::Text(*chunk)),
                self.answers@.len() == self.calls@.len() - old(self).calls@.len(),
                forall|a: int| 0 <= a < self.answers@.len() ==> (#[trigger] self.answers@[a]) is Ok,
                vm.wf(),
                vm.locators() == self.kinds@.len(),
                program == vm.program(),
                levels == vm.levels(),
                count == self.kinds@.len(),
                l <= count,
                self.kinds@ == old(self).kinds@,
                self.document_kinds@ == old(self).document_kinds@,
                self.calls@ == old(self).calls@ + content_calls(
                    self.kinds@,
                    self.document_kinds@,
                    program,
                    levels,
                    Content::Text,
                    l as int,
                ),
            decreases count - l,
        {
            let ghost held = self.selector_handlers@;
            assert(kinds_of_handlers(held[l as int]) == self.kinds@[l as int]);
            if vm.is_inside(l) {
                let handlers = &mut self.selector_handlers[l];
                match &mut handlers.text {
                    Some(handler) => {
                        proof {
                            self.calls@ = self.calls@.push(Call::ElementText(l));
                        }
                        let ghost given = Handle::Text(*chunk);
                        let answer = handler.handle(chunk);
                        proof {
                            self.seen@ = self.seen@.push((given, Handle::Text(*chunk)));
                            self.answers@ = self.answers@.push(answer);
                            self.results@ = self.results@.push(answer);
                            assert(self.results@ =~= old(self).results@ + self.answers@);
                        }
                        match answer {
                            Ok(()) => {},
                            Err(e) => {
                                proof {
                                    assert(self.calls@ =~= old(self).calls@ + content_calls(
                                        self.kinds@,
                                        self.document_kinds@,
                                        program,
                                        levels,
                                        Content::Text,
                                        l + 1,
                                    ));
                                    lemma_same_kinds(held, self.selector_handlers@, l as int);
                                    assert(0 <= l + 1 <= old(self).kinds().len()
                                        + old(self).document_kinds().len()
                                        && self.calls() == old(self).calls() + content_calls(
                                        old(self).kinds(),
                                        old(self).document_kinds(),
                                        vm.program(),
                                        vm.levels(),
                                        Content::Text,
                                        (l + 1) as int,
                                    ));
                                }
                                return Err(e);
                            },
                        }
                    },
                    None => {},
                }
                proof {
                    lemma_same_kinds(held, self.selector_handlers@, l as int);
                }
            }
            l = l + 1;
            assert(self.calls@ =~= old(self).calls@ + content_calls(
                self.kinds@,
                self.document_kinds@,
                program,
                levels,
                Content::Text,
                l as int,
            ));
        }
        let documents: usize = self.document_handlers.len();
        let mut i: usize = 0;
        while i < documents
            invariant
                self.wf(),
                self.results@ == old(self).results@ + self.answers@,
                self.seen@.len() == self.answers@.len(),
                passed_on(Handle::Text(*old(chunk)), self.seen@, Handle::Text(*chunk)),
                self.answers@.len() == self.calls@.len() - old(self).calls@.len(),
                forall|a: int| 0 <= a < self.answers@.len() ==> (#[trigger] self.answers@[a]) is Ok,
                program == vm.program(),
                levels == vm.levels(),
                count == self.kinds@.len(),
                documents == self.document_kinds@.len(),
                i <= documents,
                self.kinds@ == old(self).kinds@,
                self.document_kinds@ == old(self).document_kinds@,
                self.calls@ == old(self).calls@ + content_calls(
                    self.kinds@,
                    self.document_kinds@,
                    program,
                    levels,
                    Content::Text,
                    count + i,
                ),
            decreases documents - i,
        {
            let ghost held = self.document_handlers@;
            assert(kinds_of_document_handlers(held[i as int]) == self.document_kinds@[i as int]);
            let handlers = &mut self.document_handlers[i];
            match &mut handlers.text {
                Some(handler) => {
                    proof {
                        self.calls@ = self.calls@.push(Call::Text(i));
                    }
                    let ghost given = Handle::Text(*chunk);
                    let answer = handler.handle(chunk);
                    proof {
                        self.seen@ = self.seen@.push((given, Handle::Text(*chunk)));
                        self.answers@ = self.answers@.push(answer);
                        self.results@ = self.results@.push(answer);
                        assert(self.results@ =~= old(self).results@ + self.answers@);
                    }
                    match answer {
                        Ok(()) => {},
                        Err(e) => {
                            proof {
                                assert(self.calls@ =~= old(self).calls@ + content_calls(
                                    self.kinds@,
                                    self.document_kinds@,
                                    program,
                                    levels,
                                    Content::Text,
                                    count + i + 1,
                                ));
                                lemma_same_document_kinds(held, self.document_handlers@, i as int);
                                    assert(0 <= count + i + 1 <= old(self).kinds().len()
                                        + old(self).document_kinds().len()
                                        && self.calls() == old(self).calls() + content_calls(
                                        old(self).kinds(),
                                        old(self).document_kinds(),
                                        vm.program(),
                                        vm.levels(),
                                        Content::Text,
                                        (count + i + 1) as int,
                                    ));
                            }
                            return Err(e);
                        },
                    }
                },
                None => {},
            }
            proof {
                lemma_same_document_kinds(held, self.document_handlers@, i as int);
            }
            i = i + 1;
            assert(self.calls@ =~= old(self).calls@ + content_calls(
                self.kinds@,
                self.document_kinds@,
                program,
                levels,
                Content::Text,
                count + i,
            ));
        }
        assert(0 <= count + documents <= old(self).kinds().len() + old(self).document_kinds().len()
            && self.calls() == old(self).calls() + content_calls(
            old(self).kinds(),
            old(self).document_kinds(),
            vm.program(),
            vm.levels(),
            Content::Text,
            (count + documents) as int,
        ));
        Ok(())
    }

    /// Calls the handlers that were registered for the end tag of an element, in
    /// the order in which they were registered, until one fails. The calls that
    /// are made are the first of them, and all of them unless one fails. Each
    /// handler is handed what the one before it has left; where there is no
    /// handler, the end tag stays as it is. The result is the first error that
    /// a handler has returned, and `Ok` if none has.
    pub fn handle_end_tag(
        &mut self,
        handlers: &mut Vec<Box<dyn EndTagHandler>>,
        end_tag: &mut EndTag,
    ) -> (r: Result<(), HandlerError>)
        requires
            old(self).wf(),
        ensures
            final(self).wf(),
            final(self).kinds() == old(self).kinds(),
            final(self).document_kinds() == old(self).document_kinds(),
            r is Err ==> final(self).calls().len() > old(self).calls().len(),
            final(self).results() == old(self).results() + final(self).answers(),
            final(self).answers().len() == final(self).calls().len() - old(self).calls().len(),
            answered(final(self).answers(), r),
            r is Ok && none_failed(old(self).results()) ==> none_failed(final(self).results()),
            final(self).seen().len() == final(self).answers().len(),
            passed_on(Handle::EndTag(*old(end_tag)), final(self).seen(), Handle::EndTag(*final(end_tag))),
            final(handlers)@.len() == old(handlers)@.len(),
            exists|n: int|
                0 <= n <= old(handlers)@.len() && final(self).calls() == old(self).calls()
                    + #[trigger] end_tag_calls(n),
            r is Ok ==> final(self).calls() == old(self).calls() + end_tag_calls(
                old(handlers)@.len() as int,
            ),
            old(handlers)@.len() == 0 ==> r is Ok && *final(end_tag) == *old(end_tag),
    {
        proof {
            self.answers@ = Seq::empty();
            self.seen@ = Seq::empty();
            assert(self.results@ + self.answers@ =~= self.results@);
        }
        let count: usize = handlers.len();
        let mut i: usize = 0;
        assert(self.calls@ + end_tag_calls(0) =~= self.calls@);
        while i < count
            invariant
                self.wf(),
                self.results@ == old(self).results@ + self.answers@,
                self.seen@.len() == self.answers@.len(),
                passed_on(Handle::EndTag(*old(end_tag)), self.seen@, Handle::EndTag(*end_tag)),
                self.answers@.len() == self.calls@.len() - old(self).calls@.len(),
                forall|a: int| 0 <= a < self.answers@.len() ==> (#[trigger] self.answers@[a]) is Ok,
                count == handlers@.len(),
                count == old(handlers)@.len(),
                i <= count,
                self.kinds@ == old(self).kinds@,
                self.document_kinds@ == old(self).document_kinds@,
                self.calls@ == old(self).calls@ + end_tag_calls(i as int),
                count == 0 ==> *end_tag == *old(end_tag),
            decreases count - i,
        {
            let handler = &mut handlers[i];
            proof {
                self.calls@ = self.calls@.push(Call::EndTag(i));
                assert(self.calls@ =~= old(self).calls@ + end_tag_calls(i + 1));
            }
            let ghost given = Handle::EndTag(*end_tag);
            let answer = handler.handle(end_tag);
            proof {
                self.seen@ = self.seen@.push((given, Handle::EndTag(*end_tag)));
                self.answers@ = self.answers@.push(answer);
                self.results@ = self.results@.push(answer);
                assert(self.results@ =~= old(self).results@ + self.answers@);
            }
            match answer {
                Ok(()) => {},
                Err(e) => {
                    assert(0 <= i + 1 <= old(handlers)@.len() && self.calls() == old(self).calls()
                        + end_tag_calls((i + 1) as int));
                    return Err(e);
                },
            }
            i = i + 1;
        }
        assert(0 <= count <= old(handlers)@.len() && self.calls() == old(self).calls()
            + end_tag_calls(count as int));
        Ok(())
    }

    /// Calls the doctype handlers of the document, in the order of
    /// registration, until one fails. The calls that are made are the first of
    /// those that are due, and all of them unless one fails. Each
    /// handler is handed what the one before it has left. The result is the
    /// first error that a handler has returned, and `Ok` if none has.
    pub fn handle_doctype(&mut self, doctype: &mut Doctype) -> (r: Result<(), HandlerError>)
        requires
            old(self).wf(),
        ensures
            final(self).wf(),
            final(self).kinds() == old(self).kinds(),
            final(self).document_kinds() == old(self).document_kinds(),
            r is Err ==> final(self).calls().len() > old(self).calls().len(),
            final(self).results() == old(self).results() + final(self).answers(),
            final(self).answers().len() == final(self).calls().len() - old(self).calls().len(),
            answered(final(self).answers(), r),
            r is Ok && none_failed(old(self).results()) ==> none_failed(final(self).results()),
            final(self).seen().len() == final(self).answers().len(),
            passed_on(Handle::Doctype(*old(doctype)), final(self).seen(), Handle::Doctype(*final(doctype))),
            exists|n: int|
                0 <= n <= old(self).document_kinds().len() && final(self).calls()
                    == old(self).calls() + #[trigger] doctype_calls(old(self).document_kinds(), n),
            r is Ok ==> final(self).calls() == old(self).calls() + doctype_calls(
                old(self).document_kinds(),
                old(self).document_kinds().len() as int,
            ),
    {
        proof {
            self.answers@ = Seq::empty();
            self.seen@ = Seq::empty();
            assert(self.results@ + self.answers@ =~= self.results@);
        }
        let documents: usize = self.document_handlers.len();
        let mut i: usize = 0;
        assert(self.calls@ + doctype_calls(self.document_kinds@, 0) =~= self.calls@);
        while i < documents
            invariant
                self.wf(),
                self.results@ == old(self).results@ + self.answers@,
                self.seen@.len() == self.answers@.len(),
                passed_on(Handle::Doctype(*old(doctype)), self.seen@, Handle::Doctype(*doctype)),
                self.answers@.len() == self.calls@.len() - old(self).calls@.len(),
                forall|a: int| 0 <= a < self.answers@.len() ==> (#[trigger] self.answers@[a]) is Ok,
                documents == self.document_kinds@.len(),
                i <= documents,
                self.kinds@ == old(self).kinds@,
                self.document_kinds@ == old(self).document_kinds@,
                self.calls@ == old(self).calls@ + doctype_calls(self.document_kinds@, i as int),
            decreases documents - i,
        {
            let ghost held = self.document_handlers@;
            assert(kinds_of_document_handlers(held[i as int]) == self.document_kinds@[i as int]);
            let handlers = &mut self.document_handlers[i];
            match &mut handlers.doctype {
                Some(handler) => {
                    proof {
                        self.calls@ = self.calls@.push(Call::Doctype(i));
                    }
                    let ghost given = Handle::Doctype(*doctype);
                    let answer = handler.handle(doctype);
                    proof {
                        self.seen@ = self.seen@.push((given, Handle::Doctype(*doctype)));
                        self.answers@ = self.answers@.push(answer);
                        self.results@ = self.results@.push(answer);
                        assert(self.results@ =~= old(self).results@ + self.answers@);
                    }
                    match answer {
                        Ok(()) => {},
                        Err(e) => {
                            proof {
                                assert(self.calls@ =~= old(self).calls@ + doctype_calls(
                                    self.document_kinds@,
                                    i + 1,
                                ));
                                assert(0 <= i + 1 <= old(self).document_kinds().len()
                                    && self.calls() == old(self).calls() + doctype_calls(
                                    old(self).document_kinds(),
                                    (i + 1) as int,
                                ));
                                lemma_same_document_kinds(held, self.document_handlers@, i as int);
                            }
                            return Err(e);
                        },
                    }
                },
                None => {},
            }
            proof {
                lemma_same_document_kinds(held, self.document_handlers@, i as int);
            }
            i = i + 1;
            assert(self.calls@ =~= old(self).calls@
                + doctype_calls(self.document_kinds@, i as int));
        }
        assert(0 <= documents <= old(self).document_kinds().len() && self.calls()
            == old(self).calls() + doctype_calls(old(self).document_kinds(), documents as int));
        Ok(())
    }
}

} // verus!
