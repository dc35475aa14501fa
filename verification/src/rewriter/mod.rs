//! The rewriter: settings, the dispatcher of content handlers, the controller
//! that decides what each token needs, and the rewriter itself.

use vstd::prelude::*;
use vstd::string::StringSliceAdditionalSpecFns;
use vstd::utf8::{decode_utf8, valid_utf8};
use crate::encoding::{encoding_choice, encoding_for_label, try_encoding_from_str};
use crate::errors::{fault_of, EncodingError, ErrorKind, HandlerError, RewritingError};
use crate::memory::MemoryLimiter;
use crate::parser::state::{ended, initial_model, walk, ParserModel};
use crate::parser::tree_builder::charged_for;
use crate::rewriter::handlers_dispatcher::{
    none_failed, Call, ContentHandlersDispatcher, DocumentKinds, HandlerKinds,
};
use crate::rewriter::rewrite_controller::{
    carried, error_carried, is_prefix, HtmlRewriteController,
};
use crate::rewriter::settings::{
    DocumentContentHandlers, ElementContentHandlers, RewriteStrSettings, Settings,
};
use crate::selectors::parser::Selector;
use crate::selectors::matching::{locators_ordered, ElementInfo};
use crate::selectors::program::{
    add_selector, instruction_compiles, lemma_extended_ordered, Instruction,
};
use crate::selectors_vm::SelectorMatchingVm;
use crate::transform_stream::{
    lemma_drive_bounds, place_before, spec_end, spec_write, OutputBuffer, OutputSink,
    TransformStream, WriteEnd,
};

pub mod handlers_dispatcher;
pub mod rewrite_controller;
pub mod settings;

verus! {

/// How many instructions the first `n` selectors compile to: one for each item
/// of a selector, and one for its locator.
pub open spec fn instructions_needed<'h, 's>(
    selectors: Seq<(&'s Selector, ElementContentHandlers<'h>)>,
    n: int,
) -> int
    decreases n,
{
    if n <= 0 || n > selectors.len() {
        0
    } else {
        instructions_needed(selectors, n - 1) + selectors[n - 1].0.items().len() + 1
    }
}

/// Whether the program begins with what the first `n` selectors compile to,
/// one selector after the other, each with its place in the order of
/// registration as its locator.
pub open spec fn compiled<'h, 's>(
    program: Seq<Instruction>,
    selectors: Seq<(&'s Selector, ElementContentHandlers<'h>)>,
    encoding: Seq<char>,
    n: int,
) -> bool
    decreases n,
{
    if n <= 0 || n > selectors.len() {
        true
    } else {
        let start = instructions_needed(selectors, n - 1);
        let items = selectors[n - 1].0.items();
        &&& compiled(program, selectors, encoding, n - 1)
        &&& start + items.len() + 1 <= program.len()
        &&& forall|j: int|
            0 <= j < items.len() ==> instruction_compiles(
                #[trigger] program[start + j],
                items[j],
                encoding,
                selectors[n - 1].0.text(),
                (n - 1) as usize,
            )
        &&& program[start + items.len()] == Instruction::Emit((n - 1) as usize)
    }
}

/// Which handlers the selectors come with, in the order of registration.
pub open spec fn kinds_of<'h, 's>(selectors: Seq<(&'s Selector, ElementContentHandlers<'h>)>) -> Seq<
    HandlerKinds,
> {
    Seq::new(
        selectors.len(),
        |k: int|
            HandlerKinds {
                element: selectors[k].1.element is Some,
                comments: selectors[k].1.comments is Some,
                text: selectors[k].1.text is Some,
            },
    )
}

/// Which handlers for the whole document there are, in the order of
/// registration.
pub open spec fn document_kinds_of<'h>(documents: Seq<DocumentContentHandlers<'h>>) -> Seq<
    DocumentKinds,
> {
    Seq::new(
        documents.len(),
        |k: int|
            DocumentKinds {
                doctype: documents[k].doctype is Some,
                comments: documents[k].comments is Some,
                text: documents[k].text is Some,
            },
    )
}

/// What a program begins with stays when the program grows.
proof fn lemma_compiled_grows<'h, 's>(
    shorter: Seq<Instruction>,
    longer: Seq<Instruction>,
    selectors: Seq<(&'s Selector, ElementContentHandlers<'h>)>,
    encoding: Seq<char>,
    n: int,
)
    requires
        compiled(shorter, selectors, encoding, n),
        shorter.len() <= longer.len(),
        longer.subrange(0, shorter.len() as int) == shorter,
    ensures
        compiled(longer, selectors, encoding, n),
    decreases n,
{
    if n > 0 && n <= selectors.len() {
        lemma_compiled_grows(shorter, longer, selectors, encoding, n - 1);
        let start = instructions_needed(selectors, n - 1);
        let items = selectors[n - 1].0.items();
        lemma_needed_not_negative(selectors, n - 1);
        assert forall|j: int| 0 <= j < items.len() implies instruction_compiles(
            #[trigger] longer[start + j],
            items[j],
            encoding,
            selectors[n - 1].0.text(),
            (n - 1) as usize,
        ) by {
            assert(longer.subrange(0, shorter.len() as int)[start + j] == shorter[start + j]);
        }
        assert(longer.subrange(0, shorter.len() as int)[start + items.len()] == shorter[start
            + items.len()]);
    }
}

proof fn lemma_needed_not_negative<'h, 's>(
    selectors: Seq<(&'s Selector, ElementContentHandlers<'h>)>,
    n: int,
)
    ensures
        instructions_needed(selectors, n) >= 0,
    decreases n,
{
    if n > 0 && n <= selectors.len() {
        lemma_needed_not_negative(selectors, n - 1);
    }
}

/// A streaming HTML rewriter.
///
/// Input is written to it in chunks and ended once. A rewriter that has
/// failed is poisoned: it must not be used again.
pub struct HtmlRewriter<'h, O: OutputSink> {
    stream: TransformStream<'h, O>,
    finished: bool,
    poisoned: bool,
}

/// What `String::from_utf8_lossy` gives for the bytes: the text that they
/// encode in UTF-8, with the replacement character in place of each sequence
/// that is not valid.
pub uninterp spec fn lossy_text(bytes: Seq<u8>) -> Seq<char>;

/// Calls `String::from_utf8_lossy`. The result is the one that [`lossy_text`]
/// names, and for bytes of valid UTF-8 it is the text that they encode.
#[verifier::external_body]
fn text_of(bytes: &[u8]) -> (r: String)
    ensures
        r@ == lossy_text(bytes@),
        valid_utf8(bytes@) ==> r@ == decode_utf8(bytes@),
{
    String::from_utf8_lossy(bytes).into_owned()
}

/// What becomes of a document with the given bytes in a rewriter in which
/// nothing was registered, when it is written as one chunk and ended: the
/// parser fails, or the document is written out.
pub open spec fn passive_rewrite(document: Seq<u8>, strict: bool, limit: int) -> Result<
    (),
    ErrorKind,
> {
    match spec_write(initial_model(), Seq::empty(), document, strict, limit) {
        Err(kind) => Err(kind),
        Ok(end) => match spec_end(end.model, end.pending, strict, limit) {
            Err(kind) => Err(kind),
            Ok(_) => Ok(()),
        },
    }
}

/// Where nothing is registered, what a write gives out and what it keeps are
/// together what was kept before and the data that was written: no byte is
/// lost, added or changed.
pub proof fn lemma_write_keeps_input(
    m: ParserModel,
    pending: Seq<u8>,
    data: Seq<u8>,
    strict: bool,
    limit: int,
)
    requires
        data.len() <= usize::MAX,
        limit <= usize::MAX,
    ensures
        spec_write(m, pending, data, strict, limit) matches Ok(end) ==> end.emitted + end.pending
            == pending + data,
{
    let input = pending + data;
    if let Ok(end) = spec_write(m, pending, data, strict, limit) {
        assert(input.len() <= usize::MAX);
        lemma_drive_bounds(m, input, 0, false, strict, limit, input.len() as int);
        assert(end.emitted + end.pending =~= input);
    }
}

/// Where nothing is registered, the output does not depend on how the input is
/// cut into chunks: two chunks written one after the other give out and keep
/// together the same bytes as the two written as one.
pub proof fn lemma_chunks_do_not_matter(
    m: ParserModel,
    pending: Seq<u8>,
    first: Seq<u8>,
    second: Seq<u8>,
    strict: bool,
    limit: int,
)
    requires
        first.len() + second.len() <= usize::MAX,
        limit <= usize::MAX,
        spec_write(m, pending, first, strict, limit) is Ok,
        spec_write(
            spec_write(m, pending, first, strict, limit)->Ok_0.model,
            spec_write(m, pending, first, strict, limit)->Ok_0.pending,
            second,
            strict,
            limit,
        ) is Ok,
        spec_write(m, pending, first + second, strict, limit) is Ok,
    ensures
        ({
            let one = spec_write(m, pending, first, strict, limit)->Ok_0;
            let two = spec_write(one.model, one.pending, second, strict, limit)->Ok_0;
            let whole = spec_write(m, pending, first + second, strict, limit)->Ok_0;
            one.emitted + two.emitted + two.pending == whole.emitted + whole.pending
        }),
{
    let one = spec_write(m, pending, first, strict, limit)->Ok_0;
    let two = spec_write(one.model, one.pending, second, strict, limit)->Ok_0;
    let whole = spec_write(m, pending, first + second, strict, limit)->Ok_0;
    lemma_write_keeps_input(m, pending, first, strict, limit);
    lemma_write_keeps_input(one.model, one.pending, second, strict, limit);
    lemma_write_keeps_input(m, pending, first + second, strict, limit);
    assert(one.emitted + two.emitted + two.pending =~= one.emitted + (two.emitted + two.pending));
    assert(one.emitted + (one.pending + second) =~= (one.emitted + one.pending) + second);
    assert((pending + first) + second =~= pending + (first + second));
}

impl<'h, O: OutputSink> HtmlRewriter<'h, O> {
    /// Whether `end` was called.
    pub closed spec fn is_finished(&self) -> bool {
        self.finished
    }

    /// Whether a call has failed.
    pub closed spec fn is_poisoned(&self) -> bool {
        self.poisoned
    }

    /// The rewriter is consistent, unless it is poisoned.
    pub closed spec fn wf(&self) -> bool {
        !self.poisoned ==> self.stream.wf() && (self.finished ==> self.stream.pending().len() == 0)
            && none_failed(self.stream.results())
    }

    /// In a rewriter that has not failed, every handler that was called has
    /// returned `Ok`: a handler that returns an error makes the call fail in
    /// which it is called.
    pub proof fn lemma_no_handler_has_failed(&self)
        requires
            self.wf(),
            !self.is_poisoned(),
        ensures
            none_failed(self.results()),
    {
    }

    /// The state of the parser.
    pub open spec fn model(&self) -> ParserModel {
        self.stream().model()
    }

    /// The end of the input that is kept because it is no whole token yet.
    pub open spec fn pending(&self) -> Seq<u8> {
        self.stream().pending()
    }

    /// All output that the sink was handed.
    pub open spec fn emitted(&self) -> Seq<u8> {
        self.stream().emitted()
    }

    /// Nothing was registered: no selector and no handler.
    pub open spec fn is_passive(&self) -> bool {
        self.stream().is_passive()
    }

    /// Whether ambiguous markup is an error.
    pub open spec fn strict(&self) -> bool {
        self.stream().strict()
    }

    /// The most that may be tracked, in bytes.
    pub open spec fn memory_limit(&self) -> nat {
        self.stream().memory_limit()
    }

    /// The program that the selectors were compiled to.
    pub open spec fn program(&self) -> Seq<Instruction> {
        self.stream().program()
    }

    /// All calls of handlers that were made, in their order.
    pub open spec fn calls(&self) -> Seq<Call> {
        self.stream().calls()
    }

    /// Which handlers each selector came with, by locator.
    pub open spec fn kinds(&self) -> Seq<HandlerKinds> {
        self.stream().kinds()
    }

    /// Which handlers for the whole document there are, in the order of
    /// registration.
    pub open spec fn document_kinds(&self) -> Seq<DocumentKinds> {
        self.stream().document_kinds()
    }

    /// The two rewriters have the same settings: selectors, kinds of handlers,
    /// memory limit and strictness.
    pub open spec fn same_setup(&self, other: &Self) -> bool {
        self.program() == other.program() && self.kinds() == other.kinds()
            && self.document_kinds() == other.document_kinds() && self.memory_limit()
            == other.memory_limit() && self.strict() == other.strict()
    }

    /// What is tracked at present, in bytes.
    pub open spec fn memory_usage(&self) -> nat {
        self.stream().memory_usage()
    }

    /// The transform stream of the rewriter.
    pub closed spec fn stream(&self) -> TransformStream<'h, O> {
        self.stream
    }

    /// What the handlers that were called have returned, in the order of the
    /// calls.
    pub open spec fn results(&self) -> Seq<Result<(), HandlerError>> {
        self.stream().results()
    }

    /// What is tracked is the sum of what is kept: the bytes of the input
    /// that are no whole token yet, what the stack of open elements charges,
    /// and what the selector matching machine charges.
    pub proof fn lemma_memory_is_the_sum(&self)
        requires
            self.wf(),
            !self.is_poisoned(),
        ensures
            self.memory_usage() == self.pending().len() + charged_for(self.model().open)
                + self.stream().controller().charged(),
    {
        self.stream().lemma_memory_is_the_sum();
    }

    /// The rewriter stands at the start of a document: nothing was read,
    /// nothing is kept or tracked, no element and no text node is open, and no
    /// handler was called.
    pub open spec fn at_start(&self) -> bool {
        let c = self.stream().controller();
        &&& self.model() == initial_model()
        &&& self.pending() == Seq::<u8>::empty()
        &&& self.memory_usage() == 0
        &&& c.calls() == Seq::<Call>::empty()
        &&& c.results() == Seq::<Result<(), HandlerError>>::empty()
        &&& !c.in_text_node()
        &&& c.plans().len() == 1
        &&& HtmlRewriteController::inherits(c.plans()[0], false)
        &&& c.levels() == seq![Seq::<ElementInfo>::empty()]
        &&& c.charged() == 0
        &&& c.matcher().entries().len() == 1
        &&& c.matcher().entries()[0].children == 0
        &&& c.matcher().entries()[0].type_counts@.len() == 0
    }

    /// The rewriter was made with the given settings and stands at the start
    /// of a document.
    pub open spec fn set_up<'s>(
        &self,
        selectors: Seq<(&'s Selector, ElementContentHandlers<'h>)>,
        documents: Seq<DocumentContentHandlers<'h>>,
        encoding: Seq<char>,
        strict: bool,
        limit: nat,
    ) -> bool {
        &&& compiled(self.program(), selectors, encoding, selectors.len() as int)
        &&& self.program().len() == instructions_needed(selectors, selectors.len() as int)
        &&& self.kinds() == kinds_of(selectors)
        &&& self.document_kinds() == document_kinds_of(documents)
        &&& self.stream().controller().encoding()@ == encoding
        &&& self.strict() == strict
        &&& self.memory_limit() == limit
        &&& !self.is_finished()
        &&& !self.is_poisoned()
        &&& self.at_start()
    }

    /// A rewriter with the given settings that writes to the output sink.
    ///
    /// Fails if the label of the encoding names no encoding
    /// (`UnknownEncoding`) or one that is not ASCII-compatible
    /// (`NonAsciiCompatibleEncoding`), and in no other case. The selectors are
    /// compiled in the order of registration, and the place of a selector in
    /// that order is the locator of its handlers.
    pub fn try_new<'s>(settings: Settings<'h, 's>, output_sink: O) -> (r: Result<Self, EncodingError>)
        requires
            instructions_needed(
                settings.element_content_handlers@,
                settings.element_content_handlers@.len() as int,
            ) < usize::MAX,
        ensures
            match (r, encoding_choice(encoding_for_label(settings.encoding@))) {
                (Ok(rewriter), Ok(encoding)) => {
                    &&& compiled(
                        rewriter.program(),
                        settings.element_content_handlers@,
                        encoding,
                        settings.element_content_handlers@.len() as int,
                    )
                    &&& rewriter.program().len() == instructions_needed(
                        settings.element_content_handlers@,
                        settings.element_content_handlers@.len() as int,
                    )
                    &&& locators_ordered(rewriter.program())
                    &&& rewriter.kinds() == kinds_of(settings.element_content_handlers@)
                    &&& rewriter.document_kinds() == document_kinds_of(
                        settings.document_content_handlers@,
                    )
                    &&& rewriter.calls() == Seq::<Call>::empty()
                    &&& rewriter.wf()
                    &&& !rewriter.is_finished()
                    &&& !rewriter.is_poisoned()
                    &&& rewriter.model() == initial_model()
                    &&& rewriter.pending() == Seq::<u8>::empty()
                    &&& rewriter.emitted() == output_sink.received()
                    &&& rewriter.strict() == settings.strict
                    &&& rewriter.memory_limit()
                        == settings.memory_settings.max_allowed_memory_usage
                    &&& rewriter.memory_usage() == 0
                    &&& rewriter.is_passive() == (settings.element_content_handlers@.len() == 0
                        && settings.document_content_handlers@.len() == 0)
                    &&& rewriter.set_up(
                        settings.element_content_handlers@,
                        settings.document_content_handlers@,
                        encoding,
                        settings.strict,
                        settings.memory_settings.max_allowed_memory_usage as nat,
                    )
                },
                (Err(e), Err(expected)) => e == expected,
                _ => false,
            },
            settings.encoding@ == "utf-8"@ ==> r is Ok,
    {
        let encoding = match try_encoding_from_str(settings.encoding) {
            Ok(encoding) => encoding,
            Err(e) => {
                return Err(e);
            },
        };
        let mut program: Vec<Instruction> = Vec::new();
        let mut dispatcher = ContentHandlersDispatcher::new();
        let mut selectors = settings.element_content_handlers;
        let ghost registered = selectors@;
        let ghost count = registered.len() as int;
        assert(registered.subrange(0, count) =~= registered);
        while selectors.len() > 0
            invariant
                count == registered.len(),
                selectors@.len() <= count,
                selectors@ == registered.subrange(count - selectors@.len(), count),
                dispatcher.wf(),
                dispatcher.calls() == Seq::<Call>::empty(),
                dispatcher.results() == Seq::<Result<(), HandlerError>>::empty(),
                dispatcher.document_kinds().len() == 0,
                dispatcher.kinds() == kinds_of(registered).take(count - selectors@.len()),
                program@.len() == instructions_needed(registered, count - selectors@.len()),
                compiled(program@, registered, encoding@, count - selectors@.len()),
                locators_ordered(program@),
                forall|i: int|
                    0 <= i < program@.len() ==> (#[trigger] program@[i] matches Instruction::Emit(a)
                        ==> a < count - selectors@.len()),
            decreases selectors@.len(),
        {
            let ghost k = count - selectors@.len();
            let ghost before = program@;
            let ghost remaining = selectors@;
            let (selector, handlers) = selectors.remove(0);
            assert(remaining[0] == registered[k]);
            assert(selectors@ =~= registered.subrange(k + 1, count));
            let locator = dispatcher.add_selector_associated_handlers(handlers);
            assert(dispatcher.kinds() =~= kinds_of(registered).take(k + 1));
            add_selector(&mut program, selector, &encoding, locator);
            proof {
                lemma_needed_not_negative(registered, k);
                lemma_extended_ordered(
                    program@,
                    before,
                    selector.items(),
                    encoding@,
                    selector.text(),
                    locator,
                );
                lemma_compiled_grows(before, program@, registered, encoding@, k);
            }
        }
        let mut documents = settings.document_content_handlers;
        let ghost all_documents = documents@;
        let ghost document_count = all_documents.len() as int;
        assert(all_documents.subrange(0, document_count) =~= all_documents);
        assert(kinds_of(registered).take(count) =~= kinds_of(registered));
        assert(dispatcher.document_kinds() =~= document_kinds_of(all_documents).take(0));
        while documents.len() > 0
            invariant
                document_count == all_documents.len(),
                documents@.len() <= document_count,
                documents@ == all_documents.subrange(
                    document_count - documents@.len(),
                    document_count,
                ),
                dispatcher.wf(),
                dispatcher.calls() == Seq::<Call>::empty(),
                dispatcher.results() == Seq::<Result<(), HandlerError>>::empty(),
                dispatcher.kinds() == kinds_of(registered),
                dispatcher.document_kinds() == document_kinds_of(all_documents).take(
                    document_count - documents@.len(),
                ),
            decreases documents@.len(),
        {
            let ghost k = document_count - documents@.len();
            let ghost remaining = documents@;
            let handlers = documents.remove(0);
            assert(remaining[0] == all_documents[k]);
            assert(documents@ =~= all_documents.subrange(k + 1, document_count));
            dispatcher.add_document_content_handlers(handlers);
            assert(dispatcher.document_kinds() =~= document_kinds_of(all_documents).take(k + 1));
        }
        assert(document_kinds_of(all_documents).take(document_count) =~= document_kinds_of(
            all_documents,
        ));
        let limiter = MemoryLimiter::new(settings.memory_settings.max_allowed_memory_usage);
        let locators = dispatcher.locators();
        let vm = match SelectorMatchingVm::new(program, locators) {
            Some(vm) => vm,
            None => {
                assert(false);
                vstd::pervasive::unreached()
            },
        };
        let controller = HtmlRewriteController::new(dispatcher, vm, encoding);
        let stream = TransformStream::new(
            controller,
            limiter,
            output_sink,
            settings.strict,
            settings.memory_settings.preallocated_parsing_buffer_size,
        );
        Ok(HtmlRewriter { stream, finished: false, poisoned: false })
    }

    /// Writes a chunk of input to the rewriter.
    ///
    /// The rewriter must not have been ended and must not have failed. If the
    /// write fails, the rewriter is poisoned and the sink has received nothing
    /// more. The sink is only ever handed more output, and no more is tracked
    /// than the memory limit. What the write does is what
    /// [`TransformStream::written`] says of the stream of the rewriter: the
    /// tokens are taken one after the other, the handlers that are due for a
    /// token are called in their order with the token as it was read, what
    /// they leave is written, and the write fails with the error that a
    /// handler has returned, for memory or, in strict mode, for ambiguous
    /// markup, and succeeds where none of these is due: where every handler
    /// that is called returns `Ok`, no handler makes it fail. Where nothing was registered, that is what
    /// [`spec_write`] says: what the write gives out and what it keeps are
    /// together what was kept before and the data.
    pub fn write(&mut self, data: &[u8]) -> (r: Result<(), RewritingError>)
        requires
            old(self).wf(),
            !old(self).is_finished(),
            !old(self).is_poisoned(),
        ensures
            final(self).wf(),
            final(self).is_poisoned() == r is Err,
            !final(self).is_finished(),
            final(self).same_setup(old(self)),
            old(self).calls().is_prefix_of(final(self).calls()),
            old(self).is_passive() ==> final(self).calls() == old(self).calls(),
            final(self).memory_usage() <= final(self).memory_limit(),
            r is Ok ==> final(self).is_passive() == old(self).is_passive(),
            is_prefix(old(self).emitted(), final(self).emitted()),
            r is Err ==> final(self).emitted() == old(self).emitted(),
            r is Ok ==> final(self).model() == walk(
                old(self).model(),
                old(self).pending() + data@,
                0,
                false,
            ).model && final(self).pending() == (old(self).pending() + data@).subrange(
                walk(old(self).model(), old(self).pending() + data@, 0, false).pos as int,
                (old(self).pending() + data@).len() as int,
            ),
            old(self).is_passive() ==> match spec_write(
                old(self).model(),
                old(self).pending(),
                data@,
                old(self).strict(),
                old(self).memory_limit() as int,
            ) {
                Ok(end) => r is Ok && final(self).model() == end.model && final(self).pending()
                    == end.pending && final(self).emitted() == old(self).emitted() + end.emitted,
                Err(kind) => r matches Err(e) && e.kind() == kind,
            },
            old(self).is_passive() && r is Ok ==> final(self).emitted() + final(self).pending()
                == old(self).emitted() + old(self).pending() + data@,
            TransformStream::written(
                &old(self).stream(),
                &final(self).stream(),
                data@,
                fault_of(r),
            ),
            carried(final(self).results(), r),
            r is Ok && none_failed(old(self).results()) ==> none_failed(final(self).results()),
            (r matches Err(e) && e is ParsingAmbiguity) ==> old(self).strict(),
            (r matches Err(e) && e is ContentHandlerError) ==> final(self).calls().len() > old(self).calls().len(),
    {
        let ghost emitted = self.stream.emitted();
        let ghost pending = self.stream.pending();
        proof {
            self.stream.lemma_memory_within_limit();
            assert(data@.len() == vstd::slice::spec_slice_len(data));
        }
        let r = self.stream.write(data);
        if r.is_err() {
            self.poisoned = true;
        }
        proof {
            if old(self).is_passive() && r is Ok {
                let end = spec_write(
                    old(self).model(),
                    pending,
                    data@,
                    old(self).strict(),
                    old(self).memory_limit() as int,
                )->Ok_0;
                lemma_write_keeps_input(
                    old(self).model(),
                    pending,
                    data@,
                    old(self).strict(),
                    old(self).memory_limit() as int,
                );
                assert(emitted + end.emitted + end.pending =~= emitted + (end.emitted
                    + end.pending));
                assert(emitted + (pending + data@) =~= emitted + pending + data@);
            }
        }
        r
    }

    /// Ends the input: what was kept is read as the last of the document.
    ///
    /// The rewriter must not have been ended and must not have failed. If the
    /// call fails, the rewriter is poisoned and the sink has received nothing
    /// more. What the end does is what [`TransformStream::ended_so`] says of
    /// the stream of the rewriter. Where nothing was registered, the kept bytes
    /// are written out as they were read, unless the parser fails as
    /// [`spec_end`] says.
    pub fn end(&mut self) -> (r: Result<(), RewritingError>)
        requires
            old(self).wf(),
            !old(self).is_finished(),
            !old(self).is_poisoned(),
        ensures
            final(self).wf(),
            final(self).is_poisoned() == r is Err,
            final(self).is_finished(),
            final(self).same_setup(old(self)),
            old(self).calls().is_prefix_of(final(self).calls()),
            old(self).is_passive() ==> final(self).calls() == old(self).calls(),
            final(self).memory_usage() <= final(self).memory_limit(),
            is_prefix(old(self).emitted(), final(self).emitted()),
            r is Err ==> final(self).emitted() == old(self).emitted(),
            r is Ok ==> final(self).pending().len() == 0,
            r is Ok ==> final(self).model() == ended(
                walk(old(self).model(), old(self).pending(), 0, true).model,
            ),
            r is Ok && old(self).is_passive() ==> final(self).memory_usage() == 0,
            old(self).is_passive() ==> match spec_end(
                old(self).model(),
                old(self).pending(),
                old(self).strict(),
                old(self).memory_limit() as int,
            ) {
                Ok(model) => r is Ok && final(self).model() == model
                    && final(self).emitted() == old(self).emitted() + old(self).pending(),
                Err(kind) => r matches Err(e) && e.kind() == kind,
            },
            TransformStream::ended_so(&old(self).stream(), &final(self).stream(), fault_of(r)),
            carried(final(self).results(), r),
            r is Ok && none_failed(old(self).results()) ==> none_failed(final(self).results()),
            (r matches Err(e) && e is ParsingAmbiguity) ==> old(self).strict(),
            (r matches Err(e) && e is ContentHandlerError) ==> final(self).calls().len() > old(self).calls().len(),
    {
        self.finished = true;
        let r = self.stream.end();
        if r.is_err() {
            self.poisoned = true;
        }
        r
    }

    /// The output sink.
    pub fn output_sink(&self) -> (r: &O)
        ensures
            r.received() == self.emitted(),
    {
        self.stream.output_sink()
    }

    /// Gives the output sink back.
    pub fn into_output_sink(self) -> (r: O)
        ensures
            r.received() == self.emitted(),
    {
        self.stream.into_output_sink()
    }

    /// What is tracked at present, in bytes: never more than the limit.
    pub fn current_memory_usage(&self) -> (r: usize)
        ensures
            r == self.memory_usage(),
            r <= self.memory_limit(),
    {
        self.stream.current_memory_usage()
    }

    /// The most that may be tracked, in bytes.
    pub fn max_memory_usage(&self) -> (r: usize)
        ensures
            r == self.memory_limit(),
    {
        self.stream.max_memory_usage()
    }
}

impl<'h> HtmlRewriter<'h, OutputBuffer> {
    /// The output that was not taken yet.
    pub closed spec fn untaken(&self) -> Seq<u8> {
        self.stream.untaken()
    }

    /// Takes the output that was not taken yet. Nothing else changes: what the
    /// sink has received stays what it is.
    pub fn take_output(&mut self) -> (r: Vec<u8>)
        ensures
            r@ == old(self).untaken(),
            final(self).untaken() == Seq::<u8>::empty(),
            final(self).emitted() == old(self).emitted(),
            final(self).wf() == old(self).wf(),
            final(self).is_finished() == old(self).is_finished(),
            final(self).is_poisoned() == old(self).is_poisoned(),
            final(self).model() == old(self).model(),
            final(self).pending() == old(self).pending(),
            final(self).is_passive() == old(self).is_passive(),
            final(self).memory_usage() == old(self).memory_usage(),
            final(self).same_setup(old(self)),
            final(self).calls() == old(self).calls(),
            final(self).stream().controller() == old(self).stream().controller(),
            final(self).stream().last_run() == old(self).stream().last_run(),
            final(self).stream().last_output() == old(self).stream().last_output(),
    {
        self.stream.take_output()
    }
}

/// What [`rewrite_str`] does with a document of the given bytes: a rewriter
/// `start` is made with the settings for UTF-8 and no limit of memory, the
/// document is written to it as one chunk, which leaves it as `middle`, and
/// ended, which leaves it as `end`. The result is the failure of the write or
/// of the end, with the error of a handler as the handler has returned it, or
/// else the text of the bytes that the sink was handed: the text that they
/// encode where they are valid UTF-8, and in any case what [`lossy_text`]
/// names. The library does not look into what a handler leaves in the bytes
/// of what it was handed, so that the output is valid UTF-8 is in the
/// handlers' hands.
pub open spec fn rewritten<'h, 's>(
    start: HtmlRewriter<'h, Vec<u8>>,
    middle: HtmlRewriter<'h, Vec<u8>>,
    end: HtmlRewriter<'h, Vec<u8>>,
    selectors: Seq<(&'s Selector, ElementContentHandlers<'h>)>,
    documents: Seq<DocumentContentHandlers<'h>>,
    strict: bool,
    html: Seq<u8>,
    r: Result<String, RewritingError>,
) -> bool {
    &&& encoding_choice(encoding_for_label("utf-8"@)) matches Ok(encoding) && start.set_up(
        selectors,
        documents,
        encoding,
        strict,
        usize::MAX as nat,
    )
    &&& start.emitted() == Seq::<u8>::empty()
    &&& {
        ||| r matches Err(e) && TransformStream::written(
            &start.stream(),
            &middle.stream(),
            html,
            Some(e.kind_of()),
        ) && error_carried(middle.results(), e)
        ||| TransformStream::written(&start.stream(), &middle.stream(), html, None) && {
            ||| r matches Err(e) && TransformStream::ended_so(
                &middle.stream(),
                &end.stream(),
                Some(e.kind_of()),
            ) && error_carried(end.results(), e)
            ||| r matches Ok(text) && TransformStream::ended_so(
                &middle.stream(),
                &end.stream(),
                None,
            ) && none_failed(end.results()) && text@ == lossy_text(end.emitted()) && (valid_utf8(
                end.emitted(),
            ) ==> text@ == decode_utf8(end.emitted()))
        }
    }
}

/// Mutations are local, and handlers are called in the order of the
/// document, over a whole rewriting. Of a document that was rewritten, the
/// bytes that the sink was handed begin with what was written by the time any
/// token of the document was taken, whatever the handlers do that are called
/// for that token and for those after it; and the calls that were made begin
/// with those that were made by then.
pub proof fn lemma_rewriting_only_adds<'h, 's>(
    start: HtmlRewriter<'h, Vec<u8>>,
    middle: HtmlRewriter<'h, Vec<u8>>,
    end: HtmlRewriter<'h, Vec<u8>>,
    selectors: Seq<(&'s Selector, ElementContentHandlers<'h>)>,
    documents: Seq<DocumentContentHandlers<'h>>,
    strict: bool,
    html: Seq<u8>,
    r: Result<String, RewritingError>,
    i: int,
)
    requires
        rewritten(start, middle, end, selectors, documents, strict, html, r),
        r is Ok,
        0 <= i <= middle.stream().last_run().len(),
    ensures
        is_prefix(
            place_before(
                TransformStream::start_of(&start.stream()),
                middle.stream().last_run(),
                i,
            ).out,
            end.emitted(),
        ),
        place_before(
            TransformStream::start_of(&start.stream()),
            middle.stream().last_run(),
            i,
        ).controller.calls().is_prefix_of(end.calls()),
{
    let early = place_before(
        TransformStream::start_of(&start.stream()),
        middle.stream().last_run(),
        i,
    );
    TransformStream::lemma_write_only_adds(&start.stream(), &middle.stream(), html, i);
    TransformStream::lemma_end_only_adds(&middle.stream(), &end.stream(), 0);
    assert(start.emitted() + early.out =~= early.out);
    assert(middle.emitted() + Seq::<u8>::empty() =~= middle.emitted());
    assert(end.emitted().subrange(0, early.out.len() as int) =~= middle.emitted().subrange(
        0,
        early.out.len() as int,
    ));
}

/// Rewrites the given HTML with the given settings. The document is read as
/// UTF-8, as one chunk.
///
/// The result is that of a write of the whole document followed by the end,
/// as [`rewritten`] says. Where nothing is registered, the rewriter fails only
/// where [`passive_rewrite`] says, and otherwise the result is the text that
/// was given.
pub fn rewrite_str<'h, 's>(html: &str, settings: RewriteStrSettings<'h, 's>) -> (r: Result<
    String,
    RewritingError,
>)
    requires
        instructions_needed(
            settings.element_content_handlers@,
            settings.element_content_handlers@.len() as int,
        ) < usize::MAX,
    ensures
        settings.element_content_handlers@.len() == 0 && settings.document_content_handlers@.len()
            == 0 ==> match passive_rewrite(html.spec_bytes(), settings.strict, usize::MAX as int) {
            Ok(()) => r matches Ok(text) && text@ == html@,
            Err(kind) => r matches Err(e) && e.kind() == kind,
        },
        exists|
            start: HtmlRewriter<'h, Vec<u8>>,
            middle: HtmlRewriter<'h, Vec<u8>>,
            end: HtmlRewriter<'h, Vec<u8>>,
        | #[trigger]
            rewritten(
                start,
                middle,
                end,
                settings.element_content_handlers@,
                settings.document_content_handlers@,
                settings.strict,
                html.spec_bytes(),
                r,
            ),
        (r matches Err(e) && e is ParsingAmbiguity) ==> settings.strict,
{
    let output: Vec<u8> = Vec::new();
    let mut rewriter = match HtmlRewriter::try_new(settings.into_settings(), output) {
        Ok(rewriter) => rewriter,
        Err(_) => {
            assert(false);
            vstd::pervasive::unreached()
        },
    };
    let ghost start = rewriter;
    let bytes = html.as_bytes();
    proof {
        assert(Seq::<u8>::empty() + bytes@ =~= bytes@);
    }
    let wrote = rewriter.write(bytes);
    let ghost middle = rewriter;
    match wrote {
        Ok(()) => {},
        Err(e) => {
            let r: Result<String, RewritingError> = Err(e);
            assert(rewritten(
                start,
                middle,
                middle,
                settings.element_content_handlers@,
                settings.document_content_handlers@,
                settings.strict,
                html.spec_bytes(),
                r,
            ));
            return r;
        },
    }
    let finished = rewriter.end();
    let ghost end = rewriter;
    match finished {
        Ok(()) => {},
        Err(e) => {
            let r: Result<String, RewritingError> = Err(e);
            assert(rewritten(
                start,
                middle,
                end,
                settings.element_content_handlers@,
                settings.document_content_handlers@,
                settings.strict,
                html.spec_bytes(),
                r,
            ));
            return r;
        },
    }
    let output = rewriter.into_output_sink();
    proof {
        if settings.element_content_handlers@.len() == 0
            && settings.document_content_handlers@.len()
            == 0 {
            assert(output@ =~= html.spec_bytes());
            vstd::utf8::encode_utf8_valid_utf8(html@);
            vstd::utf8::encode_utf8_decode_utf8(html@);
        }
    }
    let r: Result<String, RewritingError> = Ok(text_of(output.as_slice()));
    assert(rewritten(
        start,
        middle,
        end,
        settings.element_content_handlers@,
        settings.document_content_handlers@,
        settings.strict,
        html.spec_bytes(),
        r,
    ));
    r
}

} // verus!
