//! The transform stream: it owns the input buffer and the output sink, drives
//! the parser over the input chunk by chunk, and keeps what cannot be read as
//! a whole token yet for the next chunk.

use vstd::prelude::*;
use crate::errors::{fault_of, ErrorKind, HandlerError, RewritingError};
use crate::html_content::mutations::push_all;
use crate::memory::MemoryLimiter;
use crate::parser::state::{
    drive, ended, feedback_for, lemma_drive_step, lemma_walk_step, token_step, walk, DriveEnd,
    ParserModel, ParserState, TagFeedback,
};
use crate::parser::tree_builder::{charged_for, lemma_closing_depth_bound};
use crate::rewriter::handlers_dispatcher::{none_failed, Call, DocumentKinds, HandlerKinds};
use crate::rewriter::rewrite_controller::{
    carried, error_carried, is_prefix, HtmlRewriteController,
};
use crate::selectors::program::Instruction;
use crate::tokenizer::chars::copied;
use crate::tokenizer::state_machine::{lemma_last_token, next_token, scan_token, Token};

verus! {

/// Where the output of a rewriter goes.
///
/// The sink is handed the output in chunks, in the order of the document. What
/// it has received is all that the contracts of the rewriter say of it.
pub trait OutputSink {
    /// All bytes that the sink was handed, in order.
    spec fn received(&self) -> Seq<u8>;

    /// Takes a chunk of the output.
    fn handle_chunk(&mut self, chunk: &[u8])
        ensures
            final(self).received() == old(self).received() + chunk@,
    ;
}

impl OutputSink for Vec<u8> {
    open spec fn received(&self) -> Seq<u8> {
        self@
    }

    fn handle_chunk(&mut self, chunk: &[u8]) {
        push_all(self, chunk);
    }
}

/// A sink that keeps the output until it is taken. The output can be taken
/// piece by piece while the document is being written, so that no more of it is
/// kept than the pieces that were not taken yet.
pub struct OutputBuffer {
    kept: Vec<u8>,
    taken: Ghost<Seq<u8>>,
}

impl OutputBuffer {
    /// The output that was not taken yet.
    pub closed spec fn kept(&self) -> Seq<u8> {
        self.kept@
    }

    /// A sink that has received nothing.
    pub fn new() -> (r: OutputBuffer)
        ensures
            r.received() == Seq::<u8>::empty(),
            r.kept() == Seq::<u8>::empty(),
    {
        OutputBuffer { kept: Vec::new(), taken: Ghost(Seq::empty()) }
    }

    /// Takes the output that was not taken yet. What the sink has received
    /// stays what it is.
    pub fn take(&mut self) -> (r: Vec<u8>)
        ensures
            r@ == old(self).kept(),
            final(self).kept() == Seq::<u8>::empty(),
            final(self).received() == old(self).received(),
    {
        let mut out: Vec<u8> = Vec::new();
        core::mem::swap(&mut out, &mut self.kept);
        self.taken = Ghost(self.taken@ + out@);
        assert(self.taken@ + self.kept@ =~= old(self).taken@ + old(self).kept@);
        out
    }
}

impl OutputSink for OutputBuffer {
    closed spec fn received(&self) -> Seq<u8> {
        self.taken@ + self.kept@
    }

    fn handle_chunk(&mut self, chunk: &[u8]) {
        push_all(&mut self.kept, chunk);
        assert(self.taken@ + self.kept@ =~= old(self).taken@ + old(self).kept@ + chunk@);
    }
}

/// What a write leaves behind where nothing was registered.
pub struct WriteEnd {
    /// The state of the parser.
    pub model: ParserModel,
    /// The end of the input that is no whole token yet.
    pub pending: Seq<u8>,
    /// What was written out.
    pub emitted: Seq<u8>,
}

/// What a write of `data` does where nothing was registered, in a rewriter
/// with the parser in the state `m` and the bytes `pending` kept.
///
/// The data is added to the kept bytes, which count against the memory limit
/// with the stack of open elements: the write fails if the limit does not
/// allow that. The parser then takes the tokens of the kept bytes and the data
/// together, and what it has taken is written out as it was read and counts
/// no more. The rest is kept.
pub open spec fn spec_write(
    m: ParserModel,
    pending: Seq<u8>,
    data: Seq<u8>,
    strict: bool,
    limit: int,
) -> Result<WriteEnd, ErrorKind> {
    let input = pending + data;
    if pending.len() + charged_for(m.open) + data.len() > limit {
        Err(ErrorKind::MemoryLimitExceeded)
    } else {
        match drive(m, input, 0, false, strict, limit, input.len() as int) {
            Err(kind) => Err(kind),
            Ok(end) => Ok(
                WriteEnd {
                    model: end.model,
                    pending: input.subrange(end.pos as int, input.len() as int),
                    emitted: input.subrange(0, end.pos as int),
                },
            ),
        }
    }
}

/// What the end of the document does where nothing was registered: the kept
/// bytes are read as the last input, and fail or not as the parser does; the
/// elements that are still open are closed.
pub open spec fn spec_end(m: ParserModel, pending: Seq<u8>, strict: bool, limit: int) -> Result<
    ParserModel,
    ErrorKind,
> {
    match drive(m, pending, 0, true, strict, limit, pending.len() as int) {
        Err(kind) => Err(kind),
        Ok(end) => Ok(ended(end.model)),
    }
}

/// The parser never goes back in the input.
pub proof fn lemma_drive_bounds(
    m: ParserModel,
    input: Seq<u8>,
    pos: usize,
    last: bool,
    strict: bool,
    limit: int,
    other: int,
)
    requires
        pos <= input.len() <= usize::MAX,
    ensures
        drive(m, input, pos, last, strict, limit, other) matches Ok(end) ==> pos <= end.pos
            <= input.len() && (last ==> end.pos == input.len()),
    decreases input.len() - pos,
{
    lemma_drive_step(m, input, pos, last, strict, limit, other);
    match next_token(m.context, input, pos, last) {
        None => {
            if last && pos < input.len() {
                lemma_last_token(m.context, input, pos);
            }
        },
        Some(t) => {
            if pos < t.end <= input.len() {
                match token_step(
                    m,
                    t.kind,
                    t.script,
                    input.subrange(pos as int, t.end as int),
                    strict,
                    limit,
                    other,
                ) {
                    Err(_) => {},
                    Ok(after) => {
                        lemma_drive_bounds(after, input, t.end, last, strict, limit, other);
                    },
                }
            } else {
                crate::tokenizer::state_machine::lemma_token_not_empty(m.context, input, pos, last);
            }
        },
    }
}

/// The parts of a stream fit together: the controller has as many elements
/// open as the parser, and the memory limiter tracks `other` bytes beside what
/// the two charge.
pub open spec fn parts_fit(
    controller: &HtmlRewriteController,
    parser: &ParserState,
    limiter: &MemoryLimiter,
    other: int,
) -> bool {
    &&& controller.wf()
    &&& parser.wf()
    &&& controller.depth() == parser.simulator@.len()
    &&& other >= 0
    &&& limiter.usage() == other + parser.simulator.charged() + controller.charged()
}

/// Where a run of the parser over an input stands between two tokens.
pub struct Place<'h> {
    /// The controller.
    pub controller: HtmlRewriteController<'h>,
    /// The state of the parser.
    pub model: ParserModel,
    /// How much of the input was taken.
    pub pos: usize,
    /// What was written in the run.
    pub out: Seq<u8>,
}

/// What the taking of one token has led to.
pub struct Moment<'h> {
    /// Where the run stands after the token.
    pub place: Place<'h>,
    /// The failure, if the token has failed.
    pub fault: Option<ErrorKind>,
    /// What the parser has said of a tag.
    pub feedback: Option<TagFeedback>,
    /// The controller once the text node that the token ends has ended.
    pub between: HtmlRewriteController<'h>,
    /// What was written in the run by then.
    pub out_between: Seq<u8>,
}

/// The taking of the token that stands at the place `a` of the input, which
/// leads to `b`, where `other` bytes are charged to the memory limiter beside
/// those of the parser and of the controller.
///
/// The parser takes the token first, and fails as [`token_step`] says, with
/// nothing called and nothing written. Otherwise the controller takes it with
/// what the parser has said of it, as
/// [`HtmlRewriteController::token_handled`] says.
#[verifier::opaque]
pub open spec fn token_taken<'h>(
    input: Seq<u8>,
    last: bool,
    strict: bool,
    limit: int,
    other: int,
    a: Place<'h>,
    b: Moment<'h>,
) -> bool {
    match next_token(a.model.context, input, a.pos, last) {
        None => false,
        Some(t) => {
            let raw = input.subrange(a.pos as int, t.end as int);
            &&& a.pos < t.end <= input.len()
            &&& match token_step(
                a.model,
                t.kind,
                t.script,
                raw,
                strict,
                limit,
                other + a.controller.charged(),
            ) {
                Err(k) => b.fault == Some(k) && b.place.out == a.out
                    && b.place.controller.calls() == a.controller.calls(),
                Ok(m) => {
                    &&& b.place.model == m
                    &&& b.place.pos == t.end
                    &&& feedback_for(b.feedback, a.model, t.kind, raw)
                    &&& HtmlRewriteController::token_handled(
                        &a.controller,
                        &b.between,
                        &b.place.controller,
                        t.kind,
                        raw,
                        a.model.context.mode,
                        b.feedback,
                        other + charged_for(m.open) + a.controller.charged(),
                        limit,
                        a.out,
                        b.out_between,
                        b.place.out,
                        b.fault,
                    )
                },
            }
        },
    }
}

/// Where the run stands before the token `i`.
pub open spec fn place_before<'h>(start: Place<'h>, run: Seq<Moment<'h>>, i: int) -> Place<'h> {
    if i <= 0 {
        start
    } else {
        run[i - 1].place
    }
}

/// Where the run stands at its end.
pub open spec fn run_end<'h>(start: Place<'h>, run: Seq<Moment<'h>>) -> Place<'h> {
    place_before(start, run, run.len() as int)
}

/// Whether `run` is a run of the parser and the controller over the input
/// from the place `start`: each token is taken where the one before has led,
/// and none but the last has failed.
#[verifier::opaque]
pub open spec fn run_made<'h>(
    input: Seq<u8>,
    last: bool,
    strict: bool,
    limit: int,
    other: int,
    start: Place<'h>,
    run: Seq<Moment<'h>>,
) -> bool {
    forall|i: int|
        0 <= i < run.len() ==> token_taken(
            input,
            last,
            strict,
            limit,
            other,
            place_before(start, run, i),
            #[trigger] run[i],
        ) && (i < run.len() - 1 ==> run[i].fault is None)
}

/// Whether the run has come to the end of the tokens that are whole, with no
/// failure.
pub open spec fn run_complete<'h>(
    input: Seq<u8>,
    last: bool,
    start: Place<'h>,
    run: Seq<Moment<'h>>,
) -> bool {
    (run.len() > 0 ==> run.last().fault is None) && next_token(
        run_end(start, run).model.context,
        input,
        run_end(start, run).pos,
        last,
    ) is None
}

/// Whether the run has ended with the failure of its last token.
pub open spec fn run_failed<'h>(run: Seq<Moment<'h>>, fault: Option<ErrorKind>) -> bool {
    run.len() > 0 && fault is Some && run.last().fault == fault
}

/// A token that the parser refuses is taken, with nothing called and
/// nothing written. In strict mode only it is refused as ambiguous.
pub proof fn lemma_token_refused<'h>(
    input: Seq<u8>,
    last: bool,
    strict: bool,
    limit: int,
    other: int,
    a: Place<'h>,
    t: Token,
    k: ErrorKind,
    b: Moment<'h>,
)
    requires
        next_token(a.model.context, input, a.pos, last) == Some(t),
        a.pos < t.end <= input.len(),
        token_step(
            a.model,
            t.kind,
            t.script,
            input.subrange(a.pos as int, t.end as int),
            strict,
            limit,
            other + a.controller.charged(),
        ) == Err::<ParserModel, ErrorKind>(k),
        b.fault == Some(k),
        b.place.out == a.out,
        b.place.controller.calls() == a.controller.calls(),
    ensures
        token_taken(input, last, strict, limit, other, a, b),
        k == ErrorKind::ParsingAmbiguity ==> strict,
        k != ErrorKind::ContentHandlerError,
{
    reveal(token_taken);
    reveal(token_step);
}

/// A token that the parser has taken and that the controller has handled is
/// taken.
pub proof fn lemma_token_handled<'h>(
    input: Seq<u8>,
    last: bool,
    strict: bool,
    limit: int,
    other: int,
    a: Place<'h>,
    t: Token,
    b: Moment<'h>,
)
    requires
        next_token(a.model.context, input, a.pos, last) == Some(t),
        a.pos < t.end <= input.len(),
        token_step(
            a.model,
            t.kind,
            t.script,
            input.subrange(a.pos as int, t.end as int),
            strict,
            limit,
            other + a.controller.charged(),
        ) == Ok::<ParserModel, ErrorKind>(b.place.model),
        b.place.pos == t.end,
        feedback_for(b.feedback, a.model, t.kind, input.subrange(a.pos as int, t.end as int)),
        HtmlRewriteController::token_handled(
            &a.controller,
            &b.between,
            &b.place.controller,
            t.kind,
            input.subrange(a.pos as int, t.end as int),
            a.model.context.mode,
            b.feedback,
            other + charged_for(b.place.model.open) + a.controller.charged(),
            limit,
            a.out,
            b.out_between,
            b.place.out,
            b.fault,
        ),
    ensures
        token_taken(input, last, strict, limit, other, a, b),
{
    reveal(token_taken);
}

/// A run in which no token was taken yet.
pub proof fn lemma_run_begins<'h>(
    input: Seq<u8>,
    last: bool,
    strict: bool,
    limit: int,
    other: int,
    start: Place<'h>,
)
    ensures
        run_made(input, last, strict, limit, other, start, Seq::<Moment<'h>>::empty()),
{
    reveal(run_made);
}

/// A run that has not failed goes on with the token that is taken where it
/// stands.
pub proof fn lemma_run_goes_on<'h>(
    input: Seq<u8>,
    last: bool,
    strict: bool,
    limit: int,
    other: int,
    start: Place<'h>,
    run: Seq<Moment<'h>>,
    m: Moment<'h>,
)
    requires
        run_made(input, last, strict, limit, other, start, run),
        run.len() > 0 ==> run.last().fault is None,
        token_taken(input, last, strict, limit, other, run_end(start, run), m),
    ensures
        run_made(input, last, strict, limit, other, start, run.push(m)),
        run_end(start, run.push(m)) == m.place,
{
    reveal(run_made);
    let longer = run.push(m);
    assert forall|i: int| 0 <= i < longer.len() implies token_taken(
        input,
        last,
        strict,
        limit,
        other,
        place_before(start, longer, i),
        #[trigger] longer[i],
    ) && (i < longer.len() - 1 ==> longer[i].fault is None) by {
        if i < run.len() {
            assert(longer[i] == run[i]);
            assert(place_before(start, longer, i) == place_before(start, run, i));
            if i == run.len() - 1 {
                assert(run[i] == run.last());
            }
        }
    }
}

/// The taking of one token only adds to what was written and to the calls
/// that were made.
pub proof fn lemma_token_only_adds<'h>(
    input: Seq<u8>,
    last: bool,
    strict: bool,
    limit: int,
    other: int,
    a: Place<'h>,
    b: Moment<'h>,
)
    requires
        token_taken(input, last, strict, limit, other, a, b),
    ensures
        is_prefix(a.out, b.place.out),
        a.controller.calls().is_prefix_of(b.place.controller.calls()),
{
    reveal(token_taken);
    let t = next_token(a.model.context, input, a.pos, last)->Some_0;
    let raw = input.subrange(a.pos as int, t.end as int);
    match token_step(a.model, t.kind, t.script, raw, strict, limit, other + a.controller.charged()) {
        Err(_) => {
            assert(b.place.out.subrange(0, a.out.len() as int) =~= a.out);
        },
        Ok(m) => {
            HtmlRewriteController::lemma_token_adds(
                &a.controller,
                &b.between,
                &b.place.controller,
                t.kind,
                raw,
                a.model.context.mode,
                b.feedback,
                other + charged_for(m.open) + a.controller.charged(),
                limit,
                a.out,
                b.out_between,
                b.place.out,
                b.fault,
            );
        },
    }
}

/// Mutations are local. In a run, what was written by the time a token is
/// taken stays as it is whatever the handlers do that are called for that
/// token and for the tokens after it: they only add to it. The same holds of
/// the calls that were made.
pub proof fn lemma_run_only_adds<'h>(
    input: Seq<u8>,
    last: bool,
    strict: bool,
    limit: int,
    other: int,
    start: Place<'h>,
    run: Seq<Moment<'h>>,
    i: int,
    j: int,
)
    requires
        run_made(input, last, strict, limit, other, start, run),
        0 <= i <= j <= run.len(),
    ensures
        is_prefix(place_before(start, run, i).out, place_before(start, run, j).out),
        place_before(start, run, i).controller.calls().is_prefix_of(
            place_before(start, run, j).controller.calls(),
        ),
    decreases j - i,
{
    let first = place_before(start, run, i);
    if i < j {
        let middle = place_before(start, run, j - 1);
        let end = place_before(start, run, j);
        lemma_run_only_adds(input, last, strict, limit, other, start, run, i, j - 1);
        assert(token_taken(input, last, strict, limit, other, middle, run[j - 1])) by {
            reveal(run_made);
        }
        lemma_token_only_adds(input, last, strict, limit, other, middle, run[j - 1]);
        assert(end.out.subrange(0, first.out.len() as int) =~= middle.out.subrange(
            0,
            first.out.len() as int,
        ));
    } else {
        assert(first.out.subrange(0, first.out.len() as int) =~= first.out);
    }
}

/// Takes the tokens of the input one after the other until no whole token is
/// left or one fails, and says how much of the input was taken, and how the
/// run went.
#[verifier::rlimit(60)]
pub(crate) fn run_tokens<'h>(
    controller: &mut HtmlRewriteController<'h>,
    parser: &mut ParserState,
    limiter: &mut MemoryLimiter,
    strict: bool,
    input: &[u8],
    last: bool,
    out: &mut Vec<u8>,
    Ghost(other): Ghost<int>,
) -> (res: (Result<usize, RewritingError>, Ghost<Seq<Moment<'h>>>))
    requires
        parts_fit(old(controller), old(parser), old(limiter), other),
    ensures
        ({
            let r = res.0;
            let run = res.1@;
            let start = Place {
                controller: *old(controller),
                model: old(parser)@,
                pos: 0,
                out: old(out)@,
            };
            &&& run_made(input@, last, strict, old(limiter).limit() as int, other, start, run)
            &&& match r {
                Ok(pos) => run_complete(input@, last, start, run) && run_end(start, run) == (Place {
                    controller: *final(controller),
                    model: final(parser)@,
                    pos,
                    out: final(out)@,
                }),
                Err(e) => run_failed(run, Some(e.kind())) && run.last().place.controller
                    == *final(controller) && run.last().place.out == final(out)@,
            }
            &&& r matches Err(e) ==> error_carried(final(controller).results(), e)
            &&& r is Ok && none_failed(old(controller).results()) ==> none_failed(
                final(controller).results(),
            )
            &&& (r matches Err(e) && e is ParsingAmbiguity) ==> strict
            &&& (r matches Err(e) && e is ContentHandlerError) ==> final(controller).calls().len()
                > old(controller).calls().len()
        }),
        final(limiter).limit() == old(limiter).limit(),
        is_prefix(old(out)@, final(out)@),
        final(controller).same_setup(old(controller)),
        old(controller).calls().is_prefix_of(final(controller).calls()),
        old(controller).is_passive() ==> final(controller).calls() == old(controller).calls(),
        res.0 matches Ok(pos) ==> {
            &&& parts_fit(final(controller), final(parser), final(limiter), other)
            &&& pos <= input@.len()
            &&& last ==> pos == input@.len()
            &&& final(controller).is_passive() == old(controller).is_passive()
            &&& walk(old(parser)@, input@, 0, last) == (DriveEnd { model: final(parser)@, pos })
        },
        old(controller).is_passive() ==> match drive(
            old(parser)@,
            input@,
            0,
            last,
            strict,
            old(limiter).limit() as int,
            other,
        ) {
            Ok(end) => res.0 == Ok::<usize, RewritingError>(end.pos) && final(parser)@ == end.model
                && final(out)@ == old(out)@ + input@.subrange(0, end.pos as int),
            Err(kind) => res.0 matches Err(e) && e.kind() == kind,
        },
{
    let len: usize = input.len();
    let mut pos: usize = 0;
    let ghost limit = limiter.limit() as int;
    let ghost start = Place { controller: *controller, model: parser@, pos: 0, out: out@ };
    let ghost mut run: Seq<Moment<'h>> = Seq::empty();
    proof {
        lemma_run_begins(input@, last, strict, limit, other, start);
    }
    assert(out@ + input@.subrange(0, 0) =~= out@);
    assert(out@.subrange(0, out@.len() as int) =~= out@);
    loop
        invariant
            start == (Place {
                controller: *old(controller),
                model: old(parser)@,
                pos: 0,
                out: old(out)@,
            }),
            run_made(input@, last, strict, limit, other, start, run),
            run.len() > 0 ==> run.last().fault is None,
            run_end(start, run) == (Place {
                controller: *controller,
                model: parser@,
                pos,
                out: out@,
            }),
            controller.calls().len() >= old(controller).calls().len(),
            none_failed(old(controller).results()) ==> none_failed(controller.results()),
            len == input@.len(),
            pos <= len,
            limit == limiter.limit(),
            limit == old(limiter).limit(),
            parts_fit(controller, parser, limiter, other),
            controller.is_passive() == old(controller).is_passive(),
            controller.same_setup(old(controller)),
            old(controller).calls().is_prefix_of(controller.calls()),
            old(controller).is_passive() ==> controller.calls() == old(controller).calls(),
            is_prefix(old(out)@, out@),
            walk(old(parser)@, input@, 0, last) == walk(parser@, input@, pos, last),
            old(controller).is_passive() ==> drive(
                old(parser)@,
                input@,
                0,
                last,
                strict,
                limit,
                other,
            ) == drive(parser@, input@, pos, last, strict, limit, other) && out@ == old(out)@
                + input@.subrange(0, pos as int),
        decreases len - pos,
    {
        let ghost before = out@;
        proof {
            controller.lemma_passive_charges_nothing();
            lemma_drive_step(parser@, input@, pos, last, strict, limit, other);
            lemma_walk_step(parser@, input@, pos, last);
            if last && pos < len {
                lemma_last_token(parser@.context, input@, pos);
            }
        }
        let ghost here = Place { controller: *controller, model: parser@, pos, out: out@ };
        match scan_token(&parser.context, input, pos, last) {
            None => {
                return (Ok(pos), Ghost(run));
            },
            Some(t) => {
                let raw = vstd::slice::slice_subrange(input, t.start, t.end);
                let mode = parser.context.mode;
                proof {
                    lemma_closing_depth_bound(
                        parser.simulator@,
                        crate::parser::state::tag_name_of(raw@, true),
                    );
                }
                let feedback = match parser.feed_token(t.kind, t.script, raw, strict, limiter) {
                    Ok(feedback) => feedback,
                    Err(e) => {
                        proof {
                            let m = Moment {
                                place: here,
                                fault: Some(e.kind()),
                                feedback: None,
                                between: *controller,
                                out_between: out@,
                            };
                            lemma_token_refused(
                                input@,
                                last,
                                strict,
                                limit,
                                other,
                                here,
                                t,
                                e.kind(),
                                m,
                            );
                            lemma_run_goes_on(input@, last, strict, limit, other, start, run, m);
                            run = run.push(m);
                        }
                        return (Err(e), Ghost(run));
                    },
                };
                let ghost said = feedback;
                let ghost usage = limiter.usage() as int;
                let handled = controller.handle_token(t.kind, raw, mode, feedback, limiter, out);
                proof {
                    let (between, out_between) = choose|
                        between: HtmlRewriteController<'h>,
                        out_between: Seq<u8>,
                    | #[trigger]
                        HtmlRewriteController::token_handled(
                            &here.controller,
                            &between,
                            controller,
                            t.kind,
                            raw@,
                            mode,
                            said,
                            usage,
                            limit,
                            before,
                            out_between,
                            out@,
                            fault_of(handled),
                        );
                    let m = Moment {
                        place: Place { controller: *controller, model: parser@, pos: t.end, out: out@ },
                        fault: fault_of(handled),
                        feedback: said,
                        between,
                        out_between,
                    };
                    lemma_token_handled(input@, last, strict, limit, other, here, t, m);
                    lemma_run_goes_on(input@, last, strict, limit, other, start, run, m);
                    run = run.push(m);
                }
                match handled {
                    Ok(()) => {},
                    Err(e) => {
                        assert(out@.subrange(0, old(out)@.len() as int) =~= before.subrange(
                            0,
                            old(out)@.len() as int,
                        ));
                        return (Err(e), Ghost(run));
                    },
                }
                proof {
                    assert(out@.subrange(0, old(out)@.len() as int) =~= before.subrange(
                        0,
                        old(out)@.len() as int,
                    ));
                    if old(controller).is_passive() {
                        assert(out@ =~= old(out)@ + input@.subrange(0, t.end as int));
                    }
                }
                pos = t.end;
            },
        }
    }
}

/// The most room that the parsing buffer is given before input has come.
pub const MAX_PREALLOCATION: usize = 0x10_0000;

/// The transform stream of a rewriter.
pub struct TransformStream<'h, O: OutputSink> {
    controller: HtmlRewriteController<'h>,
    parser: ParserState,
    limiter: MemoryLimiter,
    buffer: Vec<u8>,
    sink: O,
    strict: bool,
    run: Ghost<Seq<Moment<'h>>>,
    staged: Ghost<Seq<u8>>,
}

impl<'h, O: OutputSink> TransformStream<'h, O> {
    /// The controller.
    pub closed spec fn controller(&self) -> HtmlRewriteController<'h> {
        self.controller
    }

    /// What the handlers that were called have returned, in the order of the
    /// calls.
    pub open spec fn results(&self) -> Seq<Result<(), HandlerError>> {
        self.controller().results()
    }

    /// How the parser and the controller went over the input in the last
    /// write, or at the end of the document.
    pub closed spec fn last_run(&self) -> Seq<Moment<'h>> {
        self.run@
    }

    /// What the last write or the end of the document had written when it
    /// returned. The sink is handed it if the call succeeds.
    pub closed spec fn last_output(&self) -> Seq<u8> {
        self.staged@
    }

    /// What is tracked is the sum of what is kept: the bytes of the input
    /// that are no whole token yet, what the stack of open elements charges,
    /// and what the selector matching machine charges.
    pub proof fn lemma_memory_is_the_sum(&self)
        requires
            self.wf(),
        ensures
            self.memory_usage() == self.pending().len() + charged_for(self.model().open)
                + self.controller().charged(),
    {
    }

    /// No more is tracked than the memory limit allows, and the limit is a
    /// number of bytes that the machine can count.
    pub proof fn lemma_memory_within_limit(&self)
        ensures
            self.memory_usage() <= self.memory_limit(),
            self.memory_limit() <= usize::MAX,
    {
        self.limiter.lemma_within_limit();
    }

    /// Where a run starts in the stream.
    pub open spec fn start_of(before: &Self) -> Place<'h> {
        Place {
            controller: before.controller(),
            model: before.model(),
            pos: 0,
            out: Seq::empty(),
        }
    }

    /// What a write of `data` does, for every rewriter.
    ///
    /// The data is added to the bytes that were kept, and the write fails, with
    /// nothing read, exactly if the memory limit does not allow that. Then
    /// the tokens that are whole are taken one after the other, as
    /// [`run_made`] says, until none is left or one fails; the write fails as
    /// that token does. A write that does not fail hands the sink what was
    /// written for the tokens, keeps the rest of the input, and leaves parser
    /// and controller as the run has left them.
    #[verifier::opaque]
    pub open spec fn written(
        before: &Self,
        after: &Self,
        data: Seq<u8>,
        fault: Option<ErrorKind>,
    ) -> bool {
        let input = before.pending() + data;
        let limit = before.memory_limit() as int;
        let start = Self::start_of(before);
        let run = after.last_run();
        let end = run_end(start, run);
        if before.memory_usage() + data.len() > limit {
            fault == Some(ErrorKind::MemoryLimitExceeded) && after.calls() == before.calls()
        } else {
            &&& run_made(input, false, before.strict(), limit, input.len() as int, start, run)
            &&& if run.len() > 0 && run.last().fault is Some {
                fault == run.last().fault && after.calls() == run.last().place.controller.calls()
            } else {
                &&& run_complete(input, false, start, run)
                &&& end.pos <= input.len()
                &&& fault is None
                &&& after.controller() == end.controller
                &&& after.model() == end.model
                &&& after.pending() == input.subrange(end.pos as int, input.len() as int)
                &&& after.emitted() == before.emitted() + end.out
            }
        }
    }

    /// What the end of the document does, for every rewriter.
    ///
    /// The bytes that were kept are read as the last of the input: the tokens
    /// are taken one after the other, as [`run_made`] says, and the end fails
    /// as a token does. Then the text node that is open ends and the elements
    /// that are open are closed, as
    /// [`HtmlRewriteController::document_ended`] says. An end that does not
    /// fail hands the sink what was written.
    #[verifier::opaque]
    pub open spec fn ended_so(before: &Self, after: &Self, fault: Option<ErrorKind>) -> bool {
        let input = before.pending();
        let limit = before.memory_limit() as int;
        let start = Self::start_of(before);
        let run = after.last_run();
        let end = run_end(start, run);
        &&& run_made(input, true, before.strict(), limit, input.len() as int, start, run)
        &&& if run.len() > 0 && run.last().fault is Some {
            fault == run.last().fault && after.calls() == run.last().place.controller.calls()
        } else {
            &&& run_complete(input, true, start, run)
            &&& HtmlRewriteController::document_ended(
                &end.controller,
                &after.controller(),
                end.out,
                after.last_output(),
                fault,
            )
            &&& fault is None ==> after.model() == ended(end.model) && after.pending().len() == 0
                && after.emitted() == before.emitted() + after.last_output()
        }
    }

    /// The state of the parser.
    pub closed spec fn model(&self) -> ParserModel {
        self.parser@
    }

    /// The end of the input that is kept because it is no whole token yet.
    pub closed spec fn pending(&self) -> Seq<u8> {
        self.buffer@
    }

    /// All output that the sink was handed.
    pub closed spec fn emitted(&self) -> Seq<u8> {
        self.sink.received()
    }

    /// Nothing was registered: no selector and no handler.
    pub open spec fn is_passive(&self) -> bool {
        self.controller().is_passive()
    }

    /// Whether ambiguous markup is an error.
    pub closed spec fn strict(&self) -> bool {
        self.strict
    }

    /// The program that the selectors were compiled to.
    pub open spec fn program(&self) -> Seq<Instruction> {
        self.controller().program()
    }

    /// All calls of handlers that were made, in their order.
    pub open spec fn calls(&self) -> Seq<Call> {
        self.controller().calls()
    }

    /// Which handlers each selector came with, by locator.
    pub open spec fn kinds(&self) -> Seq<HandlerKinds> {
        self.controller().kinds()
    }

    /// Which handlers for the whole document there are, in the order of
    /// registration.
    pub open spec fn document_kinds(&self) -> Seq<DocumentKinds> {
        self.controller().document_kinds()
    }

    /// The two streams have the same settings: selectors, kinds of handlers,
    /// memory limit and strictness.
    pub open spec fn same_setup(&self, other: &Self) -> bool {
        self.program() == other.program() && self.kinds() == other.kinds()
            && self.document_kinds() == other.document_kinds() && self.memory_limit()
            == other.memory_limit() && self.strict() == other.strict()
    }

    /// The most that may be tracked, in bytes.
    pub closed spec fn memory_limit(&self) -> nat {
        self.limiter.limit()
    }

    /// What is tracked at present, in bytes.
    pub closed spec fn memory_usage(&self) -> nat {
        self.limiter.usage()
    }

    /// The stream is consistent. What is tracked is the kept input, the stack
    /// of open elements and the state of the selector matching machine.
    pub closed spec fn wf(&self) -> bool {
        parts_fit(&self.controller, &self.parser, &self.limiter, self.buffer@.len() as int)
    }

    /// Mutations are local, and handlers are called in the order of the
    /// document, over a whole write. What a write that succeeds hands the sink
    /// begins with what was written by the time any token of the write was
    /// taken, whatever the handlers do that are called for that token and for
    /// those after it; and the calls that it has made begin with those that
    /// were made by then.
    pub proof fn lemma_write_only_adds(before: &Self, after: &Self, data: Seq<u8>, i: int)
        requires
            Self::written(before, after, data, None),
            0 <= i <= after.last_run().len(),
        ensures
            is_prefix(
                before.emitted() + place_before(Self::start_of(before), after.last_run(), i).out,
                after.emitted(),
            ),
            place_before(Self::start_of(before), after.last_run(), i).controller.calls().is_prefix_of(
                after.calls(),
            ),
    {
        reveal(TransformStream::written);
        let start = Self::start_of(before);
        let run = after.last_run();
        let input = before.pending() + data;
        lemma_run_only_adds(
            input,
            false,
            before.strict(),
            before.memory_limit() as int,
            input.len() as int,
            start,
            run,
            i,
            run.len() as int,
        );
        let early = place_before(start, run, i).out;
        let all = run_end(start, run).out;
        assert((before.emitted() + all).subrange(0, (before.emitted() + early).len() as int)
            =~= before.emitted() + early);
    }

    /// The same over the end of the document: what the end hands the sink
    /// begins with what was written by the time any of its tokens was taken,
    /// and the calls that it has made begin with those that were made by
    /// then.
    pub proof fn lemma_end_only_adds(before: &Self, after: &Self, i: int)
        requires
            Self::ended_so(before, after, None),
            0 <= i <= after.last_run().len(),
        ensures
            is_prefix(
                before.emitted() + place_before(Self::start_of(before), after.last_run(), i).out,
                after.emitted(),
            ),
            place_before(Self::start_of(before), after.last_run(), i).controller.calls().is_prefix_of(
                after.calls(),
            ),
    {
        reveal(TransformStream::ended_so);
        let start = Self::start_of(before);
        let run = after.last_run();
        let input = before.pending();
        lemma_run_only_adds(
            input,
            true,
            before.strict(),
            before.memory_limit() as int,
            input.len() as int,
            start,
            run,
            i,
            run.len() as int,
        );
        let end = run_end(start, run);
        HtmlRewriteController::lemma_node_end_adds(
            &end.controller,
            &after.controller(),
            end.out,
            after.last_output(),
            None,
        );
        let early = place_before(start, run, i).out;
        assert(after.last_output().subrange(0, early.len() as int) =~= end.out.subrange(
            0,
            early.len() as int,
        ));
        assert((before.emitted() + after.last_output()).subrange(
            0,
            (before.emitted() + early).len() as int,
        ) =~= before.emitted() + early);
    }

    /// A stream at the start of a document.
    pub fn new(
        controller: HtmlRewriteController<'h>,
        limiter: MemoryLimiter,
        sink: O,
        strict: bool,
        preallocated_parsing_buffer_size: usize,
    ) -> (r: Self)
        requires
            controller.wf(),
            controller.depth() == 0,
            controller.charged() == 0,
            limiter.usage() == 0,
        ensures
            r.wf(),
            r.model() == crate::parser::state::initial_model(),
            r.pending() == Seq::<u8>::empty(),
            r.emitted() == sink.received(),
            r.is_passive() == controller.is_passive(),
            r.strict() == strict,
            r.memory_limit() == limiter.limit(),
            r.memory_usage() == 0,
            r.program() == controller.program(),
            r.kinds() == controller.kinds(),
            r.document_kinds() == controller.document_kinds(),
            r.calls() == controller.calls(),
            r.controller() == controller,
    {
        let room: usize = if preallocated_parsing_buffer_size <= MAX_PREALLOCATION {
            preallocated_parsing_buffer_size
        } else {
            MAX_PREALLOCATION
        };
        TransformStream {
            controller,
            parser: ParserState::new(),
            limiter,
            buffer: Vec::with_capacity(room),
            sink,
            strict,
            run: Ghost(Seq::empty()),
            staged: Ghost(Seq::empty()),
        }
    }

    /// The output sink.
    pub fn output_sink(&self) -> (r: &O)
        ensures
            r.received() == self.emitted(),
    {
        &self.sink
    }

    /// Gives the output sink back.
    pub fn into_output_sink(self) -> (r: O)
        ensures
            r.received() == self.emitted(),
    {
        self.sink
    }

    /// What is tracked at present, in bytes: never more than the limit.
    pub fn current_memory_usage(&self) -> (r: usize)
        ensures
            r == self.memory_usage(),
            r <= self.memory_limit(),
    {
        self.limiter.current_usage()
    }

    /// The most that may be tracked, in bytes.
    pub fn max_memory_usage(&self) -> (r: usize)
        ensures
            r == self.memory_limit(),
    {
        self.limiter.max_allowed()
    }

    /// Hands the sink what a call has written, if it has written anything.
    fn flush(&mut self, out: &Vec<u8>)
        ensures
            final(self).sink.received() == old(self).sink.received() + out@,
            final(self).controller == old(self).controller,
            final(self).parser == old(self).parser,
            final(self).limiter == old(self).limiter,
            final(self).buffer == old(self).buffer,
            final(self).strict == old(self).strict,
            final(self).run == old(self).run,
            final(self).staged == old(self).staged,
    {
        if out.len() > 0 {
            self.sink.handle_chunk(out.as_slice());
        } else {
            assert(self.sink.received() + out@ =~= self.sink.received());
        }
    }

    fn write_chunk(&mut self, data: &[u8]) -> (r: Result<(), RewritingError>)
        requires
            old(self).wf(),
        ensures
            final(self).same_setup(old(self)),
            old(self).calls().is_prefix_of(final(self).calls()),
            old(self).is_passive() ==> final(self).calls() == old(self).calls(),
            is_prefix(old(self).emitted(), final(self).emitted()),
            r is Err ==> final(self).emitted() == old(self).emitted(),
            r is Ok ==> final(self).wf() && final(self).is_passive() == old(self).is_passive(),
            r is Ok ==> final(self).model() == walk(
                old(self).model(),
                old(self).pending() + data@,
                0,
                false,
            ).model && final(self).pending() == (old(self).pending() + data@).subrange(
                walk(old(self).model(), old(self).pending() + data@, 0, false).pos as int,
                (old(self).pending() + data@).len() as int,
            ),
            old(self).is_passive() ==> match spec_write(
                old(self).model(),
                old(self).pending(),
                data@,
                old(self).strict(),
                old(self).memory_limit() as int,
            ) {
                Ok(end) => r is Ok && final(self).model() == end.model && final(self).pending()
                    == end.pending && final(self).emitted() == old(self).emitted() + end.emitted,
                Err(kind) => r matches Err(e) && e.kind() == kind,
            },
            Self::written(old(self), final(self), data@, fault_of(r)),
            carried(final(self).results(), r),
            r is Ok && none_failed(old(self).results()) ==> none_failed(final(self).results()),
            (r matches Err(e) && e is ParsingAmbiguity) ==> old(self).strict(),
            (r matches Err(e) && e is ContentHandlerError) ==> final(self).calls().len() > old(self).calls().len(),
    {
        let mut out: Vec<u8> = Vec::new();
        let ghost emitted = self.sink.received();
        proof {
            reveal(TransformStream::written);
        }
        assert(emitted.subrange(0, emitted.len() as int) =~= emitted);
        let ghost whole = self.buffer@ + data@;
        proof {
            self.limiter.lemma_within_limit();
            self.controller.lemma_passive_charges_nothing();
        }
        match self.limiter.increase_usage(data.len()) {
            Ok(()) => {},
            Err(e) => {
                return Err(RewritingError::MemoryLimitExceeded(e));
            },
        }
        if self.buffer.len() == 0 {
            assert(whole =~= data@);
            let (ran, Ghost(run)) = run_tokens(
                &mut self.controller,
                &mut self.parser,
                &mut self.limiter,
                self.strict,
                data,
                false,
                &mut out,
                Ghost(data@.len() as int),
            );
            self.run = Ghost(run);
            let pos = match ran {
                Ok(pos) => pos,
                Err(e) => {
                    return Err(e);
                },
            };
            if pos < data.len() {
                self.buffer = copied(data, pos, data.len());
            } else {
                assert(data@.subrange(pos as int, data@.len() as int) =~= self.buffer@);
            }
            self.limiter.decrease_usage(pos);
            assert(out@ =~= Seq::<u8>::empty() + out@);
        } else {
            let mut input: Vec<u8> = Vec::new();
            push_all(&mut input, self.buffer.as_slice());
            push_all(&mut input, data);
            assert(input@ =~= whole);
            let (ran, Ghost(run)) = run_tokens(
                &mut self.controller,
                &mut self.parser,
                &mut self.limiter,
                self.strict,
                input.as_slice(),
                false,
                &mut out,
                Ghost(input@.len() as int),
            );
            self.run = Ghost(run);
            let pos = match ran {
                Ok(pos) => pos,
                Err(e) => {
                    return Err(e);
                },
            };
            self.buffer = copied(input.as_slice(), pos, input.len());
            self.limiter.decrease_usage(pos);
            assert(out@ =~= Seq::<u8>::empty() + out@);
        }
        self.flush(&out);
        assert((emitted + out@).subrange(0, emitted.len() as int) =~= emitted);
        Ok(())
    }

    /// Takes a chunk of the input: reads the tokens that are whole, writes out
    /// what is to be written for them, and keeps the rest for the next chunk.
    ///
    /// What the write does is what [`Self::written`] says, for every stream:
    /// which handlers are called, with what, what is written and when the
    /// write fails. Where nothing was registered, that is what [`spec_write`]
    /// says. After a failure the sink has received nothing more.
    pub fn write(&mut self, data: &[u8]) -> (r: Result<(), RewritingError>)
        requires
            old(self).wf(),
        ensures
            final(self).same_setup(old(self)),
            old(self).calls().is_prefix_of(final(self).calls()),
            old(self).is_passive() ==> final(self).calls() == old(self).calls(),
            final(self).memory_usage() <= final(self).memory_limit(),
            is_prefix(old(self).emitted(), final(self).emitted()),
            r is Err ==> final(self).emitted() == old(self).emitted(),
            r is Ok ==> final(self).wf() && final(self).is_passive() == old(self).is_passive(),
            r is Ok ==> final(self).model() == walk(
                old(self).model(),
                old(self).pending() + data@,
                0,
                false,
            ).model && final(self).pending() == (old(self).pending() + data@).subrange(
                walk(old(self).model(), old(self).pending() + data@, 0, false).pos as int,
                (old(self).pending() + data@).len() as int,
            ),
            old(self).is_passive() ==> match spec_write(
                old(self).model(),
                old(self).pending(),
                data@,
                old(self).strict(),
                old(self).memory_limit() as int,
            ) {
                Ok(end) => r is Ok && final(self).model() == end.model && final(self).pending()
                    == end.pending && final(self).emitted() == old(self).emitted() + end.emitted,
                Err(kind) => r matches Err(e) && e.kind() == kind,
            },
            Self::written(old(self), final(self), data@, fault_of(r)),
            carried(final(self).results(), r),
            r is Ok && none_failed(old(self).results()) ==> none_failed(final(self).results()),
            (r matches Err(e) && e is ParsingAmbiguity) ==> old(self).strict(),
            (r matches Err(e) && e is ContentHandlerError) ==> final(self).calls().len() > old(self).calls().len(),
    {
        let r = self.write_chunk(data);
        proof {
            self.limiter.lemma_within_limit();
        }
        r
    }

    fn end_document(&mut self) -> (r: Result<(), RewritingError>)
        requires
            old(self).wf(),
        ensures
            final(self).same_setup(old(self)),
            old(self).calls().is_prefix_of(final(self).calls()),
            old(self).is_passive() ==> final(self).calls() == old(self).calls(),
            is_prefix(old(self).emitted(), final(self).emitted()),
            r is Err ==> final(self).emitted() == old(self).emitted(),
            r is Ok ==> final(self).wf() && final(self).is_passive() == old(self).is_passive()
                && final(self).pending().len() == 0,
            r is Ok ==> final(self).model() == ended(
                walk(old(self).model(), old(self).pending(), 0, true).model,
            ),
            r is Ok && old(self).is_passive() ==> final(self).memory_usage() == 0,
            old(self).is_passive() ==> match spec_end(
                old(self).model(),
                old(self).pending(),
                old(self).strict(),
                old(self).memory_limit() as int,
            ) {
                Ok(model) => r is Ok && final(self).model() == model
                    && final(self).emitted() == old(self).emitted() + old(self).pending(),
                Err(kind) => r matches Err(e) && e.kind() == kind,
            },
            Self::ended_so(old(self), final(self), fault_of(r)),
            carried(final(self).results(), r),
            r is Ok && none_failed(old(self).results()) ==> none_failed(final(self).results()),
            (r matches Err(e) && e is ParsingAmbiguity) ==> old(self).strict(),
            (r matches Err(e) && e is ContentHandlerError) ==> final(self).calls().len() > old(self).calls().len(),
    {
        let mut out: Vec<u8> = Vec::new();
        let ghost emitted = self.sink.received();
        proof {
            reveal(TransformStream::ended_so);
        }
        assert(emitted.subrange(0, emitted.len() as int) =~= emitted);
        let mut input: Vec<u8> = Vec::new();
        push_all(&mut input, self.buffer.as_slice());
        assert(input@ =~= self.buffer@);
        let input_len: usize = input.len();
        proof {
            lemma_drive_bounds(
                self.parser@,
                input@,
                0,
                true,
                self.strict,
                self.limiter.limit() as int,
                input@.len() as int,
            );
        }
        let (ran, Ghost(run)) = run_tokens(
            &mut self.controller,
            &mut self.parser,
            &mut self.limiter,
            self.strict,
            input.as_slice(),
            true,
            &mut out,
            Ghost(input@.len() as int),
        );
        self.run = Ghost(run);
        let pos = match ran {
            Ok(pos) => pos,
            Err(e) => {
                return Err(e);
            },
        };
        let ghost middle = out@;
        let finished = self.controller.finish(&mut self.limiter, &mut out);
        self.staged = Ghost(out@);
        match finished {
            Ok(()) => {},
            Err(e) => {
                return Err(e);
            },
        }
        proof {
            self.controller.lemma_passive_charges_nothing();
        }
        self.buffer = Vec::new();
        self.limiter.decrease_usage(input.len());
        self.parser.simulator.close_all(&mut self.limiter);
        assert(out@ =~= Seq::<u8>::empty() + out@);
        assert(input@.subrange(0, input@.len() as int) =~= input@);
        self.flush(&out);
        assert((emitted + out@).subrange(0, emitted.len() as int) =~= emitted);
        Ok(())
    }

    /// Takes the end of the document: what was kept is read as the last of the
    /// input, and nothing is kept any more.
    ///
    /// What the end does is what [`Self::ended_so`] says, for every stream.
    /// Where nothing was registered, the kept bytes are written out as they
    /// were read, unless the parser fails as [`spec_end`] says.
    pub fn end(&mut self) -> (r: Result<(), RewritingError>)
        requires
            old(self).wf(),
        ensures
            final(self).same_setup(old(self)),
            old(self).calls().is_prefix_of(final(self).calls()),
            old(self).is_passive() ==> final(self).calls() == old(self).calls(),
            final(self).memory_usage() <= final(self).memory_limit(),
            is_prefix(old(self).emitted(), final(self).emitted()),
            r is Err ==> final(self).emitted() == old(self).emitted(),
            r is Ok ==> final(self).wf() && final(self).is_passive() == old(self).is_passive()
                && final(self).pending().len() == 0,
            r is Ok ==> final(self).model() == ended(
                walk(old(self).model(), old(self).pending(), 0, true).model,
            ),
            r is Ok && old(self).is_passive() ==> final(self).memory_usage() == 0,
            old(self).is_passive() ==> match spec_end(
                old(self).model(),
                old(self).pending(),
                old(self).strict(),
                old(self).memory_limit() as int,
            ) {
                Ok(model) => r is Ok && final(self).model() == model
                    && final(self).emitted() == old(self).emitted() + old(self).pending(),
                Err(kind) => r matches Err(e) && e.kind() == kind,
            },
            Self::ended_so(old(self), final(self), fault_of(r)),
            carried(final(self).results(), r),
            r is Ok && none_failed(old(self).results()) ==> none_failed(final(self).results()),
            (r matches Err(e) && e is ParsingAmbiguity) ==> old(self).strict(),
            (r matches Err(e) && e is ContentHandlerError) ==> final(self).calls().len() > old(self).calls().len(),
    {
        let r = self.end_document();
        proof {
            self.limiter.lemma_within_limit();
        }
        r
    }
}


impl<'h> TransformStream<'h, OutputBuffer> {
    /// Takes the output that was not taken yet. Nothing else changes.
    pub fn take_output(&mut self) -> (r: Vec<u8>)
        ensures
            r@ == old(self).untaken(),
            final(self).untaken() == Seq::<u8>::empty(),
            final(self).emitted() == old(self).emitted(),
            final(self).wf() == old(self).wf(),
            final(self).model() == old(self).model(),
            final(self).pending() == old(self).pending(),
            final(self).is_passive() == old(self).is_passive(),
            final(self).memory_usage() == old(self).memory_usage(),
            final(self).same_setup(old(self)),
            final(self).calls() == old(self).calls(),
            final(self).controller() == old(self).controller(),
            final(self).last_run() == old(self).last_run(),
            final(self).last_output() == old(self).last_output(),
    {
        self.sink.take()
    }

    /// The output that was not taken yet.
    pub closed spec fn untaken(&self) -> Seq<u8> {
        self.sink.kept()
    }
}

} // verus!
