//! The state of the parser between two tokens, and what a token does to it.
//!
//! The state is small: how the tokenizer reads what follows, and the stack of
//! the open elements. What a token does to it does not depend on content
//! handlers, so it is stated here once, as a function.

use vstd::prelude::*;
use crate::errors::{ErrorKind, MemoryLimitExceededError, ParsingAmbiguityError, RewritingError};
use crate::html::{is_void, is_void_name, text_mode_for, text_mode_of, Namespace};
use crate::memory::MemoryLimiter;
use crate::parser::tree_builder::{
    charged_for, closing_depth, in_foreign_content, namespace_for, open_after_end,
    open_after_start, start_cost, stays_open, OpenTagView, TreeBuilderSimulator,
};
use crate::tokenizer::chars::{copied, lower_seq, lowered};
use crate::tokenizer::eager::{find_name_end, tag_name_span};
use crate::tokenizer::state_machine::{
    next_token, LexContext, LexContextView, ScriptCarry, ScriptLevel, TextMode, TokenKind,
};

verus! {

/// The state of the parser between two tokens.
pub struct ParserModel {
    /// How the tokenizer reads what follows.
    pub context: LexContextView,
    /// The open elements, the outermost first.
    pub open: Seq<OpenTagView>,
}

/// The state at the start of a document.
pub open spec fn initial_model() -> ParserModel {
    ParserModel { context: crate::tokenizer::state_machine::initial_context(), open: Seq::empty() }
}

/// The name of the tag with the bytes `raw`, in lower case.
pub open spec fn tag_name_of(raw: Seq<u8>, end_tag: bool) -> Seq<u8> {
    lower_seq(tag_name_span(raw, end_tag).of(raw))
}

/// The state of script text outside scripts.
pub open spec fn plain_script() -> ScriptCarry {
    ScriptCarry { level: ScriptLevel::Plain, dashes: 0 }
}

/// Whether strict mode refuses the token: text in `title` or `textarea` that
/// begins with `</` (it is an end tag to some readers and text to others), and
/// the start tag of an HTML element with content that ends with `/>`.
pub open spec fn is_ambiguous(m: ParserModel, kind: TokenKind, raw: Seq<u8>) -> bool {
    match kind {
        TokenKind::Text => m.context.mode == TextMode::RcData && raw.len() >= 2 && raw[0] == 0x3C
            && raw[1] == 0x2F,
        TokenKind::StartTag { self_closing } => self_closing && namespace_for(
            m.open,
            tag_name_of(raw, false),
        ) == Namespace::Html && !is_void(tag_name_of(raw, false)),
        _ => false,
    }
}

/// How the tokenizer reads what follows the start tag of an element with the
/// given namespace and name: the content of some HTML elements is text up to
/// their end tag.
pub open spec fn context_after_start(
    namespace: Namespace,
    name: Seq<u8>,
    open: Seq<OpenTagView>,
) -> LexContextView {
    let mode = if namespace == Namespace::Html {
        text_mode_of(name)
    } else {
        TextMode::Data
    };
    LexContextView {
        mode,
        closing_name: if mode == TextMode::Data {
            Seq::empty()
        } else {
            name
        },
        cdata_allowed: in_foreign_content(open),
        script: plain_script(),
    }
}

/// How the tokenizer reads what follows an end tag.
pub open spec fn context_after_end(open: Seq<OpenTagView>) -> LexContextView {
    LexContextView {
        mode: TextMode::Data,
        closing_name: Seq::empty(),
        cdata_allowed: in_foreign_content(open),
        script: plain_script(),
    }
}

/// The state after a token with the bytes `raw`, where the token does not
/// fail. A start tag may put an element on the stack, and sets how its content
/// is read. An end tag closes elements. Text carries the state of script text
/// on.
pub open spec fn token_effect(
    m: ParserModel,
    kind: TokenKind,
    script: ScriptCarry,
    raw: Seq<u8>,
) -> ParserModel {
    match kind {
        TokenKind::StartTag { self_closing } => {
            let name = tag_name_of(raw, false);
            let open = open_after_start(m.open, name, self_closing);
            ParserModel { context: context_after_start(namespace_for(m.open, name), name, open), open }
        },
        TokenKind::EndTag => {
            let open = open_after_end(m.open, tag_name_of(raw, true));
            ParserModel { context: context_after_end(open), open }
        },
        TokenKind::Text => ParserModel {
            context: LexContextView {
                mode: m.context.mode,
                closing_name: m.context.closing_name,
                cdata_allowed: m.context.cdata_allowed,
                script,
            },
            open: m.open,
        },
        _ => m,
    }
}

/// What a token with the bytes `raw` does to the state.
///
/// In strict mode an ambiguous token fails. A start tag fails if the bytes
/// charged by others, those charged for the stack and those of the element that
/// it opens pass the limit. Any other token has its effect.
#[verifier::opaque]
pub open spec fn token_step(
    m: ParserModel,
    kind: TokenKind,
    script: ScriptCarry,
    raw: Seq<u8>,
    strict: bool,
    limit: int,
    other: int,
) -> Result<ParserModel, ErrorKind> {
    if strict && is_ambiguous(m, kind, raw) {
        Err(ErrorKind::ParsingAmbiguity)
    } else if kind matches TokenKind::StartTag { self_closing } && other + charged_for(m.open)
        + start_cost(m.open, tag_name_of(raw, false), self_closing) > limit {
        Err(ErrorKind::MemoryLimitExceeded)
    } else {
        Ok(token_effect(m, kind, script, raw))
    }
}

/// The state at the end of the document: the elements that are still open are
/// closed.
pub open spec fn ended(m: ParserModel) -> ParserModel {
    ParserModel { context: m.context, open: Seq::empty() }
}

/// The parser takes the tokens of the input from the place `pos` on, one after
/// the other, until no whole token is left, where no token fails.
#[verifier::opaque]
pub open spec fn walk(m: ParserModel, input: Seq<u8>, pos: usize, last: bool) -> DriveEnd
    decreases input.len() - pos,
{
    match next_token(m.context, input, pos, last) {
        None => DriveEnd { model: m, pos },
        Some(t) => if pos < t.end <= input.len() {
            walk(
                token_effect(m, t.kind, t.script, input.subrange(pos as int, t.end as int)),
                input,
                t.end,
                last,
            )
        } else {
            DriveEnd { model: m, pos }
        },
    }
}

/// One step of [`walk`].
pub proof fn lemma_walk_step(m: ParserModel, input: Seq<u8>, pos: usize, last: bool)
    ensures
        walk(m, input, pos, last) == match next_token(m.context, input, pos, last) {
            None => DriveEnd { model: m, pos },
            Some(t) => if pos < t.end <= input.len() {
                walk(
                    token_effect(m, t.kind, t.script, input.subrange(pos as int, t.end as int)),
                    input,
                    t.end,
                    last,
                )
            } else {
                DriveEnd { model: m, pos }
            },
        },
{
    reveal(walk);
}

/// Where no token fails, the parser ends where [`walk`] says.
pub proof fn lemma_drive_is_walk(
    m: ParserModel,
    input: Seq<u8>,
    pos: usize,
    last: bool,
    strict: bool,
    limit: int,
    other: int,
)
    ensures
        drive(m, input, pos, last, strict, limit, other) matches Ok(end) ==> end == walk(
            m,
            input,
            pos,
            last,
        ),
    decreases input.len() - pos,
{
    reveal(drive);
    reveal(walk);
    reveal(token_step);
    match next_token(m.context, input, pos, last) {
        None => {},
        Some(t) => {
            if pos < t.end <= input.len() {
                let raw = input.subrange(pos as int, t.end as int);
                match token_step(m, t.kind, t.script, raw, strict, limit, other) {
                    Err(_) => {},
                    Ok(after) => {
                        lemma_drive_is_walk(after, input, t.end, last, strict, limit, other);
                    },
                }
            }
        },
    }
}

/// Where the parser stands when it has taken every whole token of the input.
pub struct DriveEnd {
    pub model: ParserModel,
    pub pos: usize,
}

/// The parser takes the tokens of the input from the place `pos` on, one after
/// the other, until no whole token is left or a token fails.
#[verifier::opaque]
pub open spec fn drive(
    m: ParserModel,
    input: Seq<u8>,
    pos: usize,
    last: bool,
    strict: bool,
    limit: int,
    other: int,
) -> Result<DriveEnd, ErrorKind>
    decreases input.len() - pos,
{
    match next_token(m.context, input, pos, last) {
        None => Ok(DriveEnd { model: m, pos }),
        Some(t) => if pos < t.end <= input.len() {
            match token_step(
                m,
                t.kind,
                t.script,
                input.subrange(pos as int, t.end as int),
                strict,
                limit,
                other,
            ) {
                Err(kind) => Err(kind),
                Ok(after) => drive(after, input, t.end, last, strict, limit, other),
            }
        } else {
            Ok(DriveEnd { model: m, pos })
        },
    }
}

/// One step of [`drive`]: with no whole token left the parser stands; otherwise
/// it takes the token and goes on behind it.
pub proof fn lemma_drive_step(
    m: ParserModel,
    input: Seq<u8>,
    pos: usize,
    last: bool,
    strict: bool,
    limit: int,
    other: int,
)
    ensures
        drive(m, input, pos, last, strict, limit, other) == match next_token(
            m.context,
            input,
            pos,
            last,
        ) {
            None => Ok::<DriveEnd, ErrorKind>(DriveEnd { model: m, pos }),
            Some(t) => if pos < t.end <= input.len() {
                match token_step(
                    m,
                    t.kind,
                    t.script,
                    input.subrange(pos as int, t.end as int),
                    strict,
                    limit,
                    other,
                ) {
                    Err(kind) => Err::<DriveEnd, ErrorKind>(kind),
                    Ok(after) => drive(after, input, t.end, last, strict, limit, other),
                }
            } else {
                Ok::<DriveEnd, ErrorKind>(DriveEnd { model: m, pos })
            },
        },
{
    reveal(drive);
}

/// What the parser tells of a tag that it has taken.
pub struct TagFeedback {
    /// The name of the tag, in lower case.
    pub name: Vec<u8>,
    /// The namespace of the element that a start tag opens.
    pub namespace: Namespace,
    /// Whether the element that a start tag opens stays open.
    pub stays_open: bool,
    /// How many elements an end tag closes.
    pub closed: usize,
}

/// Whether the feedback is right for a token that was taken in the state `m`.
pub open spec fn feedback_for(feedback: Option<TagFeedback>, m: ParserModel, kind: TokenKind, raw: Seq<u8>) -> bool {
    match kind {
        TokenKind::StartTag { self_closing } => feedback matches Some(f) && f.name@ == tag_name_of(
            raw,
            false,
        ) && f.namespace == namespace_for(m.open, f.name@) && f.stays_open == stays_open(
            f.namespace,
            f.name@,
            self_closing,
        ) && f.closed == 0,
        TokenKind::EndTag => feedback matches Some(f) && f.name@ == tag_name_of(raw, true)
            && f.closed == closing_depth(m.open, f.name@) && !f.stays_open,
        _ => feedback is None,
    }
}

/// The parser: the context of the tokenizer and the stack of open elements.
pub struct ParserState {
    pub context: LexContext,
    pub simulator: TreeBuilderSimulator,
}

impl View for ParserState {
    type V = ParserModel;

    open spec fn view(&self) -> ParserModel {
        ParserModel { context: self.context@, open: self.simulator@ }
    }
}

fn lowered_name(raw: &[u8], end_tag: bool) -> (r: Vec<u8>)
    ensures
        r@ == tag_name_of(raw@, end_tag),
        r@ == lower_seq(r@),
{
    let from: usize = if end_tag {
        2
    } else {
        1
    };
    let name = if from <= raw.len() {
        lowered(raw, from, find_name_end(raw, from, raw.len()))
    } else {
        assert(raw@.subrange(0, 0) =~= Seq::<u8>::empty());
        lowered(raw, 0, 0)
    };
    assert(lower_seq(name@) =~= name@);
    name
}

impl ParserState {
    /// The parser is consistent.
    pub open spec fn wf(&self) -> bool {
        self.simulator.wf()
    }

    /// The parser at the start of a document.
    pub fn new() -> (r: ParserState)
        ensures
            r.wf(),
            r@ == initial_model(),
    {
        ParserState { context: LexContext::new(), simulator: TreeBuilderSimulator::new() }
    }

    /// Takes a token with the bytes `raw`.
    ///
    /// Fails, and changes nothing, where [`token_step`] fails, with an error of
    /// that kind.
    pub fn feed_token(
        &mut self,
        kind: TokenKind,
        script: ScriptCarry,
        raw: &[u8],
        strict: bool,
        limiter: &mut MemoryLimiter,
    ) -> (r: Result<Option<TagFeedback>, RewritingError>)
        requires
            old(self).wf(),
            old(self).simulator.charged() <= old(limiter).usage(),
        ensures
            final(self).wf(),
            final(limiter).limit() == old(limiter).limit(),
            final(self).simulator.charged() <= final(limiter).usage(),
            final(limiter).usage() - final(self).simulator.charged()
                == old(limiter).usage() - old(self).simulator.charged(),
            match token_step(
                old(self)@,
                kind,
                script,
                raw@,
                strict,
                old(limiter).limit() as int,
                old(limiter).usage() - old(self).simulator.charged(),
            ) {
                Ok(m) => r matches Ok(feedback) && final(self)@ == m && feedback_for(
                    feedback,
                    old(self)@,
                    kind,
                    raw@,
                ),
                Err(k) => r matches Err(e) && e.kind() == k && final(self)@ == old(self)@,
            },
            r is Ok ==> final(self)@ == token_effect(old(self)@, kind, script, raw@),
    {
        proof {
            reveal(token_step);
        }
        match kind {
            TokenKind::StartTag { self_closing } => {
                let name = lowered_name(raw, false);
                if strict && self_closing {
                    let namespace = self.simulator.namespace_of(name.as_slice());
                    if namespace == Namespace::Html && !is_void_name(name.as_slice()) {
                        assert(lower_seq(name@) == name@);
                        return Err(RewritingError::ParsingAmbiguity(ParsingAmbiguityError));
                    }
                }
                assert(lower_seq(name@) == name@);
                let kept = copied(name.as_slice(), 0, name.len());
                assert(name@.subrange(0, name@.len() as int) =~= name@);
                match self.simulator.start_tag(name, self_closing, limiter) {
                    Err(e) => Err(RewritingError::MemoryLimitExceeded(e)),
                    Ok((namespace, stays)) => {
                        let mode = if namespace == Namespace::Html {
                            text_mode_for(kept.as_slice())
                        } else {
                            TextMode::Data
                        };
                        let closing_name = if mode == TextMode::Data {
                            Vec::new()
                        } else {
                            copied(kept.as_slice(), 0, kept.len())
                        };
                        assert(kept@.subrange(0, kept@.len() as int) =~= kept@);
                        self.context = LexContext {
                            mode,
                            closing_name,
                            cdata_allowed: self.simulator.is_in_foreign_content(),
                            script: ScriptCarry { level: ScriptLevel::Plain, dashes: 0 },
                        };
                        assert(self.context@ =~= context_after_start(
                            namespace,
                            kept@,
                            self.simulator@,
                        ));
                        Ok(Some(TagFeedback { name: kept, namespace, stays_open: stays, closed: 0 }))
                    },
                }
            },
            TokenKind::EndTag => {
                let name = lowered_name(raw, true);
                let closed = self.simulator.end_tag(name.as_slice(), limiter);
                self.context = LexContext {
                    mode: TextMode::Data,
                    closing_name: Vec::new(),
                    cdata_allowed: self.simulator.is_in_foreign_content(),
                    script: ScriptCarry { level: ScriptLevel::Plain, dashes: 0 },
                };
                assert(self.context@ =~= context_after_end(self.simulator@));
                Ok(Some(TagFeedback { name, namespace: Namespace::Html, stays_open: false, closed }))
            },
            TokenKind::Text => {
                if strict && self.context.mode == TextMode::RcData && raw.len() >= 2 && raw[0]
                    == 0x3C && raw[1] == 0x2F {
                    return Err(RewritingError::ParsingAmbiguity(ParsingAmbiguityError));
                }
                self.context.script = script;
                Ok(None)
            },
            _ => Ok(None),
        }
    }
}

} // verus!
