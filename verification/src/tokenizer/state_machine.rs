//! The table of tokenizer states, and the run of the machine over the input
//! that finds where the next token ends.
//!
//! The machine reads one byte at a time and never looks ahead, so a token that
//! it has found in a prefix of the input is the token it finds in the whole.

use vstd::prelude::*;
use crate::tokenizer::chars::{
    ends_name, ends_name_byte, is_alpha, is_alpha_byte, is_whitespace, is_whitespace_byte, lower,
    lower_byte,
};

verus! {

/// How the text after a start tag is read.
#[derive(Clone, Copy, PartialEq, Eq, Structural, Debug)]
pub enum TextMode {
    /// Ordinary content: tags, comments and text.
    Data,
    /// The content of `title` and `textarea`: text up to the end tag.
    RcData,
    /// The content of `style`, `xmp`, `iframe`, `noembed`, `noframes` and
    /// `noscript`: text up to the end tag.
    RawText,
    /// The content of `script`: text up to the end tag, with escapes.
    ScriptData,
    /// Everything after `plaintext`: text up to the end of the input.
    PlainText,
}

/// How deep the text of a script is inside `<!--` escapes.
#[derive(Clone, Copy, PartialEq, Eq, Structural, Debug)]
pub enum ScriptLevel {
    Plain,
    Escaped,
    DoubleEscaped,
}

/// What the text of a script carries from one text token to the next: the
/// escape level, and how many `-` (at most two count) the text ends with.
#[derive(Clone, Copy, PartialEq, Eq, Structural, Debug)]
pub struct ScriptCarry {
    pub level: ScriptLevel,
    pub dashes: u8,
}

/// What the tokenizer has been told about the place of the next token.
pub struct LexContext {
    /// How text is read.
    pub mode: TextMode,
    /// In lower case, the name of the element whose end tag ends the text in
    /// the modes `RcData`, `RawText` and `ScriptData`.
    pub closing_name: Vec<u8>,
    /// Whether `<![CDATA[` opens a CDATA section (it does in foreign content).
    pub cdata_allowed: bool,
    /// The state of script text.
    pub script: ScriptCarry,
}

/// The mathematical value of a [`LexContext`].
pub struct LexContextView {
    pub mode: TextMode,
    pub closing_name: Seq<u8>,
    pub cdata_allowed: bool,
    pub script: ScriptCarry,
}

impl View for LexContext {
    type V = LexContextView;

    open spec fn view(&self) -> LexContextView {
        LexContextView {
            mode: self.mode,
            closing_name: self.closing_name@,
            cdata_allowed: self.cdata_allowed,
            script: self.script,
        }
    }
}

/// The context at the start of a document.
pub open spec fn initial_context() -> LexContextView {
    LexContextView {
        mode: TextMode::Data,
        closing_name: Seq::empty(),
        cdata_allowed: false,
        script: ScriptCarry { level: ScriptLevel::Plain, dashes: 0 },
    }
}

impl LexContext {
    /// The context at the start of a document.
    pub fn new() -> (r: LexContext)
        ensures
            r@ == initial_context(),
    {
        LexContext {
            mode: TextMode::Data,
            closing_name: Vec::new(),
            cdata_allowed: false,
            script: ScriptCarry { level: ScriptLevel::Plain, dashes: 0 },
        }
    }
}

/// Where the machine is inside a tag, after `<` and the first letter of the
/// name.
#[derive(Clone, Copy, PartialEq, Eq, Structural, Debug)]
pub enum TagState {
    Name,
    BeforeAttributeName,
    AttributeName,
    AfterAttributeName,
    BeforeAttributeValue,
    ValueDoubleQuoted,
    ValueSingleQuoted,
    ValueUnquoted,
    AfterQuotedValue,
    SelfClosing,
}

/// Where the machine is inside a comment, after `<!--`.
#[derive(Clone, Copy, PartialEq, Eq, Structural, Debug)]
pub enum CommentState {
    Start,
    StartDash,
    Body,
    EndDash,
    End,
    EndBang,
}

/// The states of the machine.
#[derive(Clone, Copy, PartialEq, Eq, Structural, Debug)]
pub enum State {
    /// Nothing of the token has been read.
    Begin,
    /// Inside text outside scripts.
    Text,
    /// Inside the text of a script.
    ScriptText { level: ScriptLevel, dashes: u8 },
    /// After `<` at the start of the token.
    LessThan,
    /// After `</` in the mode `Data`.
    EndTagOpen,
    /// Inside a start or an end tag.
    Tag { end: bool, at: TagState },
    /// After `<!`.
    MarkupOpen,
    /// After `<!-`.
    MarkupDash,
    /// After `<!` and the first letters of `doctype`, as many as the number says.
    MarkupDoctype(u8),
    /// After `<!` and the first bytes of `[CDATA[`, as many as the number says.
    MarkupCData(u8),
    /// Inside a comment.
    Comment(CommentState),
    /// Inside a comment that `>` ends.
    BogusComment,
    /// Inside a doctype.
    Doctype,
    /// Inside a CDATA section, after as many `]` as the number says (at most two).
    CData(u8),
    /// After `</` where text is read up to an end tag.
    RawEndOpen,
    /// After `</` and the first letters of the closing name, as many as the
    /// number says.
    RawEndName(usize),
    /// After `<!` in a script that is not escaped.
    ScriptBang,
    /// After `<!-` in a script that is not escaped.
    ScriptBangDash,
    /// In an escaped script, after `<` and the first letters of `script`.
    ScriptDoubleStart(u8),
    /// In a doubly escaped script, after `</` and the first letters of `script`.
    ScriptDoubleEnd(u8),
}

/// The kinds of token.
#[derive(Clone, Copy, PartialEq, Eq, Structural, Debug)]
pub enum TokenKind {
    Text,
    StartTag { self_closing: bool },
    EndTag,
    Comment,
    Doctype,
    CData,
    /// Markup that stands for nothing (`</>`); it is passed through.
    Skipped,
}

/// What reading one byte does.
#[derive(Clone, Copy, PartialEq, Eq, Structural, Debug)]
pub enum Step {
    /// The byte belongs to the token; the machine goes on in the given state.
    Go(State),
    /// The token is complete. It includes the byte that was read if `inclusive`.
    Emit { kind: TokenKind, inclusive: bool, script: ScriptCarry },
}

/// The byte at place `n` of `doctype`.
pub open spec fn doctype_letter(n: u8) -> u8 {
    if n == 0 {
        0x64
    } else if n == 1 {
        0x6F
    } else if n == 2 {
        0x63
    } else if n == 3 {
        0x74
    } else if n == 4 {
        0x79
    } else if n == 5 {
        0x70
    } else {
        0x65
    }
}

/// The byte at place `n` of `[CDATA[`.
pub open spec fn cdata_letter(n: u8) -> u8 {
    if n == 0 || n == 6 {
        0x5B
    } else if n == 1 {
        0x43
    } else if n == 2 {
        0x44
    } else if n == 3 || n == 5 {
        0x41
    } else {
        0x54
    }
}

/// The byte at place `n` of `script`.
pub open spec fn script_letter(n: u8) -> u8 {
    if n == 0 {
        0x73
    } else if n == 1 {
        0x63
    } else if n == 2 {
        0x72
    } else if n == 3 {
        0x69
    } else if n == 4 {
        0x70
    } else {
        0x74
    }
}

/// What a byte does inside a tag: the next place in the tag, or `None` where the
/// byte is the `>` that ends it.
pub open spec fn tag_step(at: TagState, b: u8) -> Option<TagState> {
    match at {
        TagState::Name => if is_whitespace(b) {
            Some(TagState::BeforeAttributeName)
        } else if b == 0x2F {
            Some(TagState::SelfClosing)
        } else if b == 0x3E {
            None
        } else {
            Some(TagState::Name)
        },
        TagState::BeforeAttributeName | TagState::SelfClosing | TagState::AfterQuotedValue => if b
            == 0x3E {
            None
        } else if is_whitespace(b) {
            Some(TagState::BeforeAttributeName)
        } else if b == 0x2F {
            Some(TagState::SelfClosing)
        } else {
            Some(TagState::AttributeName)
        },
        TagState::AttributeName | TagState::AfterAttributeName => if b == 0x3E {
            None
        } else if is_whitespace(b) {
            Some(TagState::AfterAttributeName)
        } else if b == 0x2F {
            Some(TagState::SelfClosing)
        } else if b == 0x3D {
            Some(TagState::BeforeAttributeValue)
        } else {
            Some(TagState::AttributeName)
        },
        TagState::BeforeAttributeValue => if b == 0x3E {
            None
        } else if is_whitespace(b) {
            Some(TagState::BeforeAttributeValue)
        } else if b == 0x22 {
            Some(TagState::ValueDoubleQuoted)
        } else if b == 0x27 {
            Some(TagState::ValueSingleQuoted)
        } else {
            Some(TagState::ValueUnquoted)
        },
        TagState::ValueDoubleQuoted => if b == 0x22 {
            Some(TagState::AfterQuotedValue)
        } else {
            Some(TagState::ValueDoubleQuoted)
        },
        TagState::ValueSingleQuoted => if b == 0x27 {
            Some(TagState::AfterQuotedValue)
        } else {
            Some(TagState::ValueSingleQuoted)
        },
        TagState::ValueUnquoted => if b == 0x3E {
            None
        } else if is_whitespace(b) {
            Some(TagState::BeforeAttributeName)
        } else {
            Some(TagState::ValueUnquoted)
        },
    }
}

/// What a byte does inside a comment: the next place, or `None` where the byte
/// is the `>` that ends it.
pub open spec fn comment_step(at: CommentState, b: u8) -> Option<CommentState> {
    match at {
        CommentState::Start => if b == 0x2D {
            Some(CommentState::StartDash)
        } else if b == 0x3E {
            None
        } else {
            Some(CommentState::Body)
        },
        CommentState::StartDash => if b == 0x2D {
            Some(CommentState::End)
        } else if b == 0x3E {
            None
        } else {
            Some(CommentState::Body)
        },
        CommentState::Body | CommentState::EndDash => if b == 0x2D {
            if at == CommentState::Body {
                Some(CommentState::EndDash)
            } else {
                Some(CommentState::End)
            }
        } else {
            Some(CommentState::Body)
        },
        CommentState::End => if b == 0x3E {
            None
        } else if b == 0x21 {
            Some(CommentState::EndBang)
        } else if b == 0x2D {
            Some(CommentState::End)
        } else {
            Some(CommentState::Body)
        },
        CommentState::EndBang => if b == 0x2D {
            Some(CommentState::EndDash)
        } else if b == 0x3E {
            None
        } else {
            Some(CommentState::Body)
        },
    }
}

/// A token of the given kind ends, and the script state stays as the context
/// has it.
pub open spec fn emit(cx: LexContextView, kind: TokenKind, inclusive: bool) -> Step {
    Step::Emit { kind, inclusive, script: cx.script }
}

/// What a byte does in the text of a script at the given level, after the
/// given number of dashes.
pub open spec fn script_text_byte(level: ScriptLevel, dashes: u8, b: u8) -> Step {
    if b == 0x3C {
        Step::Emit { kind: TokenKind::Text, inclusive: false, script: ScriptCarry { level, dashes } }
    } else if level == ScriptLevel::Plain {
        Step::Go(State::ScriptText { level, dashes: 0 })
    } else if b == 0x2D {
        Step::Go(State::ScriptText { level, dashes: if dashes < 2 { (dashes
            + 1) as u8 } else { 2 } })
    } else if b == 0x3E && dashes >= 2 {
        Step::Go(State::ScriptText { level: ScriptLevel::Plain, dashes: 0 })
    } else {
        Step::Go(State::ScriptText { level, dashes: 0 })
    }
}

/// What a byte does when it is read as text, in a script at the given level
/// with no dash before it.
pub open spec fn text_byte(cx: LexContextView, level: ScriptLevel, b: u8) -> Step {
    match cx.mode {
        TextMode::PlainText => Step::Go(State::Text),
        TextMode::ScriptData => script_text_byte(level, 0, b),
        _ => if b == 0x3C {
            emit(cx, TokenKind::Text, false)
        } else {
            Step::Go(State::Text)
        },
    }
}

/// What a byte does inside a tag.
pub open spec fn tag_byte(cx: LexContextView, end: bool, at: TagState, b: u8) -> Step {
    match tag_step(at, b) {
        Some(next) => Step::Go(State::Tag { end, at: next }),
        None => emit(
            cx,
            if end {
                TokenKind::EndTag
            } else {
                TokenKind::StartTag { self_closing: at == TagState::SelfClosing }
            },
            true,
        ),
    }
}

/// What a byte does inside a comment that `>` ends.
pub open spec fn bogus_byte(cx: LexContextView, b: u8) -> Step {
    if b == 0x3E {
        emit(cx, TokenKind::Comment, true)
    } else {
        Step::Go(State::BogusComment)
    }
}

/// What a byte does after `</` and `n` letters of the closing name, where text
/// is read up to an end tag.
pub open spec fn raw_end_name_byte(cx: LexContextView, n: usize, b: u8) -> Step {
    if is_alpha(b) {
        if n < cx.closing_name.len() && lower(b) == cx.closing_name[n as int] {
            Step::Go(State::RawEndName((n + 1) as usize))
        } else {
            text_byte(cx, cx.script.level, b)
        }
    } else if n == cx.closing_name.len() && n > 0 && ends_name(b) {
        tag_byte(cx, true, TagState::Name, b)
    } else {
        text_byte(cx, cx.script.level, b)
    }
}

/// What a byte does after `<` (and `/`, if `end`) and `n` letters of `script`
/// in an escaped script: whether the escape level changes is known when the
/// name ends.
pub open spec fn script_double_byte(cx: LexContextView, end: bool, n: u8, b: u8) -> Step {
    let here = if end {
        ScriptLevel::DoubleEscaped
    } else {
        ScriptLevel::Escaped
    };
    let there = if end {
        ScriptLevel::Escaped
    } else {
        ScriptLevel::DoubleEscaped
    };
    if is_alpha(b) {
        if n < 6 && lower(b) == script_letter(n) {
            if end {
                Step::Go(State::ScriptDoubleEnd((n + 1) as u8))
            } else {
                Step::Go(State::ScriptDoubleStart((n + 1) as u8))
            }
        } else {
            Step::Go(State::ScriptText { level: here, dashes: 0 })
        }
    } else if ends_name(b) {
        Step::Go(State::ScriptText { level: if n == 6 { there } else { here }, dashes: 0 })
    } else {
        script_text_byte(here, 0, b)
    }
}

/// What a byte does after `<` at the start of a token.
pub open spec fn less_than_byte(cx: LexContextView, b: u8) -> Step {
    match cx.mode {
        TextMode::Data => if is_alpha(b) {
            Step::Go(State::Tag { end: false, at: TagState::Name })
        } else if b == 0x2F {
            Step::Go(State::EndTagOpen)
        } else if b == 0x21 {
            Step::Go(State::MarkupOpen)
        } else if b == 0x3F {
            Step::Go(State::BogusComment)
        } else {
            text_byte(cx, cx.script.level, b)
        },
        TextMode::ScriptData => if b == 0x2F {
            if cx.script.level == ScriptLevel::DoubleEscaped {
                Step::Go(State::ScriptDoubleEnd(0))
            } else {
                Step::Go(State::RawEndOpen)
            }
        } else if b == 0x21 && cx.script.level == ScriptLevel::Plain {
            Step::Go(State::ScriptBang)
        } else if is_alpha(b) && cx.script.level == ScriptLevel::Escaped {
            script_double_byte(cx, false, 0, b)
        } else {
            script_text_byte(cx.script.level, 0, b)
        },
        TextMode::PlainText => Step::Go(State::Text),
        _ => if b == 0x2F {
            Step::Go(State::RawEndOpen)
        } else {
            text_byte(cx, cx.script.level, b)
        },
    }
}

/// What reading the byte `b` in the state `s` does.
pub open spec fn step(cx: LexContextView, s: State, b: u8) -> Step {
    match s {
        State::Begin => if cx.mode == TextMode::PlainText {
            Step::Go(State::Text)
        } else if b == 0x3C {
            Step::Go(State::LessThan)
        } else if cx.mode == TextMode::ScriptData {
            script_text_byte(cx.script.level, cx.script.dashes, b)
        } else {
            Step::Go(State::Text)
        },
        State::Text => text_byte(cx, cx.script.level, b),
        State::ScriptText { level, dashes } => script_text_byte(level, dashes, b),
        State::LessThan => less_than_byte(cx, b),
        State::EndTagOpen => if is_alpha(b) {
            Step::Go(State::Tag { end: true, at: TagState::Name })
        } else if b == 0x3E {
            emit(cx, TokenKind::Skipped, true)
        } else {
            Step::Go(State::BogusComment)
        },
        State::Tag { end, at } => tag_byte(cx, end, at, b),
        State::MarkupOpen => if b == 0x2D {
            Step::Go(State::MarkupDash)
        } else if lower(b) == doctype_letter(0) {
            Step::Go(State::MarkupDoctype(1))
        } else if b == cdata_letter(0) && cx.cdata_allowed {
            Step::Go(State::MarkupCData(1))
        } else {
            bogus_byte(cx, b)
        },
        State::MarkupDash => if b == 0x2D {
            Step::Go(State::Comment(CommentState::Start))
        } else {
            bogus_byte(cx, b)
        },
        State::MarkupDoctype(n) => if n < 7 && lower(b) == doctype_letter(n) {
            if n == 6 {
                Step::Go(State::Doctype)
            } else {
                Step::Go(State::MarkupDoctype((n + 1) as u8))
            }
        } else {
            bogus_byte(cx, b)
        },
        State::MarkupCData(n) => if n < 7 && b == cdata_letter(n) {
            if n == 6 {
                Step::Go(State::CData(0))
            } else {
                Step::Go(State::MarkupCData((n + 1) as u8))
            }
        } else {
            bogus_byte(cx, b)
        },
        State::Comment(at) => match comment_step(at, b) {
            Some(next) => Step::Go(State::Comment(next)),
            None => emit(cx, TokenKind::Comment, true),
        },
        State::BogusComment => bogus_byte(cx, b),
        State::Doctype => if b == 0x3E {
            emit(cx, TokenKind::Doctype, true)
        } else {
            Step::Go(State::Doctype)
        },
        State::CData(n) => if b == 0x5D {
            Step::Go(State::CData(if n < 2 { (n + 1) as u8 } else { 2 }))
        } else if b == 0x3E && n >= 2 {
            emit(cx, TokenKind::CData, true)
        } else {
            Step::Go(State::CData(0))
        },
        State::RawEndOpen => if is_alpha(b) {
            raw_end_name_byte(cx, 0, b)
        } else {
            text_byte(cx, cx.script.level, b)
        },
        State::RawEndName(n) => raw_end_name_byte(cx, n, b),
        State::ScriptBang => if b == 0x2D {
            Step::Go(State::ScriptBangDash)
        } else {
            script_text_byte(ScriptLevel::Plain, 0, b)
        },
        State::ScriptBangDash => if b == 0x2D {
            Step::Go(State::ScriptText { level: ScriptLevel::Escaped, dashes: 2 })
        } else {
            script_text_byte(ScriptLevel::Plain, 0, b)
        },
        State::ScriptDoubleStart(n) => script_double_byte(cx, false, n, b),
        State::ScriptDoubleEnd(n) => script_double_byte(cx, true, n, b),
    }
}

/// How a run of the machine ends.
#[derive(Clone, Copy, PartialEq, Eq, Structural, Debug)]
pub enum Outcome {
    /// A token of this kind ends before the place `end`.
    Token { kind: TokenKind, end: usize, script: ScriptCarry },
    /// The input ended first, with the machine in this state.
    Pending(State),
}

/// The run of the machine from the place `i` of the input in the state `s`.
pub open spec fn run(cx: LexContextView, input: Seq<u8>, i: int, s: State) -> Outcome
    decreases input.len() - i,
{
    if i < 0 || i >= input.len() {
        Outcome::Pending(s)
    } else {
        match step(cx, s, input[i]) {
            Step::Go(next) => run(cx, input, i + 1, next),
            Step::Emit { kind, inclusive, script } => Outcome::Token {
                kind,
                end: (if inclusive {
                    i + 1
                } else {
                    i
                }) as usize,
                script,
            },
        }
    }
}

/// A token: its kind, the bytes `start..end` of the input that it covers, and
/// the state of script text after it.
#[derive(Clone, Copy, PartialEq, Eq, Structural, Debug)]
pub struct Token {
    pub kind: TokenKind,
    pub start: usize,
    pub end: usize,
    pub script: ScriptCarry,
}

/// The token that the rest of the input is at the end of the document, when the
/// machine has stopped in the state `s`: an unfinished tag is text, an
/// unfinished comment a comment, an unfinished doctype a doctype.
pub open spec fn kind_at_end(s: State) -> Option<TokenKind> {
    match s {
        State::Begin => None,
        State::MarkupOpen | State::MarkupDash | State::MarkupDoctype(_) | State::MarkupCData(_)
        | State::Comment(_) | State::BogusComment => Some(TokenKind::Comment),
        State::Doctype => Some(TokenKind::Doctype),
        State::CData(_) => Some(TokenKind::CData),
        _ => Some(TokenKind::Text),
    }
}

/// Whether the machine, stopped in the state `s` at the end of a chunk, gives
/// out what it has read as a chunk of text rather than wait for more.
pub open spec fn is_text_run(s: State) -> bool {
    s == State::Text || s is ScriptText
}

/// The state of script text after a text run that stopped in the state `s`.
pub open spec fn script_after(cx: LexContextView, s: State) -> ScriptCarry {
    match s {
        State::ScriptText { level, dashes } => ScriptCarry { level, dashes },
        _ => cx.script,
    }
}

/// The next token of the input from the place `pos`, if the input holds one.
///
/// A token that ends inside the input is given whole. Where the input ends
/// first: if it is the `last` input, the rest is one token; otherwise text read
/// so far is given as a chunk of text, and anything else waits for more input.
pub open spec fn next_token(cx: LexContextView, input: Seq<u8>, pos: usize, last: bool) -> Option<
    Token,
> {
    match run(cx, input, pos as int, State::Begin) {
        Outcome::Token { kind, end, script } => Some(Token { kind, start: pos, end, script }),
        Outcome::Pending(s) => if last {
            match kind_at_end(s) {
                Some(kind) => Some(
                    Token {
                        kind,
                        start: pos,
                        end: input.len() as usize,
                        script: script_after(cx, s),
                    },
                ),
                None => None,
            }
        } else if is_text_run(s) {
            Some(
                Token {
                    kind: TokenKind::Text,
                    start: pos,
                    end: input.len() as usize,
                    script: script_after(cx, s),
                },
            )
        } else {
            None
        },
    }
}

/// A token that ends inside the input does not depend on what follows: it is
/// the same token when more input is appended.
pub proof fn lemma_run_stable(cx: LexContextView, input: Seq<u8>, more: Seq<u8>, i: int, s: State)
    requires
        run(cx, input, i, s) is Token,
    ensures
        run(cx, input + more, i, s) == run(cx, input, i, s),
    decreases input.len() - i,
{
    if 0 <= i < input.len() {
        assert((input + more)[i] == input[i]);
        match step(cx, s, input[i]) {
            Step::Go(next) => {
                lemma_run_stable(cx, input, more, i + 1, next);
            },
            Step::Emit { .. } => {},
        }
    }
}

/// A run that started before the end of the input and gave a token has read at
/// least up to where it started: the token ends at or after the place `i`, and
/// inside the input.
pub proof fn lemma_run_bounds(cx: LexContextView, input: Seq<u8>, i: int, s: State)
    requires
        0 <= i,
        input.len() <= usize::MAX,
    ensures
        run(cx, input, i, s) matches Outcome::Token { end, .. } ==> i <= end <= input.len(),
    decreases input.len() - i,
{
    if i < input.len() {
        match step(cx, s, input[i]) {
            Step::Go(next) => {
                lemma_run_bounds(cx, input, i + 1, next);
            },
            Step::Emit { .. } => {},
        }
    }
}

/// No byte takes the machine back to where nothing of a token has been read.
pub proof fn lemma_run_leaves_begin(cx: LexContextView, input: Seq<u8>, i: int, s: State)
    requires
        s != State::Begin,
    ensures
        run(cx, input, i, s) matches Outcome::Pending(end) ==> end != State::Begin,
    decreases input.len() - i,
{
    if 0 <= i < input.len() {
        match step(cx, s, input[i]) {
            Step::Go(next) => {
                lemma_run_leaves_begin(cx, input, i + 1, next);
            },
            Step::Emit { .. } => {},
        }
    }
}

/// At the end of the document whatever is left of the input is a token.
pub proof fn lemma_last_token(cx: LexContextView, input: Seq<u8>, pos: usize)
    requires
        pos < input.len(),
    ensures
        next_token(cx, input, pos, true) is Some,
{
    match step(cx, State::Begin, input[pos as int]) {
        Step::Go(next) => {
            lemma_run_leaves_begin(cx, input, pos + 1, next);
        },
        Step::Emit { .. } => {},
    }
}

/// A token is never empty.
pub proof fn lemma_token_not_empty(cx: LexContextView, input: Seq<u8>, pos: usize, last: bool)
    requires
        pos <= input.len() <= usize::MAX,
    ensures
        next_token(cx, input, pos, last) matches Some(t) ==> t.start == pos && pos < t.end
            <= input.len(),
{
    if pos < input.len() {
        match step(cx, State::Begin, input[pos as int]) {
            Step::Go(next) => {
                lemma_run_bounds(cx, input, pos + 1, next);
            },
            Step::Emit { .. } => {},
        }
    }
}

/// The byte at place `n` of `doctype`.
fn doctype_letter_at(n: u8) -> (r: u8)
    ensures
        r == doctype_letter(n),
{
    if n == 0 {
        0x64
    } else if n == 1 {
        0x6F
    } else if n == 2 {
        0x63
    } else if n == 3 {
        0x74
    } else if n == 4 {
        0x79
    } else if n == 5 {
        0x70
    } else {
        0x65
    }
}

/// The byte at place `n` of `[CDATA[`.
fn cdata_letter_at(n: u8) -> (r: u8)
    ensures
        r == cdata_letter(n),
{
    if n == 0 || n == 6 {
        0x5B
    } else if n == 1 {
        0x43
    } else if n == 2 {
        0x44
    } else if n == 3 || n == 5 {
        0x41
    } else {
        0x54
    }
}

/// The byte at place `n` of `script`.
fn script_letter_at(n: u8) -> (r: u8)
    ensures
        r == script_letter(n),
{
    if n == 0 {
        0x73
    } else if n == 1 {
        0x63
    } else if n == 2 {
        0x72
    } else if n == 3 {
        0x69
    } else if n == 4 {
        0x70
    } else {
        0x74
    }
}

/// Reads one byte inside a tag.
pub fn advance_tag(at: TagState, b: u8) -> (r: Option<TagState>)
    ensures
        r == tag_step(at, b),
{
    match at {
        TagState::Name => {
            if is_whitespace_byte(b) {
                Some(TagState::BeforeAttributeName)
            } else if b == 0x2F {
                Some(TagState::SelfClosing)
            } else if b == 0x3E {
                None
            } else {
                Some(TagState::Name)
            }
        },
        TagState::BeforeAttributeName | TagState::SelfClosing | TagState::AfterQuotedValue => {
            if b == 0x3E {
                None
            } else if is_whitespace_byte(b) {
                Some(TagState::BeforeAttributeName)
            } else if b == 0x2F {
                Some(TagState::SelfClosing)
            } else {
                Some(TagState::AttributeName)
            }
        },
        TagState::AttributeName | TagState::AfterAttributeName => {
            if b == 0x3E {
                None
            } else if is_whitespace_byte(b) {
                Some(TagState::AfterAttributeName)
            } else if b == 0x2F {
                Some(TagState::SelfClosing)
            } else if b == 0x3D {
                Some(TagState::BeforeAttributeValue)
            } else {
                Some(TagState::AttributeName)
            }
        },
        TagState::BeforeAttributeValue => {
            if b == 0x3E {
                None
            } else if is_whitespace_byte(b) {
                Some(TagState::BeforeAttributeValue)
            } else if b == 0x22 {
                Some(TagState::ValueDoubleQuoted)
            } else if b == 0x27 {
                Some(TagState::ValueSingleQuoted)
            } else {
                Some(TagState::ValueUnquoted)
            }
        },
        TagState::ValueDoubleQuoted => {
            if b == 0x22 {
                Some(TagState::AfterQuotedValue)
            } else {
                Some(TagState::ValueDoubleQuoted)
            }
        },
        TagState::ValueSingleQuoted => {
            if b == 0x27 {
                Some(TagState::AfterQuotedValue)
            } else {
                Some(TagState::ValueSingleQuoted)
            }
        },
        TagState::ValueUnquoted => {
            if b == 0x3E {
                None
            } else if is_whitespace_byte(b) {
                Some(TagState::BeforeAttributeName)
            } else {
                Some(TagState::ValueUnquoted)
            }
        },
    }
}

/// Reads one byte inside a comment.
fn advance_comment(at: CommentState, b: u8) -> (r: Option<CommentState>)
    ensures
        r == comment_step(at, b),
{
    if b == 0x2D {
        match at {
            CommentState::Start => Some(CommentState::StartDash),
            CommentState::Body | CommentState::EndBang => Some(CommentState::EndDash),
            _ => Some(CommentState::End),
        }
    } else if b == 0x3E {
        match at {
            CommentState::Body | CommentState::EndDash => Some(CommentState::Body),
            _ => None,
        }
    } else if b == 0x21 && at == CommentState::End {
        Some(CommentState::EndBang)
    } else {
        Some(CommentState::Body)
    }
}

fn advance_script_text(level: ScriptLevel, dashes: u8, b: u8) -> (r: Step)
    ensures
        r == script_text_byte(level, dashes, b),
{
    if b == 0x3C {
        Step::Emit { kind: TokenKind::Text, inclusive: false, script: ScriptCarry { level, dashes } }
    } else if level == ScriptLevel::Plain {
        Step::Go(State::ScriptText { level, dashes: 0 })
    } else if b == 0x2D {
        Step::Go(State::ScriptText { level, dashes: if dashes < 2 { dashes + 1 } else { 2 } })
    } else if b == 0x3E && dashes >= 2 {
        Step::Go(State::ScriptText { level: ScriptLevel::Plain, dashes: 0 })
    } else {
        Step::Go(State::ScriptText { level, dashes: 0 })
    }
}

fn advance_text(cx: &LexContext, b: u8) -> (r: Step)
    ensures
        r == text_byte(cx@, cx.script.level, b),
{
    match cx.mode {
        TextMode::PlainText => Step::Go(State::Text),
        TextMode::ScriptData => advance_script_text(cx.script.level, 0, b),
        _ => {
            if b == 0x3C {
                Step::Emit { kind: TokenKind::Text, inclusive: false, script: cx.script }
            } else {
                Step::Go(State::Text)
            }
        },
    }
}

fn advance_in_tag(cx: &LexContext, end: bool, at: TagState, b: u8) -> (r: Step)
    ensures
        r == tag_byte(cx@, end, at, b),
{
    match advance_tag(at, b) {
        Some(next) => Step::Go(State::Tag { end, at: next }),
        None => {
            let kind = if end {
                TokenKind::EndTag
            } else {
                TokenKind::StartTag { self_closing: at == TagState::SelfClosing }
            };
            Step::Emit { kind, inclusive: true, script: cx.script }
        },
    }
}

fn advance_bogus(cx: &LexContext, b: u8) -> (r: Step)
    ensures
        r == bogus_byte(cx@, b),
{
    if b == 0x3E {
        Step::Emit { kind: TokenKind::Comment, inclusive: true, script: cx.script }
    } else {
        Step::Go(State::BogusComment)
    }
}

fn advance_raw_end_name(cx: &LexContext, n: usize, b: u8) -> (r: Step)
    ensures
        r == raw_end_name_byte(cx@, n, b),
{
    if is_alpha_byte(b) {
        if n < cx.closing_name.len() && lower_byte(b) == cx.closing_name[n] {
            Step::Go(State::RawEndName(n + 1))
        } else {
            advance_text(cx, b)
        }
    } else if n == cx.closing_name.len() && n > 0 && ends_name_byte(b) {
        advance_in_tag(cx, true, TagState::Name, b)
    } else {
        advance_text(cx, b)
    }
}

fn advance_script_double(cx: &LexContext, end: bool, n: u8, b: u8) -> (r: Step)
    ensures
        r == script_double_byte(cx@, end, n, b),
{
    let here = if end {
        ScriptLevel::DoubleEscaped
    } else {
        ScriptLevel::Escaped
    };
    let there = if end {
        ScriptLevel::Escaped
    } else {
        ScriptLevel::DoubleEscaped
    };
    if is_alpha_byte(b) {
        if n < 6 && lower_byte(b) == script_letter_at(n) {
            if end {
                Step::Go(State::ScriptDoubleEnd(n + 1))
            } else {
                Step::Go(State::ScriptDoubleStart(n + 1))
            }
        } else {
            Step::Go(State::ScriptText { level: here, dashes: 0 })
        }
    } else if ends_name_byte(b) {
        Step::Go(State::ScriptText { level: if n == 6 { there } else { here }, dashes: 0 })
    } else {
        advance_script_text(here, 0, b)
    }
}

fn advance_less_than(cx: &LexContext, b: u8) -> (r: Step)
    ensures
        r == less_than_byte(cx@, b),
{
    match cx.mode {
        TextMode::Data => {
            if is_alpha_byte(b) {
                Step::Go(State::Tag { end: false, at: TagState::Name })
            } else if b == 0x2F {
                Step::Go(State::EndTagOpen)
            } else if b == 0x21 {
                Step::Go(State::MarkupOpen)
            } else if b == 0x3F {
                Step::Go(State::BogusComment)
            } else {
                advance_text(cx, b)
            }
        },
        TextMode::ScriptData => {
            if b == 0x2F {
                if cx.script.level == ScriptLevel::DoubleEscaped {
                    Step::Go(State::ScriptDoubleEnd(0))
                } else {
                    Step::Go(State::RawEndOpen)
                }
            } else if b == 0x21 && cx.script.level == ScriptLevel::Plain {
                Step::Go(State::ScriptBang)
            } else if is_alpha_byte(b) && cx.script.level == ScriptLevel::Escaped {
                advance_script_double(cx, false, 0, b)
            } else {
                advance_script_text(cx.script.level, 0, b)
            }
        },
        TextMode::PlainText => Step::Go(State::Text),
        _ => {
            if b == 0x2F {
                Step::Go(State::RawEndOpen)
            } else {
                advance_text(cx, b)
            }
        },
    }
}

/// Reads the byte `b` in the state `s`.
pub fn advance(cx: &LexContext, s: State, b: u8) -> (r: Step)
    ensures
        r == step(cx@, s, b),
{
    match s {
        State::Begin => {
            if cx.mode == TextMode::PlainText {
                Step::Go(State::Text)
            } else if b == 0x3C {
                Step::Go(State::LessThan)
            } else if cx.mode == TextMode::ScriptData {
                advance_script_text(cx.script.level, cx.script.dashes, b)
            } else {
                Step::Go(State::Text)
            }
        },
        State::Text => advance_text(cx, b),
        State::ScriptText { level, dashes } => advance_script_text(level, dashes, b),
        State::LessThan => advance_less_than(cx, b),
        State::EndTagOpen => {
            if is_alpha_byte(b) {
                Step::Go(State::Tag { end: true, at: TagState::Name })
            } else if b == 0x3E {
                Step::Emit { kind: TokenKind::Skipped, inclusive: true, script: cx.script }
            } else {
                Step::Go(State::BogusComment)
            }
        },
        State::Tag { end, at } => advance_in_tag(cx, end, at, b),
        State::MarkupOpen => {
            if b == 0x2D {
                Step::Go(State::MarkupDash)
            } else if lower_byte(b) == doctype_letter_at(0) {
                Step::Go(State::MarkupDoctype(1))
            } else if b == cdata_letter_at(0) && cx.cdata_allowed {
                Step::Go(State::MarkupCData(1))
            } else {
                advance_bogus(cx, b)
            }
        },
        State::MarkupDash => {
            if b == 0x2D {
                Step::Go(State::Comment(CommentState::Start))
            } else {
                advance_bogus(cx, b)
            }
        },
        State::MarkupDoctype(n) => {
            if n < 7 && lower_byte(b) == doctype_letter_at(n) {
                if n == 6 {
                    Step::Go(State::Doctype)
                } else {
                    Step::Go(State::MarkupDoctype(n + 1))
                }
            } else {
                advance_bogus(cx, b)
            }
        },
        State::MarkupCData(n) => {
            if n < 7 && b == cdata_letter_at(n) {
                if n == 6 {
                    Step::Go(State::CData(0))
                } else {
                    Step::Go(State::MarkupCData(n + 1))
                }
            } else {
                advance_bogus(cx, b)
            }
        },
        State::Comment(at) => {
            match advance_comment(at, b) {
                Some(next) => Step::Go(State::Comment(next)),
                None => Step::Emit { kind: TokenKind::Comment, inclusive: true, script: cx.script },
            }
        },
        State::BogusComment => advance_bogus(cx, b),
        State::Doctype => {
            if b == 0x3E {
                Step::Emit { kind: TokenKind::Doctype, inclusive: true, script: cx.script }
            } else {
                Step::Go(State::Doctype)
            }
        },
        State::CData(n) => {
            if b == 0x5D {
                Step::Go(State::CData(if n < 2 { n + 1 } else { 2 }))
            } else if b == 0x3E && n >= 2 {
                Step::Emit { kind: TokenKind::CData, inclusive: true, script: cx.script }
            } else {
                Step::Go(State::CData(0))
            }
        },
        State::RawEndOpen => {
            if is_alpha_byte(b) {
                advance_raw_end_name(cx, 0, b)
            } else {
                advance_text(cx, b)
            }
        },
        State::RawEndName(n) => advance_raw_end_name(cx, n, b),
        State::ScriptBang => {
            if b == 0x2D {
                Step::Go(State::ScriptBangDash)
            } else {
                advance_script_text(ScriptLevel::Plain, 0, b)
            }
        },
        State::ScriptBangDash => {
            if b == 0x2D {
                Step::Go(State::ScriptText { level: ScriptLevel::Escaped, dashes: 2 })
            } else {
                advance_script_text(ScriptLevel::Plain, 0, b)
            }
        },
        State::ScriptDoubleStart(n) => advance_script_double(cx, false, n, b),
        State::ScriptDoubleEnd(n) => advance_script_double(cx, true, n, b),
    }
}

/// What the machine makes of the end of the input in the state `s`.
fn token_kind_at_end(s: State) -> (r: Option<TokenKind>)
    ensures
        r == kind_at_end(s),
{
    match s {
        State::Begin => None,
        State::MarkupOpen | State::MarkupDash | State::MarkupDoctype(_) | State::MarkupCData(_)
        | State::Comment(_) | State::BogusComment => Some(TokenKind::Comment),
        State::Doctype => Some(TokenKind::Doctype),
        State::CData(_) => Some(TokenKind::CData),
        _ => Some(TokenKind::Text),
    }
}

/// Finds the next token of `input` from the place `pos`.
pub fn scan_token(cx: &LexContext, input: &[u8], pos: usize, last: bool) -> (r: Option<Token>)
    requires
        pos <= input@.len(),
    ensures
        r == next_token(cx@, input@, pos, last),
        r matches Some(t) ==> t.start == pos && pos < t.end <= input@.len(),
{
    let len: usize = input.len();
    proof {
        lemma_token_not_empty(cx@, input@, pos, last);
    }
    let mut i: usize = pos;
    let mut s: State = State::Begin;
    while i < len
        invariant
            len == input@.len(),
            pos <= i <= input@.len(),
            run(cx@, input@, pos as int, State::Begin) == run(cx@, input@, i as int, s),
            next_token(cx@, input@, pos, last) matches Some(t) ==> t.start == pos && pos < t.end
                <= input@.len(),
        decreases input@.len() - i,
    {
        match advance(cx, s, input[i]) {
            Step::Go(next) => {
                s = next;
                i = i + 1;
            },
            Step::Emit { kind, inclusive, script } => {
                let end: usize = if inclusive {
                    i + 1
                } else {
                    i
                };
                return Some(Token { kind, start: pos, end, script });
            },
        }
    }
    let script = match s {
        State::ScriptText { level, dashes } => ScriptCarry { level, dashes },
        _ => cx.script,
    };
    if last {
        match token_kind_at_end(s) {
            Some(kind) => Some(Token { kind, start: pos, end: input.len(), script }),
            None => None,
        }
    } else {
        match s {
            State::Text | State::ScriptText { .. } => Some(
                Token { kind: TokenKind::Text, start: pos, end: input.len(), script },
            ),
            _ => None,
        }
    }
}

} // verus!
