//! Why the tokens do not depend on how the input is cut into chunks.
//!
//! A token that ends inside a chunk is the same in every longer input. Text at
//! the end of a chunk is given out as a chunk of text; the text of the next
//! chunk then goes on where it stopped, and what follows the text is read as
//! it is in the whole input.

use vstd::prelude::*;
use crate::tokenizer::state_machine::{
    is_text_run, kind_at_end, next_token, run, script_after, step, LexContextView, Outcome,
    ScriptCarry, State, Step, TextMode, Token, TokenKind,
};

verus! {

/// The context with the state of script text set to `script`.
pub open spec fn with_script(cx: LexContextView, script: ScriptCarry) -> LexContextView {
    LexContextView {
        mode: cx.mode,
        closing_name: cx.closing_name,
        cdata_allowed: cx.cdata_allowed,
        script,
    }
}

/// Whether the state fits the mode: the states of script text occur where a
/// script is read, and the state of other text where none is.
pub open spec fn fits(cx: LexContextView, s: State) -> bool {
    match s {
        State::Text => cx.mode != TextMode::ScriptData,
        State::ScriptText { .. } | State::ScriptBang | State::ScriptBangDash
        | State::ScriptDoubleStart(_) | State::ScriptDoubleEnd(_) => cx.mode
            == TextMode::ScriptData,
        _ => true,
    }
}

/// A byte takes a state that fits the mode to a state that fits it.
pub proof fn lemma_step_fits(cx: LexContextView, s: State, b: u8)
    requires
        fits(cx, s),
    ensures
        step(cx, s, b) matches Step::Go(next) ==> fits(cx, next),
        is_text_run(s) ==> match step(cx, s, b) {
            Step::Go(next) => is_text_run(next),
            Step::Emit { kind, inclusive, script } => kind == TokenKind::Text && !inclusive
                && script == script_after(cx, s) && b == 0x3C,
        },
        is_text_run(s) && (b != 0x3C || cx.mode == TextMode::PlainText) ==> step(cx, s, b) is Go,
        is_text_run(s) && b == 0x3C && cx.mode != TextMode::PlainText ==> step(cx, s, b) is Emit,
{
}

/// A run that reads the first `c` bytes of the input and stops there goes on,
/// in the whole input, from the state in which it stopped.
pub proof fn lemma_run_resumes(
    cx: LexContextView,
    input: Seq<u8>,
    c: int,
    i: int,
    s: State,
    stopped: State,
)
    requires
        0 <= i <= c <= input.len(),
        run(cx, input.take(c), i, s) == Outcome::Pending(stopped),
    ensures
        run(cx, input, i, s) == run(cx, input, c, stopped),
    decreases c - i,
{
    if i < c {
        assert(input.take(c)[i] == input[i]);
        match step(cx, s, input[i]) {
            Step::Go(next) => {
                lemma_run_resumes(cx, input, c, i + 1, next, stopped);
            },
            Step::Emit { .. } => {},
        }
    }
}

/// A run that starts in a state that fits the mode stops in one.
pub proof fn lemma_run_fits(cx: LexContextView, input: Seq<u8>, i: int, s: State)
    requires
        fits(cx, s),
    ensures
        run(cx, input, i, s) matches Outcome::Pending(stopped) ==> fits(cx, stopped),
    decreases input.len() - i,
{
    if 0 <= i < input.len() {
        lemma_step_fits(cx, s, input[i]);
        match step(cx, s, input[i]) {
            Step::Go(next) => {
                lemma_run_fits(cx, input, i + 1, next);
            },
            Step::Emit { .. } => {},
        }
    }
}

/// A run inside text gives text: a token of text, or it stops inside text.
pub proof fn lemma_text_goes_on(cx: LexContextView, input: Seq<u8>, i: int, s: State)
    requires
        fits(cx, s),
        is_text_run(s),
    ensures
        match run(cx, input, i, s) {
            Outcome::Token { kind, .. } => kind == TokenKind::Text,
            Outcome::Pending(stopped) => is_text_run(stopped),
        },
    decreases input.len() - i,
{
    if 0 <= i < input.len() {
        lemma_step_fits(cx, s, input[i]);
        match step(cx, s, input[i]) {
            Step::Go(next) => {
                lemma_text_goes_on(cx, input, i + 1, next);
            },
            Step::Emit { .. } => {},
        }
    }
}

/// Inside the text of a script the run does not depend on the context.
pub proof fn lemma_script_text_alone(
    one: LexContextView,
    other: LexContextView,
    input: Seq<u8>,
    i: int,
    s: State,
)
    requires
        s is ScriptText,
    ensures
        run(one, input, i, s) == run(other, input, i, s),
    decreases input.len() - i,
{
    if 0 <= i < input.len() {
        match step(one, s, input[i]) {
            Step::Go(next) => {
                lemma_script_text_alone(one, other, input, i + 1, next);
            },
            Step::Emit { .. } => {},
        }
    }
}

/// Text that stopped at the end of a chunk goes on in the next chunk as if it
/// had not stopped: where the byte behind the stop does not end the text, the
/// run from the state in which the text stopped is the run that a new token
/// makes there, in the context that the chunk of text left.
pub proof fn lemma_text_resumes(cx: LexContextView, input: Seq<u8>, c: int, stopped: State)
    requires
        0 <= c < input.len(),
        fits(cx, stopped),
        is_text_run(stopped),
        input[c] != 0x3C || cx.mode == TextMode::PlainText,
    ensures
        run(cx, input, c, stopped) == run(
            with_script(cx, script_after(cx, stopped)),
            input,
            c,
            State::Begin,
        ),
{
    let after = with_script(cx, script_after(cx, stopped));
    lemma_step_fits(cx, stopped, input[c]);
    match stopped {
        State::ScriptText { level, dashes } => {
            match step(cx, stopped, input[c]) {
                Step::Go(next) => {
                    assert(step(after, State::Begin, input[c]) == Step::Go(next));
                    lemma_script_text_alone(cx, after, input, c + 1, next);
                },
                Step::Emit { .. } => {},
            }
        },
        _ => {
            assert(after == cx);
        },
    }
}

/// Text that stopped at the end of a chunk ends there in the whole input too,
/// where the byte behind the stop ends the text.
pub proof fn lemma_text_breaks(cx: LexContextView, input: Seq<u8>, c: int, stopped: State)
    requires
        0 <= c < input.len() <= usize::MAX,
        fits(cx, stopped),
        is_text_run(stopped),
        input[c] == 0x3C,
        cx.mode != TextMode::PlainText,
    ensures
        run(cx, input, c, stopped) == (Outcome::Token {
            kind: TokenKind::Text,
            end: c as usize,
            script: script_after(cx, stopped),
        }),
{
    lemma_step_fits(cx, stopped, input[c]);
}

} // verus!
