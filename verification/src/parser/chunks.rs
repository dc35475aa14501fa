//! Why the parser does not depend on how the input is cut into chunks: the
//! state in which it is after two chunks, and what it has taken of them, are
//! what they are after the two chunks written as one.

use vstd::prelude::*;
use crate::parser::state::{lemma_walk_step, token_effect, walk, DriveEnd, ParserModel};
use crate::tokenizer::chunks::{
    fits, lemma_run_fits, lemma_run_resumes, lemma_text_breaks, lemma_text_goes_on,
    lemma_text_resumes, with_script,
};
use crate::tokenizer::state_machine::{
    is_text_run, lemma_run_stable, lemma_token_not_empty, next_token, run, script_after, step,
    LexContextView, Outcome, State, Step, TextMode, Token, TokenKind,
};

verus! {

/// The parser never goes back in the input.
pub proof fn lemma_walk_bounds(m: ParserModel, input: Seq<u8>, pos: usize, last: bool)
    requires
        pos <= input.len() <= usize::MAX,
    ensures
        pos <= walk(m, input, pos, last).pos <= input.len(),
    decreases input.len() - pos,
{
    lemma_walk_step(m, input, pos, last);
    match next_token(m.context, input, pos, last) {
        None => {},
        Some(t) => {
            if pos < t.end <= input.len() {
                lemma_walk_bounds(
                    token_effect(m, t.kind, t.script, input.subrange(pos as int, t.end as int)),
                    input,
                    t.end,
                    last,
                );
            }
        },
    }
}

/// The parser that has read the input `x` as far as it can goes on in the
/// longer input `x + y` from where it stands: it is then where the parser is
/// that reads `x + y` from the start.
pub proof fn lemma_walk_extends(m: ParserModel, x: Seq<u8>, y: Seq<u8>, pos: usize)
    requires
        pos <= x.len(),
        (x + y).len() <= usize::MAX,
    ensures
        walk(m, x + y, pos, false) == walk(
            walk(m, x, pos, false).model,
            x + y,
            walk(m, x, pos, false).pos,
            false,
        ),
    decreases x.len() - pos,
{
    let whole = x + y;
    let cx = m.context;
    lemma_walk_step(m, x, pos, false);
    lemma_token_not_empty(cx, x, pos, false);
    match next_token(cx, x, pos, false) {
        None => {},
        Some(t) => {
            let raw = x.subrange(pos as int, t.end as int);
            let m2 = token_effect(m, t.kind, t.script, raw);
            match run(cx, x, pos as int, State::Begin) {
                Outcome::Token { .. } => {
                    lemma_run_stable(cx, x, y, pos as int, State::Begin);
                    lemma_walk_step(m, whole, pos, false);
                    assert(whole.subrange(pos as int, t.end as int) =~= raw);
                    lemma_walk_extends(m2, x, y, t.end);
                },
                Outcome::Pending(stopped) => {
                    // The token is the text read so far, up to the end of `x`.
                    lemma_run_fits(cx, x, pos as int, State::Begin);
                    lemma_walk_step(m2, x, t.end, false);
                    assert(m2.context == with_script(cx, script_after(cx, stopped)));
                    if y.len() == 0 {
                        assert(whole =~= x);
                    } else {
                        let c = x.len() as int;
                        assert(whole.take(c) =~= x);
                        lemma_run_resumes(cx, whole, c, pos as int, State::Begin, stopped);
                        lemma_walk_step(m, whole, pos, false);
                        lemma_walk_step(m2, whole, t.end, false);
                        lemma_text_goes_on(cx, whole, c, stopped);
                        lemma_run_fits(cx, whole, c, stopped);
                        lemma_token_not_empty(cx, whole, pos, false);
                        lemma_token_not_empty(m2.context, whole, t.end, false);
                        if whole[c] == 0x3C && cx.mode != TextMode::PlainText {
                            lemma_text_breaks(cx, whole, c, stopped);
                            let t1 = next_token(cx, whole, pos, false)->0;
                            assert(token_effect(
                                m,
                                t1.kind,
                                t1.script,
                                whole.subrange(pos as int, t1.end as int),
                            ) == m2);
                        } else {
                            lemma_text_resumes(cx, whole, c, stopped);
                            let t1 = next_token(cx, whole, pos, false)->0;
                            let t2 = next_token(m2.context, whole, t.end, false)->0;
                            assert(t1.kind == TokenKind::Text && t2.kind == TokenKind::Text);
                            assert(t1.end == t2.end);
                            assert(t1.script == t2.script);
                            assert(token_effect(
                                m,
                                t1.kind,
                                t1.script,
                                whole.subrange(pos as int, t1.end as int),
                            ) == token_effect(
                                m2,
                                t2.kind,
                                t2.script,
                                whole.subrange(t.end as int, t2.end as int),
                            ));
                        }
                    }
                },
            }
        },
    }
}

/// A run over the end of an input is the run over the whole input, moved.
pub proof fn lemma_run_shift(cx: LexContextView, input: Seq<u8>, p: int, i: int, s: State)
    requires
        0 <= p <= i <= input.len() <= usize::MAX,
    ensures
        match (
            run(cx, input.subrange(p, input.len() as int), i - p, s),
            run(cx, input, i, s),
        ) {
            (
                Outcome::Token { kind: moved_kind, end: moved_end, script: moved_script },
                Outcome::Token { kind, end, script },
            ) => moved_kind == kind && moved_end + p == end && moved_script == script,
            (Outcome::Pending(a), Outcome::Pending(b)) => a == b,
            _ => false,
        },
    decreases input.len() - i,
{
    let tail = input.subrange(p, input.len() as int);
    if i < input.len() {
        assert(tail[i - p] == input[i]);
        match step(cx, s, input[i]) {
            Step::Go(next) => {
                lemma_run_shift(cx, input, p, i + 1, next);
            },
            Step::Emit { .. } => {},
        }
    }
}

/// The parser that reads the end of an input is the parser that reads the
/// whole input from where the end begins.
pub proof fn lemma_walk_shift(m: ParserModel, input: Seq<u8>, p: usize, i: usize, last: bool)
    requires
        p <= i <= input.len() <= usize::MAX,
    ensures
        walk(m, input.subrange(p as int, input.len() as int), (i - p) as usize, last).model == walk(
            m,
            input,
            i,
            last,
        ).model,
        walk(m, input.subrange(p as int, input.len() as int), (i - p) as usize, last).pos + p
            == walk(m, input, i, last).pos,
    decreases input.len() - i,
{
    let tail = input.subrange(p as int, input.len() as int);
    let j = (i - p) as usize;
    lemma_run_shift(m.context, input, p as int, i as int, State::Begin);
    lemma_walk_step(m, input, i, last);
    lemma_walk_step(m, tail, j, last);
    lemma_token_not_empty(m.context, input, i, last);
    lemma_token_not_empty(m.context, tail, j, last);
    match next_token(m.context, input, i, last) {
        None => {},
        Some(t) => {
            let moved = next_token(m.context, tail, j, last)->0;
            assert(moved.end + p == t.end);
            assert(tail.subrange(j as int, moved.end as int) =~= input.subrange(
                i as int,
                t.end as int,
            ));
            lemma_walk_shift(
                token_effect(m, t.kind, t.script, input.subrange(i as int, t.end as int)),
                input,
                p,
                t.end,
                last,
            );
        },
    }
}

/// The parser does not depend on how the input is cut into chunks.
///
/// Let the parser read the chunk `x` as far as it can and keep the rest, and
/// then read the rest with the chunk `y` behind it. The state in which it is
/// then, and the number of bytes it has taken in all, are the state and the
/// number of the parser that reads `x + y` as one chunk. So they keep the same
/// bytes too.
pub proof fn lemma_chunks_leave_the_same_state(m: ParserModel, x: Seq<u8>, y: Seq<u8>)
    requires
        (x + y).len() <= usize::MAX,
    ensures
        ({
            let one = walk(m, x, 0, false);
            let kept = x.subrange(one.pos as int, x.len() as int);
            let two = walk(one.model, kept + y, 0, false);
            let whole = walk(m, x + y, 0, false);
            &&& two.model == whole.model
            &&& one.pos + two.pos == whole.pos
            &&& (kept + y).subrange(two.pos as int, (kept + y).len() as int) == (x + y).subrange(
                whole.pos as int,
                (x + y).len() as int,
            )
        }),
{
    let one = walk(m, x, 0, false);
    let kept = x.subrange(one.pos as int, x.len() as int);
    let two = walk(one.model, kept + y, 0, false);
    let whole = walk(m, x + y, 0, false);
    lemma_walk_bounds(m, x, 0, false);
    lemma_walk_extends(m, x, y, 0);
    assert(kept + y =~= (x + y).subrange(one.pos as int, (x + y).len() as int));
    lemma_walk_shift(one.model, x + y, one.pos, one.pos, false);
    lemma_walk_bounds(one.model, kept + y, 0, false);
    assert((kept + y).subrange(two.pos as int, (kept + y).len() as int) =~= (x + y).subrange(
        whole.pos as int,
        (x + y).len() as int,
    ));
}

} // verus!
