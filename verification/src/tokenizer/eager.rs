//! The eager tier: what is known of a tag without looking at its attributes.

use vstd::prelude::*;
use crate::tokenizer::chars::{ends_name, ends_name_byte};
use crate::tokenizer::state_machine::TokenKind;

verus! {

/// The bytes `start..end` of a token.
#[derive(Clone, Copy, PartialEq, Eq, Structural, Debug)]
pub struct Span {
    pub start: usize,
    pub end: usize,
}

impl Span {
    /// The span lies inside `len` bytes.
    pub open spec fn within(self, len: int) -> bool {
        self.start <= self.end <= len
    }

    /// The bytes of `raw` that the span covers; none if it does not lie inside.
    pub open spec fn of(self, raw: Seq<u8>) -> Seq<u8> {
        if self.within(raw.len() as int) {
            raw.subrange(self.start as int, self.end as int)
        } else {
            Seq::empty()
        }
    }
}

/// What a tag hint says: start or end tag, where the name is, and whether a
/// start tag ends with `/>`.
#[derive(Clone, Copy, PartialEq, Eq, Structural, Debug)]
pub struct TagHint {
    pub end_tag: bool,
    pub name: Span,
    pub self_closing: bool,
}

/// The first place from `from` on, below `limit`, where a byte ends a name;
/// `limit` if there is none.
pub open spec fn name_end(raw: Seq<u8>, from: int, limit: int) -> int
    decreases limit - from,
{
    if 0 <= from < limit <= raw.len() && !ends_name(raw[from]) {
        name_end(raw, from + 1, limit)
    } else {
        from
    }
}

/// The name of a tag runs from behind `<` or `</` to the first byte that ends a
/// name.
pub open spec fn tag_name_span(raw: Seq<u8>, end_tag: bool) -> Span {
    let from: int = if end_tag {
        2
    } else {
        1
    };
    if from <= raw.len() {
        Span { start: from as usize, end: name_end(raw, from, raw.len() as int) as usize }
    } else {
        Span { start: 0, end: 0 }
    }
}

/// The hint for a token of the given kind with the bytes `raw`: none unless it
/// is a tag.
pub open spec fn tag_hint_of(raw: Seq<u8>, kind: TokenKind) -> Option<TagHint> {
    match kind {
        TokenKind::StartTag { self_closing } => Some(
            TagHint { end_tag: false, name: tag_name_span(raw, false), self_closing },
        ),
        TokenKind::EndTag => Some(
            TagHint { end_tag: true, name: tag_name_span(raw, true), self_closing: false },
        ),
        _ => None,
    }
}

pub proof fn lemma_name_end_bounds(raw: Seq<u8>, from: int, limit: int)
    requires
        0 <= from <= limit <= raw.len(),
    ensures
        from <= name_end(raw, from, limit) <= limit,
    decreases limit - from,
{
    if from < limit && !ends_name(raw[from]) {
        lemma_name_end_bounds(raw, from + 1, limit);
    }
}

/// Finds where the name that starts at `from` ends.
pub fn find_name_end(raw: &[u8], from: usize, limit: usize) -> (r: usize)
    requires
        from <= limit <= raw@.len(),
    ensures
        r == name_end(raw@, from as int, limit as int),
        from <= r <= limit,
{
    proof {
        lemma_name_end_bounds(raw@, from as int, limit as int);
    }
    let mut i: usize = from;
    while i < limit && !ends_name_byte(raw[i])
        invariant
            from <= i <= limit <= raw@.len(),
            name_end(raw@, from as int, limit as int) == name_end(raw@, i as int, limit as int),
        decreases limit - i,
    {
        i = i + 1;
    }
    i
}

/// The hint for a token of the given kind with the bytes `raw`.
pub fn tag_hint(raw: &[u8], kind: TokenKind) -> (r: Option<TagHint>)
    ensures
        r == tag_hint_of(raw@, kind),
        r matches Some(h) ==> h.name.within(raw@.len() as int),
{
    let len: usize = raw.len();
    match kind {
        TokenKind::StartTag { self_closing } => {
            let name = if 1 <= len {
                Span { start: 1, end: find_name_end(raw, 1, len) }
            } else {
                Span { start: 0, end: 0 }
            };
            Some(TagHint { end_tag: false, name, self_closing })
        },
        TokenKind::EndTag => {
            let name = if 2 <= len {
                Span { start: 2, end: find_name_end(raw, 2, len) }
            } else {
                Span { start: 0, end: 0 }
            };
            Some(TagHint { end_tag: true, name, self_closing: false })
        },
        _ => None,
    }
}

} // verus!
