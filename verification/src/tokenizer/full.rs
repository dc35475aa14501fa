//! The full tier: the outline of a whole lexeme, that is where in its bytes the
//! attributes of a tag, the text of a comment and the parts of a doctype stand.

use vstd::prelude::*;
use vstd::string::StringSliceAdditionalSpecFns;
use crate::tokenizer::chars::{is_name, is_whitespace, is_whitespace_byte, lower_seq};
use crate::tokenizer::eager::Span;
use crate::tokenizer::state_machine::{advance_tag, tag_step, TagState};

verus! {

/// Where the name and the value of an attribute stand in the bytes of a tag.
#[derive(Clone, Copy, PartialEq, Eq, Structural, Debug)]
pub struct AttributeOutline {
    pub name: Span,
    pub value: Span,
}

/// The attributes read so far in a tag: those that are complete, and the one
/// that is being read.
pub struct AttributeScan {
    pub done: Seq<AttributeOutline>,
    pub current: Option<AttributeOutline>,
}

impl AttributeScan {
    /// All attributes read, the current one last.
    pub open spec fn all(self) -> Seq<AttributeOutline> {
        match self.current {
            Some(c) => self.done.push(c),
            None => self.done,
        }
    }
}

/// The attribute under way with the end of its name moved to `to`.
pub open spec fn with_name_end(current: Option<AttributeOutline>, to: usize) -> Option<
    AttributeOutline,
> {
    match current {
        Some(c) => Some(AttributeOutline { name: Span { start: c.name.start, end: to }, value: c.value }),
        None => None,
    }
}

/// The attribute under way with the value `from..to`.
pub open spec fn with_value(current: Option<AttributeOutline>, from: usize, to: usize) -> Option<
    AttributeOutline,
> {
    match current {
        Some(c) => Some(AttributeOutline { name: c.name, value: Span { start: from, end: to } }),
        None => None,
    }
}

/// The start of the value of the attribute under way.
pub open spec fn value_start(current: Option<AttributeOutline>) -> usize {
    match current {
        Some(c) => c.value.start,
        None => 0,
    }
}

/// What the byte at place `i`, which took the tag from `at` to `next`, adds to
/// the attributes read so far: a byte that enters the state `AttributeName`
/// starts a new attribute, a byte that stays in it lengthens the name; a byte
/// that enters a value state starts the value, a byte that stays in it
/// lengthens the value.
pub open spec fn record(scan: AttributeScan, at: TagState, next: TagState, i: usize) -> AttributeScan {
    let after: usize = (i + 1) as usize;
    match next {
        TagState::AttributeName => if at == TagState::AttributeName {
            AttributeScan { done: scan.done, current: with_name_end(scan.current, after) }
        } else {
            AttributeScan {
                done: scan.all(),
                current: Some(
                    AttributeOutline {
                        name: Span { start: i, end: after },
                        value: Span { start: after, end: after },
                    },
                ),
            }
        },
        TagState::ValueUnquoted => if at == TagState::ValueUnquoted {
            AttributeScan {
                done: scan.done,
                current: with_value(scan.current, value_start(scan.current), after),
            }
        } else {
            AttributeScan { done: scan.done, current: with_value(scan.current, i, after) }
        },
        TagState::ValueDoubleQuoted | TagState::ValueSingleQuoted => if at == next {
            AttributeScan {
                done: scan.done,
                current: with_value(scan.current, value_start(scan.current), after),
            }
        } else {
            AttributeScan { done: scan.done, current: with_value(scan.current, after, after) }
        },
        _ => scan,
    }
}

/// The attributes of a tag whose bytes from the place `i` on are read in the
/// state `at`, after those of `scan`.
pub open spec fn outline_from(raw: Seq<u8>, i: int, at: TagState, scan: AttributeScan) -> Seq<
    AttributeOutline,
>
    decreases raw.len() - i,
{
    if i < 0 || i >= raw.len() || i >= usize::MAX {
        scan.all()
    } else {
        match tag_step(at, raw[i]) {
            None => scan.all(),
            Some(next) => outline_from(raw, i + 1, next, record(scan, at, next, i as usize)),
        }
    }
}

/// The attributes of a tag with the bytes `raw`, in the order in which they are
/// written. The tag is read with the states of the tokenizer, from behind `<`
/// (and `/`, in an end tag).
pub open spec fn attribute_outlines(raw: Seq<u8>, end_tag: bool) -> Seq<AttributeOutline> {
    outline_from(
        raw,
        if end_tag {
            2
        } else {
            1
        },
        TagState::Name,
        AttributeScan { done: Seq::empty(), current: None },
    )
}

/// Every attribute read lies inside the first `n` bytes, name before value.
pub open spec fn scan_within(scan: AttributeScan, n: int) -> bool {
    forall|k: int|
        0 <= k < scan.all().len() ==> (#[trigger] scan.all()[k]).name.within(n)
            && scan.all()[k].value.within(
            n,
        )
}

proof fn lemma_record_within(scan: AttributeScan, at: TagState, next: TagState, i: usize)
    requires
        scan_within(scan, i as int),
        i < usize::MAX,
    ensures
        scan_within(record(scan, at, next, i), i + 1),
{
    let r = record(scan, at, next, i);
    assert forall|k: int| 0 <= k < r.all().len() implies (#[trigger] r.all()[k]).name.within(i + 1)
        && r.all()[k].value.within(i + 1) by {
        if k < scan.all().len() {
            assert(scan.all()[k].name.within(i as int));
            assert(scan.all()[k].value.within(i as int));
        }
        if k < scan.done.len() {
            assert(scan.all()[k] == scan.done[k]);
        }
    }
}

/// Every attribute of a tag lies inside its bytes.
pub proof fn lemma_outline_within(raw: Seq<u8>, i: int, at: TagState, scan: AttributeScan)
    requires
        0 <= i <= raw.len(),
        scan_within(scan, i),
    ensures
        forall|k: int|
            0 <= k < outline_from(raw, i, at, scan).len() ==> (#[trigger] outline_from(
                raw,
                i,
                at,
                scan,
            )[k]).name.within(raw.len() as int) && outline_from(raw, i, at, scan)[k].value.within(
                raw.len() as int,
            ),
    decreases raw.len() - i,
{
    let out = outline_from(raw, i, at, scan);
    if i < raw.len() && i < usize::MAX && tag_step(at, raw[i]) is Some {
        let next = tag_step(at, raw[i])->0;
        lemma_record_within(scan, at, next, i as usize);
        lemma_outline_within(raw, i + 1, next, record(scan, at, next, i as usize));
        assert(out == outline_from(raw, i + 1, next, record(scan, at, next, i as usize)));
    } else {
        assert(out == scan.all());
        assert forall|k: int| 0 <= k < out.len() implies (#[trigger] out[k]).name.within(
            raw.len() as int,
        ) && out[k].value.within(raw.len() as int) by {
            assert(scan.all()[k].name.within(i));
            assert(scan.all()[k].value.within(i));
        }
    }
}

/// Reads the attributes of a tag.
pub fn outline_attributes(raw: &[u8], end_tag: bool) -> (r: Vec<AttributeOutline>)
    ensures
        r@ == attribute_outlines(raw@, end_tag),
        forall|k: int|
            0 <= k < r@.len() ==> (#[trigger] r@[k]).name.within(raw@.len() as int)
                && r@[k].value.within(
                raw@.len() as int,
            ),
{
    let len: usize = raw.len();
    let first: usize = if end_tag {
        2
    } else {
        1
    };
    let mut done: Vec<AttributeOutline> = Vec::new();
    let mut current: Option<AttributeOutline> = None;
    let mut at: TagState = TagState::Name;
    let mut i: usize = first;
    let ghost start = AttributeScan { done: Seq::empty(), current: None };
    proof {
        if first <= len {
            lemma_outline_within(raw@, first as int, TagState::Name, start);
        }
    }
    let mut closed: bool = false;
    while i < len && !closed
        invariant
            len == raw@.len(),
            first <= i,
            closed ==> i < len && tag_step(at, raw@[i as int]) is None,
            outline_from(raw@, first as int, TagState::Name, start) == outline_from(
                raw@,
                i as int,
                at,
                AttributeScan { done: done@, current },
            ),
        decreases len - i + (if closed { 0int } else { 1int }),
    {
        let ghost scan = AttributeScan { done: done@, current };
        match advance_tag(at, raw[i]) {
            None => {
                closed = true;
            },
            Some(next) => {
                let after: usize = i + 1;
                match next {
                    TagState::AttributeName => {
                        if at == TagState::AttributeName {
                            current = match current {
                                Some(c) => Some(
                                    AttributeOutline {
                                        name: Span { start: c.name.start, end: after },
                                        value: c.value,
                                    },
                                ),
                                None => None,
                            };
                        } else {
                            match current {
                                Some(c) => {
                                    done.push(c);
                                },
                                None => {},
                            }
                            current = Some(
                                AttributeOutline {
                                    name: Span { start: i, end: after },
                                    value: Span { start: after, end: after },
                                },
                            );
                        }
                    },
                    TagState::ValueUnquoted | TagState::ValueDoubleQuoted
                    | TagState::ValueSingleQuoted => {
                        let from: usize = if at == next {
                            match current {
                                Some(c) => c.value.start,
                                None => 0,
                            }
                        } else if next == TagState::ValueUnquoted {
                            i
                        } else {
                            after
                        };
                        current = match current {
                            Some(c) => Some(
                                AttributeOutline { name: c.name, value: Span { start: from, end: after } },
                            ),
                            None => None,
                        };
                    },
                    _ => {},
                }
                assert(AttributeScan { done: done@, current } == record(scan, at, next, i));
                at = next;
                i = after;
            },
        }
    }
    assert(attribute_outlines(raw@, end_tag) == (AttributeScan { done: done@, current }).all());
    match current {
        Some(c) => {
            done.push(c);
        },
        None => {},
    }
    done
}

/// The first place from `from` on, below `limit`, where a byte is whitespace
/// (if `stop_at_space`) or is not (otherwise); `limit` if there is none.
pub open spec fn find_space(raw: Seq<u8>, from: int, limit: int, stop_at_space: bool) -> int
    decreases limit - from,
{
    if 0 <= from < limit <= raw.len() && is_whitespace(raw[from]) != stop_at_space {
        find_space(raw, from + 1, limit, stop_at_space)
    } else {
        from
    }
}

/// The first place from `from` on, below `limit`, where the byte `b` stands;
/// `limit` if there is none.
pub open spec fn find_byte(raw: Seq<u8>, from: int, limit: int, b: u8) -> int
    decreases limit - from,
{
    if 0 <= from < limit <= raw.len() && raw[from] != b {
        find_byte(raw, from + 1, limit, b)
    } else {
        from
    }
}

pub proof fn lemma_find_space_bounds(raw: Seq<u8>, from: int, limit: int, stop_at_space: bool)
    requires
        0 <= from <= limit <= raw.len(),
    ensures
        from <= find_space(raw, from, limit, stop_at_space) <= limit,
    decreases limit - from,
{
    if from < limit && is_whitespace(raw[from]) != stop_at_space {
        lemma_find_space_bounds(raw, from + 1, limit, stop_at_space);
    }
}

pub proof fn lemma_find_byte_bounds(raw: Seq<u8>, from: int, limit: int, b: u8)
    requires
        0 <= from <= limit <= raw.len(),
    ensures
        from <= find_byte(raw, from, limit, b) <= limit,
    decreases limit - from,
{
    if from < limit && raw[from] != b {
        lemma_find_byte_bounds(raw, from + 1, limit, b);
    }
}

fn seek_space(raw: &[u8], from: usize, limit: usize, stop_at_space: bool) -> (r: usize)
    requires
        from <= limit <= raw@.len(),
    ensures
        r == find_space(raw@, from as int, limit as int, stop_at_space),
        from <= r <= limit,
{
    proof {
        lemma_find_space_bounds(raw@, from as int, limit as int, stop_at_space);
    }
    let mut i: usize = from;
    while i < limit && is_whitespace_byte(raw[i]) != stop_at_space
        invariant
            from <= i <= limit <= raw@.len(),
            find_space(raw@, from as int, limit as int, stop_at_space) == find_space(
                raw@,
                i as int,
                limit as int,
                stop_at_space,
            ),
        decreases limit - i,
    {
        i = i + 1;
    }
    i
}

fn seek_byte(raw: &[u8], from: usize, limit: usize, b: u8) -> (r: usize)
    requires
        from <= limit <= raw@.len(),
    ensures
        r == find_byte(raw@, from as int, limit as int, b),
        from <= r <= limit,
{
    proof {
        lemma_find_byte_bounds(raw@, from as int, limit as int, b);
    }
    let mut i: usize = from;
    while i < limit && raw[i] != b
        invariant
            from <= i <= limit <= raw@.len(),
            find_byte(raw@, from as int, limit as int, b) == find_byte(
                raw@,
                i as int,
                limit as int,
                b,
            ),
        decreases limit - i,
    {
        i = i + 1;
    }
    i
}

/// Whether `raw` begins with `<!--`.
pub open spec fn opens_comment(raw: Seq<u8>) -> bool {
    raw.len() >= 4 && raw[0] == 0x3C && raw[1] == 0x21 && raw[2] == 0x2D && raw[3] == 0x2D
}

/// Where the text of a comment stands in its bytes `raw`.
///
/// Behind `<!--` the text runs up to `-->` or `--!>`; it is empty in `<!-->`
/// and `<!--->`; in a comment that the end of the input cut short it runs to
/// the end. In any other comment it starts behind `<!`, `</` or `<` (before
/// `?`) and runs up to `>` or the end.
pub open spec fn comment_text_span(raw: Seq<u8>) -> Span {
    let len = raw.len();
    let closed = len > 0 && raw[len - 1] == 0x3E;
    if opens_comment(raw) {
        let end = if closed && len >= 7 && raw[len - 2] == 0x2D && raw[len - 3] == 0x2D {
            len - 3
        } else if closed && len >= 8 && raw[len - 2] == 0x21 && raw[len - 3] == 0x2D && raw[len - 4]
            == 0x2D {
            len - 4
        } else if closed && len <= 6 {
            4
        } else {
            len as int
        };
        Span { start: 4, end: end as usize }
    } else {
        let start: int = if len >= 2 && (raw[1] == 0x21 || raw[1] == 0x2F) {
            2
        } else if len >= 1 {
            1
        } else {
            0
        };
        let end: int = if closed && len - 1 >= start {
            len - 1
        } else {
            len as int
        };
        Span { start: start as usize, end: end as usize }
    }
}

/// Finds the text of a comment.
pub fn outline_comment(raw: &[u8]) -> (r: Span)
    ensures
        r == comment_text_span(raw@),
        r.within(raw@.len() as int),
{
    let len: usize = raw.len();
    let closed = len > 0 && raw[len - 1] == 0x3E;
    if len >= 4 && raw[0] == 0x3C && raw[1] == 0x21 && raw[2] == 0x2D && raw[3] == 0x2D {
        let end: usize = if closed && len >= 7 && raw[len - 2] == 0x2D && raw[len - 3] == 0x2D {
            len - 3
        } else if closed && len >= 8 && raw[len - 2] == 0x21 && raw[len - 3] == 0x2D && raw[len
            - 4] == 0x2D {
            len - 4
        } else if closed && len <= 6 {
            4
        } else {
            len
        };
        Span { start: 4, end }
    } else {
        let start: usize = if len >= 2 && (raw[1] == 0x21 || raw[1] == 0x2F) {
            2
        } else if len >= 1 {
            1
        } else {
            0
        };
        let end: usize = if closed && len - 1 >= start {
            len - 1
        } else {
            len
        };
        Span { start, end }
    }
}

/// The parts of a doctype.
#[derive(Clone, Copy, PartialEq, Eq, Structural, Debug)]
pub struct DoctypeOutline {
    pub name: Option<Span>,
    pub public_id: Option<Span>,
    pub system_id: Option<Span>,
    pub force_quirks: bool,
}

/// Whether the bytes of `raw` from the place `at`, below `limit`, begin with
/// the word, whatever the case of their letters.
pub open spec fn word_at(raw: Seq<u8>, at: int, limit: int, word: Seq<u8>) -> bool {
    0 <= at && at + word.len() <= limit <= raw.len() && lower_seq(
        raw.subrange(at, at + word.len()),
    ) == word
}

/// A quoted identifier that starts at the place `at`, where a quote stands: the
/// identifier, and the place behind its closing quote, or `limit` where it is
/// not closed.
pub open spec fn quoted_at(raw: Seq<u8>, at: int, limit: int) -> (Span, int) {
    let close = find_byte(raw, at + 1, limit, raw[at]);
    (
        Span { start: (at + 1) as usize, end: close as usize },
        if close < limit {
            close + 1
        } else {
            limit
        },
    )
}

/// Whether a quote stands at the place `at`.
pub open spec fn quote_at(raw: Seq<u8>, at: int, limit: int) -> bool {
    0 <= at < limit <= raw.len() && (raw[at] == 0x22 || raw[at] == 0x27)
}

/// The doctype with the given name whose bytes from the place `at` on, behind
/// the word `SYSTEM` or a public identifier, hold the system identifier if they
/// begin with a quote. Without one the doctype is in quirks mode if
/// `needed`, and if anything but whitespace stands there.
pub open spec fn doctype_system(
    raw: Seq<u8>,
    name: Span,
    public_id: Option<Span>,
    at: int,
    limit: int,
    closed: bool,
    needed: bool,
) -> DoctypeOutline {
    let from = find_space(raw, at, limit, false);
    if quote_at(raw, from, limit) {
        let (id, behind) = quoted_at(raw, from, limit);
        DoctypeOutline {
            name: Some(name),
            public_id,
            system_id: Some(id),
            force_quirks: !closed || id.end >= limit,
        }
    } else {
        DoctypeOutline {
            name: Some(name),
            public_id,
            system_id: None,
            force_quirks: !closed || needed || from < limit,
        }
    }
}

/// The parts of a doctype with the bytes `raw`.
///
/// Behind `<!doctype` and whitespace stands the name, up to whitespace. Behind
/// the name may stand the word `PUBLIC` with a quoted public identifier and
/// perhaps a quoted system identifier, or the word `SYSTEM` with a quoted
/// system identifier. A doctype without a name, with anything else behind the
/// name, with a word that lacks its identifier, with an identifier that is not
/// closed, or cut short by the end of the input is in quirks mode.
pub open spec fn doctype_outline(raw: Seq<u8>) -> DoctypeOutline {
    let closed = raw.len() > 0 && raw[raw.len() - 1] == 0x3E;
    let limit: int = if closed {
        raw.len() - 1
    } else {
        raw.len() as int
    };
    let name_start = find_space(raw, 9, limit, false);
    if limit < 9 || name_start >= limit {
        DoctypeOutline { name: None, public_id: None, system_id: None, force_quirks: true }
    } else {
        let name_end = find_space(raw, name_start, limit, true);
        let name = Span { start: name_start as usize, end: name_end as usize };
        let word = find_space(raw, name_end, limit, false);
        if word >= limit {
            DoctypeOutline { name: Some(name), public_id: None, system_id: None, force_quirks: !closed }
        } else if word_at(raw, word, limit, "public".spec_bytes()) {
            let from = find_space(raw, word + "public".spec_bytes().len(), limit, false);
            if quote_at(raw, from, limit) {
                let (id, behind) = quoted_at(raw, from, limit);
                if id.end >= limit {
                    DoctypeOutline {
                        name: Some(name),
                        public_id: Some(id),
                        system_id: None,
                        force_quirks: true,
                    }
                } else {
                    doctype_system(raw, name, Some(id), behind, limit, closed, false)
                }
            } else {
                DoctypeOutline {
                    name: Some(name),
                    public_id: None,
                    system_id: None,
                    force_quirks: true,
                }
            }
        } else if word_at(raw, word, limit, "system".spec_bytes()) {
            doctype_system(
                raw,
                name,
                None,
                word + "system".spec_bytes().len(),
                limit,
                closed,
                true,
            )
        } else {
            DoctypeOutline { name: Some(name), public_id: None, system_id: None, force_quirks: true }
        }
    }
}

/// Whether every part of the outline lies inside `len` bytes.
pub open spec fn doctype_within(d: DoctypeOutline, len: int) -> bool {
    &&& d.name matches Some(s) ==> s.within(len)
    &&& d.public_id matches Some(s) ==> s.within(len)
    &&& d.system_id matches Some(s) ==> s.within(len)
}

fn has_word_at(raw: &[u8], at: usize, limit: usize, word: &str) -> (r: bool)
    requires
        at <= limit <= raw@.len(),
    ensures
        r == word_at(raw@, at as int, limit as int, word.spec_bytes()),
{
    let w = word.as_bytes();
    if w.len() <= limit - at {
        is_name(vstd::slice::slice_subrange(raw, at, at + w.len()), word)
    } else {
        false
    }
}

fn has_quote_at(raw: &[u8], at: usize, limit: usize) -> (r: bool)
    requires
        limit <= raw@.len(),
    ensures
        r == quote_at(raw@, at as int, limit as int),
{
    at < limit && (raw[at] == 0x22 || raw[at] == 0x27)
}

fn read_quoted(raw: &[u8], at: usize, limit: usize) -> (r: (Span, usize))
    requires
        quote_at(raw@, at as int, limit as int),
    ensures
        (r.0, r.1 as int) == quoted_at(raw@, at as int, limit as int),
        at < r.0.start <= r.0.end <= r.1 <= limit,
{
    let close = seek_byte(raw, at + 1, limit, raw[at]);
    (
        Span { start: at + 1, end: close },
        if close < limit {
            close + 1
        } else {
            limit
        },
    )
}

fn outline_doctype_system(
    raw: &[u8],
    name: Span,
    public_id: Option<Span>,
    at: usize,
    limit: usize,
    closed: bool,
    needed: bool,
) -> (r: DoctypeOutline)
    requires
        at <= limit <= raw@.len(),
        name.within(limit as int),
        public_id matches Some(s) ==> s.within(limit as int),
    ensures
        r == doctype_system(raw@, name, public_id, at as int, limit as int, closed, needed),
        doctype_within(r, limit as int),
{
    let from = seek_space(raw, at, limit, false);
    if has_quote_at(raw, from, limit) {
        let (id, _behind) = read_quoted(raw, from, limit);
        DoctypeOutline {
            name: Some(name),
            public_id,
            system_id: Some(id),
            force_quirks: !closed || id.end >= limit,
        }
    } else {
        DoctypeOutline {
            name: Some(name),
            public_id,
            system_id: None,
            force_quirks: !closed || needed || from < limit,
        }
    }
}

/// Finds the parts of a doctype.
pub fn outline_doctype(raw: &[u8]) -> (r: DoctypeOutline)
    ensures
        r == doctype_outline(raw@),
        doctype_within(r, raw@.len() as int),
{
    let len: usize = raw.len();
    let closed = len > 0 && raw[len - 1] == 0x3E;
    let limit: usize = if closed {
        len - 1
    } else {
        len
    };
    if limit < 9 {
        return DoctypeOutline { name: None, public_id: None, system_id: None, force_quirks: true };
    }
    let name_start = seek_space(raw, 9, limit, false);
    if name_start >= limit {
        return DoctypeOutline { name: None, public_id: None, system_id: None, force_quirks: true };
    }
    let name_end = seek_space(raw, name_start, limit, true);
    let name = Span { start: name_start, end: name_end };
    let word = seek_space(raw, name_end, limit, false);
    if word >= limit {
        DoctypeOutline { name: Some(name), public_id: None, system_id: None, force_quirks: !closed }
    } else if has_word_at(raw, word, limit, "public") {
        let from = seek_space(raw, word + "public".as_bytes().len(), limit, false);
        if has_quote_at(raw, from, limit) {
            let (id, behind) = read_quoted(raw, from, limit);
            if id.end >= limit {
                DoctypeOutline {
                    name: Some(name),
                    public_id: Some(id),
                    system_id: None,
                    force_quirks: true,
                }
            } else {
                outline_doctype_system(raw, name, Some(id), behind, limit, closed, false)
            }
        } else {
            DoctypeOutline { name: Some(name), public_id: None, system_id: None, force_quirks: true }
        }
    } else if has_word_at(raw, word, limit, "system") {
        outline_doctype_system(
            raw,
            name,
            None,
            word + "system".as_bytes().len(),
            limit,
            closed,
            true,
        )
    } else {
        DoctypeOutline { name: Some(name), public_id: None, system_id: None, force_quirks: true }
    }
}

} // verus!
