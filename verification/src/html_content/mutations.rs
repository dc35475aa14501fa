//! Content that handlers insert, and what surrounds or replaces a token when it
//! is written out.

use vstd::prelude::*;
use vstd::string::StringSliceAdditionalSpecFns;
use crate::encoding::{encoded_text, AsciiCompatibleEncoding, MAX_TEXT_LEN};

verus! {

/// How inserted content is to be read.
#[derive(Clone, Copy, PartialEq, Eq, Structural, Debug)]
pub enum ContentType {
    /// Markup: written out as it is. It is not parsed again.
    Html,
    /// Text: `<`, `>` and `&` are written as character references.
    Text,
}

/// Why a handler's request was refused.
#[derive(Clone, Copy, PartialEq, Eq, Structural, Debug)]
pub enum ContentError {
    /// A name was empty.
    Empty,
    /// A name held a byte that cannot stand in it.
    ForbiddenCharacter,
    /// A name or a comment held a character that the encoding of the document
    /// cannot express.
    UnencodableCharacter,
    /// The text of a comment held `-->`.
    CommentClosingSequence,
    /// The text was longer than the encoder accepts.
    TooLong,
}

/// What a byte of text is written as.
pub open spec fn escaped_byte(b: u8) -> Seq<u8> {
    if b == 0x3C {
        seq![0x26u8, 0x6C, 0x74, 0x3B]
    } else if b == 0x3E {
        seq![0x26u8, 0x67, 0x74, 0x3B]
    } else if b == 0x26 {
        seq![0x26u8, 0x61, 0x6D, 0x70, 0x3B]
    } else {
        seq![b]
    }
}

/// Text with `<`, `>` and `&` written as `&lt;`, `&gt;` and `&amp;`.
pub open spec fn escaped(text: Seq<u8>) -> Seq<u8>
    decreases text.len(),
{
    if text.len() == 0 {
        Seq::empty()
    } else {
        escaped(text.drop_last()) + escaped_byte(text.last())
    }
}

/// What a byte of an attribute value is written as between double quotes.
pub open spec fn quoted_byte(b: u8) -> Seq<u8> {
    if b == 0x22 {
        seq![0x26u8, 0x71, 0x75, 0x6F, 0x74, 0x3B]
    } else {
        seq![b]
    }
}

/// An attribute value with `"` written as `&quot;`.
pub open spec fn quoted(value: Seq<u8>) -> Seq<u8>
    decreases value.len(),
{
    if value.len() == 0 {
        Seq::empty()
    } else {
        quoted(value.drop_last()) + quoted_byte(value.last())
    }
}

/// Appends `text` to `out` with `<`, `>` and `&` written as references.
pub fn push_escaped(out: &mut Vec<u8>, text: &[u8])
    ensures
        final(out)@ == old(out)@ + escaped(text@),
{
    let mut i: usize = 0;
    assert(text@.subrange(0, 0) =~= Seq::<u8>::empty());
    while i < text.len()
        invariant
            i <= text@.len(),
            out@ == old(out)@ + escaped(text@.subrange(0, i as int)),
        decreases text@.len() - i,
    {
        let b = text[i];
        let ghost before = out@;
        if b == 0x3C {
            out.push(0x26);
            out.push(0x6C);
            out.push(0x74);
            out.push(0x3B);
        } else if b == 0x3E {
            out.push(0x26);
            out.push(0x67);
            out.push(0x74);
            out.push(0x3B);
        } else if b == 0x26 {
            out.push(0x26);
            out.push(0x61);
            out.push(0x6D);
            out.push(0x70);
            out.push(0x3B);
        } else {
            out.push(b);
        }
        assert(out@ =~= before + escaped_byte(b));
        i = i + 1;
        assert(text@.subrange(0, i as int).drop_last() =~= text@.subrange(0, i - 1));
        assert(out@ =~= old(out)@ + escaped(text@.subrange(0, i as int)));
    }
    assert(text@.subrange(0, i as int) =~= text@);
}

/// Appends `value` to `out` with `"` written as a reference.
pub fn push_quoted(out: &mut Vec<u8>, value: &[u8])
    ensures
        final(out)@ == old(out)@ + quoted(value@),
{
    let mut i: usize = 0;
    assert(value@.subrange(0, 0) =~= Seq::<u8>::empty());
    while i < value.len()
        invariant
            i <= value@.len(),
            out@ == old(out)@ + quoted(value@.subrange(0, i as int)),
        decreases value@.len() - i,
    {
        let b = value[i];
        let ghost before = out@;
        if b == 0x22 {
            out.push(0x26);
            out.push(0x71);
            out.push(0x75);
            out.push(0x6F);
            out.push(0x74);
            out.push(0x3B);
        } else {
            out.push(b);
        }
        assert(out@ =~= before + quoted_byte(b));
        i = i + 1;
        assert(value@.subrange(0, i as int).drop_last() =~= value@.subrange(0, i - 1));
        assert(out@ =~= old(out)@ + quoted(value@.subrange(0, i as int)));
    }
    assert(value@.subrange(0, i as int) =~= value@);
}

/// Appends `bytes` to `out`.
pub fn push_all(out: &mut Vec<u8>, bytes: &[u8])
    ensures
        final(out)@ == old(out)@ + bytes@,
{
    let mut i: usize = 0;
    while i < bytes.len()
        invariant
            i <= bytes@.len(),
            out@ == old(out)@ + bytes@.subrange(0, i as int),
        decreases bytes@.len() - i,
    {
        out.push(bytes[i]);
        i = i + 1;
        assert(out@ =~= old(out)@ + bytes@.subrange(0, i as int));
    }
    assert(bytes@.subrange(0, i as int) =~= bytes@);
}

/// The bytes that stand for inserted content in a document of the given
/// encoding: the encoded text, with references for `<`, `>` and `&` if it is
/// text.
pub open spec fn content_bytes(encoding: Seq<char>, content: Seq<char>, content_type: ContentType) -> Seq<
    u8,
> {
    match content_type {
        ContentType::Html => encoded_text(encoding, content).0,
        ContentType::Text => escaped(encoded_text(encoding, content).0),
    }
}

/// Encodes inserted content. Fails with `TooLong` for content of more than
/// [`MAX_TEXT_LEN`] bytes, and in no other case.
pub fn encode_content(encoding: &AsciiCompatibleEncoding, content: &str, content_type: ContentType) -> (r:
    Result<Vec<u8>, ContentError>)
    ensures
        r is Ok <==> content.spec_bytes().len() <= MAX_TEXT_LEN,
        r matches Ok(bytes) ==> bytes@ == content_bytes(encoding@, content@, content_type),
        r matches Err(e) ==> e == ContentError::TooLong,
{
    match encoding.encode(content) {
        None => Err(ContentError::TooLong),
        Some((bytes, _)) => {
            match content_type {
                ContentType::Html => Ok(bytes),
                ContentType::Text => {
                    let mut out: Vec<u8> = Vec::new();
                    push_escaped(&mut out, bytes.as_slice());
                    assert(out@ =~= escaped(bytes@));
                    Ok(out)
                },
            }
        },
    }
}

/// What handlers asked to be written around a token, or in its place.
pub struct Mutations {
    /// Written before the token.
    pub content_before: Vec<u8>,
    /// Written in place of the token, if it is removed.
    pub replacement: Vec<u8>,
    /// Written after the token.
    pub content_after: Vec<u8>,
    /// Whether the token itself is left out.
    pub removed: bool,
}

impl Mutations {
    /// Nothing was asked for.
    pub open spec fn is_empty(&self) -> bool {
        self.content_before@.len() == 0 && self.replacement@.len() == 0 && self.content_after@.len()
            == 0 && !self.removed
    }

    /// What is written for a token whose own bytes are `token`.
    pub open spec fn applied(&self, token: Seq<u8>) -> Seq<u8> {
        self.content_before@ + (if self.removed {
            self.replacement@
        } else {
            token
        }) + self.content_after@
    }

    /// No mutation.
    pub fn new() -> (r: Mutations)
        ensures
            r.is_empty(),
    {
        Mutations {
            content_before: Vec::new(),
            replacement: Vec::new(),
            content_after: Vec::new(),
            removed: false,
        }
    }

    /// Inserts content before the token, behind what was inserted there before.
    pub fn before(&mut self, content: &[u8])
        ensures
            final(self).content_before@ == old(self).content_before@ + content@,
            final(self).replacement == old(self).replacement,
            final(self).content_after == old(self).content_after,
            final(self).removed == old(self).removed,
    {
        push_all(&mut self.content_before, content);
    }

    /// Inserts content after the token, before what was inserted there before.
    pub fn after(&mut self, content: &[u8])
        ensures
            final(self).content_after@ == content@ + old(self).content_after@,
            final(self).replacement == old(self).replacement,
            final(self).content_before == old(self).content_before,
            final(self).removed == old(self).removed,
    {
        let mut joined: Vec<u8> = Vec::new();
        push_all(&mut joined, content);
        push_all(&mut joined, self.content_after.as_slice());
        assert(joined@ =~= content@ + self.content_after@);
        self.content_after = joined;
    }

    /// Puts content in the place of the token.
    pub fn replace(&mut self, content: &[u8])
        ensures
            final(self).replacement@ == content@,
            final(self).removed,
            final(self).content_before == old(self).content_before,
            final(self).content_after == old(self).content_after,
    {
        let mut copy: Vec<u8> = Vec::new();
        push_all(&mut copy, content);
        assert(copy@ =~= content@);
        self.replacement = copy;
        self.removed = true;
    }

    /// Leaves the token out. What was put in its place stays.
    pub fn remove(&mut self)
        ensures
            final(self).removed,
            final(self).replacement == old(self).replacement,
            final(self).content_before == old(self).content_before,
            final(self).content_after == old(self).content_after,
    {
        self.removed = true;
    }

    /// Writes the token with what surrounds or replaces it.
    pub fn write(&self, out: &mut Vec<u8>, token: &[u8])
        ensures
            final(out)@ == old(out)@ + self.applied(token@),
    {
        push_all(out, self.content_before.as_slice());
        if self.removed {
            push_all(out, self.replacement.as_slice());
        } else {
            push_all(out, token);
        }
        push_all(out, self.content_after.as_slice());
        assert(out@ =~= old(out)@ + self.applied(token@));
    }
}

} // verus!
