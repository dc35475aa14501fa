//! The tokens that are not start tags, as handlers are handed them: end tags,
//! comments, chunks of text and doctypes.

use vstd::prelude::*;
use vstd::string::StringSliceAdditionalSpecFns;
use crate::encoding::{decoded_text, encoded_text, AsciiCompatibleEncoding, MAX_TEXT_LEN};
use crate::errors::HandlerError;
use crate::html_content::element::{check_name, end_tag_bytes, name_fault};
use crate::html_content::mutations::{
    content_bytes, encode_content, push_all, ContentError, ContentType, Mutations,
};
use crate::tokenizer::chars::{copied, lower_seq, lowered};
use crate::tokenizer::eager::Span;
use crate::tokenizer::full::DoctypeOutline;
use crate::tokenizer::state_machine::TextMode;

verus! {

/// A handler of end tags.
pub trait EndTagHandler {
    fn handle(&mut self, end_tag: &mut EndTag) -> Result<(), HandlerError>;
}

/// An end tag.
pub struct EndTag {
    /// The encoding of the document.
    pub encoding: AsciiCompatibleEncoding,
    /// The name, as the tag writes it or as it was set.
    pub name: Vec<u8>,
    /// Whether the name was set, so that the tag is written anew.
    pub modified: bool,
    /// What to write around the tag or in its place.
    pub mutations: Mutations,
}

impl EndTag {
    /// What is written for the end tag, whose bytes in the input are `raw`.
    pub open spec fn output(&self, raw: Seq<u8>) -> Seq<u8> {
        self.mutations.applied(
            if self.modified {
                end_tag_bytes(self.name@)
            } else {
                raw
            },
        )
    }

    /// Writes the end tag.
    pub fn write(&self, out: &mut Vec<u8>, raw: &[u8])
        ensures
            final(out)@ == old(out)@ + self.output(raw@),
    {
        if self.modified {
            let mut tag: Vec<u8> = Vec::new();
            tag.push(0x3C);
            tag.push(0x2F);
            push_all(&mut tag, self.name.as_slice());
            tag.push(0x3E);
            assert(tag@ =~= end_tag_bytes(self.name@));
            self.mutations.write(out, tag.as_slice());
        } else {
            self.mutations.write(out, raw);
        }
    }

    /// The name in lower case, as text. `None` for a name of more than
    /// [`MAX_TEXT_LEN`] bytes.
    pub fn name(&self) -> (r: Option<String>)
        ensures
            r is Some <==> self.name@.len() <= MAX_TEXT_LEN,
            r matches Some(s) ==> s@ == decoded_text(self.encoding@, lower_seq(self.name@)),
    {
        let name = lowered(self.name.as_slice(), 0, self.name.len());
        assert(self.name@.subrange(0, self.name@.len() as int) =~= self.name@);
        self.encoding.decode(name.as_slice())
    }

    /// Gives the tag another name. Fails, and changes nothing, for a name that
    /// is too long or that [`name_fault`] refuses.
    pub fn set_name(&mut self, name: &str) -> (r: Result<(), ContentError>)
        ensures
            match r {
                Ok(()) => {
                    &&& name.spec_bytes().len() <= MAX_TEXT_LEN
                    &&& name_fault(
                        encoded_text(old(self).encoding@, name@).0,
                        encoded_text(old(self).encoding@, name@).1,
                        true,
                    ) is None
                    &&& final(self).name@ == encoded_text(old(self).encoding@, name@).0
                    &&& final(self).modified
                    &&& final(self).mutations == old(self).mutations
                    &&& final(self).encoding == old(self).encoding
                },
                Err(e) => {
                    &&& *final(self) == *old(self)
                    &&& if name.spec_bytes().len() > MAX_TEXT_LEN {
                        e == ContentError::TooLong
                    } else {
                        name_fault(
                            encoded_text(old(self).encoding@, name@).0,
                            encoded_text(old(self).encoding@, name@).1,
                            true,
                        ) == Some(e)
                    }
                },
            },
    {
        match self.encoding.encode(name) {
            None => Err(ContentError::TooLong),
            Some((bytes, unmappable)) => {
                match check_name(bytes.as_slice(), unmappable, true) {
                    Some(e) => Err(e),
                    None => {
                        self.name = bytes;
                        self.modified = true;
                        Ok(())
                    },
                }
            },
        }
    }

    /// The two tags have the same name.
    pub open spec fn same_name(&self, other: &EndTag) -> bool {
        self.encoding == other.encoding && self.name == other.name && self.modified
            == other.modified
    }

    /// Inserts content before the tag.
    pub fn before(&mut self, content: &str, content_type: ContentType) -> (r: Result<
        (),
        ContentError,
    >)
        ensures
            r is Ok <==> content.spec_bytes().len() <= MAX_TEXT_LEN,
            r matches Err(e) ==> e == ContentError::TooLong && *final(self) == *old(self),
            r is Ok ==> {
                &&& final(self).same_name(old(self))
                &&& final(self).mutations.content_before@ == old(self).mutations.content_before@
                    + content_bytes(old(self).encoding@, content@, content_type)
                &&& final(self).mutations.content_after == old(self).mutations.content_after
                &&& final(self).mutations.replacement == old(self).mutations.replacement
                &&& final(self).mutations.removed == old(self).mutations.removed
            },
    {
        let bytes = encode_content(&self.encoding, content, content_type)?;
        self.mutations.before(bytes.as_slice());
        Ok(())
    }

    /// Inserts content after the tag, before what was inserted there before.
    pub fn after(&mut self, content: &str, content_type: ContentType) -> (r: Result<
        (),
        ContentError,
    >)
        ensures
            r is Ok <==> content.spec_bytes().len() <= MAX_TEXT_LEN,
            r matches Err(e) ==> e == ContentError::TooLong && *final(self) == *old(self),
            r is Ok ==> {
                &&& final(self).same_name(old(self))
                &&& final(self).mutations.content_after@ == content_bytes(
                    old(self).encoding@,
                    content@,
                    content_type,
                ) + old(self).mutations.content_after@
                &&& final(self).mutations.content_before == old(self).mutations.content_before
                &&& final(self).mutations.replacement == old(self).mutations.replacement
                &&& final(self).mutations.removed == old(self).mutations.removed
            },
    {
        let bytes = encode_content(&self.encoding, content, content_type)?;
        self.mutations.after(bytes.as_slice());
        Ok(())
    }

    /// Leaves the tag out.
    pub fn remove(&mut self)
        ensures
            final(self).same_name(old(self)),
            final(self).mutations.removed,
            final(self).mutations.replacement == old(self).mutations.replacement,
            final(self).mutations.content_before == old(self).mutations.content_before,
            final(self).mutations.content_after == old(self).mutations.content_after,
    {
        self.mutations.remove();
    }
}

/// Whether `-->` stands somewhere in the bytes.
pub open spec fn has_comment_end(bytes: Seq<u8>) -> bool {
    exists|i: int| 0 <= i && i + 2 < bytes.len() && comment_end_at(bytes, i)
}

/// Whether `-->` stands at the place `i`.
pub open spec fn comment_end_at(bytes: Seq<u8>, i: int) -> bool {
    bytes[i] == 0x2D && bytes[i + 1] == 0x2D && bytes[i + 2] == 0x3E
}

/// Looks for `-->`.
pub fn contains_comment_end(bytes: &[u8]) -> (r: bool)
    ensures
        r == has_comment_end(bytes@),
{
    let len: usize = bytes.len();
    if len < 3 {
        return false;
    }
    let mut i: usize = 0;
    while i < len - 2
        invariant
            len == bytes@.len(),
            len >= 3,
            i <= len - 2,
            forall|j: int| 0 <= j < i ==> !comment_end_at(bytes@, j),
        decreases len - i,
    {
        if bytes[i] == 0x2D && bytes[i + 1] == 0x2D && bytes[i + 2] == 0x3E {
            assert(comment_end_at(bytes@, i as int));
            return true;
        }
        i = i + 1;
    }
    false
}

/// The bytes of a comment that is written anew.
pub open spec fn comment_bytes(text: Seq<u8>) -> Seq<u8> {
    seq![0x3Cu8, 0x21, 0x2D, 0x2D] + text + seq![0x2Du8, 0x2D, 0x3E]
}

/// A comment.
pub struct Comment {
    /// The encoding of the document.
    pub encoding: AsciiCompatibleEncoding,
    /// The text of the comment, as it was read or as it was set.
    pub text: Vec<u8>,
    /// Whether the text was set, so that the comment is written anew.
    pub modified: bool,
    /// What to write around the comment or in its place.
    pub mutations: Mutations,
}

impl Comment {
    /// The comment whose text stands at `text` in the bytes `raw`.
    pub fn new(encoding: AsciiCompatibleEncoding, raw: &[u8], text: Span) -> (r: Comment)
        requires
            text.within(raw@.len() as int),
        ensures
            r.encoding == encoding,
            r.text@ == text.of(raw@),
            !r.modified,
            r.mutations.is_empty(),
    {
        Comment {
            encoding,
            text: copied(raw, text.start, text.end),
            modified: false,
            mutations: Mutations::new(),
        }
    }

    /// What is written for the comment, whose bytes in the input are `raw`.
    pub open spec fn output(&self, raw: Seq<u8>) -> Seq<u8> {
        self.mutations.applied(
            if self.modified {
                comment_bytes(self.text@)
            } else {
                raw
            },
        )
    }

    /// Writes the comment.
    pub fn write(&self, out: &mut Vec<u8>, raw: &[u8])
        ensures
            final(out)@ == old(out)@ + self.output(raw@),
    {
        if self.modified {
            let mut comment: Vec<u8> = Vec::new();
            comment.push(0x3C);
            comment.push(0x21);
            comment.push(0x2D);
            comment.push(0x2D);
            push_all(&mut comment, self.text.as_slice());
            comment.push(0x2D);
            comment.push(0x2D);
            comment.push(0x3E);
            assert(comment@ =~= comment_bytes(self.text@));
            self.mutations.write(out, comment.as_slice());
        } else {
            self.mutations.write(out, raw);
        }
    }

    /// The two comments have the same text.
    pub open spec fn same_comment(&self, other: &Comment) -> bool {
        self.encoding == other.encoding && self.text == other.text && self.modified
            == other.modified
    }

    /// Inserts content before the comment.
    pub fn before(&mut self, content: &str, content_type: ContentType) -> (r: Result<
        (),
        ContentError,
    >)
        ensures
            r is Ok <==> content.spec_bytes().len() <= MAX_TEXT_LEN,
            r matches Err(e) ==> e == ContentError::TooLong && *final(self) == *old(self),
            r is Ok ==> {
                &&& final(self).same_comment(old(self))
                &&& final(self).mutations.content_before@ == old(self).mutations.content_before@
                    + content_bytes(old(self).encoding@, content@, content_type)
                &&& final(self).mutations.content_after == old(self).mutations.content_after
                &&& final(self).mutations.replacement == old(self).mutations.replacement
                &&& final(self).mutations.removed == old(self).mutations.removed
            },
    {
        let bytes = encode_content(&self.encoding, content, content_type)?;
        self.mutations.before(bytes.as_slice());
        Ok(())
    }

    /// Inserts content after the comment, before what was inserted there
    /// before.
    pub fn after(&mut self, content: &str, content_type: ContentType) -> (r: Result<
        (),
        ContentError,
    >)
        ensures
            r is Ok <==> content.spec_bytes().len() <= MAX_TEXT_LEN,
            r matches Err(e) ==> e == ContentError::TooLong && *final(self) == *old(self),
            r is Ok ==> {
                &&& final(self).same_comment(old(self))
                &&& final(self).mutations.content_after@ == content_bytes(
                    old(self).encoding@,
                    content@,
                    content_type,
                ) + old(self).mutations.content_after@
                &&& final(self).mutations.content_before == old(self).mutations.content_before
                &&& final(self).mutations.replacement == old(self).mutations.replacement
                &&& final(self).mutations.removed == old(self).mutations.removed
            },
    {
        let bytes = encode_content(&self.encoding, content, content_type)?;
        self.mutations.after(bytes.as_slice());
        Ok(())
    }

    /// Puts content in the place of the comment.
    pub fn replace(&mut self, content: &str, content_type: ContentType) -> (r: Result<
        (),
        ContentError,
    >)
        ensures
            r is Ok <==> content.spec_bytes().len() <= MAX_TEXT_LEN,
            r matches Err(e) ==> e == ContentError::TooLong && *final(self) == *old(self),
            r is Ok ==> {
                &&& final(self).same_comment(old(self))
                &&& final(self).mutations.replacement@ == content_bytes(
                    old(self).encoding@,
                    content@,
                    content_type,
                )
                &&& final(self).mutations.removed
                &&& final(self).mutations.content_before == old(self).mutations.content_before
                &&& final(self).mutations.content_after == old(self).mutations.content_after
            },
    {
        let bytes = encode_content(&self.encoding, content, content_type)?;
        self.mutations.replace(bytes.as_slice());
        Ok(())
    }

    /// Leaves the comment out.
    pub fn remove(&mut self)
        ensures
            final(self).same_comment(old(self)),
            final(self).mutations.removed,
            final(self).mutations.replacement == old(self).mutations.replacement,
            final(self).mutations.content_before == old(self).mutations.content_before,
            final(self).mutations.content_after == old(self).mutations.content_after,
    {
        self.mutations.remove();
    }

    /// Whether the comment is left out.
    pub fn removed(&self) -> (r: bool)
        ensures
            r == self.mutations.removed,
    {
        self.mutations.removed
    }

    /// The text of the comment. `None` for more than [`MAX_TEXT_LEN`] bytes.
    pub fn text(&self) -> (r: Option<String>)
        ensures
            r is Some <==> self.text@.len() <= MAX_TEXT_LEN,
            r matches Some(s) ==> s@ == decoded_text(self.encoding@, self.text@),
    {
        self.encoding.decode(self.text.as_slice())
    }

    /// Why the encoded text cannot be the text of a comment, if it cannot: it
    /// holds a character without a mapping in the encoding, or `-->`.
    pub open spec fn text_fault(bytes: Seq<u8>, unmappable: bool) -> Option<ContentError> {
        if unmappable {
            Some(ContentError::UnencodableCharacter)
        } else if has_comment_end(bytes) {
            Some(ContentError::CommentClosingSequence)
        } else {
            None
        }
    }

    /// Sets the text of the comment. Fails, and changes nothing, for a text that
    /// is too long (`TooLong`) or that [`Comment::text_fault`] refuses.
    pub fn set_text(&mut self, text: &str) -> (r: Result<(), ContentError>)
        ensures
            match r {
                Ok(()) => {
                    &&& text.spec_bytes().len() <= MAX_TEXT_LEN
                    &&& Self::text_fault(
                        encoded_text(old(self).encoding@, text@).0,
                        encoded_text(old(self).encoding@, text@).1,
                    ) is None
                    &&& final(self).text@ == encoded_text(old(self).encoding@, text@).0
                    &&& final(self).modified
                    &&& final(self).mutations == old(self).mutations
                    &&& final(self).encoding == old(self).encoding
                },
                Err(e) => {
                    &&& *final(self) == *old(self)
                    &&& if text.spec_bytes().len() > MAX_TEXT_LEN {
                        e == ContentError::TooLong
                    } else {
                        Self::text_fault(
                            encoded_text(old(self).encoding@, text@).0,
                            encoded_text(old(self).encoding@, text@).1,
                        ) == Some(e)
                    }
                },
            },
    {
        match self.encoding.encode(text) {
            None => Err(ContentError::TooLong),
            Some((bytes, unmappable)) => {
                if unmappable {
                    Err(ContentError::UnencodableCharacter)
                } else if contains_comment_end(bytes.as_slice()) {
                    Err(ContentError::CommentClosingSequence)
                } else {
                    self.text = bytes;
                    self.modified = true;
                    Ok(())
                }
            },
        }
    }
}

/// A chunk of text. A text node reaches handlers as one or more chunks; the
/// last of them is empty and says that the node has ended.
pub struct TextChunk {
    /// The encoding of the document.
    pub encoding: AsciiCompatibleEncoding,
    /// The bytes of the chunk.
    pub bytes: Vec<u8>,
    /// How the text was read.
    pub text_type: TextMode,
    /// Whether the text node ends with this chunk.
    pub last_in_text_node: bool,
    /// What to write around the chunk or in its place.
    pub mutations: Mutations,
}

impl TextChunk {
    /// The chunk with the bytes `raw`, as it was read.
    pub fn new(
        encoding: AsciiCompatibleEncoding,
        raw: &[u8],
        text_type: TextMode,
        last_in_text_node: bool,
    ) -> (r: TextChunk)
        ensures
            r.encoding == encoding,
            r.bytes@ == raw@,
            r.text_type == text_type,
            r.last_in_text_node == last_in_text_node,
            r.mutations.is_empty(),
    {
        let bytes = copied(raw, 0, raw.len());
        assert(raw@.subrange(0, raw@.len() as int) =~= raw@);
        TextChunk { encoding, bytes, text_type, last_in_text_node, mutations: Mutations::new() }
    }

    /// What is written for the chunk.
    pub open spec fn output(&self) -> Seq<u8> {
        self.mutations.applied(self.bytes@)
    }

    /// Writes the chunk.
    pub fn write(&self, out: &mut Vec<u8>)
        ensures
            final(out)@ == old(out)@ + self.output(),
    {
        self.mutations.write(out, self.bytes.as_slice());
    }

    /// The two chunks have the same text.
    pub open spec fn same_chunk(&self, other: &TextChunk) -> bool {
        self.encoding == other.encoding && self.bytes == other.bytes && self.text_type
            == other.text_type && self.last_in_text_node == other.last_in_text_node
    }

    /// Inserts content before the chunk.
    pub fn before(&mut self, content: &str, content_type: ContentType) -> (r: Result<
        (),
        ContentError,
    >)
        ensures
            r is Ok <==> content.spec_bytes().len() <= MAX_TEXT_LEN,
            r matches Err(e) ==> e == ContentError::TooLong && *final(self) == *old(self),
            r is Ok ==> {
                &&& final(self).same_chunk(old(self))
                &&& final(self).mutations.content_before@ == old(self).mutations.content_before@
                    + content_bytes(old(self).encoding@, content@, content_type)
                &&& final(self).mutations.content_after == old(self).mutations.content_after
                &&& final(self).mutations.replacement == old(self).mutations.replacement
                &&& final(self).mutations.removed == old(self).mutations.removed
            },
    {
        let bytes = encode_content(&self.encoding, content, content_type)?;
        self.mutations.before(bytes.as_slice());
        Ok(())
    }

    /// Inserts content after the chunk, before what was inserted there
    /// before.
    pub fn after(&mut self, content: &str, content_type: ContentType) -> (r: Result<
        (),
        ContentError,
    >)
        ensures
            r is Ok <==> content.spec_bytes().len() <= MAX_TEXT_LEN,
            r matches Err(e) ==> e == ContentError::TooLong && *final(self) == *old(self),
            r is Ok ==> {
                &&& final(self).same_chunk(old(self))
                &&& final(self).mutations.content_after@ == content_bytes(
                    old(self).encoding@,
                    content@,
                    content_type,
                ) + old(self).mutations.content_after@
                &&& final(self).mutations.content_before == old(self).mutations.content_before
                &&& final(self).mutations.replacement == old(self).mutations.replacement
                &&& final(self).mutations.removed == old(self).mutations.removed
            },
    {
        let bytes = encode_content(&self.encoding, content, content_type)?;
        self.mutations.after(bytes.as_slice());
        Ok(())
    }

    /// Puts content in the place of the chunk.
    pub fn replace(&mut self, content: &str, content_type: ContentType) -> (r: Result<
        (),
        ContentError,
    >)
        ensures
            r is Ok <==> content.spec_bytes().len() <= MAX_TEXT_LEN,
            r matches Err(e) ==> e == ContentError::TooLong && *final(self) == *old(self),
            r is Ok ==> {
                &&& final(self).same_chunk(old(self))
                &&& final(self).mutations.replacement@ == content_bytes(
                    old(self).encoding@,
                    content@,
                    content_type,
                )
                &&& final(self).mutations.removed
                &&& final(self).mutations.content_before == old(self).mutations.content_before
                &&& final(self).mutations.content_after == old(self).mutations.content_after
            },
    {
        let bytes = encode_content(&self.encoding, content, content_type)?;
        self.mutations.replace(bytes.as_slice());
        Ok(())
    }

    /// Leaves the chunk out.
    pub fn remove(&mut self)
        ensures
            final(self).same_chunk(old(self)),
            final(self).mutations.removed,
            final(self).mutations.replacement == old(self).mutations.replacement,
            final(self).mutations.content_before == old(self).mutations.content_before,
            final(self).mutations.content_after == old(self).mutations.content_after,
    {
        self.mutations.remove();
    }

    /// Whether the chunk is left out.
    pub fn removed(&self) -> (r: bool)
        ensures
            r == self.mutations.removed,
    {
        self.mutations.removed
    }

    /// The text of the chunk. `None` for more than [`MAX_TEXT_LEN`] bytes.
    pub fn as_str(&self) -> (r: Option<String>)
        ensures
            r is Some <==> self.bytes@.len() <= MAX_TEXT_LEN,
            r matches Some(s) ==> s@ == decoded_text(self.encoding@, self.bytes@),
    {
        self.encoding.decode(self.bytes.as_slice())
    }

    /// How the text was read.
    pub fn text_type(&self) -> (r: TextMode)
        ensures
            r == self.text_type,
    {
        self.text_type
    }

    /// Whether the text node ends with this chunk.
    pub fn last_in_text_node(&self) -> (r: bool)
        ensures
            r == self.last_in_text_node,
    {
        self.last_in_text_node
    }
}

/// A doctype. Handlers can read it and cannot change it.
pub struct Doctype {
    /// The encoding of the document.
    pub encoding: AsciiCompatibleEncoding,
    /// The name, in lower case.
    pub name: Option<Vec<u8>>,
    /// The public identifier.
    pub public_id: Option<Vec<u8>>,
    /// The system identifier.
    pub system_id: Option<Vec<u8>>,
    /// Whether the doctype puts the document in quirks mode.
    pub force_quirks: bool,
}

/// The bytes that a part of an outline marks, if the part is there.
pub open spec fn part_of(raw: Seq<u8>, part: Option<Span>) -> Option<Seq<u8>> {
    match part {
        Some(s) => Some(s.of(raw)),
        None => None,
    }
}

/// The bytes of a part, if the part is there.
pub open spec fn part_view(part: Option<Vec<u8>>) -> Option<Seq<u8>> {
    match part {
        Some(v) => Some(v@),
        None => None,
    }
}

/// The text of a part in the given encoding: none if the part is not there or
/// is longer than [`MAX_TEXT_LEN`].
pub open spec fn part_text(encoding: Seq<char>, part: Option<Vec<u8>>) -> Option<Seq<char>> {
    match part {
        Some(v) => if v@.len() <= MAX_TEXT_LEN {
            Some(decoded_text(encoding, v@))
        } else {
            None
        },
        None => None,
    }
}

fn copy_part(raw: &[u8], part: Option<Span>) -> (r: Option<Vec<u8>>)
    requires
        part matches Some(s) ==> s.within(raw@.len() as int),
    ensures
        part_view(r) == part_of(raw@, part),
{
    match part {
        Some(s) => Some(copied(raw, s.start, s.end)),
        None => None,
    }
}

fn decode_part(encoding: &AsciiCompatibleEncoding, part: &Option<Vec<u8>>) -> (r: Option<String>)
    ensures
        match (r, part_text(encoding@, *part)) {
            (Some(s), Some(t)) => s@ == t,
            (None, None) => true,
            _ => false,
        },
{
    match part {
        Some(v) => encoding.decode(v.as_slice()),
        None => None,
    }
}

impl Doctype {
    /// The doctype with the bytes `raw` and the given outline.
    pub fn new(encoding: AsciiCompatibleEncoding, raw: &[u8], outline: DoctypeOutline) -> (r: Doctype)
        requires
            outline.name matches Some(s) ==> s.within(raw@.len() as int),
            outline.public_id matches Some(s) ==> s.within(raw@.len() as int),
            outline.system_id matches Some(s) ==> s.within(raw@.len() as int),
        ensures
            r.encoding == encoding,
            part_view(r.name) == match outline.name {
                Some(s) => Some(lower_seq(s.of(raw@))),
                None => None,
            },
            part_view(r.public_id) == part_of(raw@, outline.public_id),
            part_view(r.system_id) == part_of(raw@, outline.system_id),
            r.force_quirks == outline.force_quirks,
    {
        let name = match outline.name {
            Some(s) => Some(lowered(raw, s.start, s.end)),
            None => None,
        };
        Doctype {
            encoding,
            name,
            public_id: copy_part(raw, outline.public_id),
            system_id: copy_part(raw, outline.system_id),
            force_quirks: outline.force_quirks,
        }
    }

    /// The name, in lower case.
    pub fn name(&self) -> (r: Option<String>)
        ensures
            match (r, part_text(self.encoding@, self.name)) {
                (Some(s), Some(t)) => s@ == t,
                (None, None) => true,
                _ => false,
            },
    {
        decode_part(&self.encoding, &self.name)
    }

    /// The public identifier.
    pub fn public_id(&self) -> (r: Option<String>)
        ensures
            match (r, part_text(self.encoding@, self.public_id)) {
                (Some(s), Some(t)) => s@ == t,
                (None, None) => true,
                _ => false,
            },
    {
        decode_part(&self.encoding, &self.public_id)
    }

    /// The system identifier.
    pub fn system_id(&self) -> (r: Option<String>)
        ensures
            match (r, part_text(self.encoding@, self.system_id)) {
                (Some(s), Some(t)) => s@ == t,
                (None, None) => true,
                _ => false,
            },
    {
        decode_part(&self.encoding, &self.system_id)
    }
}

} // verus!
