//! The element that an element handler is handed: the start tag as it was
//! read, and what the handler asked to change of the tag, of the end tag and
//! of the content between them.

use vstd::prelude::*;
use vstd::string::StringSliceAdditionalSpecFns;
use crate::encoding::{decoded_text, encoded_text, AsciiCompatibleEncoding, MAX_TEXT_LEN};
use crate::html::Namespace;
use crate::html_content::tokens::EndTagHandler;
use crate::html_content::mutations::{
    content_bytes, encode_content, push_all, push_quoted, quoted, ContentError, ContentType,
    Mutations,
};
use crate::tokenizer::chars::{
    copied, is_alpha, is_alpha_byte, is_whitespace, is_whitespace_byte, lower_seq, lowered,
    same_bytes, same_ignoring_case,
};
use crate::tokenizer::full::AttributeOutline;

verus! {

/// An attribute: its name and its value, in the encoding of the document.
pub struct Attribute {
    pub name: Vec<u8>,
    pub value: Vec<u8>,
}

/// The names and values of the attributes.
pub open spec fn pairs(attributes: Seq<Attribute>) -> Seq<(Seq<u8>, Seq<u8>)> {
    attributes.map_values(|a: Attribute| (a.name@, a.value@))
}

/// The place of the first attribute from the place `from` on whose name is
/// `name`, whatever the case of the letters.
pub open spec fn find_named(attributes: Seq<(Seq<u8>, Seq<u8>)>, name: Seq<u8>, from: int) -> Option<
    int,
>
    decreases attributes.len() - from,
{
    if from < 0 || from >= attributes.len() {
        None
    } else if lower_seq(attributes[from].0) == lower_seq(name) {
        Some(from)
    } else {
        find_named(attributes, name, from + 1)
    }
}

/// The names and values that the outlines of a tag mark in its bytes.
pub open spec fn outlined(raw: Seq<u8>, outlines: Seq<AttributeOutline>) -> Seq<(Seq<u8>, Seq<u8>)> {
    outlines.map_values(|o: AttributeOutline| (o.name.of(raw), o.value.of(raw)))
}

/// The first `n` of the attributes without those whose name an earlier one
/// has: of attributes with one name the first counts.
pub open spec fn first_of_each(all: Seq<(Seq<u8>, Seq<u8>)>, n: int) -> Seq<(Seq<u8>, Seq<u8>)>
    decreases n,
{
    if n <= 0 || n > all.len() {
        Seq::empty()
    } else {
        let rest = first_of_each(all, n - 1);
        if find_named(rest, all[n - 1].0, 0) is Some {
            rest
        } else {
            rest.push(all[n - 1])
        }
    }
}

/// Finds the first attribute with the given name.
pub fn find_attribute(attributes: &Vec<Attribute>, name: &[u8]) -> (r: Option<usize>)
    ensures
        match r {
            Some(i) => find_named(pairs(attributes@), name@, 0) == Some(i as int) && i
                < attributes@.len(),
            None => find_named(pairs(attributes@), name@, 0) is None,
        },
{
    let mut i: usize = 0;
    while i < attributes.len()
        invariant
            i <= attributes@.len(),
            find_named(pairs(attributes@), name@, 0) == find_named(
                pairs(attributes@),
                name@,
                i as int,
            ),
        decreases attributes@.len() - i,
    {
        if same_ignoring_case(attributes[i].name.as_slice(), name) {
            return Some(i);
        }
        i = i + 1;
    }
    None
}

/// The place of the first attribute from the place `from` on whose name is
/// exactly `name`.
pub open spec fn find_exact(attributes: Seq<(Seq<u8>, Seq<u8>)>, name: Seq<u8>, from: int) -> Option<
    int,
>
    decreases attributes.len() - from,
{
    if from < 0 || from >= attributes.len() {
        None
    } else if attributes[from].0 == name {
        Some(from)
    } else {
        find_exact(attributes, name, from + 1)
    }
}

/// The place of the first attribute with the given name in an element of the
/// given namespace: the case of letters is set aside in HTML elements, and
/// counts in foreign elements.
pub open spec fn find_in(
    namespace: Namespace,
    attributes: Seq<(Seq<u8>, Seq<u8>)>,
    name: Seq<u8>,
) -> Option<int> {
    if namespace == Namespace::Html {
        find_named(attributes, name, 0)
    } else {
        find_exact(attributes, name, 0)
    }
}

/// Finds the first attribute with the given name in an element of the given
/// namespace.
pub fn find_attribute_in(namespace: Namespace, attributes: &Vec<Attribute>, name: &[u8]) -> (r:
    Option<usize>)
    ensures
        match r {
            Some(i) => find_in(namespace, pairs(attributes@), name@) == Some(i as int) && i
                < attributes@.len(),
            None => find_in(namespace, pairs(attributes@), name@) is None,
        },
{
    if namespace == Namespace::Html {
        return find_attribute(attributes, name);
    }
    let mut i: usize = 0;
    while i < attributes.len()
        invariant
            i <= attributes@.len(),
            namespace != Namespace::Html,
            find_exact(pairs(attributes@), name@, 0) == find_exact(
                pairs(attributes@),
                name@,
                i as int,
            ),
        decreases attributes@.len() - i,
    {
        if same_bytes(attributes[i].name.as_slice(), name) {
            return Some(i);
        }
        i = i + 1;
    }
    None
}

/// The attributes of a tag, in the order in which they are written, the first
/// of each name.
pub fn read_attributes(raw: &[u8], outlines: &Vec<AttributeOutline>) -> (r: Vec<Attribute>)
    requires
        forall|k: int|
            0 <= k < outlines@.len() ==> (#[trigger] outlines@[k]).name.within(raw@.len() as int)
                && outlines@[k].value.within(raw@.len() as int),
    ensures
        pairs(r@) == first_of_each(outlined(raw@, outlines@), outlines@.len() as int),
{
    let mut kept: Vec<Attribute> = Vec::new();
    let mut i: usize = 0;
    assert(pairs(kept@) =~= first_of_each(outlined(raw@, outlines@), 0));
    while i < outlines.len()
        invariant
            i <= outlines@.len(),
            forall|k: int|
                0 <= k < outlines@.len() ==> (#[trigger] outlines@[k]).name.within(
                    raw@.len() as int,
                ) && outlines@[k].value.within(raw@.len() as int),
            pairs(kept@) == first_of_each(outlined(raw@, outlines@), i as int),
        decreases outlines@.len() - i,
    {
        let o = outlines[i];
        assert(o.name.within(raw@.len() as int) && o.value.within(raw@.len() as int));
        let name = copied(raw, o.name.start, o.name.end);
        if find_attribute(&kept, name.as_slice()).is_none() {
            let value = copied(raw, o.value.start, o.value.end);
            let ghost before = kept@;
            kept.push(Attribute { name, value });
            assert(pairs(kept@) =~= pairs(before).push((name@, value@)));
        }
        i = i + 1;
    }
    kept
}

/// What is to become of the end tag of an element.
pub struct EndTagPlan {
    /// The name to write in it, if the element was renamed.
    pub name: Option<Vec<u8>>,
    /// What to write around it or in its place.
    pub mutations: Mutations,
}

/// An element, as its start tag opens it.
pub struct Element {
    /// The encoding of the document.
    pub encoding: AsciiCompatibleEncoding,
    /// The name, as the tag writes it or as a handler set it.
    pub name: Vec<u8>,
    /// The attributes, the first of each name.
    pub attributes: Vec<Attribute>,
    /// Whether the tag ends with `/>`.
    pub self_closing: bool,
    /// The namespace of the element.
    pub namespace: Namespace,
    /// Whether content and an end tag can follow the start tag.
    pub can_have_content: bool,
    /// Whether the name or an attribute was changed, so that the start tag is
    /// written anew.
    pub modified: bool,
    /// What to write around the start tag or in its place.
    pub start_tag: Mutations,
    /// What is to become of the end tag.
    pub end_tag: EndTagPlan,
    /// Whether the content is left out.
    pub content_removed: bool,
    /// The handlers to call with the end tag of the element, in this order.
    /// An element that can have no content has no end tag.
    pub end_tag_handlers: Vec<Box<dyn EndTagHandler>>,
}

/// The bytes of one attribute in a start tag: a space, the name, `="`, the
/// value with `"` as a reference, and `"`.
pub open spec fn attribute_bytes(attribute: (Seq<u8>, Seq<u8>)) -> Seq<u8> {
    seq![0x20u8] + attribute.0 + seq![0x3Du8, 0x22] + quoted(attribute.1) + seq![0x22u8]
}

/// The bytes of the first `n` attributes.
pub open spec fn attributes_bytes(attributes: Seq<(Seq<u8>, Seq<u8>)>, n: int) -> Seq<u8>
    decreases n,
{
    if n <= 0 || n > attributes.len() {
        Seq::empty()
    } else {
        attributes_bytes(attributes, n - 1) + attribute_bytes(attributes[n - 1])
    }
}

/// The bytes of a start tag that is written anew.
pub open spec fn start_tag_bytes(
    name: Seq<u8>,
    attributes: Seq<(Seq<u8>, Seq<u8>)>,
    self_closing: bool,
) -> Seq<u8> {
    seq![0x3Cu8] + name + attributes_bytes(attributes, attributes.len() as int) + (if self_closing {
        seq![0x20u8, 0x2F, 0x3E]
    } else {
        seq![0x3Eu8]
    })
}

/// The bytes of an end tag that is written anew.
pub open spec fn end_tag_bytes(name: Seq<u8>) -> Seq<u8> {
    seq![0x3Cu8, 0x2F] + name + seq![0x3Eu8]
}

/// Whether a byte cannot stand in a tag name: whitespace, `/`, `>` and NUL.
pub open spec fn forbidden_in_tag_name(b: u8) -> bool {
    is_whitespace(b) || b == 0x2F || b == 0x3E || b == 0
}

/// Whether a byte cannot stand in an attribute name: whitespace, `"`, `'`,
/// `/`, `=`, `>` and NUL.
pub open spec fn forbidden_in_attribute_name(b: u8) -> bool {
    is_whitespace(b) || b == 0x22 || b == 0x27 || b == 0x2F || b == 0x3D || b == 0x3E || b == 0
}

/// Whether a byte cannot stand in a tag name (if `tag`) or an attribute name.
pub open spec fn forbidden_in_name(b: u8, tag: bool) -> bool {
    if tag {
        forbidden_in_tag_name(b)
    } else {
        forbidden_in_attribute_name(b)
    }
}

/// Why the encoded text cannot be a tag name (if `tag`) or an attribute name,
/// if it cannot. A name is not empty, holds no character without a mapping in
/// the encoding and no forbidden byte, and a tag name begins with a letter.
pub open spec fn name_fault(bytes: Seq<u8>, unmappable: bool, tag: bool) -> Option<ContentError> {
    if unmappable {
        Some(ContentError::UnencodableCharacter)
    } else if bytes.len() == 0 {
        Some(ContentError::Empty)
    } else if tag && !is_alpha(bytes[0]) {
        Some(ContentError::ForbiddenCharacter)
    } else if exists|i: int| 0 <= i < bytes.len() && forbidden_in_name(#[trigger] bytes[i], tag) {
        Some(ContentError::ForbiddenCharacter)
    } else {
        None
    }
}

/// Checks an encoded name.
pub fn check_name(bytes: &[u8], unmappable: bool, tag: bool) -> (r: Option<ContentError>)
    ensures
        r == name_fault(bytes@, unmappable, tag),
{
    if unmappable {
        return Some(ContentError::UnencodableCharacter);
    }
    if bytes.len() == 0 {
        return Some(ContentError::Empty);
    }
    if tag && !is_alpha_byte(bytes[0]) {
        return Some(ContentError::ForbiddenCharacter);
    }
    let mut i: usize = 0;
    while i < bytes.len()
        invariant
            i <= bytes@.len(),
            !unmappable,
            bytes@.len() > 0,
            !(tag && !is_alpha(bytes@[0])),
            forall|j: int| 0 <= j < i ==> !forbidden_in_name(#[trigger] bytes@[j], tag),
        decreases bytes@.len() - i,
    {
        let b = bytes[i];
        let common = is_whitespace_byte(b) || b == 0x2F || b == 0x3E || b == 0;
        let bad = if tag {
            common
        } else {
            common || b == 0x22 || b == 0x27 || b == 0x3D
        };
        if bad {
            assert(forbidden_in_name(bytes@[i as int], tag));
            return Some(ContentError::ForbiddenCharacter);
        }
        i = i + 1;
    }
    None
}

impl Element {
    /// The element with the given name and attributes, as its start tag was
    /// read.
    pub fn from_parts(
        encoding: AsciiCompatibleEncoding,
        name: Vec<u8>,
        attributes: Vec<Attribute>,
        self_closing: bool,
        namespace: Namespace,
        can_have_content: bool,
    ) -> (r: Element)
        ensures
            r.encoding == encoding,
            r.name == name,
            r.attributes == attributes,
            r.self_closing == self_closing,
            r.namespace == namespace,
            r.can_have_content == can_have_content,
            r.untouched(),
    {
        Element {
            encoding,
            name,
            attributes,
            self_closing,
            namespace,
            can_have_content,
            modified: false,
            start_tag: Mutations::new(),
            end_tag: EndTagPlan { name: None, mutations: Mutations::new() },
            content_removed: false,
            end_tag_handlers: Vec::new(),
        }
    }

    /// No handler has changed anything.
    pub open spec fn untouched(&self) -> bool {
        !self.modified && self.start_tag.is_empty() && self.end_tag.name is None
            && self.end_tag.mutations.is_empty() && !self.content_removed
            && self.end_tag_handlers@.len() == 0
    }

    /// What is written for the start tag, whose bytes in the input are `raw`.
    pub open spec fn start_tag_output(&self, raw: Seq<u8>) -> Seq<u8> {
        self.start_tag.applied(
            if self.modified {
                start_tag_bytes(self.name@, pairs(self.attributes@), self.self_closing)
            } else {
                raw
            },
        )
    }

    /// An element that no handler has changed is written as it was read.
    pub proof fn lemma_untouched_output(&self, raw: Seq<u8>)
        requires
            self.untouched(),
        ensures
            self.start_tag_output(raw) == raw,
    {
        assert(self.start_tag_output(raw) =~= raw);
    }

    /// Writes the start tag.
    pub fn write_start_tag(&self, out: &mut Vec<u8>, raw: &[u8])
        ensures
            final(out)@ == old(out)@ + self.start_tag_output(raw@),
    {
        if self.modified {
            let mut tag: Vec<u8> = Vec::new();
            tag.push(0x3C);
            push_all(&mut tag, self.name.as_slice());
            let mut i: usize = 0;
            let ghost head = tag@;
            while i < self.attributes.len()
                invariant
                    i <= self.attributes@.len(),
                    tag@ == head + attributes_bytes(pairs(self.attributes@), i as int),
                decreases self.attributes@.len() - i,
            {
                let ghost before = tag@;
                tag.push(0x20);
                push_all(&mut tag, self.attributes[i].name.as_slice());
                tag.push(0x3D);
                tag.push(0x22);
                push_quoted(&mut tag, self.attributes[i].value.as_slice());
                tag.push(0x22);
                assert(tag@ =~= before + attribute_bytes(pairs(self.attributes@)[i as int]));
                i = i + 1;
            }
            if self.self_closing {
                tag.push(0x20);
                tag.push(0x2F);
                tag.push(0x3E);
            } else {
                tag.push(0x3E);
            }
            assert(tag@ =~= start_tag_bytes(
                self.name@,
                pairs(self.attributes@),
                self.self_closing,
            ));
            self.start_tag.write(out, tag.as_slice());
        } else {
            self.start_tag.write(out, raw);
        }
    }

    /// The name of the element in lower case, as text. `None` for a name of
    /// more than [`MAX_TEXT_LEN`] bytes.
    pub fn tag_name(&self) -> (r: Option<String>)
        ensures
            r is Some <==> self.name@.len() <= MAX_TEXT_LEN,
            r matches Some(s) ==> s@ == decoded_text(self.encoding@, lower_seq(self.name@)),
    {
        let name = lowered(self.name.as_slice(), 0, self.name.len());
        assert(self.name@.subrange(0, self.name@.len() as int) =~= self.name@);
        self.encoding.decode(name.as_slice())
    }

    /// Gives the element another name, in the start tag and in the end tag.
    ///
    /// Fails, and changes nothing, for a name that is too long (`TooLong`) or
    /// that [`name_fault`] refuses.
    pub fn set_tag_name(&mut self, name: &str) -> (r: Result<(), ContentError>)
        ensures
            match r {
                Ok(()) => {
                    &&& name.spec_bytes().len() <= MAX_TEXT_LEN
                    &&& name_fault(
                        encoded_text(old(self).encoding@, name@).0,
                        encoded_text(old(self).encoding@, name@).1,
                        true,
                    ) is None
                    &&& final(self).name@ == encoded_text(old(self).encoding@, name@).0
                    &&& final(self).end_tag.name matches Some(n) && n@ == final(self).name@
                    &&& final(self).modified
                    &&& final(self).attributes == old(self).attributes
                    &&& final(self).start_tag == old(self).start_tag
                    &&& final(self).end_tag.mutations == old(self).end_tag.mutations
                    &&& final(self).content_removed == old(self).content_removed
                    &&& final(self).encoding == old(self).encoding
                    &&& final(self).self_closing == old(self).self_closing
                    &&& final(self).namespace == old(self).namespace
                    &&& final(self).can_have_content == old(self).can_have_content
                    &&& final(self).end_tag_handlers == old(self).end_tag_handlers
                },
                Err(e) => {
                    &&& *final(self) == *old(self)
                    &&& if name.spec_bytes().len() > MAX_TEXT_LEN {
                        e == ContentError::TooLong
                    } else {
                        name_fault(
                            encoded_text(old(self).encoding@, name@).0,
                            encoded_text(old(self).encoding@, name@).1,
                            true,
                        ) == Some(e)
                    }
                },
            },
    {
        match self.encoding.encode(name) {
            None => Err(ContentError::TooLong),
            Some((bytes, unmappable)) => {
                match check_name(bytes.as_slice(), unmappable, true) {
                    Some(e) => Err(e),
                    None => {
                        let again = copied(bytes.as_slice(), 0, bytes.len());
                        assert(bytes@.subrange(0, bytes@.len() as int) =~= bytes@);
                        self.name = bytes;
                        self.end_tag.name = Some(again);
                        self.modified = true;
                        Ok(())
                    },
                }
            },
        }
    }

    /// The namespace of the element.
    pub fn namespace(&self) -> (r: Namespace)
        ensures
            r == self.namespace,
    {
        self.namespace
    }

    /// What [`Element::get_attribute`] returns for a name: the text of the
    /// value of the first attribute with that name (see [`find_in`]); nothing if there is none, or
    /// if the name or the value is longer than [`MAX_TEXT_LEN`].
    pub open spec fn attribute_text(&self, name: &str) -> Option<Seq<char>> {
        if name.spec_bytes().len() > MAX_TEXT_LEN {
            None
        } else {
            match find_in(
                self.namespace,
                pairs(self.attributes@),
                encoded_text(self.encoding@, name@).0,
            ) {
                None => None,
                Some(i) => if pairs(self.attributes@)[i].1.len() > MAX_TEXT_LEN {
                    None
                } else {
                    Some(decoded_text(self.encoding@, pairs(self.attributes@)[i].1))
                },
            }
        }
    }

    /// The value of the attribute with the given name, as text.
    pub fn get_attribute(&self, name: &str) -> (r: Option<String>)
        ensures
            match (r, self.attribute_text(name)) {
                (Some(s), Some(t)) => s@ == t,
                (None, None) => true,
                _ => false,
            },
    {
        match self.encoding.encode(name) {
            None => None,
            Some((bytes, _)) => {
                match find_attribute_in(self.namespace, &self.attributes, bytes.as_slice()) {
                    None => None,
                    Some(i) => {
                        assert(pairs(self.attributes@)[i as int].1
                            == self.attributes@[i as int].value@);
                        self.encoding.decode(self.attributes[i].value.as_slice())
                    },
                }
            },
        }
    }
}

impl Element {
    /// The two elements have the same start tag: name, attributes and the rest
    /// of what was read.
    pub open spec fn same_tag(&self, other: &Element) -> bool {
        &&& self.encoding == other.encoding
        &&& self.name == other.name
        &&& self.attributes == other.attributes
        &&& self.self_closing == other.self_closing
        &&& self.namespace == other.namespace
        &&& self.can_have_content == other.can_have_content
        &&& self.modified == other.modified
        &&& self.end_tag_handlers == other.end_tag_handlers
    }

    /// The two elements agree in what does not belong to the attributes.
    pub open spec fn same_but_attributes(&self, other: &Element) -> bool {
        &&& self.encoding == other.encoding
        &&& self.name == other.name
        &&& self.self_closing == other.self_closing
        &&& self.namespace == other.namespace
        &&& self.can_have_content == other.can_have_content
        &&& self.start_tag == other.start_tag
        &&& self.end_tag == other.end_tag
        &&& self.content_removed == other.content_removed
        &&& self.end_tag_handlers == other.end_tag_handlers
    }

    /// Whether the element has an attribute with the given name.
    pub fn has_attribute(&self, name: &str) -> (r: bool)
        ensures
            r == (name.spec_bytes().len() <= MAX_TEXT_LEN && find_in(
                self.namespace,
                pairs(self.attributes@),
                encoded_text(self.encoding@, name@).0,
            ) is Some),
    {
        match self.encoding.encode(name) {
            None => false,
            Some((bytes, _)) => find_attribute_in(self.namespace, &self.attributes, bytes.as_slice()).is_some(),
        }
    }

    /// What the attributes are after [`Element::set_attribute`] with the
    /// encoded name and value: the value of the first attribute of that name is
    /// replaced, or a new attribute is added behind the others.
    pub open spec fn with_attribute(
        namespace: Namespace,
        attributes: Seq<(Seq<u8>, Seq<u8>)>,
        name: Seq<u8>,
        value: Seq<u8>,
    ) -> Seq<(Seq<u8>, Seq<u8>)> {
        match find_in(namespace, attributes, name) {
            Some(i) => attributes.update(i, (attributes[i].0, value)),
            None => attributes.push((name, value)),
        }
    }

    /// Sets the value of the attribute with the given name, and adds the
    /// attribute if the element has none of that name.
    ///
    /// Fails, and changes nothing, if the name or the value is too long
    /// (`TooLong`), or if [`name_fault`] refuses the name.
    pub fn set_attribute(&mut self, name: &str, value: &str) -> (r: Result<(), ContentError>)
        ensures
            match r {
                Ok(()) => {
                    &&& name.spec_bytes().len() <= MAX_TEXT_LEN
                    &&& value.spec_bytes().len() <= MAX_TEXT_LEN
                    &&& name_fault(
                        encoded_text(old(self).encoding@, name@).0,
                        encoded_text(old(self).encoding@, name@).1,
                        false,
                    ) is None
                    &&& pairs(final(self).attributes@) == Self::with_attribute(
                        old(self).namespace,
                        pairs(old(self).attributes@),
                        encoded_text(old(self).encoding@, name@).0,
                        encoded_text(old(self).encoding@, value@).0,
                    )
                    &&& final(self).modified
                    &&& final(self).same_but_attributes(old(self))
                },
                Err(e) => {
                    &&& *final(self) == *old(self)
                    &&& if name.spec_bytes().len() > MAX_TEXT_LEN || value.spec_bytes().len()
                        > MAX_TEXT_LEN {
                        e == ContentError::TooLong
                    } else {
                        name_fault(
                            encoded_text(old(self).encoding@, name@).0,
                            encoded_text(old(self).encoding@, name@).1,
                            false,
                        ) == Some(e)
                    }
                },
            },
    {
        let encoded_name = self.encoding.encode(name);
        let encoded_value = self.encoding.encode(value);
        match (encoded_name, encoded_value) {
            (Some((name_bytes, unmappable)), Some((value_bytes, _))) => {
                match check_name(name_bytes.as_slice(), unmappable, false) {
                    Some(e) => Err(e),
                    None => {
                        let ghost before = pairs(self.attributes@);
                        match find_attribute_in(self.namespace, &self.attributes, name_bytes.as_slice()) {
                            Some(i) => {
                                let kept_name = copied(
                                    self.attributes[i].name.as_slice(),
                                    0,
                                    self.attributes[i].name.len(),
                                );
                                assert(kept_name@ =~= before[i as int].0);
                                self.attributes.set(
                                    i,
                                    Attribute { name: kept_name, value: value_bytes },
                                );
                                assert(pairs(self.attributes@) =~= before.update(
                                    i as int,
                                    (before[i as int].0, value_bytes@),
                                ));
                            },
                            None => {
                                self.attributes.push(
                                    Attribute { name: name_bytes, value: value_bytes },
                                );
                                assert(pairs(self.attributes@) =~= before.push(
                                    (name_bytes@, value_bytes@),
                                ));
                            },
                        }
                        self.modified = true;
                        Ok(())
                    },
                }
            },
            _ => Err(ContentError::TooLong),
        }
    }

    /// Removes the first attribute with the given name, if there is one.
    pub fn remove_attribute(&mut self, name: &str)
        ensures
            final(self).same_but_attributes(old(self)),
            if name.spec_bytes().len() <= MAX_TEXT_LEN {
                match find_in(
                    old(self).namespace,
                    pairs(old(self).attributes@),
                    encoded_text(old(self).encoding@, name@).0,
                ) {
                    Some(i) => final(self).modified && pairs(final(self).attributes@) == pairs(
                        old(self).attributes@,
                    ).remove(i),
                    None => *final(self) == *old(self),
                }
            } else {
                *final(self) == *old(self)
            },
    {
        match self.encoding.encode(name) {
            None => {},
            Some((bytes, _)) => {
                match find_attribute_in(self.namespace, &self.attributes, bytes.as_slice()) {
                    None => {},
                    Some(i) => {
                        let ghost before = pairs(self.attributes@);
                        let _gone = self.attributes.remove(i);
                        assert(pairs(self.attributes@) =~= before.remove(i as int));
                        self.modified = true;
                    },
                }
            },
        }
    }

    /// Inserts content before the element.
    pub fn before(&mut self, content: &str, content_type: ContentType) -> (r: Result<
        (),
        ContentError,
    >)
        ensures
            r is Ok <==> content.spec_bytes().len() <= MAX_TEXT_LEN,
            r matches Err(e) ==> e == ContentError::TooLong && *final(self) == *old(self),
            r is Ok ==> {
                &&& final(self).same_tag(old(self))
                &&& final(self).start_tag.content_before@ == old(self).start_tag.content_before@
                    + content_bytes(old(self).encoding@, content@, content_type)
                &&& final(self).start_tag.content_after == old(self).start_tag.content_after
                &&& final(self).start_tag.replacement == old(self).start_tag.replacement
                &&& final(self).start_tag.removed == old(self).start_tag.removed
                &&& final(self).end_tag == old(self).end_tag
                &&& final(self).content_removed == old(self).content_removed
            },
    {
        let bytes = encode_content(&self.encoding, content, content_type)?;
        self.start_tag.before(bytes.as_slice());
        Ok(())
    }

    /// Inserts content after the element: behind its end tag, or behind the
    /// start tag of an element that can have no content.
    pub fn after(&mut self, content: &str, content_type: ContentType) -> (r: Result<
        (),
        ContentError,
    >)
        ensures
            r is Ok <==> content.spec_bytes().len() <= MAX_TEXT_LEN,
            r matches Err(e) ==> e == ContentError::TooLong && *final(self) == *old(self),
            r is Ok ==> {
                &&& final(self).same_tag(old(self))
                &&& final(self).content_removed == old(self).content_removed
                &&& final(self).end_tag.name == old(self).end_tag.name
                &&& if old(self).can_have_content {
                    &&& final(self).start_tag == old(self).start_tag
                    &&& final(self).end_tag.mutations.content_after@ == content_bytes(
                        old(self).encoding@,
                        content@,
                        content_type,
                    ) + old(self).end_tag.mutations.content_after@
                    &&& final(self).end_tag.mutations.content_before
                        == old(self).end_tag.mutations.content_before
                    &&& final(self).end_tag.mutations.replacement
                        == old(self).end_tag.mutations.replacement
                    &&& final(self).end_tag.mutations.removed
                        == old(self).end_tag.mutations.removed
                } else {
                    &&& final(self).end_tag == old(self).end_tag
                    &&& final(self).start_tag.content_after@ == content_bytes(
                        old(self).encoding@,
                        content@,
                        content_type,
                    ) + old(self).start_tag.content_after@
                    &&& final(self).start_tag.content_before == old(self).start_tag.content_before
                    &&& final(self).start_tag.replacement == old(self).start_tag.replacement
                    &&& final(self).start_tag.removed == old(self).start_tag.removed
                }
            },
    {
        let bytes = encode_content(&self.encoding, content, content_type)?;
        if self.can_have_content {
            self.end_tag.mutations.after(bytes.as_slice());
        } else {
            self.start_tag.after(bytes.as_slice());
        }
        Ok(())
    }

    /// Inserts content at the start of the content of the element, before what
    /// was inserted there before. Does nothing to an element that can have no
    /// content.
    pub fn prepend(&mut self, content: &str, content_type: ContentType) -> (r: Result<
        (),
        ContentError,
    >)
        ensures
            r is Ok <==> content.spec_bytes().len() <= MAX_TEXT_LEN,
            r matches Err(e) ==> e == ContentError::TooLong && *final(self) == *old(self),
            r is Ok ==> {
                &&& final(self).same_tag(old(self))
                &&& final(self).content_removed == old(self).content_removed
                &&& final(self).end_tag == old(self).end_tag
                &&& final(self).start_tag.content_before == old(self).start_tag.content_before
                &&& final(self).start_tag.replacement == old(self).start_tag.replacement
                &&& final(self).start_tag.removed == old(self).start_tag.removed
                &&& final(self).start_tag.content_after@ == if old(self).can_have_content {
                    content_bytes(old(self).encoding@, content@, content_type)
                        + old(self).start_tag.content_after@
                } else {
                    old(self).start_tag.content_after@
                }
            },
    {
        let bytes = encode_content(&self.encoding, content, content_type)?;
        if self.can_have_content {
            self.start_tag.after(bytes.as_slice());
        }
        Ok(())
    }

    /// Inserts content at the end of the content of the element, behind what
    /// was inserted there before. Does nothing to an element that can have no
    /// content.
    pub fn append(&mut self, content: &str, content_type: ContentType) -> (r: Result<
        (),
        ContentError,
    >)
        ensures
            r is Ok <==> content.spec_bytes().len() <= MAX_TEXT_LEN,
            r matches Err(e) ==> e == ContentError::TooLong && *final(self) == *old(self),
            r is Ok ==> {
                &&& final(self).same_tag(old(self))
                &&& final(self).content_removed == old(self).content_removed
                &&& final(self).start_tag == old(self).start_tag
                &&& final(self).end_tag.name == old(self).end_tag.name
                &&& final(self).end_tag.mutations.content_after
                    == old(self).end_tag.mutations.content_after
                &&& final(self).end_tag.mutations.replacement
                    == old(self).end_tag.mutations.replacement
                &&& final(self).end_tag.mutations.removed == old(self).end_tag.mutations.removed
                &&& final(self).end_tag.mutations.content_before@ == if old(self).can_have_content {
                    old(self).end_tag.mutations.content_before@ + content_bytes(
                        old(self).encoding@,
                        content@,
                        content_type,
                    )
                } else {
                    old(self).end_tag.mutations.content_before@
                }
            },
    {
        let bytes = encode_content(&self.encoding, content, content_type)?;
        if self.can_have_content {
            self.end_tag.mutations.before(bytes.as_slice());
        }
        Ok(())
    }

    /// Puts content in the place of the content of the element. Does nothing
    /// to an element that can have no content.
    pub fn set_inner_content(&mut self, content: &str, content_type: ContentType) -> (r: Result<
        (),
        ContentError,
    >)
        ensures
            r is Ok <==> content.spec_bytes().len() <= MAX_TEXT_LEN,
            r matches Err(e) ==> e == ContentError::TooLong && *final(self) == *old(self),
            r is Ok ==> {
                &&& final(self).same_tag(old(self))
                &&& final(self).end_tag == old(self).end_tag
                &&& final(self).start_tag.content_before == old(self).start_tag.content_before
                &&& final(self).start_tag.replacement == old(self).start_tag.replacement
                &&& final(self).start_tag.removed == old(self).start_tag.removed
                &&& if old(self).can_have_content {
                    final(self).content_removed && final(self).start_tag.content_after@
                        == content_bytes(old(self).encoding@, content@, content_type)
                } else {
                    final(self).content_removed == old(self).content_removed
                        && final(self).start_tag.content_after == old(self).start_tag.content_after
                }
            },
    {
        let bytes = encode_content(&self.encoding, content, content_type)?;
        if self.can_have_content {
            self.content_removed = true;
            self.start_tag.content_after = bytes;
        }
        Ok(())
    }

    /// Puts content in the place of the element: of its tags and its content.
    pub fn replace(&mut self, content: &str, content_type: ContentType) -> (r: Result<
        (),
        ContentError,
    >)
        ensures
            r is Ok <==> content.spec_bytes().len() <= MAX_TEXT_LEN,
            r matches Err(e) ==> e == ContentError::TooLong && *final(self) == *old(self),
            r is Ok ==> {
                &&& final(self).same_tag(old(self))
                &&& final(self).start_tag.replacement@ == content_bytes(
                    old(self).encoding@,
                    content@,
                    content_type,
                )
                &&& final(self).removal_after(old(self), true)
            },
    {
        let bytes = encode_content(&self.encoding, content, content_type)?;
        self.start_tag.replace(bytes.as_slice());
        if self.can_have_content {
            self.content_removed = true;
            self.end_tag.mutations.remove();
        }
        Ok(())
    }

    /// How the element stands after its tags were removed, with its content if
    /// `with_content`: the start tag is left out; so is the end tag, if there
    /// can be one, and with it the content if asked. What was inserted around
    /// the tags stays.
    pub open spec fn removal_after(&self, before: &Element, with_content: bool) -> bool {
        &&& self.start_tag.removed
        &&& self.start_tag.content_before == before.start_tag.content_before
        &&& self.start_tag.content_after == before.start_tag.content_after
        &&& self.end_tag.name == before.end_tag.name
        &&& self.end_tag.mutations.content_before == before.end_tag.mutations.content_before
        &&& self.end_tag.mutations.content_after == before.end_tag.mutations.content_after
        &&& self.end_tag.mutations.replacement == before.end_tag.mutations.replacement
        &&& self.end_tag.mutations.removed == (before.end_tag.mutations.removed
            || before.can_have_content)
        &&& self.content_removed == (before.content_removed || (with_content
            && before.can_have_content))
    }

    /// Removes the element: its tags and its content.
    pub fn remove(&mut self)
        ensures
            final(self).same_tag(old(self)),
            final(self).start_tag.replacement == old(self).start_tag.replacement,
            final(self).removal_after(old(self), true),
    {
        self.start_tag.remove();
        if self.can_have_content {
            self.content_removed = true;
            self.end_tag.mutations.remove();
        }
    }

    /// Removes the tags of the element and keeps its content.
    pub fn remove_and_keep_content(&mut self)
        ensures
            final(self).same_tag(old(self)),
            final(self).start_tag.replacement == old(self).start_tag.replacement,
            final(self).removal_after(old(self), false),
    {
        self.start_tag.remove();
        if self.can_have_content {
            self.end_tag.mutations.remove();
        }
    }

    /// Registers a handler for the end tag of the element, behind those that
    /// were registered before. Does nothing to an element that can have no
    /// content: it has no end tag.
    pub fn on_end_tag(&mut self, handler: Box<dyn EndTagHandler>)
        ensures
            final(self).same_tag_but_handlers(old(self)),
            final(self).end_tag_handlers@ == if old(self).can_have_content {
                old(self).end_tag_handlers@.push(handler)
            } else {
                old(self).end_tag_handlers@
            },
    {
        if self.can_have_content {
            self.end_tag_handlers.push(handler);
        }
    }

    /// The two elements agree in all but the handlers for the end tag.
    pub open spec fn same_tag_but_handlers(&self, other: &Element) -> bool {
        &&& self.encoding == other.encoding
        &&& self.name == other.name
        &&& self.attributes == other.attributes
        &&& self.self_closing == other.self_closing
        &&& self.namespace == other.namespace
        &&& self.can_have_content == other.can_have_content
        &&& self.modified == other.modified
        &&& self.start_tag == other.start_tag
        &&& self.end_tag == other.end_tag
        &&& self.content_removed == other.content_removed
    }

    /// Whether the start tag is left out.
    pub fn removed(&self) -> (r: bool)
        ensures
            r == self.start_tag.removed,
    {
        self.start_tag.removed
    }
}


} // verus!
