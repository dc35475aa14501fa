//! What the rewriter knows of HTML's elements: which have no content, which
//! hold raw text, and where foreign content begins and ends.

use vstd::prelude::*;
use vstd::string::StringSliceAdditionalSpecFns;
use crate::tokenizer::chars::{is_name, lower_seq};
use crate::tokenizer::state_machine::TextMode;

verus! {

/// The namespace of an element.
#[derive(Clone, Copy, PartialEq, Eq, Structural, Debug)]
pub enum Namespace {
    Html,
    Svg,
    MathMl,
}

/// Whether `name`, in lower case, is the name of an HTML element that has no
/// content and no end tag.
pub open spec fn is_void(name: Seq<u8>) -> bool {
    name == "area".spec_bytes() || name == "base".spec_bytes() || name == "basefont".spec_bytes()
        || name == "bgsound".spec_bytes() || name == "br".spec_bytes() || name
        == "col".spec_bytes() || name == "embed".spec_bytes() || name == "frame".spec_bytes()
        || name == "hr".spec_bytes() || name == "img".spec_bytes() || name == "input".spec_bytes()
        || name == "keygen".spec_bytes() || name == "link".spec_bytes() || name
        == "meta".spec_bytes() || name == "param".spec_bytes() || name == "source".spec_bytes()
        || name == "track".spec_bytes() || name == "wbr".spec_bytes()
}

/// How the content of the HTML element with the name `name`, in lower case, is
/// read.
pub open spec fn text_mode_of(name: Seq<u8>) -> TextMode {
    if name == "script".spec_bytes() {
        TextMode::ScriptData
    } else if name == "title".spec_bytes() || name == "textarea".spec_bytes() {
        TextMode::RcData
    } else if name == "style".spec_bytes() || name == "xmp".spec_bytes() || name
        == "iframe".spec_bytes() || name == "noembed".spec_bytes() || name
        == "noframes".spec_bytes() || name == "noscript".spec_bytes() {
        TextMode::RawText
    } else if name == "plaintext".spec_bytes() {
        TextMode::PlainText
    } else {
        TextMode::Data
    }
}

/// Whether the content of the element of the given namespace with the name
/// `name`, in lower case, is HTML again: `foreignObject`, `desc` and `title` in
/// SVG; `mi`, `mo`, `mn`, `ms` and `mtext` in MathML.
pub open spec fn is_integration_point(namespace: Namespace, name: Seq<u8>) -> bool {
    match namespace {
        Namespace::Html => false,
        Namespace::Svg => name == "foreignobject".spec_bytes() || name == "desc".spec_bytes()
            || name == "title".spec_bytes(),
        Namespace::MathMl => name == "mi".spec_bytes() || name == "mo".spec_bytes() || name
            == "mn".spec_bytes() || name == "ms".spec_bytes() || name == "mtext".spec_bytes(),
    }
}

/// Whether a start tag with the name `name`, in lower case, ends foreign
/// content when it stands in it.
pub open spec fn breaks_out(name: Seq<u8>) -> bool {
    name == "b".spec_bytes() || name == "big".spec_bytes() || name == "blockquote".spec_bytes()
        || name == "body".spec_bytes() || name == "br".spec_bytes() || name
        == "center".spec_bytes() || name == "code".spec_bytes() || name == "dd".spec_bytes()
        || name == "div".spec_bytes() || name == "dl".spec_bytes() || name == "dt".spec_bytes()
        || name == "em".spec_bytes() || name == "embed".spec_bytes() || name == "h1".spec_bytes()
        || name == "h2".spec_bytes() || name == "h3".spec_bytes() || name == "h4".spec_bytes()
        || name == "h5".spec_bytes() || name == "h6".spec_bytes() || name == "head".spec_bytes()
        || name == "hr".spec_bytes() || name == "i".spec_bytes() || name == "img".spec_bytes()
        || name == "li".spec_bytes() || name == "listing".spec_bytes() || name
        == "menu".spec_bytes() || name == "meta".spec_bytes() || name == "nobr".spec_bytes()
        || name == "ol".spec_bytes() || name == "p".spec_bytes() || name == "pre".spec_bytes()
        || name == "ruby".spec_bytes() || name == "s".spec_bytes() || name == "small".spec_bytes()
        || name == "span".spec_bytes() || name == "strong".spec_bytes() || name
        == "strike".spec_bytes() || name == "sub".spec_bytes() || name == "sup".spec_bytes()
        || name == "table".spec_bytes() || name == "tt".spec_bytes() || name == "u".spec_bytes()
        || name == "ul".spec_bytes() || name == "var".spec_bytes()
}

/// The namespace of an element with the name `name`, in lower case, whose
/// parent has HTML content (or that has no parent): `svg` and `math` begin
/// foreign content.
pub open spec fn namespace_in_html(name: Seq<u8>) -> Namespace {
    if name == "svg".spec_bytes() {
        Namespace::Svg
    } else if name == "math".spec_bytes() {
        Namespace::MathMl
    } else {
        Namespace::Html
    }
}

/// Whether the name is that of an HTML element without content.
pub fn is_void_name(name: &[u8]) -> (r: bool)
    ensures
        r == is_void(lower_seq(name@)),
{
    is_name(name, "area") || is_name(name, "base") || is_name(name, "basefont") || is_name(
        name,
        "bgsound",
    ) || is_name(name, "br") || is_name(name, "col") || is_name(name, "embed") || is_name(
        name,
        "frame",
    ) || is_name(name, "hr") || is_name(name, "img") || is_name(name, "input") || is_name(
        name,
        "keygen",
    ) || is_name(name, "link") || is_name(name, "meta") || is_name(name, "param") || is_name(
        name,
        "source",
    ) || is_name(name, "track") || is_name(name, "wbr")
}

/// How the content of the HTML element with this name is read.
pub fn text_mode_for(name: &[u8]) -> (r: TextMode)
    ensures
        r == text_mode_of(lower_seq(name@)),
{
    if is_name(name, "script") {
        TextMode::ScriptData
    } else if is_name(name, "title") || is_name(name, "textarea") {
        TextMode::RcData
    } else if is_name(name, "style") || is_name(name, "xmp") || is_name(name, "iframe") || is_name(
        name,
        "noembed",
    ) || is_name(name, "noframes") || is_name(name, "noscript") {
        TextMode::RawText
    } else if is_name(name, "plaintext") {
        TextMode::PlainText
    } else {
        TextMode::Data
    }
}

/// Whether the content of the element is HTML again.
pub fn is_integration_point_name(namespace: Namespace, name: &[u8]) -> (r: bool)
    ensures
        r == is_integration_point(namespace, lower_seq(name@)),
{
    match namespace {
        Namespace::Html => false,
        Namespace::Svg => is_name(name, "foreignobject") || is_name(name, "desc") || is_name(
            name,
            "title",
        ),
        Namespace::MathMl => is_name(name, "mi") || is_name(name, "mo") || is_name(name, "mn")
            || is_name(name, "ms") || is_name(name, "mtext"),
    }
}

/// Whether a start tag with this name ends foreign content.
pub fn breaks_out_name(name: &[u8]) -> (r: bool)
    ensures
        r == breaks_out(lower_seq(name@)),
{
    is_name(name, "b") || is_name(name, "big") || is_name(name, "blockquote") || is_name(
        name,
        "body",
    ) || is_name(name, "br") || is_name(name, "center") || is_name(name, "code") || is_name(
        name,
        "dd",
    ) || is_name(name, "div") || is_name(name, "dl") || is_name(name, "dt") || is_name(name, "em")
        || is_name(name, "embed") || is_name(name, "h1") || is_name(name, "h2") || is_name(
        name,
        "h3",
    ) || is_name(name, "h4") || is_name(name, "h5") || is_name(name, "h6") || is_name(
        name,
        "head",
    ) || is_name(name, "hr") || is_name(name, "i") || is_name(name, "img") || is_name(name, "li")
        || is_name(name, "listing") || is_name(name, "menu") || is_name(name, "meta") || is_name(
        name,
        "nobr",
    ) || is_name(name, "ol") || is_name(name, "p") || is_name(name, "pre") || is_name(
        name,
        "ruby",
    ) || is_name(name, "s") || is_name(name, "small") || is_name(name, "span") || is_name(
        name,
        "strong",
    ) || is_name(name, "strike") || is_name(name, "sub") || is_name(name, "sup") || is_name(
        name,
        "table",
    ) || is_name(name, "tt") || is_name(name, "u") || is_name(name, "ul") || is_name(name, "var")
}

/// The namespace of an element whose parent has HTML content.
pub fn namespace_in_html_for(name: &[u8]) -> (r: Namespace)
    ensures
        r == namespace_in_html(lower_seq(name@)),
{
    if is_name(name, "svg") {
        Namespace::Svg
    } else if is_name(name, "math") {
        Namespace::MathMl
    } else {
        Namespace::Html
    }
}

} // verus!
