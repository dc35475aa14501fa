use cool_thing::encoding::try_encoding_from_str;
use cool_thing::errors::{
    EncodingError, ErrorKind, HandlerError, MemoryLimitExceededError, ParsingAmbiguityError,
    RewritingError,
};
use cool_thing::html::Namespace;
use cool_thing::html_content::element::Element;
use cool_thing::html_content::mutations::{ContentError, ContentType};
use cool_thing::html_content::tokens::{Comment, EndTag, EndTagHandler, TextChunk};
use cool_thing::memory::MemoryLimiter;
use cool_thing::rewriter::settings::{
    CommentHandler, DocumentContentHandlers, ElementContentHandlers, ElementHandler,
    MemorySettings, RewriteStrSettings, Settings, TextHandler,
};
use cool_thing::rewriter::{rewrite_str, HtmlRewriter};
use cool_thing::selectors::parser::{Selector, SelectorError};
use cool_thing::transform_stream::OutputBuffer;
use cool_thing::tokenizer::state_machine::{
    scan_token, LexContext, ScriptCarry, ScriptLevel, TextMode, TokenKind,
};
use std::cell::RefCell;
use std::rc::Rc;

type HandlerResult = Result<(), HandlerError>;

struct OnElement<F>(F);

impl<F: FnMut(&mut Element) -> HandlerResult> ElementHandler for OnElement<F> {
    fn handle(&mut self, element: &mut Element) -> HandlerResult {
        (self.0)(element)
    }
}

struct OnComment<F>(F);

impl<F: FnMut(&mut Comment) -> HandlerResult> CommentHandler for OnComment<F> {
    fn handle(&mut self, comment: &mut Comment) -> HandlerResult {
        (self.0)(comment)
    }
}

struct OnText<F>(F);

impl<F: FnMut(&mut TextChunk) -> HandlerResult> TextHandler for OnText<F> {
    fn handle(&mut self, chunk: &mut TextChunk) -> HandlerResult {
        (self.0)(chunk)
    }
}

struct OnEndTag<F>(F);

impl<F: FnMut(&mut EndTag) -> HandlerResult> EndTagHandler for OnEndTag<F> {
    fn handle(&mut self, end_tag: &mut EndTag) -> HandlerResult {
        (self.0)(end_tag)
    }
}

fn element<'h>(f: impl FnMut(&mut Element) -> HandlerResult + 'h) -> ElementContentHandlers<'h> {
    ElementContentHandlers::new().element(Box::new(OnElement(f)))
}

fn text<'h>(f: impl FnMut(&mut TextChunk) -> HandlerResult + 'h) -> ElementContentHandlers<'h> {
    ElementContentHandlers::new().text(Box::new(OnText(f)))
}

fn doc_comments<'h>(
    f: impl FnMut(&mut Comment) -> HandlerResult + 'h,
) -> DocumentContentHandlers<'h> {
    DocumentContentHandlers::new().comments(Box::new(OnComment(f)))
}

fn selector(text: &str) -> Selector {
    Selector::parse(text).unwrap()
}

/// Rewrites the chunks with one element handler for one selector.
fn rewrite_with<'h>(
    selector_text: &str,
    chunks: &[&str],
    handler: impl FnMut(&mut Element) -> HandlerResult + 'h,
) -> String {
    let sel = selector(selector_text);
    let mut rewriter = HtmlRewriter::try_new(
        Settings {
            element_content_handlers: vec![(&sel, element(handler))],
            ..Settings::new()
        },
        Vec::new(),
    )
    .unwrap();
    for chunk in chunks {
        rewriter.write(chunk.as_bytes()).unwrap();
    }
    rewriter.end().unwrap();
    String::from_utf8(rewriter.into_output_sink()).unwrap()
}

/// The names of the elements that the selector matches, in the order in which
/// the handler saw them.
fn matched_names(selector_text: &str, html: &str) -> Vec<String> {
    let mut names = Vec::new();
    rewrite_with(selector_text, &[html], |el| {
        names.push(String::from_utf8(el.name.clone()).unwrap());
        Ok(())
    });
    names
}

/// The values of the attribute `id` of the elements that the selector matches.
fn matched_ids(selector_text: &str, html: &str) -> Vec<String> {
    let mut ids = Vec::new();
    rewrite_with(selector_text, &[html], |el| {
        ids.push(el.get_attribute("id").unwrap_or_default());
        Ok(())
    });
    ids
}

fn passive(chunks: &[&[u8]]) -> Vec<u8> {
    let mut rewriter = HtmlRewriter::try_new(Settings::new(), Vec::new()).unwrap();
    for chunk in chunks {
        rewriter.write(chunk).unwrap();
    }
    rewriter.end().unwrap();
    rewriter.into_output_sink()
}

fn documents() -> Vec<&'static str> {
    vec![
        "",
        "plain text",
        "<div><a href=\"http://example.com\"></a></div>",
        "<!doctype html><html><head><title>a</b><c></title></head><body>x < y</body></html>",
        "<!-- 42 --><div><!--hi--></div><!--><!---><!--x--!><!x><?y></>< ",
        "<script>if (a < b) { document.write('</scr' + 'ipt>'); } <!-- <script> </script> --> </script><p>",
        "<style>a > b { c: \"</div>\" }</style><textarea></textare></textarea >",
        "<svg><![CDATA[ <b> ]]><foreignObject><p/></foreignObject><circle/></svg><![CDATA[x]]>",
        "<a b='>' c=\">\" d=> e/f /><img src=x><br/></a x=\"</a\">",
        "<plaintext></plaintext><b>never a tag",
        "<div><!-- never closed",
        "<div class=\"never closed",
        "<title>never closed</tit",
        "<!DOCTYPE html PUBLIC \"-//W3C//DTD HTML 4.01//EN\" \"http://www.w3.org/TR/html4/strict.dtd",
        "caf\u{e9} \u{4e2d}\u{6587} <p title=\"\u{1f600}\">\u{1f600}</p>",
    ]
}

#[test]
fn identity_without_handlers() {
    for document in documents() {
        assert_eq!(passive(&[document.as_bytes()]), document.as_bytes());
        assert_eq!(
            rewrite_str(document, RewriteStrSettings::new()).unwrap(),
            document
        );
    }
}

#[test]
fn identity_for_every_cut_into_two_chunks() {
    for document in documents() {
        let bytes = document.as_bytes();
        for cut in 0..=bytes.len() {
            assert_eq!(passive(&[&bytes[..cut], &bytes[cut..]]), bytes);
        }
    }
}

#[test]
fn identity_byte_by_byte() {
    for document in documents() {
        let bytes = document.as_bytes();
        let chunks: Vec<&[u8]> = bytes.chunks(1).collect();
        assert_eq!(passive(&chunks), bytes);
    }
}

#[test]
fn handlers_that_change_nothing_leave_the_document() {
    for document in documents() {
        let out = rewrite_with("*", &[document], |_| Ok(()));
        assert_eq!(out, document);
    }
}

#[test]
fn chunks_do_not_change_what_element_handlers_do() {
    let document = "<div><a href=http://example.com>link</a><p class='x y'>text</p></div>";
    let whole = rewrite_with("a[href], p.y", &[document], |el| {
        el.set_attribute("seen", "yes").unwrap();
        Ok(())
    });
    assert_eq!(
        whole,
        "<div><a href=\"http://example.com\" seen=\"yes\">link</a><p class=\"x y\" seen=\"yes\">text</p></div>"
    );
    for cut in 0..=document.len() {
        let chunked = rewrite_with(
            "a[href], p.y",
            &[&document[..cut], &document[cut..]],
            |el| {
                el.set_attribute("seen", "yes").unwrap();
                Ok(())
            },
        );
        assert_eq!(chunked, whole);
    }
}

#[test]
fn rewrite_insecure_links_in_chunks() {
    let out = rewrite_with(
        "a[href]",
        &["<div><a href=", "http://example.com>", "</a></div>"],
        |el| {
            let href = el.get_attribute("href").unwrap().replace("http:", "https:");
            el.set_attribute("href", &href).unwrap();
            Ok(())
        },
    );
    assert_eq!(out, r#"<div><a href="https://example.com"></a></div>"#);
}

#[test]
fn memory_stays_under_the_limit() {
    let any = selector("*");
    let mut rewriter = HtmlRewriter::try_new(
        Settings {
            element_content_handlers: vec![(&any, ElementContentHandlers::new())],
            memory_settings: MemorySettings {
                max_allowed_memory_usage: 4096,
                preallocated_parsing_buffer_size: 0,
            },
            ..Settings::new()
        },
        Vec::new(),
    )
    .unwrap();
    assert_eq!(rewriter.current_memory_usage(), 0);
    assert_eq!(rewriter.max_memory_usage(), 4096);
    let mut failed = false;
    for _ in 0..1000 {
        match rewriter.write(b"<div><span>") {
            Ok(()) => assert!(rewriter.current_memory_usage() <= 4096),
            Err(e) => {
                assert_eq!(e.kind(), ErrorKind::MemoryLimitExceeded);
                failed = true;
                break;
            }
        }
    }
    assert!(failed);
    assert!(rewriter.current_memory_usage() <= 4096);
}

#[test]
fn memory_is_released_when_elements_close() {
    let mut rewriter = HtmlRewriter::try_new(
        Settings {
            memory_settings: MemorySettings {
                max_allowed_memory_usage: 200,
                preallocated_parsing_buffer_size: 0,
            },
            ..Settings::new()
        },
        Vec::new(),
    )
    .unwrap();
    for _ in 0..1000 {
        rewriter.write(b"<div><span>text</span></div>").unwrap();
        assert_eq!(rewriter.current_memory_usage(), 0);
    }
    // Each open element is charged its name and 32 bytes.
    rewriter.write(b"<div>").unwrap();
    assert_eq!(rewriter.current_memory_usage(), 35);
    rewriter.write(b"<span>").unwrap();
    assert_eq!(rewriter.current_memory_usage(), 71);
    // What is no whole token yet is kept, and charged.
    rewriter.write(b"<img alt=").unwrap();
    assert_eq!(rewriter.current_memory_usage(), 80);
    rewriter.write(b"x></span>").unwrap();
    assert_eq!(rewriter.current_memory_usage(), 35);
    rewriter.end().unwrap();
}

#[test]
fn memory_failure_is_the_same_each_time() {
    for _ in 0..3 {
        let mut rewriter = HtmlRewriter::try_new(
            Settings {
                memory_settings: MemorySettings {
                    max_allowed_memory_usage: 10,
                    preallocated_parsing_buffer_size: 0,
                },
                ..Settings::new()
            },
            Vec::new(),
        )
        .unwrap();
        // Ten bytes of an unfinished tag fit, eleven do not.
        rewriter.write(b"<img alt=\"").unwrap();
        let err = rewriter.write(b"l").unwrap_err();
        assert_eq!(err.kind(), ErrorKind::MemoryLimitExceeded);
        assert_eq!(rewriter.into_output_sink(), b"");
    }
}

#[test]
fn memory_limiter_counts() {
    let mut limiter = MemoryLimiter::new(10);
    assert_eq!(limiter.current_usage(), 0);
    assert_eq!(limiter.max_allowed(), 10);
    assert_eq!(limiter.increase_usage(7), Ok(()));
    assert_eq!(limiter.current_usage(), 7);
    assert_eq!(limiter.increase_usage(4), Err(MemoryLimitExceededError));
    assert_eq!(limiter.current_usage(), 7);
    assert_eq!(limiter.increase_usage(3), Ok(()));
    assert_eq!(limiter.current_usage(), 10);
    limiter.decrease_usage(10);
    assert_eq!(limiter.current_usage(), 0);
    assert_eq!(limiter.increase_usage(usize::MAX), Err(MemoryLimitExceededError));
}

#[test]
fn handlers_run_in_document_order_then_registration_order() {
    let calls = Rc::new(RefCell::new(Vec::new()));
    let record = |idx: usize| {
        let calls = Rc::clone(&calls);
        element(move |el| {
            calls
                .borrow_mut()
                .push((el.get_attribute("id").unwrap(), idx));
            Ok(())
        })
    };
    let selectors = [selector("span"), selector("*"), selector("div > *"), selector("div")];
    let html = "<div id=a><span id=b></span><div id=c><span id=d></span></div></div><span id=e>";
    for _ in 0..2 {
        calls.borrow_mut().clear();
        rewrite_str(
            html,
            RewriteStrSettings {
                element_content_handlers: vec![
                    (&selectors[0], record(0)),
                    (&selectors[1], record(1)),
                    (&selectors[2], record(2)),
                    (&selectors[3], record(3)),
                ],
                ..RewriteStrSettings::new()
            },
        )
        .unwrap();
        let expected: Vec<(String, usize)> = [
            ("a", 1),
            ("a", 3),
            ("b", 0),
            ("b", 1),
            ("b", 2),
            ("c", 1),
            ("c", 2),
            ("c", 3),
            ("d", 0),
            ("d", 1),
            ("d", 2),
            ("e", 0),
            ("e", 1),
        ]
        .iter()
        .map(|(id, idx)| (id.to_string(), *idx))
        .collect();
        assert_eq!(*calls.borrow(), expected);
    }
}

#[test]
fn a_handler_does_not_change_what_was_written_before() {
    let first = selector("#first");
    let second = selector("#second");
    let seen_before_second = Rc::new(RefCell::new(Vec::new()));
    let mut rewriter = HtmlRewriter::try_new(
        Settings {
            element_content_handlers: vec![
                (&first, ElementContentHandlers::new()),
                (
                    &second,
                    element(|el| {
                        el.remove();
                        Ok(())
                    }),
                ),
            ],
            ..Settings::new()
        },
        Vec::new(),
    )
    .unwrap();
    rewriter.write(b"<p id=first>one</p>").unwrap();
    seen_before_second
        .borrow_mut()
        .extend_from_slice(rewriter.output_sink());
    assert_eq!(*seen_before_second.borrow(), b"<p id=first>one</p>");
    rewriter.write(b"<p id=second>two</p><p>three</p>").unwrap();
    rewriter.end().unwrap();
    let out = rewriter.into_output_sink();
    assert!(out.starts_with(&seen_before_second.borrow()));
    assert_eq!(out, b"<p id=first>one</p><p>three</p>");
}

#[test]
fn strict_mode_refuses_ambiguous_markup() {
    let run = |strict: bool, chunks: &[&str]| -> Result<Vec<u8>, RewritingError> {
        let mut rewriter = HtmlRewriter::try_new(
            Settings {
                strict,
                ..Settings::new()
            },
            Vec::new(),
        )
        .unwrap();
        for chunk in chunks {
            rewriter.write(chunk.as_bytes())?;
        }
        rewriter.end()?;
        Ok(rewriter.into_output_sink())
    };
    // The end of the input comes inside what may be the end tag of the title.
    let err = run(true, &["<title>abc", "</tit"]).unwrap_err();
    assert_eq!(err.kind(), ErrorKind::ParsingAmbiguity);
    assert!(matches!(
        err,
        RewritingError::ParsingAmbiguity(ParsingAmbiguityError)
    ));
    assert_eq!(err.message(), "The parser has encountered ambiguous markup.");
    assert_eq!(run(false, &["<title>abc", "</tit"]).unwrap(), b"<title>abc</tit");
    // An end tag of another element inside a title.
    assert_eq!(
        run(true, &["<title>a</b></title>"]).unwrap_err().kind(),
        ErrorKind::ParsingAmbiguity
    );
    assert_eq!(run(true, &["<title>a<b></title>"]).unwrap(), b"<title>a<b></title>");
    // A trailing solidus on an element that has content.
    assert_eq!(run(true, &["<div/>"]).unwrap_err().kind(), ErrorKind::ParsingAmbiguity);
    assert_eq!(run(true, &["<br/><svg><circle/></svg>"]).unwrap(), b"<br/><svg><circle/></svg>");
    assert_eq!(run(false, &["<div/>"]).unwrap(), b"<div/>");
}

fn comment_texts(html: &str) -> Vec<String> {
    let mut texts = Vec::new();
    let mut rewriter = HtmlRewriter::try_new(
        Settings {
            document_content_handlers: vec![doc_comments(|c| {
                texts.push(c.text().unwrap());
                Ok(())
            })],
            ..Settings::new()
        },
        Vec::new(),
    )
    .unwrap();
    rewriter.write(html.as_bytes()).unwrap();
    rewriter.end().unwrap();
    drop(rewriter);
    texts
}

#[test]
fn comments_of_every_form() {
    assert_eq!(comment_texts("<!-- a -- b -->"), [" a -- b "]);
    assert_eq!(comment_texts("<!-->x<!--->y<!---->z"), ["", "", ""]);
    assert_eq!(comment_texts("<!----->"), ["-"]);
    assert_eq!(comment_texts("<!--a--!>b-->"), ["a"]);
    assert_eq!(comment_texts("<!--a<!--b-->c-->"), ["a<!--b"]);
    assert_eq!(comment_texts("<?xml version?>"), ["?xml version?"]);
    assert_eq!(comment_texts("<!foo>"), ["foo"]);
    assert_eq!(comment_texts("<!-x>"), ["-x"]);
    assert_eq!(comment_texts("</ x>"), [" x"]);
    assert_eq!(comment_texts("<!doctyp x>"), ["doctyp x"]);
    assert_eq!(comment_texts("<![CDATA[x]]>"), ["[CDATA[x]]"]);
    assert_eq!(comment_texts("<!--abc"), ["abc"]);
    assert_eq!(comment_texts("<!"), [""]);
    assert_eq!(comment_texts("<title><!--no--></title><script><!--no--></script>"), [""; 0]);
    assert_eq!(comment_texts("<svg><![CDATA[<!--no-->]]><!--yes--></svg>"), ["yes"]);
}

fn texts_inside(selector_text: &str, html: &str) -> String {
    let sel = selector(selector_text);
    let mut seen = String::new();
    let mut rewriter = HtmlRewriter::try_new(
        Settings {
            element_content_handlers: vec![(
                &sel,
                text(|chunk| {
                    seen.push_str(&chunk.as_str().unwrap());
                    Ok(())
                }),
            )],
            ..Settings::new()
        },
        Vec::new(),
    )
    .unwrap();
    rewriter.write(html.as_bytes()).unwrap();
    rewriter.end().unwrap();
    drop(rewriter);
    seen
}

#[test]
fn text_of_elements_with_raw_content() {
    assert_eq!(texts_inside("title", "<title><b>x</b></title><b>y</b>"), "<b>x</b>");
    assert_eq!(texts_inside("textarea", "<textarea></title></TextArea >z"), "</title>");
    assert_eq!(texts_inside("style", "<style>a<b></style></b>"), "a<b>");
    assert_eq!(
        texts_inside("script", "<script>a</scriptx></script>b"),
        "a</scriptx>"
    );
    assert_eq!(
        texts_inside("script", "<script><!--<script></script>--></script>b"),
        "<!--<script></script>-->"
    );
    assert_eq!(
        texts_inside("script", "<script><!--<script>--></script>b"),
        "<!--<script>-->"
    );
    assert_eq!(
        texts_inside("script", "<script><!--x</script>b"),
        "<!--x"
    );
    assert_eq!(
        texts_inside("plaintext", "<plaintext></plaintext><b>"),
        "</plaintext><b>"
    );
    assert_eq!(texts_inside("p", "<p>a<b>c</b>d</p>e"), "acd");
    assert_eq!(texts_inside("svg title", "<svg><title><b>x</b></title></svg>"), "x");
}

#[test]
fn text_chunks_end_with_an_empty_last_chunk() {
    let sel = selector("p");
    let mut chunks = Vec::new();
    let mut rewriter = HtmlRewriter::try_new(
        Settings {
            element_content_handlers: vec![(
                &sel,
                text(|chunk| {
                    chunks.push((
                        chunk.as_str().unwrap(),
                        chunk.last_in_text_node(),
                        chunk.text_type(),
                    ));
                    Ok(())
                }),
            )],
            ..Settings::new()
        },
        Vec::new(),
    )
    .unwrap();
    rewriter.write(b"<p>one ").unwrap();
    rewriter.write(b"two<b>three</b>").unwrap();
    rewriter.write(b"</p>four").unwrap();
    rewriter.end().unwrap();
    drop(rewriter);
    assert_eq!(
        chunks,
        [
            ("one ".to_string(), false, TextMode::Data),
            ("two".to_string(), false, TextMode::Data),
            ("".to_string(), true, TextMode::Data),
            ("three".to_string(), false, TextMode::Data),
            ("".to_string(), true, TextMode::Data),
        ]
    );
}

fn kinds(input: &str, mode: TextMode, closing_name: &str, last: bool) -> Vec<(TokenKind, String)> {
    let context = LexContext {
        mode,
        closing_name: closing_name.as_bytes().to_vec(),
        cdata_allowed: false,
        script: ScriptCarry {
            level: ScriptLevel::Plain,
            dashes: 0,
        },
    };
    let bytes = input.as_bytes();
    let mut pos = 0;
    let mut found = Vec::new();
    while let Some(token) = scan_token(&context, bytes, pos, last) {
        assert_eq!(token.start, pos);
        assert!(token.end > pos);
        found.push((
            token.kind,
            String::from_utf8(bytes[token.start..token.end].to_vec()).unwrap(),
        ));
        pos = token.end;
    }
    found
}

fn owned(tokens: &[(TokenKind, &str)]) -> Vec<(TokenKind, String)> {
    tokens.iter().map(|(k, s)| (*k, s.to_string())).collect()
}

#[test]
fn tokens_of_ordinary_content() {
    let start = TokenKind::StartTag {
        self_closing: false,
    };
    let empty = TokenKind::StartTag { self_closing: true };
    assert_eq!(
        kinds("a<b c='>'>d</b ><e/>< f<<!--g--><!DOCTYPE h></>", TextMode::Data, "", true),
        owned(&[
            (TokenKind::Text, "a"),
            (start, "<b c='>'>"),
            (TokenKind::Text, "d"),
            (TokenKind::EndTag, "</b >"),
            (empty, "<e/>"),
            (TokenKind::Text, "< f"),
            (TokenKind::Text, "<"),
            (TokenKind::Comment, "<!--g-->"),
            (TokenKind::Doctype, "<!DOCTYPE h>"),
            (TokenKind::Skipped, "</>"),
        ])
    );
    // `/` in an unquoted value does not close the tag by itself.
    assert_eq!(
        kinds("<a b=/><a b=c/><a / >", TextMode::Data, "", true),
        owned(&[(start, "<a b=/>"), (start, "<a b=c/>"), (start, "<a / >")])
    );
}

#[test]
fn tokens_wait_for_more_input() {
    let start = TokenKind::StartTag {
        self_closing: false,
    };
    assert_eq!(kinds("abc<d", TextMode::Data, "", false), owned(&[(TokenKind::Text, "abc")]));
    assert_eq!(
        kinds("abc<d", TextMode::Data, "", true),
        owned(&[(TokenKind::Text, "abc"), (TokenKind::Text, "<d")])
    );
    assert_eq!(kinds("<!--x", TextMode::Data, "", false), owned(&[]));
    assert_eq!(
        kinds("<!--x", TextMode::Data, "", true),
        owned(&[(TokenKind::Comment, "<!--x")])
    );
    assert_eq!(
        kinds("<!doctype x", TextMode::Data, "", true),
        owned(&[(TokenKind::Doctype, "<!doctype x")])
    );
    assert_eq!(kinds("<", TextMode::Data, "", false), owned(&[]));
    assert_eq!(kinds("<", TextMode::Data, "", true), owned(&[(TokenKind::Text, "<")]));
    assert_eq!(
        kinds("<p>x</tit", TextMode::Data, "", false),
        owned(&[(start, "<p>"), (TokenKind::Text, "x")])
    );
    assert_eq!(
        kinds("x</tit", TextMode::RcData, "title", false),
        owned(&[(TokenKind::Text, "x")])
    );
    assert_eq!(
        kinds("x</tit", TextMode::RcData, "title", true),
        owned(&[(TokenKind::Text, "x"), (TokenKind::Text, "</tit")])
    );
    assert_eq!(
        kinds("x</tip></TITLE\n>", TextMode::RcData, "title", true),
        owned(&[
            (TokenKind::Text, "x"),
            (TokenKind::Text, "</tip>"),
            (TokenKind::EndTag, "</TITLE\n>")
        ])
    );
    assert_eq!(
        kinds("a<b></plaintext>", TextMode::PlainText, "", true),
        owned(&[(TokenKind::Text, "a<b></plaintext>")])
    );
}

#[test]
fn selector_errors() {
    let error = |text: &str| Selector::parse(text).err();
    assert_eq!(error(""), Some(SelectorError::UnexpectedEnd));
    assert_eq!(error("div >"), Some(SelectorError::UnexpectedEnd));
    assert_eq!(error("div,"), Some(SelectorError::UnexpectedEnd));
    assert_eq!(error("[a"), Some(SelectorError::UnexpectedEnd));
    assert_eq!(error("[a='b"), Some(SelectorError::UnexpectedEnd));
    assert_eq!(error("div!"), Some(SelectorError::UnexpectedCharacter));
    assert_eq!(error("[a=b c]"), Some(SelectorError::UnexpectedCharacter));
    assert_eq!(error("[a!b]"), Some(SelectorError::UnexpectedCharacter));
    assert_eq!(error(":nth-child(x)"), Some(SelectorError::UnexpectedCharacter));
    assert_eq!(error("."), Some(SelectorError::MissingName));
    assert_eq!(error("#"), Some(SelectorError::MissingName));
    assert_eq!(error("[=a]"), Some(SelectorError::MissingName));
    assert_eq!(error("a +"), Some(SelectorError::UnexpectedEnd));
    assert_eq!(error("a ~ > b"), Some(SelectorError::UnexpectedCharacter));
    assert_eq!(error("a:last-child"), Some(SelectorError::UnsupportedPseudoClass));
    assert_eq!(error("a:nth-last-child(1)"), Some(SelectorError::UnsupportedPseudoClass));
    assert_eq!(error("a:only-child"), Some(SelectorError::UnsupportedPseudoClass));
    assert_eq!(error("a:hover"), Some(SelectorError::UnsupportedPseudoClass));
    assert_eq!(error(":not(:not(a))"), Some(SelectorError::NestedNegation));
    assert_eq!(
        error(":nth-child(1234567890)"),
        Some(SelectorError::NumberTooLarge)
    );
    assert_eq!(error(" div , span[ a = 'b' i ] > p:not( .c ) "), None);
    assert_eq!(selector("div > p").as_str(), "div > p");
}

#[test]
fn selectors_with_combinators() {
    let html = "<div id=1><p id=2><span id=3></span></p><span id=4></span></div><span id=5></span>";
    assert_eq!(matched_ids("span", html), ["3", "4", "5"]);
    assert_eq!(matched_ids("div span", html), ["3", "4"]);
    assert_eq!(matched_ids("div > span", html), ["4"]);
    assert_eq!(matched_ids("div > p > span", html), ["3"]);
    assert_eq!(matched_ids("div p span", html), ["3"]);
    assert_eq!(matched_ids("p > span, div > span", html), ["3", "4"]);
    assert_eq!(matched_ids("div *", html), ["2", "3", "4"]);
    assert_eq!(matched_ids("* > *", html), ["2", "3", "4"]);
    assert_eq!(matched_ids("span span", html), [""; 0]);
    assert_eq!(matched_ids("DIV > SPAN", html), ["4"]);
}

#[test]
fn selectors_with_sibling_combinators() {
    let html = [
        "<ul><li id=1></li>text<li id=2 class=x></li><!--c--><p id=3></p><li id=4></li>",
        "<br id=5><li id=6><li id=7></li><i id=8></i></li><li id=9></li></ul><li id=10></li>",
    ]
    .concat();
    let html = html.as_str();
    assert_eq!(matched_ids("li + li", html), ["2", "9"]);
    assert_eq!(matched_ids("li ~ li", html), ["2", "4", "6", "9"]);
    assert_eq!(matched_ids("p + li", html), ["4"]);
    assert_eq!(matched_ids("p ~ li", html), ["4", "6", "9"]);
    assert_eq!(matched_ids(".x + p + li", html), ["4"]);
    assert_eq!(matched_ids(".x ~ br ~ li", html), ["6", "9"]);
    assert_eq!(matched_ids("br + li", html), ["6"]);
    assert_eq!(matched_ids("li + i", html), ["8"]);
    assert_eq!(matched_ids("ul + li", html), ["10"]);
    assert_eq!(matched_ids("li ~ li > li", html), ["7"]);
    assert_eq!(matched_ids("li + li li + i", html), [""; 0]);
    assert_eq!(matched_ids("p ~ li li + i", html), ["8"]);
    assert_eq!(matched_ids("ul > li:first-child + li", html), ["2"]);
    assert_eq!(matched_ids("li+li,p~br", html), ["2", "5", "9"]);
    assert_eq!(matched_ids("i ~ li", html), [""; 0]);
    assert_eq!(matched_ids("li ~ ul", html), [""; 0]);
}

#[test]
fn selectors_follow_the_open_elements() {
    // An end tag closes the elements that are open inside its element.
    assert_eq!(
        matched_ids("div i", "<div><span><b></div><i id=1></i><div><i id=2></i></div>"),
        ["2"]
    );
    // Elements without content do not stay open.
    assert_eq!(
        matched_ids("div > p", "<div><br><img src=x><input><p id=1></p></div>"),
        ["1"]
    );
    assert_eq!(matched_ids("br p, img p", "<br><img><p id=1></p>"), [""; 0]);
    // An end tag without a start tag closes nothing.
    assert_eq!(matched_ids("div > p", "<div></span><p id=1></p></div>"), ["1"]);
    // In foreign content `/>` closes an element.
    assert_eq!(
        matched_ids("circle rect", "<svg><circle/><rect id=1></rect></svg>"),
        [""; 0]
    );
    assert_eq!(
        matched_ids("div > p", "<div/><p id=1></p>"),
        ["1"]
    );
}

#[test]
fn selectors_on_attributes() {
    let html = [
        "<a id=1 href='http://example.com/a.png' class='big  red' lang=en-US data-x></a>",
        "<a id=2 HREF=/b.PNG class=bigred lang=en></a>",
        "<a id=3 class='red' lang=english title=''></a>",
    ]
    .concat();
    let html = html.as_str();
    assert_eq!(matched_ids("[href]", html), ["1", "2"]);
    assert_eq!(matched_ids("[data-x]", html), ["1"]);
    assert_eq!(matched_ids("[lang=en]", html), ["2"]);
    assert_eq!(matched_ids("[lang=\"en-US\"]", html), ["1"]);
    assert_eq!(matched_ids("[lang=EN]", html), [""; 0]);
    assert_eq!(matched_ids("[lang=EN i]", html), ["2"]);
    assert_eq!(matched_ids("[class~=red]", html), ["1", "3"]);
    assert_eq!(matched_ids("[class~='big red']", html), [""; 0]);
    assert_eq!(matched_ids("[lang|=en]", html), ["1", "2"]);
    assert_eq!(matched_ids("[href^='http:']", html), ["1"]);
    assert_eq!(matched_ids("[href$='.png']", html), ["1"]);
    assert_eq!(matched_ids("[href$='.png' i]", html), ["1", "2"]);
    assert_eq!(matched_ids("[href*='example']", html), ["1"]);
    assert_eq!(matched_ids("[class*='gr']", html), ["2"]);
    assert_eq!(matched_ids("[title='']", html), ["3"]);
    assert_eq!(matched_ids("[title^='']", html), [""; 0]);
    assert_eq!(matched_ids("[title*='']", html), [""; 0]);
    assert_eq!(matched_ids(".red", html), ["1", "3"]);
    assert_eq!(matched_ids(".big.red", html), ["1"]);
    assert_eq!(matched_ids("a.red[lang]", html), ["1", "3"]);
    assert_eq!(matched_ids("#2", html), ["2"]);
    assert_eq!(matched_ids("a:not(.red)", html), ["2"]);
    assert_eq!(matched_ids(":not(a)", html), [""; 0]);
    assert_eq!(matched_ids(":not([href])", html), ["3"]);
}

#[test]
fn selectors_on_the_place_among_siblings() {
    let html = [
        "<ul><li id=1></li><p id=2></p><li id=3></li><li id=4></li><br id=5><li id=6></li></ul>",
        "<ul><li id=7></li></ul>",
    ]
    .concat();
    let html = html.as_str();
    assert_eq!(matched_ids("li:first-child", html), ["1", "7"]);
    assert_eq!(matched_ids("ul:first-child", html), [""]);
    assert_eq!(matched_ids("ul:nth-child(2) > li", html), ["7"]);
    assert_eq!(matched_ids(":nth-child(2)", html), ["2", ""]);
    assert_eq!(matched_ids("ul > :nth-child(odd)", html), ["1", "3", "5", "7"]);
    assert_eq!(matched_ids("ul > :nth-child(even)", html), ["2", "4", "6"]);
    assert_eq!(matched_ids("ul > :nth-child(2n+1)", html), ["1", "3", "5", "7"]);
    assert_eq!(matched_ids("ul > :nth-child(3n)", html), ["3", "6"]);
    assert_eq!(matched_ids("ul > :nth-child(n+4)", html), ["4", "5", "6"]);
    assert_eq!(matched_ids("ul > :nth-child(-n+2)", html), ["1", "2", "7"]);
    assert_eq!(matched_ids("ul > :nth-child( 2n - 1 )", html), ["1", "3", "5", "7"]);
    assert_eq!(matched_ids("ul > :nth-child(-2n+5)", html), ["1", "3", "5", "7"]);
    assert_eq!(matched_ids("ul > :nth-child(0n+3)", html), ["3"]);
    assert_eq!(matched_ids("ul > :nth-child(+3)", html), ["3"]);
    assert_eq!(matched_ids("ul > :nth-child(-3)", html), [""; 0]);
    assert_eq!(matched_ids("li:nth-of-type(2)", html), ["3"]);
    assert_eq!(matched_ids("li:nth-of-type(2n)", html), ["3", "6"]);
    assert_eq!(matched_ids("p:first-of-type", html), ["2"]);
    assert_eq!(matched_ids("li:first-of-type", html), ["1", "7"]);
    assert_eq!(matched_ids("li:not(:first-child)", html), ["3", "4", "6"]);
}

#[test]
fn selectors_in_foreign_content() {
    let html = "<svg><foreignObject id=1><P id=2></P></foreignObject><Title id=3></Title><A id=4></A></svg><A id=5>";
    assert_eq!(matched_ids("foreignObject", html), ["1"]);
    assert_eq!(matched_ids("foreignobject", html), [""; 0]);
    assert_eq!(matched_ids("p", html), ["2"]);
    assert_eq!(matched_ids("a", html), ["5"]);
    assert_eq!(matched_ids("A", html), ["4", "5"]);
    let mut namespaces = Vec::new();
    rewrite_with("*", &["<p><svg><a><desc><b></b></desc></a></svg><math><mi><i>"], |el| {
        namespaces.push((String::from_utf8(el.name.clone()).unwrap(), el.namespace()));
        Ok(())
    });
    let expected: Vec<(String, Namespace)> = [
        ("p", Namespace::Html),
        ("svg", Namespace::Svg),
        ("a", Namespace::Svg),
        ("desc", Namespace::Svg),
        ("b", Namespace::Html),
        ("math", Namespace::MathMl),
        ("mi", Namespace::MathMl),
        ("i", Namespace::Html),
    ]
    .iter()
    .map(|(n, ns)| (n.to_string(), *ns))
    .collect();
    assert_eq!(namespaces, expected);
    assert_eq!(matched_names("svg *", "<svg><b>"), ["b"]);
    // Names of attributes are told apart by case in foreign content only.
    let html = "<svg id=1 viewBox=x><rect id=2 viewbox=y></rect></svg><p id=3 viewBox=z>";
    assert_eq!(matched_ids("[viewBox]", html), ["1", "3"]);
    assert_eq!(matched_ids("[viewbox]", html), ["2", "3"]);
    let mut seen = Vec::new();
    rewrite_with("[id]", &[html], |el| {
        seen.push((el.get_attribute("viewBox"), el.has_attribute("VIEWBOX")));
        Ok(())
    });
    assert_eq!(
        seen,
        [
            (Some("x".to_string()), false),
            (None, false),
            (Some("z".to_string()), true),
        ]
    );
}

#[test]
fn attributes_as_handlers_see_them() {
    let mut seen = Vec::new();
    rewrite_with(
        "a",
        &["<A Href='x' HREF=\"y\" data-x=1 checked title = a/b alt=>"],
        |el| {
            seen.push(el.tag_name());
            seen.push(el.get_attribute("href"));
            seen.push(el.get_attribute("HREF"));
            seen.push(el.get_attribute("data-x"));
            seen.push(el.get_attribute("checked"));
            seen.push(el.get_attribute("title"));
            seen.push(el.get_attribute("alt"));
            seen.push(el.get_attribute("missing"));
            assert!(el.has_attribute("checked"));
            assert!(!el.has_attribute("missing"));
            assert_eq!(el.attributes.len(), 5);
            Ok(())
        },
    );
    let expected: Vec<Option<String>> = vec![
        Some("a".into()),
        Some("x".into()),
        Some("x".into()),
        Some("1".into()),
        Some("".into()),
        Some("a/b".into()),
        Some("".into()),
        None,
    ];
    assert_eq!(seen, expected);
}

#[test]
fn element_changes_are_written_out() {
    let html = "<p><a b=1 c='2\"'>x</a><br><i>y</i></p>";
    let on_a = |f: fn(&mut Element)| {
        rewrite_with("a", &[html], move |el| {
            f(el);
            Ok(())
        })
    };
    assert_eq!(
        on_a(|el| el.set_attribute("b", "<3>").unwrap()),
        "<p><a b=\"<3>\" c=\"2&quot;\">x</a><br><i>y</i></p>"
    );
    assert_eq!(
        on_a(|el| el.set_attribute("d", "\"").unwrap()),
        "<p><a b=\"1\" c=\"2&quot;\" d=\"&quot;\">x</a><br><i>y</i></p>"
    );
    assert_eq!(
        on_a(|el| el.remove_attribute("B")),
        "<p><a c=\"2&quot;\">x</a><br><i>y</i></p>"
    );
    assert_eq!(on_a(|el| el.remove_attribute("z")), html);
    assert_eq!(
        on_a(|el| el.set_tag_name("em").unwrap()),
        "<p><em b=\"1\" c=\"2&quot;\">x</em><br><i>y</i></p>"
    );
    assert_eq!(
        on_a(|el| {
            el.before("<1>", ContentType::Text).unwrap();
            el.before("<2>", ContentType::Html).unwrap();
            el.after("<3>", ContentType::Html).unwrap();
            el.after("&4", ContentType::Text).unwrap();
        }),
        "<p>&lt;1&gt;<2><a b=1 c='2\"'>x</a>&amp;4<3><br><i>y</i></p>"
    );
    assert_eq!(
        on_a(|el| {
            el.prepend("1", ContentType::Html).unwrap();
            el.prepend("2", ContentType::Html).unwrap();
            el.append("3", ContentType::Html).unwrap();
            el.append("4", ContentType::Html).unwrap();
        }),
        "<p><a b=1 c='2\"'>21x34</a><br><i>y</i></p>"
    );
    assert_eq!(
        on_a(|el| el.set_inner_content("<z>", ContentType::Text).unwrap()),
        "<p><a b=1 c='2\"'>&lt;z&gt;</a><br><i>y</i></p>"
    );
    assert_eq!(
        on_a(|el| el.replace("<z>", ContentType::Html).unwrap()),
        "<p><z><br><i>y</i></p>"
    );
    assert_eq!(
        on_a(|el| {
            assert!(!el.removed());
            el.remove();
            assert!(el.removed());
        }),
        "<p><br><i>y</i></p>"
    );
    assert_eq!(
        on_a(|el| el.remove_and_keep_content()),
        "<p>x<br><i>y</i></p>"
    );
    // An element without content: what is put after it stands behind its tag.
    assert_eq!(
        rewrite_with("br", &[html], |el| {
            el.after("1", ContentType::Html).unwrap();
            el.append("2", ContentType::Html).unwrap();
            el.prepend("3", ContentType::Html).unwrap();
            el.set_inner_content("4", ContentType::Html).unwrap();
            Ok(())
        }),
        "<p><a b=1 c='2\"'>x</a><br>1<i>y</i></p>"
    );
    // What stands inside removed content is not written.
    assert_eq!(
        rewrite_with("p, i", &[html], |el| {
            if el.tag_name().unwrap() == "p" {
                el.remove();
            } else {
                el.before("never", ContentType::Html).unwrap();
            }
            Ok(())
        }),
        ""
    );
}

#[test]
fn names_and_comments_are_checked() {
    let mut results = Vec::new();
    rewrite_with("a", &["<a>"], |el| {
        results.push(el.set_tag_name(""));
        results.push(el.set_tag_name("1a"));
        results.push(el.set_tag_name("a b"));
        results.push(el.set_tag_name("a>"));
        results.push(el.set_tag_name("a/"));
        results.push(el.set_tag_name("b1"));
        results.push(el.set_attribute("", "v"));
        results.push(el.set_attribute("a=b", "v"));
        results.push(el.set_attribute("a\"", "v"));
        results.push(el.set_attribute("a b", "v"));
        results.push(el.set_attribute("1", "v"));
        Ok(())
    });
    assert_eq!(
        results,
        [
            Err(ContentError::Empty),
            Err(ContentError::ForbiddenCharacter),
            Err(ContentError::ForbiddenCharacter),
            Err(ContentError::ForbiddenCharacter),
            Err(ContentError::ForbiddenCharacter),
            Ok(()),
            Err(ContentError::Empty),
            Err(ContentError::ForbiddenCharacter),
            Err(ContentError::ForbiddenCharacter),
            Err(ContentError::ForbiddenCharacter),
            Ok(()),
        ]
    );
    let mut results = Vec::new();
    let mut rewriter = HtmlRewriter::try_new(
        Settings {
            document_content_handlers: vec![doc_comments(|c| {
                results.push(c.set_text("a-->b"));
                results.push(c.set_text("caf\u{e9}"));
                results.push(c.set_text("\u{4e2d}"));
                results.push(c.set_text("a--b->"));
                c.before("<", ContentType::Text).unwrap();
                c.after(">", ContentType::Html).unwrap();
                Ok(())
            })],
            encoding: "windows-1252",
            ..Settings::new()
        },
        Vec::new(),
    )
    .unwrap();
    rewriter.write(b"<!--x-->").unwrap();
    rewriter.end().unwrap();
    assert_eq!(rewriter.into_output_sink(), b"&lt;<!--a--b->-->>");
    assert_eq!(
        results,
        [
            Err(ContentError::CommentClosingSequence),
            Ok(()),
            Err(ContentError::UnencodableCharacter),
            Ok(()),
        ]
    );
}

#[test]
fn text_and_comments_can_be_replaced_and_removed() {
    let p = selector("p");
    let mut rewriter = HtmlRewriter::try_new(
        Settings {
            element_content_handlers: vec![(
                &p,
                text(|chunk| {
                    if !chunk.last_in_text_node() {
                        if chunk.as_str().unwrap() == "gone" {
                            chunk.remove();
                            assert!(chunk.removed());
                        } else {
                            chunk.replace("<new>", ContentType::Text).unwrap();
                            chunk.before("[", ContentType::Html).unwrap();
                        }
                    }
                    Ok(())
                }),
            )],
            document_content_handlers: vec![doc_comments(|c| {
                if c.text().unwrap() == "gone" {
                    c.remove();
                } else {
                    c.replace("<!--new-->", ContentType::Html).unwrap();
                }
                assert!(c.removed());
                Ok(())
            })],
            ..Settings::new()
        },
        Vec::new(),
    )
    .unwrap();
    rewriter
        .write(b"a<p>old<b>gone</b></p><!--gone-->b<!--old-->")
        .unwrap();
    rewriter.end().unwrap();
    assert_eq!(
        String::from_utf8(rewriter.into_output_sink()).unwrap(),
        "a<p>[&lt;new&gt;<b></b></p>b<!--new-->"
    );
}

#[test]
fn encodings_by_label() {
    assert_eq!(try_encoding_from_str("utf-8").unwrap().name(), "UTF-8");
    assert_eq!(try_encoding_from_str(" UTF8\n").unwrap().name(), "UTF-8");
    assert_eq!(try_encoding_from_str("latin1").unwrap().name(), "windows-1252");
    assert_eq!(try_encoding_from_str("sjis").unwrap().name(), "Shift_JIS");
    assert_eq!(
        try_encoding_from_str("utf-16").err(),
        Some(EncodingError::NonAsciiCompatibleEncoding)
    );
    assert_eq!(
        try_encoding_from_str("utf-16le").err(),
        Some(EncodingError::NonAsciiCompatibleEncoding)
    );
    assert_eq!(
        try_encoding_from_str("iso-2022-jp").err(),
        Some(EncodingError::NonAsciiCompatibleEncoding)
    );
    assert_eq!(
        try_encoding_from_str("replacement").err(),
        Some(EncodingError::UnknownEncoding)
    );
    assert_eq!(
        try_encoding_from_str("iso-2022-kr").err(),
        Some(EncodingError::UnknownEncoding)
    );
    assert_eq!(try_encoding_from_str("").err(), Some(EncodingError::UnknownEncoding));
}

#[test]
fn text_is_encoded_and_decoded() {
    let latin = try_encoding_from_str("windows-1252").unwrap();
    assert_eq!(latin.encode("caf\u{e9}"), Some((vec![0x63, 0x61, 0x66, 0xE9], false)));
    assert_eq!(
        latin.encode("\u{4e2d}"),
        Some((b"&#20013;".to_vec(), true))
    );
    assert_eq!(latin.decode(&[0x63, 0x61, 0x66, 0xE9]), Some("caf\u{e9}".to_string()));
    let utf8 = try_encoding_from_str("utf-8").unwrap();
    assert_eq!(utf8.encode("\u{e9}"), Some((vec![0xC3, 0xA9], false)));
    assert_eq!(utf8.decode(&[0xC3, 0xA9, 0xFF]), Some("\u{e9}\u{fffd}".to_string()));
    let sjis = try_encoding_from_str("shift_jis").unwrap();
    assert_eq!(sjis.encode("\u{3042}"), Some((vec![0x82, 0xA0], false)));
    assert_eq!(sjis.decode(&[0x82, 0xA0]), Some("\u{3042}".to_string()));
}

#[test]
fn handlers_speak_the_encoding_of_the_document() {
    let a = selector("a[title=\"caf\u{e9}\"]");
    let mut titles = Vec::new();
    let mut rewriter = HtmlRewriter::try_new(
        Settings {
            element_content_handlers: vec![(
                &a,
                element(|el| {
                    titles.push(el.get_attribute("title").unwrap());
                    el.set_attribute("title", "\u{fc}ber").unwrap();
                    el.after("\u{e0}", ContentType::Text).unwrap();
                    Ok(())
                }),
            )],
            encoding: "iso-8859-1",
            ..Settings::new()
        },
        Vec::new(),
    )
    .unwrap();
    rewriter.write(b"<a title=caf\xE9>\xE9</a><a title=cafe>").unwrap();
    rewriter.end().unwrap();
    assert_eq!(
        rewriter.into_output_sink(),
        b"<a title=\"\xFCber\">\xE9</a>\xE0<a title=cafe>"
    );
    assert_eq!(titles, ["caf\u{e9}"]);
}

#[test]
fn rewritten_text_is_read_as_utf8() {
    let p = selector("p");
    let out = rewrite_str(
        "<p>\u{4e2d}\u{6587}</p>",
        RewriteStrSettings {
            element_content_handlers: vec![(
                &p,
                element(|el| {
                    el.append("\u{1f600}", ContentType::Text).unwrap();
                    Ok(())
                }),
            )],
            ..RewriteStrSettings::new()
        },
    )
    .unwrap();
    assert_eq!(out, "<p>\u{4e2d}\u{6587}\u{1f600}</p>");
}

#[test]
fn error_messages() {
    assert_eq!(
        EncodingError::UnknownEncoding.message(),
        "Unknown character encoding has been provided."
    );
    assert_eq!(
        EncodingError::NonAsciiCompatibleEncoding.message(),
        "Expected ASCII-compatible encoding."
    );
    assert_eq!(
        MemoryLimitExceededError.message(),
        "The memory limit has been exceeded."
    );
    assert_eq!(
        RewritingError::MemoryLimitExceeded(MemoryLimitExceededError).message(),
        "The memory limit has been exceeded."
    );
    assert_eq!(HandlerError::new("oops").message(), "oops");
    assert_eq!(
        RewritingError::ContentHandlerError(HandlerError::new("oops")).message(),
        "oops"
    );
}

#[test]
fn default_settings() {
    let settings = Settings::new();
    assert_eq!(settings.encoding, "utf-8");
    assert!(!settings.strict);
    assert!(settings.element_content_handlers.is_empty());
    assert!(settings.document_content_handlers.is_empty());
    assert_eq!(settings.memory_settings.max_allowed_memory_usage, usize::MAX);
    assert_eq!(settings.memory_settings.preallocated_parsing_buffer_size, 1024);
    let memory = MemorySettings::default();
    assert_eq!(memory.max_allowed_memory_usage, usize::MAX);
    assert_eq!(memory.preallocated_parsing_buffer_size, 1024);
}

#[test]
fn end_tag_handlers_see_the_end_tag() {
    let names = Rc::new(RefCell::new(Vec::new()));
    let out = rewrite_with("a, br, i", &["<p><a>x</A ><br><i>y</p>z</i>"], |el| {
        let names = Rc::clone(&names);
        el.on_end_tag(Box::new(OnEndTag(move |end: &mut EndTag| {
            names.borrow_mut().push(end.name().unwrap());
            end.before("1", ContentType::Html).unwrap();
            end.after("2", ContentType::Html).unwrap();
            Ok(())
        })));
        el.on_end_tag(Box::new(OnEndTag(|end: &mut EndTag| {
            assert_eq!(end.set_name("b c"), Err(ContentError::ForbiddenCharacter));
            end.set_name("b").unwrap();
            Ok(())
        })));
        Ok(())
    });
    // The end tag of `a` is changed; `br` has none; `i` is closed by the end
    // tag of `p` and its own end tag comes too late.
    assert_eq!(out, "<p><a>x1</b>2<br><i>y</p>z</i>");
    assert_eq!(*names.borrow(), ["a"]);
}

#[test]
fn end_tag_handlers_can_fail_and_remove() {
    let a = selector("a");
    let mut rewriter = HtmlRewriter::try_new(
        Settings {
            element_content_handlers: vec![(
                &a,
                element(|el| {
                    let fails = el.has_attribute("fail");
                    el.on_end_tag(Box::new(OnEndTag(move |end: &mut EndTag| {
                        if fails {
                            Err(HandlerError::new("Error in end tag handler"))
                        } else {
                            end.remove();
                            Ok(())
                        }
                    })));
                    Ok(())
                }),
            )],
            ..Settings::new()
        },
        Vec::new(),
    )
    .unwrap();
    rewriter.write(b"<a>x</a>y").unwrap();
    assert_eq!(rewriter.output_sink(), b"<a>xy");
    let err = rewriter.write(b"<a fail>x</a>").unwrap_err();
    assert_eq!(err.kind(), ErrorKind::ContentHandlerError);
    assert_eq!(err.message(), "Error in end tag handler");
    assert_eq!(rewriter.into_output_sink(), b"<a>xy");
}

#[test]
fn output_can_be_taken_piece_by_piece() {
    let p = selector("p");
    let mut rewriter = HtmlRewriter::try_new(
        Settings {
            element_content_handlers: vec![(
                &p,
                element(|el| {
                    el.set_tag_name("q").unwrap();
                    Ok(())
                }),
            )],
            ..Settings::new()
        },
        OutputBuffer::new(),
    )
    .unwrap();
    assert_eq!(rewriter.take_output(), b"");
    rewriter.write(b"<p>one</p><p").unwrap();
    assert_eq!(rewriter.take_output(), b"<q>one</q>");
    assert_eq!(rewriter.take_output(), b"");
    rewriter.write(b">two").unwrap();
    rewriter.write(b"</p>").unwrap();
    assert_eq!(rewriter.take_output(), b"<q>two</q>");
    rewriter.end().unwrap();
    assert_eq!(rewriter.take_output(), b"");
}

#[test]
fn memory_of_the_selector_matching_machine() {
    let usage_after = |selector_text: &str, html: &str| -> usize {
        let sel = selector(selector_text);
        let mut rewriter = HtmlRewriter::try_new(
            Settings {
                element_content_handlers: vec![(&sel, ElementContentHandlers::new())],
                ..Settings::new()
            },
            Vec::new(),
        )
        .unwrap();
        rewriter.write(html.as_bytes()).unwrap();
        rewriter.current_memory_usage()
    };
    // `*` compiles to a test and a locator. An open `div` is charged 32 bytes
    // and its name by the parser, and 64 bytes, four sets of three places and
    // one locator by the machine.
    assert_eq!(usage_after("*", ""), 0);
    assert_eq!(usage_after("*", "<div>"), 35 + 64 + 4 * 3 + 1);
    assert_eq!(usage_after("*", "<div><br>"), 35 + 77);
    assert_eq!(usage_after("*", "<div></div>"), 0);
    assert_eq!(usage_after("*", "<div><p></div>"), 0);
    // Where places among siblings of one name are asked for, each new name
    // among the children of an element is charged 16 bytes and the name.
    let places = 64 + 4 * 3 + 1;
    assert_eq!(usage_after(":nth-of-type(2)", "<br>"), 16 + 2);
    assert_eq!(usage_after(":nth-of-type(2)", "<br><br><hr>"), 16 + 2 + 16 + 2);
    assert_eq!(
        usage_after(":nth-of-type(2)", "<div><br>"),
        16 + 3 + 35 + places + 16 + 2
    );
    assert_eq!(usage_after(":nth-of-type(2)", "<div><br></div>"), 16 + 3);
}

#[test]
fn names_must_fit_the_encoding() {
    let a = selector("a");
    let mut results = Vec::new();
    let mut rewriter = HtmlRewriter::try_new(
        Settings {
            element_content_handlers: vec![(
                &a,
                element(|el| {
                    results.push(el.set_tag_name("\u{4e2d}"));
                    results.push(el.set_attribute("\u{4e2d}", "x"));
                    results.push(el.set_attribute("x", "\u{4e2d}"));
                    results.push(el.set_tag_name("caf\u{e9}"));
                    Ok(())
                }),
            )],
            encoding: "windows-1252",
            ..Settings::new()
        },
        Vec::new(),
    )
    .unwrap();
    rewriter.write(b"<a>").unwrap();
    rewriter.end().unwrap();
    assert_eq!(rewriter.into_output_sink(), b"<caf\xE9 x=\"&#20013;\">");
    assert_eq!(
        results,
        [
            Err(ContentError::UnencodableCharacter),
            Err(ContentError::UnencodableCharacter),
            Ok(()),
            Ok(()),
        ]
    );
}

#[test]
fn the_end_closes_what_is_open() {
    let any = selector("*");
    let mut with_selector = HtmlRewriter::try_new(
        Settings {
            element_content_handlers: vec![(&any, ElementContentHandlers::new())],
            ..Settings::new()
        },
        Vec::new(),
    )
    .unwrap();
    let mut without = HtmlRewriter::try_new(Settings::new(), Vec::new()).unwrap();
    with_selector.write(b"<div><span>text<p").unwrap();
    without.write(b"<div><span>text<p").unwrap();
    assert_eq!(with_selector.current_memory_usage(), 2 * 77 + 35 + 36 + 2);
    assert_eq!(without.current_memory_usage(), 35 + 36 + 2);
    with_selector.end().unwrap();
    without.end().unwrap();
    assert_eq!(with_selector.current_memory_usage(), 0);
    assert_eq!(without.current_memory_usage(), 0);
    assert_eq!(with_selector.into_output_sink(), b"<div><span>text<p");
    assert_eq!(without.into_output_sink(), b"<div><span>text<p");
}

fn limited(limit: usize) -> HtmlRewriter<'static, Vec<u8>> {
    HtmlRewriter::try_new(
        Settings {
            memory_settings: MemorySettings {
                max_allowed_memory_usage: limit,
                preallocated_parsing_buffer_size: 0,
            },
            ..Settings::new()
        },
        Vec::new(),
    )
    .unwrap()
}

#[test]
fn a_chunk_counts_while_it_is_read() {
    // 14 bytes of input with one element open at its end: the stack charges 32
    // bytes and one for each byte of the name.
    let mut fits = limited(47);
    fits.write(b"<p>hello</p><b").unwrap();
    assert_eq!(fits.current_memory_usage(), 2);
    fits.write(b">").unwrap();
    assert_eq!(fits.current_memory_usage(), 33);
    fits.end().unwrap();
    assert_eq!(fits.into_output_sink(), b"<p>hello</p><b>".to_vec());

    // The chunk itself does not fit.
    let mut short = limited(13);
    let err = short.write(b"<p>hello</p><b").unwrap_err();
    assert_eq!(err.kind(), ErrorKind::MemoryLimitExceeded);
    assert_eq!(short.into_output_sink(), Vec::<u8>::new());

    // The chunk fits, but not with the element that its first tag opens.
    let mut tight = limited(46);
    let err = tight.write(b"<p>hello</p><b").unwrap_err();
    assert_eq!(err.kind(), ErrorKind::MemoryLimitExceeded);
}

#[test]
fn no_handler_runs_after_one_has_failed() {
    let calls = Rc::new(RefCell::new(Vec::<&'static str>::new()));
    let first = selector("p");
    let second = selector("*");
    let (a, b, c) = (calls.clone(), calls.clone(), calls.clone());
    let mut rewriter = HtmlRewriter::try_new(
        Settings {
            element_content_handlers: vec![
                (
                    &first,
                    element(move |el| {
                        a.borrow_mut().push("first");
                        el.before("<!--seen-->", ContentType::Html).unwrap();
                        Err(HandlerError::new("stop"))
                    }),
                ),
                (
                    &second,
                    element(move |_| {
                        b.borrow_mut().push("second");
                        Ok(())
                    }),
                ),
            ],
            document_content_handlers: vec![DocumentContentHandlers::new().text(Box::new(
                OnText(move |_: &mut TextChunk| {
                    c.borrow_mut().push("text");
                    Ok(())
                }),
            ))],
            ..Settings::new()
        },
        Vec::new(),
    )
    .unwrap();
    let err = rewriter.write(b"<i></i><p>x</p>").unwrap_err();
    assert_eq!(err.kind(), ErrorKind::ContentHandlerError);
    assert_eq!(err.message(), "stop");
    assert_eq!(*calls.borrow(), vec!["second", "first"]);
    // Nothing of the write has reached the sink.
    assert_eq!(rewriter.into_output_sink(), Vec::<u8>::new());
}

#[test]
fn an_end_tag_is_written_as_the_element_handler_left_it() {
    let out = rewrite_with("div", &["<div>", "a<p>b</p>", "</div> c"], |el| {
        el.set_tag_name("section").unwrap();
        el.after("!", ContentType::Text).unwrap();
        Ok(())
    });
    assert_eq!(out, "<section>a<p>b</p></section>! c");
}

#[test]
fn removed_content_is_left_out_and_the_rest_stays() {
    let out = rewrite_with("b", &["x<b>y<i>z</i><!--c--></b>w"], |el| {
        el.remove();
        Ok(())
    });
    assert_eq!(out, "xw");
    let out = rewrite_with("b", &["x<b>y<i>z</i></b>w"], |el| {
        el.remove_and_keep_content();
        Ok(())
    });
    assert_eq!(out, "xy<i>z</i>w");
}

#[test]
fn bytes_that_are_no_text_are_replaced_in_the_result() {
    let b = selector("b");
    let out = rewrite_str(
        "x<b>y</b>",
        RewriteStrSettings {
            element_content_handlers: vec![(
                &b,
                element(|el| {
                    el.start_tag.content_before.push(0xFF);
                    Ok(())
                }),
            )],
            ..RewriteStrSettings::new()
        },
    )
    .unwrap();
    assert_eq!(out, "x\u{fffd}<b>y</b>");
}

#[test]
fn the_error_of_a_handler_comes_back_as_it_is() {
    let calls = Rc::new(RefCell::new(Vec::<usize>::new()));
    let any = selector("*");
    let (a, b, c) = (calls.clone(), calls.clone(), calls.clone());
    let result = rewrite_str(
        "<i><!--c--></i>",
        RewriteStrSettings {
            element_content_handlers: vec![
                (
                    &any,
                    element(move |_| {
                        a.borrow_mut().push(0);
                        Ok(())
                    }),
                ),
                (
                    &any,
                    ElementContentHandlers::new().comments(Box::new(OnComment(
                        move |_: &mut Comment| {
                            b.borrow_mut().push(1);
                            Err(HandlerError::new("the second"))
                        },
                    ))),
                ),
                (
                    &any,
                    ElementContentHandlers::new().comments(Box::new(OnComment(
                        move |_: &mut Comment| {
                            c.borrow_mut().push(2);
                            Err(HandlerError::new("the third"))
                        },
                    ))),
                ),
            ],
            ..RewriteStrSettings::new()
        },
    );
    let err = result.unwrap_err();
    assert_eq!(err.kind(), ErrorKind::ContentHandlerError);
    assert_eq!(err.message(), "the second");
    assert_eq!(*calls.borrow(), vec![0, 1]);
}

#[test]
fn handlers_that_return_ok_do_not_fail_the_call() {
    let a = selector("a[href]");
    let out = rewrite_str(
        "<div><a href=\"http://example.com\"></a></div>",
        RewriteStrSettings {
            element_content_handlers: vec![(
                &a,
                element(|el| {
                    let href = el.get_attribute("href").unwrap().replace("http:", "https:");
                    el.set_attribute("href", &href).unwrap();
                    Ok(())
                }),
            )],
            ..RewriteStrSettings::new()
        },
    );
    assert_eq!(
        out.unwrap(),
        "<div><a href=\"https://example.com\"></a></div>"
    );
}
