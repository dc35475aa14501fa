use cool_thing::errors::{EncodingError, HandlerError, MemoryLimitExceededError, RewritingError};
use cool_thing::html_content::element::Element;
use cool_thing::html_content::mutations::ContentType;
use cool_thing::html_content::tokens::{Comment, Doctype, TextChunk};
use cool_thing::rewriter::settings::{
    CommentHandler, DoctypeHandler, DocumentContentHandlers, ElementContentHandlers,
    ElementHandler, MemorySettings, RewriteStrSettings, Settings, TextHandler,
};
use cool_thing::rewriter::{rewrite_str, HtmlRewriter};
use cool_thing::selectors::parser::Selector;
use encoding_rs::Encoding;
use std::cell::RefCell;
use std::rc::Rc;

type HandlerResult = Result<(), HandlerError>;

struct OnElement<F>(F);

impl<F: FnMut(&mut Element) -> HandlerResult> ElementHandler for OnElement<F> {
    fn handle(&mut self, element: &mut Element) -> HandlerResult {
        (self.0)(element)
    }
}

struct OnComment<F>(F);

impl<F: FnMut(&mut Comment) -> HandlerResult> CommentHandler for OnComment<F> {
    fn handle(&mut self, comment: &mut Comment) -> HandlerResult {
        (self.0)(comment)
    }
}

struct OnText<F>(F);

impl<F: FnMut(&mut TextChunk) -> HandlerResult> TextHandler for OnText<F> {
    fn handle(&mut self, chunk: &mut TextChunk) -> HandlerResult {
        (self.0)(chunk)
    }
}

struct OnDoctype<F>(F);

impl<F: FnMut(&mut Doctype) -> HandlerResult> DoctypeHandler for OnDoctype<F> {
    fn handle(&mut self, doctype: &mut Doctype) -> HandlerResult {
        (self.0)(doctype)
    }
}

fn element<'h>(f: impl FnMut(&mut Element) -> HandlerResult + 'h) -> ElementContentHandlers<'h> {
    ElementContentHandlers::new().element(Box::new(OnElement(f)))
}

fn comments<'h>(f: impl FnMut(&mut Comment) -> HandlerResult + 'h) -> ElementContentHandlers<'h> {
    ElementContentHandlers::new().comments(Box::new(OnComment(f)))
}

fn text<'h>(f: impl FnMut(&mut TextChunk) -> HandlerResult + 'h) -> ElementContentHandlers<'h> {
    ElementContentHandlers::new().text(Box::new(OnText(f)))
}

fn doctype<'h>(f: impl FnMut(&mut Doctype) -> HandlerResult + 'h) -> DocumentContentHandlers<'h> {
    DocumentContentHandlers::new().doctype(Box::new(OnDoctype(f)))
}

fn doc_comments<'h>(
    f: impl FnMut(&mut Comment) -> HandlerResult + 'h,
) -> DocumentContentHandlers<'h> {
    DocumentContentHandlers::new().comments(Box::new(OnComment(f)))
}

fn doc_text<'h>(f: impl FnMut(&mut TextChunk) -> HandlerResult + 'h) -> DocumentContentHandlers<'h> {
    DocumentContentHandlers::new().text(Box::new(OnText(f)))
}

fn selector(text: &str) -> Selector {
    Selector::parse(text).unwrap()
}

fn ascii_compatible_encodings() -> Vec<&'static Encoding> {
    vec![
        encoding_rs::BIG5,
        encoding_rs::EUC_JP,
        encoding_rs::EUC_KR,
        encoding_rs::GB18030,
        encoding_rs::GBK,
        encoding_rs::IBM866,
        encoding_rs::ISO_8859_2,
        encoding_rs::ISO_8859_3,
        encoding_rs::ISO_8859_4,
        encoding_rs::ISO_8859_5,
        encoding_rs::ISO_8859_6,
        encoding_rs::ISO_8859_7,
        encoding_rs::ISO_8859_8,
        encoding_rs::ISO_8859_8_I,
        encoding_rs::ISO_8859_10,
        encoding_rs::ISO_8859_13,
        encoding_rs::ISO_8859_14,
        encoding_rs::ISO_8859_15,
        encoding_rs::ISO_8859_16,
        encoding_rs::KOI8_R,
        encoding_rs::KOI8_U,
        encoding_rs::MACINTOSH,
        encoding_rs::SHIFT_JIS,
        encoding_rs::UTF_8,
        encoding_rs::WINDOWS_874,
        encoding_rs::WINDOWS_1250,
        encoding_rs::WINDOWS_1251,
        encoding_rs::WINDOWS_1252,
        encoding_rs::WINDOWS_1253,
        encoding_rs::WINDOWS_1254,
        encoding_rs::WINDOWS_1255,
        encoding_rs::WINDOWS_1256,
        encoding_rs::WINDOWS_1257,
        encoding_rs::WINDOWS_1258,
        encoding_rs::X_MAC_CYRILLIC,
        encoding_rs::X_USER_DEFINED,
    ]
}

fn write_chunks(
    rewriter: &mut HtmlRewriter<Vec<u8>>,
    encoding: &'static Encoding,
    chunks: &[&str],
) {
    for chunk in chunks {
        let (chunk, _, _) = encoding.encode(chunk);

        rewriter.write(&*chunk).unwrap();
    }

    rewriter.end().unwrap();
}

fn decoded(encoding: &'static Encoding, bytes: &[u8]) -> String {
    encoding.decode_without_bom_handling(bytes).0.into_owned()
}

#[test]
fn rewrite_html_str() {
    let div = selector("div");
    let res = rewrite_str(
        "<!-- 42 --><div><!--hi--></div>",
        RewriteStrSettings {
            element_content_handlers: vec![
                (
                    &div,
                    element(|el| {
                        el.set_tag_name("span").unwrap();
                        Ok(())
                    }),
                ),
                (
                    &div,
                    comments(|c| {
                        c.set_text("hello").unwrap();
                        Ok(())
                    }),
                ),
            ],
            ..RewriteStrSettings::default()
        },
    )
    .unwrap();

    assert_eq!(res, "<!-- 42 --><span><!--hello--></span>");
}

#[test]
fn unknown_encoding() {
    let err = HtmlRewriter::try_new(
        Settings {
            encoding: "hey-yo",
            ..Settings::default()
        },
        Vec::new(),
    )
    .err()
    .unwrap();

    assert_eq!(err, EncodingError::UnknownEncoding);
}

#[test]
fn non_ascii_compatible_encoding() {
    let err = HtmlRewriter::try_new(
        Settings {
            encoding: "utf-16be",
            ..Settings::default()
        },
        Vec::new(),
    )
    .err()
    .unwrap();

    assert_eq!(err, EncodingError::NonAsciiCompatibleEncoding);
}

#[test]
fn doctype_info() {
    for enc in ascii_compatible_encodings().iter() {
        let mut doctypes = Vec::default();

        {
            let mut rewriter = HtmlRewriter::try_new(
                Settings {
                    document_content_handlers: vec![doctype(|d| {
                        doctypes.push((d.name(), d.public_id(), d.system_id()));
                        Ok(())
                    })],
                    encoding: enc.name(),
                    ..Settings::default()
                },
                Vec::new(),
            )
            .unwrap();

            write_chunks(
                &mut rewriter,
                enc,
                &[
                    "<!doctype html1>",
                    "<!-- test --><div>",
                    r#"<!DOCTYPE HTML PUBLIC "-//W3C//DTD HTML 4.01//EN" "#,
                    r#""http://www.w3.org/TR/html4/strict.dtd">"#,
                    "</div><!DoCtYPe ",
                ],
            );
        }

        assert_eq!(
            doctypes,
            &[
                (Some("html1".into()), None, None),
                (
                    Some("html".into()),
                    Some("-//W3C//DTD HTML 4.01//EN".into()),
                    Some("http://www.w3.org/TR/html4/strict.dtd".into())
                ),
                (None, None, None),
            ]
        );
    }
}

#[test]
fn rewrite_start_tags() {
    let any = selector("*");

    for enc in ascii_compatible_encodings().iter() {
        let actual: String = {
            let mut rewriter = HtmlRewriter::try_new(
                Settings {
                    element_content_handlers: vec![(
                        &any,
                        element(|el| {
                            el.set_attribute("foo", "bar").unwrap();
                            el.prepend("<test></test>", ContentType::Html).unwrap();
                            Ok(())
                        }),
                    )],
                    encoding: enc.name(),
                    ..Settings::default()
                },
                Vec::new(),
            )
            .unwrap();

            write_chunks(
                &mut rewriter,
                enc,
                &[
                    "<!doctype html>\n",
                    "<html>\n",
                    "   <head></head>\n",
                    "   <body>\n",
                    "       <div>Test</div>\n",
                    "   </body>\n",
                    "</html>",
                ],
            );

            decoded(enc, rewriter.output_sink())
        };

        assert_eq!(
            actual,
            [
                "<!doctype html>\n",
                "<html foo=\"bar\"><test></test>\n",
                "   <head foo=\"bar\"><test></test></head>\n",
                "   <body foo=\"bar\"><test></test>\n",
                "       <div foo=\"bar\"><test></test>Test</div>\n",
                "   </body>\n",
                "</html>",
            ]
            .concat()
        );
    }
}

#[test]
fn rewrite_document_content() {
    for enc in ascii_compatible_encodings().iter() {
        let actual: String = {
            let mut rewriter = HtmlRewriter::try_new(
                Settings {
                    element_content_handlers: vec![],
                    document_content_handlers: vec![
                        doc_comments(|c| {
                            c.set_text(&(c.text().unwrap() + "1337")).unwrap();
                            Ok(())
                        }),
                        doc_text(|c| {
                            if c.last_in_text_node() {
                                c.after("BAZ", ContentType::Text).unwrap();
                            }

                            Ok(())
                        }),
                    ],
                    encoding: enc.name(),
                    ..Settings::default()
                },
                Vec::new(),
            )
            .unwrap();

            write_chunks(
                &mut rewriter,
                enc,
                &[
                    "<!doctype html>\n",
                    "<!-- hey -->\n",
                    "<html>\n",
                    "   <head><!-- aloha --></head>\n",
                    "   <body>\n",
                    "       <div>Test</div>\n",
                    "   </body>\n",
                    "   <!-- bonjour -->\n",
                    "</html>Pshhh",
                ],
            );

            decoded(enc, rewriter.output_sink())
        };

        assert_eq!(
            actual,
            [
                "<!doctype html>\nBAZ",
                "<!-- hey 1337-->\nBAZ",
                "<html>\n",
                "   BAZ<head><!-- aloha 1337--></head>\n",
                "   BAZ<body>\n",
                "       BAZ<div>TestBAZ</div>\n",
                "   BAZ</body>\n",
                "   BAZ<!-- bonjour 1337-->\nBAZ",
                "</html>PshhhBAZ",
            ]
            .concat()
        );
    }
}

#[test]
fn handler_invocation_order() {
    let handlers_executed = Rc::new(RefCell::new(Vec::default()));

    let create_handlers = |idx: usize| {
        let handlers_executed = Rc::clone(&handlers_executed);

        element(move |_| {
            handlers_executed.borrow_mut().push(idx);
            Ok(())
        })
    };

    let selectors = [
        selector("div span"),
        selector("div > span"),
        selector("span"),
        selector("[foo]"),
        selector("div span[foo]"),
    ];

    let _res = rewrite_str(
        "<div><span foo></span></div>",
        RewriteStrSettings {
            element_content_handlers: vec![
                (&selectors[0], create_handlers(0)),
                (&selectors[1], create_handlers(1)),
                (&selectors[2], create_handlers(2)),
                (&selectors[3], create_handlers(3)),
                (&selectors[4], create_handlers(4)),
            ],
            ..RewriteStrSettings::default()
        },
    )
    .unwrap();

    assert_eq!(*handlers_executed.borrow(), vec![0, 1, 2, 3, 4]);
}

fn create_rewriter<'h>(
    any: &'h Selector,
    max_allowed_memory_usage: usize,
) -> HtmlRewriter<'h, Vec<u8>> {
    HtmlRewriter::try_new(
        Settings {
            element_content_handlers: vec![(any, element(|_| Ok(())))],
            memory_settings: MemorySettings {
                max_allowed_memory_usage,
                preallocated_parsing_buffer_size: 0,
            },
            ..Settings::default()
        },
        Vec::new(),
    )
    .unwrap()
}

#[test]
fn buffer_capacity_limit() {
    const MAX: usize = 100;

    let any = selector("*");
    let mut rewriter = create_rewriter(&any, MAX);

    // Use two chunks for the stream to force the usage of the buffer and
    // make sure to overflow it.
    let chunk_1 = format!("<img alt=\"{}", "l".repeat(MAX / 2));
    let chunk_2 = format!("{}\" />", "r".repeat(MAX / 2));

    rewriter.write(chunk_1.as_bytes()).unwrap();

    let write_err = rewriter.write(chunk_2.as_bytes()).unwrap_err();

    match write_err {
        RewritingError::MemoryLimitExceeded(e) => assert_eq!(e, MemoryLimitExceededError),
        _ => panic!("{}", write_err.message()),
    }
}

fn assert_err(
    element_handlers: ElementContentHandlers,
    document_handlers: DocumentContentHandlers,
    expected_err: &'static str,
) {
    let any = selector("*");
    let mut rewriter = HtmlRewriter::try_new(
        Settings {
            element_content_handlers: vec![(&any, element_handlers)],
            document_content_handlers: vec![document_handlers],
            ..Settings::default()
        },
        Vec::new(),
    )
    .unwrap();

    let chunks = [
        "<!--doc comment--> Doc text",
        "<div><!--el comment-->El text</div>",
    ];

    let mut err = None;

    for chunk in chunks.iter() {
        match rewriter.write(chunk.as_bytes()) {
            Ok(_) => (),
            Err(e) => {
                err = Some(e);
                break;
            }
        }
    }

    if err.is_none() {
        match rewriter.end() {
            Ok(_) => (),
            Err(e) => err = Some(e),
        }
    }

    let err = err.expect("Error expected").message();

    assert_eq!(err, expected_err);
}

#[test]
fn content_handler_error_propagation() {
    assert_err(
        ElementContentHandlers::default(),
        doc_comments(|_| Err(HandlerError::new("Error in doc comment handler"))),
        "Error in doc comment handler",
    );

    assert_err(
        ElementContentHandlers::default(),
        doc_text(|_| Err(HandlerError::new("Error in doc text handler"))),
        "Error in doc text handler",
    );

    assert_err(
        ElementContentHandlers::default(),
        doc_text(|_| Err(HandlerError::new("Error in doctype handler"))),
        "Error in doctype handler",
    );

    assert_err(
        element(|_| Err(HandlerError::new("Error in element handler"))),
        DocumentContentHandlers::default(),
        "Error in element handler",
    );

    assert_err(
        comments(|_| Err(HandlerError::new("Error in element comment handler"))),
        DocumentContentHandlers::default(),
        "Error in element comment handler",
    );

    assert_err(
        text(|_| Err(HandlerError::new("Error in element text handler"))),
        DocumentContentHandlers::default(),
        "Error in element text handler",
    );
}
