use browser_cat::html::{HeadParser, TextFilter};

// ── HeadParser ──

#[test]
fn detects_plain_text() {
    let mut p = HeadParser::new();
    p.feed("hello world");
    assert!(!p.is_html());
    assert!(p.complete());
    assert_eq!(p.take_body(), "hello world");
}

#[test]
fn detects_html() {
    let mut p = HeadParser::new();
    p.feed("<p>hello</p>");
    assert!(p.is_html());
}

#[test]
fn strips_doctype() {
    let mut p = HeadParser::new();
    p.feed("<!DOCTYPE html>\n<p>body</p>");
    assert!(p.is_html());
    assert!(p.complete());
    assert!(!p.head().contains("DOCTYPE"));
    assert!(p.take_body().contains("<p>body</p>"));
}

#[test]
fn strips_html_head_tags() {
    let mut p = HeadParser::new();
    p.feed("<html><head></head><body><p>content</p></body></html>");
    assert!(p.complete());
    assert!(p.take_body().contains("<p>content</p>"));
}

#[test]
fn preserves_head_content_tags() {
    let mut p = HeadParser::new();
    p.feed(
        "<html><head><title>My Page</title><style>body{}</style></head><body>hi</body></html>",
    );
    assert!(p.complete());
    let head = p.head();
    assert!(head.contains("<title>My Page</title>"));
    assert!(head.contains("<style>body{}</style>"));
}

#[test]
fn fragment_with_no_head() {
    let mut p = HeadParser::new();
    p.feed("<p>just a fragment</p>");
    assert!(p.is_html());
    assert!(p.complete());
    assert!(p.take_body().contains("<p>just a fragment</p>"));
}

#[test]
fn whitespace_before_html() {
    let mut p = HeadParser::new();
    p.feed("  \n  <p>text</p>");
    assert!(p.is_html());
}

// ── TextFilter ──

#[test]
fn text_filter_wraps_in_pre() {
    let mut f = TextFilter::new();
    let out = f.filter("hello");
    assert!(out.starts_with("<pre>"));
    assert!(out.contains("hello"));
}

#[test]
fn text_filter_escapes_entities() {
    let mut f = TextFilter::new();
    let out = f.filter("<b>&</b>");
    assert!(out.contains("&lt;b&gt;"));
    assert!(out.contains("&amp;"));
}

#[test]
fn text_filter_no_double_pre() {
    let mut f = TextFilter::new();
    let a = f.filter("first");
    let b = f.filter("second");
    assert!(a.starts_with("<pre>"));
    assert!(!b.starts_with("<pre>"));
}

#[test]
fn text_filter_finish() {
    let mut f = TextFilter::new();
    f.filter("x");
    assert_eq!(f.finish(), "</pre>");
}

// ── More of the parser ──

#[test]
fn exact_head_and_body() {
    let mut p = HeadParser::new();
    let done = p.feed("<!doctype html><html lang=en>\n<head>\n<TITLE>T</TITLE>\n<meta charset=utf-8>\n<!-- c -->\n</head>\n<body>x</body>");
    assert!(done);
    assert_eq!(p.head(), "<TITLE>T</TITLE>\n<meta charset=utf-8>\n<!-- c -->");
    assert_eq!(p.take_body(), "<body>x</body>");
    // Taking the body empties it; the parser stays complete.
    assert!(p.complete());
    assert_eq!(p.take_body(), "");
    assert!(p.feed("more"));
    assert_eq!(p.take_body(), "more");
    assert_eq!(p.head(), "<TITLE>T</TITLE>\n<meta charset=utf-8>\n<!-- c -->");
}

#[test]
fn upper_case_html_tag_is_body() {
    // `<html` is matched case-sensitively: `<HTML>` starts the body.
    let mut p = HeadParser::new();
    p.feed("<HTML><p>x</p>");
    assert!(p.complete());
    assert_eq!(p.take_body(), "<HTML><p>x</p>");
}

#[test]
fn self_closing_head_tags() {
    let mut p = HeadParser::new();
    p.feed("<link rel=x /><base href=y><p>b</p>");
    assert_eq!(p.head(), "<link rel=x />\n<base href=y>");
    assert_eq!(p.take_body(), "<p>b</p>");
}

#[test]
fn waits_for_more_input() {
    let mut p = HeadParser::new();
    assert!(!p.feed("   "));
    assert!(!p.is_html());
    assert!(!p.feed("\n<title>a</title>"));
    assert!(p.is_html());
    assert!(!p.complete());
    assert!(p.feed("<h1>h</h1>"));
    assert_eq!(p.head(), "<title>a</title>");
    assert_eq!(p.take_body(), "<h1>h</h1>");
}

#[test]
fn incomplete_doctype_waits() {
    let mut p = HeadParser::new();
    assert!(!p.feed("<!DOCTYPE html"));
    assert!(p.is_html());
    assert!(!p.complete());
    assert!(p.feed("><p>x</p>"));
    assert_eq!(p.head(), "");
    assert_eq!(p.take_body(), "<p>x</p>");
}

#[test]
fn incomplete_head_tag_waits() {
    let mut p = HeadParser::new();
    assert!(!p.feed("<title>My"));
    // No `</title>` yet: the parser waits for it.
    assert_eq!(p.head(), "");
    assert!(p.feed(" Page</title><p>x"));
    assert_eq!(p.head(), "<title>My Page</title>");
    assert_eq!(p.take_body(), "<p>x");
}

#[test]
fn partial_tag_name_waits() {
    let mut p = HeadParser::new();
    assert!(!p.feed("<ti"));
    assert!(!p.feed("tle>T</title"));
    assert!(p.feed("><br>"));
    assert_eq!(p.head(), "<title>T</title>");
    assert_eq!(p.take_body(), "<br>");
}

#[test]
fn void_tag_ends_at_its_own_gt() {
    let mut p = HeadParser::new();
    assert!(p.feed("<meta charset=\"utf-8\"><br/>"));
    assert_eq!(p.head(), "<meta charset=\"utf-8\">");
    assert_eq!(p.take_body(), "<br/>");
}

#[test]
fn self_closing_title() {
    let mut p = HeadParser::new();
    assert!(p.feed("<title/><p>a</p>"));
    assert_eq!(p.head(), "<title/>");
    assert_eq!(p.take_body(), "<p>a</p>");
}

#[test]
fn chunk_boundaries_do_not_matter() {
    let doc = "<!DOCTYPE html>\n<html><head><title>My Page</title><!-- note --><style>b{}</style></head><body>hi</body>";
    let mut whole = HeadParser::new();
    whole.feed(doc);
    for cut in 0..=doc.len() {
        if !doc.is_char_boundary(cut) {
            continue;
        }
        let mut p = HeadParser::new();
        p.feed(&doc[..cut]);
        p.feed(&doc[cut..]);
        assert_eq!(p.is_html(), whole.is_html());
        assert_eq!(p.complete(), whole.complete());
        assert_eq!(p.head(), whole.head());
        let mut w = HeadParser::new();
        w.feed(doc);
        assert_eq!(p.take_body(), w.take_body());
    }
}

#[test]
fn body_accumulates_after_completion() {
    let mut p = HeadParser::new();
    assert!(p.feed("plain "));
    assert!(p.feed("text"));
    assert_eq!(p.take_body(), "plain text");
}

#[test]
fn plain_text_keeps_leading_whitespace() {
    let mut p = HeadParser::new();
    assert!(!p.feed(" \t"));
    assert!(p.feed("\u{3000}x"));
    assert!(!p.is_html());
    assert_eq!(p.take_body(), " \t\u{3000}x");
}

#[test]
fn text_filter_stream() {
    let mut f = TextFilter::new();
    assert_eq!(f.finish(), "");
    let mut out = String::new();
    for c in ["a<", "&b", ">"] {
        out.push_str(&f.filter(c));
    }
    out.push_str(f.finish());
    assert_eq!(out, "<pre>a&lt;&amp;b&gt;</pre>");
    assert_eq!(TextFilter::default().finish(), "");
}

#[test]
fn head_keeps_only_head_content() {
    let mut p = HeadParser::new();
    p.feed("<!DOCTYPE html><html><head><!-- c -->   <meta charset=x><TITLE>T</TITLE></head><body>");
    assert!(p.complete());
    assert_eq!(p.head(), "<!-- c -->\n<meta charset=x>\n<TITLE>T</TITLE>");
    assert_eq!(p.take_body(), "<body>");
}
