use browser_cat::page::{browser_name, build_preamble, forced_format, is_tee_name, page_title, page_url, Emit, Page};
use browser_cat::reader::Format;
use browser_cat::server::{shutdown_after_response, stream_step, Replay, ServerConfig, StreamAction, StreamEvent};

fn html_of(e: &Emit) -> &str {
    match e {
        Emit::Html(s) => s.as_str(),
        Emit::RawChunk => panic!("raw chunk"),
    }
}

#[test]
fn preamble_exact() {
    let p = build_preamble("a<b", "<style>x</style>");
    assert_eq!(
        p,
        "<!DOCTYPE html>\n<html>\n<head>\n<meta charset=\"utf-8\">\n<title>a&lt;b</title>\n<style>\n  body { background:#1e1e1e; color:#d4d4d4; font-family:monospace; margin:1em; }\n  pre  { white-space:pre-wrap; word-wrap:break-word; }\n</style>\n<style>x</style>\n</head>\n<body>\n"
    );
}

#[test]
fn text_page() {
    let mut page = Page::new("t", false);
    let a = page.on_chunk("a&b", Format::Text);
    assert_eq!(a.len(), 1);
    assert_eq!(html_of(&a[0]), "<pre>a&amp;b");
    let b = page.on_chunk("c", Format::Text);
    assert_eq!(html_of(&b[0]), "c");
    let end = page.on_end(Some(Format::Text));
    assert_eq!(end.len(), 1);
    assert_eq!(html_of(&end[0]), "</pre>");
}

#[test]
fn empty_text_page_sends_nothing_at_end() {
    let page = Page::new("t", false);
    assert!(page.on_end(None).is_empty());
}

#[test]
fn html_page() {
    let mut page = Page::new("T", false);
    assert!(page.on_chunk("<title>x</title>", Format::Html).is_empty());
    let out = page.on_chunk("<p>hi</p>", Format::Html);
    assert_eq!(out.len(), 2);
    assert_eq!(html_of(&out[0]), build_preamble("T", "<title>x</title>"));
    assert_eq!(html_of(&out[1]), "<p>hi</p>");
    assert!(page.on_end(Some(Format::Html)).is_empty());
}

#[test]
fn html_page_without_body_gets_preamble_at_end() {
    let mut page = Page::new("T", false);
    assert!(page.on_chunk("<title>x</title>", Format::Html).is_empty());
    let end = page.on_end(Some(Format::Html));
    assert_eq!(end.len(), 1);
    assert_eq!(html_of(&end[0]), build_preamble("T", "<title>x</title>"));
}

#[test]
fn html_page_flushes_held_input_at_end() {
    let mut page = Page::new("T", false);
    assert!(page.on_chunk("<meta charset=x><title>Report", Format::Html).is_empty());
    let end = page.on_end(Some(Format::Html));
    assert_eq!(end.len(), 2);
    assert_eq!(html_of(&end[0]), build_preamble("T", "<meta charset=x>"));
    assert_eq!(html_of(&end[1]), "<title>Report");
}

#[test]
fn ansi_text_page() {
    let mut page = Page::new("t", true);
    let out = page.on_chunk("\x1b[1mb\x1b[0m", Format::Text);
    assert_eq!(html_of(&out[0]), "<pre>&lt;span style=\"font-weight:bold\"&gt;b&lt;/span&gt;");
}

#[test]
fn cli_rules() {
    assert_eq!(forced_format(true, true), Some(Format::Html));
    assert_eq!(forced_format(false, true), Some(Format::Text));
    assert_eq!(forced_format(false, false), None);
    assert_eq!(browser_name(Some("curl".into()), Some("x".into())), "curl");
    assert_eq!(browser_name(None, Some("firefox".into())), "firefox");
    assert_eq!(browser_name(None, Some(String::new())), "default");
    assert_eq!(browser_name(None, None), "default");
    assert!(is_tee_name("btee"));
    assert!(!is_tee_name("browser-cat"));
    assert!(!is_tee_name("ee"));
}

#[test]
fn server_config_default() {
    let c = ServerConfig::default();
    assert_eq!(c.host, "127.0.0.1");
    assert_eq!(c.port, 0);
    assert!(!c.persist);
}

#[test]
fn html_page_later_chunks_are_sent_as_they_are() {
    let mut page = Page::new("T", false);
    let first = page.on_chunk("<title>x</title><p>hi</p>", Format::Html);
    assert_eq!(first.len(), 2);
    assert_eq!(html_of(&first[0]), build_preamble("T", "<title>x</title>"));
    assert_eq!(html_of(&first[1]), "<p>hi</p>");
    let second = page.on_chunk("<p>more</p>", Format::Html);
    assert_eq!(second.len(), 1);
    assert!(matches!(second[0], Emit::RawChunk));
    assert!(page.on_end(Some(Format::Html)).is_empty());
}

#[test]
fn html_page_first_emission_is_preamble() {
    let mut page = Page::new("a&b", true);
    let out = page.on_chunk("<p>\x1b[31mred\x1b[0m</p>", Format::Html);
    assert!(!out.is_empty());
    assert!(html_of(&out[0]).starts_with("<!DOCTYPE html>\n<html>\n<head>\n<meta charset=\"utf-8\">\n<title>a&amp;b</title>"));
    assert_eq!(
        html_of(&out[1]),
        "&lt;p&gt;<span style=\"color:#aa0000\">red</span>&lt;/p&gt;"
    );
}

#[test]
fn text_page_wraps_all_chunks() {
    let mut page = Page::new("t", false);
    let mut all = String::new();
    for c in ["x<", "y", "&z"] {
        for e in page.on_chunk(c, Format::Text) {
            all.push_str(html_of(&e));
        }
    }
    for e in page.on_end(Some(Format::Text)) {
        all.push_str(html_of(&e));
    }
    assert_eq!(all, "<pre>x&lt;y&amp;z</pre>");
}

#[test]
fn stream_decisions() {
    assert_eq!(stream_step(StreamEvent::Live), StreamAction::Forward);
    assert_eq!(stream_step(StreamEvent::Lagged), StreamAction::Skip);
    assert_eq!(stream_step(StreamEvent::Closed), StreamAction::Finish);
    assert_eq!(stream_step(StreamEvent::Done), StreamAction::DrainThenFinish);
    assert!(shutdown_after_response(false));
    assert!(!shutdown_after_response(true));
}

#[test]
fn replay_keeps_chunks_in_order() {
    let mut r = Replay::new();
    assert_eq!(r.len(), 0);
    r.push(b"<p>");
    r.push(b"");
    r.push(b"hi</p>");
    assert_eq!(r.len(), 3);
    assert_eq!(r.get(0), b"<p>");
    assert_eq!(r.get(1), b"");
    assert_eq!(r.get(2), b"hi</p>");
}

#[test]
fn url_and_title() {
    assert_eq!(page_url("127.0.0.1", 54321, "proj"), "http://127.0.0.1:54321/proj");
    assert_eq!(page_url("::1", 0, ""), "http://::1:0/");
    assert_eq!(page_url("h", 65535, "d"), "http://h:65535/d");
    assert_eq!(page_title(Some("T".into()), Some("f.txt".into())), "T");
    assert_eq!(page_title(None, Some("f.txt".into())), "f.txt");
    assert_eq!(page_title(None, None), "browser-cat");
}
