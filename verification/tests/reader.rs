use browser_cat::reader::{sniff, Format, Reader, Source, TeeFilter};
use std::io::Cursor;
use std::io::Read;

#[test]
fn sniff_html() {
    assert_eq!(sniff(b"<html>"), Format::Html);
    assert_eq!(sniff(b"  \n<p>"), Format::Html);
    assert_eq!(sniff(b"<!DOCTYPE"), Format::Html);
}

#[test]
fn sniff_text() {
    assert_eq!(sniff(b"hello"), Format::Text);
    assert_eq!(sniff(b"  plain text"), Format::Text);
    assert_eq!(sniff(b""), Format::Text);
}

#[test]
fn reader_stdin_like_cursor() {
    let data = b"hello world";
    let mut cursor = Cursor::new(data);
    let mut chunks: Vec<Vec<u8>> = Vec::new();
    let mut fmt_seen = None;

    let mut buf = vec![0u8; 16 * 1024];
    loop {
        let n = cursor.read(&mut buf).unwrap();
        if n == 0 {
            break;
        }
        let chunk = buf[..n].to_vec();
        if fmt_seen.is_none() {
            fmt_seen = Some(sniff(&chunk));
        }
        chunks.push(chunk);
    }

    assert_eq!(fmt_seen, Some(Format::Text));
    assert_eq!(chunks.concat(), data);
}

#[test]
fn reader_from_args_empty_is_stdin() {
    let r = Reader::from_args(&[], false);
    assert!(matches!(r.sources()[0], Source::Stdin));
}

#[test]
fn reader_from_args_dash_is_stdin() {
    let r = Reader::from_args(&["-".to_string()], false);
    assert!(matches!(r.sources()[0], Source::Stdin));
}

#[test]
fn reader_from_args_command_mode() {
    let r = Reader::from_args(&["echo".to_string(), "hi".to_string()], true);
    assert!(matches!(&r.sources()[0], Source::Command(args) if args[0] == "echo"));
}

#[test]
fn tee_filter_passthrough() {
    let mut captured = Vec::new();
    let mut tee = TeeFilter::new(&mut captured);
    let data = b"test data";
    let out = tee.filter(data);
    assert_eq!(out, data);
    assert_eq!(captured, data);
}

#[test]
fn sniff_edge_cases() {
    // Vertical tab is not ASCII whitespace for `is_ascii_whitespace`.
    assert_eq!(sniff(b"\x0b<p>"), Format::Text);
    assert_eq!(sniff(b"\x0c\r\t <"), Format::Html);
    assert_eq!(sniff(b"   "), Format::Text);
}

#[test]
fn reader_from_args_files() {
    let r = Reader::from_args(&["a.txt".to_string(), "-".to_string(), "b".to_string()], false);
    let s = r.sources();
    assert_eq!(s.len(), 3);
    assert!(matches!(&s[0], Source::File(p) if p == "a.txt"));
    assert!(matches!(&s[1], Source::Stdin));
    assert!(matches!(&s[2], Source::File(p) if p == "b"));
    assert_eq!(r.format(), None);
}

#[test]
fn format_is_decided_once() {
    let mut r = Reader::new(vec![Source::Stdin], None);
    assert_eq!(r.format(), None);
    assert_eq!(r.ensure_format(b" <p>"), Format::Html);
    assert_eq!(r.ensure_format(b"plain"), Format::Html);
    assert_eq!(r.format(), Some(Format::Html));

    let mut forced = Reader::new(vec![], Some(Format::Text));
    assert_eq!(forced.ensure_format(b"<html>"), Format::Text);
    assert_eq!(forced.format(), Some(Format::Text));
}
