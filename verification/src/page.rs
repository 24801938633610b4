//! Turning the input stream into the page sent to the browser: the HTML
//! preamble and, chunk by chunk, what to send.
use vstd::prelude::*;
use crate::ansi::{ansi_chunk_to_html, ansi_html};
use crate::escape::{encode_text, escape_text};
use crate::html::{HeadParser, HeadModel, TextFilter, feed_spec, join_lines, filter_step, finish_spec, filter_all, concat_all, law_text_filter_wraps};
use crate::reader::Format;
use crate::text::{push_str, chars_to_string};

verus! {

/// The preamble up to the title.
pub const PREAMBLE_OPEN: &'static str = "<!DOCTYPE html>\n<html>\n<head>\n<meta charset=\"utf-8\">\n<title>";

/// The preamble between the title and the extra head content.
pub const PREAMBLE_STYLE: &'static str = "</title>\n<style>\n  body { background:#1e1e1e; color:#d4d4d4; font-family:monospace; margin:1em; }\n  pre  { white-space:pre-wrap; word-wrap:break-word; }\n</style>\n";

/// The preamble after the extra head content.
pub const PREAMBLE_CLOSE: &'static str = "\n</head>\n<body>\n";

/// The document start: doctype, head with the escaped title, the built-in
/// style and `extra_head`, then the opening `<body>`.
pub open spec fn preamble_spec(title: Seq<char>, extra_head: Seq<char>) -> Seq<char> {
    PREAMBLE_OPEN@ + escape_text(title) + PREAMBLE_STYLE@ + extra_head + PREAMBLE_CLOSE@
}

/// The HTML preamble for a page titled `title` with `extra_head` in its head.
pub fn build_preamble(title: &str, extra_head: &str) -> (r: String)
    ensures
        r@ == preamble_spec(title@, extra_head@),
{
    let mut out: Vec<char> = Vec::new();
    push_str(&mut out, PREAMBLE_OPEN);
    let escaped = encode_text(title);
    push_str(&mut out, escaped.as_str());
    push_str(&mut out, PREAMBLE_STYLE);
    push_str(&mut out, extra_head);
    push_str(&mut out, PREAMBLE_CLOSE);
    assert(out@ =~= preamble_spec(title@, extra_head@));
    chars_to_string(&out)
}

/// Something to send to the browser.
pub enum Emit {
    /// This HTML.
    Html(String),
    /// The chunk's bytes exactly as they were read.
    RawChunk,
}

pub enum EmitView {
    Html(Seq<char>),
    RawChunk,
}

impl View for Emit {
    type V = EmitView;

    open spec fn view(&self) -> EmitView {
        match self {
            Emit::Html(s) => EmitView::Html(s@),
            Emit::RawChunk => EmitView::RawChunk,
        }
    }
}

pub open spec fn emits_view(v: Seq<Emit>) -> Seq<EmitView> {
    v.map_values(|e: Emit| e@)
}

/// The state of a page being streamed.
#[verifier::ext_equal]
pub struct PageModel {
    pub head: HeadModel,
    pub opened: bool,
    pub preamble_sent: bool,
    pub title: Seq<char>,
    pub ansi: bool,
}

/// A chunk after ANSI conversion, when that is on.
pub open spec fn converted(ansi: bool, text: Seq<char>) -> Seq<char> {
    if ansi {
        ansi_html(text)
    } else {
        text
    }
}

/// An HTML chunk: fed to the head parser until the body starts, which sends
/// the preamble (with the head content) and the body so far (taken from the
/// parser); once the body has started, sent as it is, after a bare preamble
/// if none went out yet.
pub open spec fn html_step(m: PageModel, text: Seq<char>) -> (PageModel, Seq<EmitView>) {
    let conv = converted(m.ansi, text);
    if m.head.body is None {
        let h1 = feed_spec(m.head, conv);
        match h1.body {
            Some(body) => {
                let pre = seq![EmitView::Html(preamble_spec(m.title, join_lines(h1.head_parts)))];
                let rest = if body.len() > 0 {
                    seq![EmitView::Html(body)]
                } else {
                    Seq::<EmitView>::empty()
                };
                (PageModel { head: HeadModel { body: Some(Seq::empty()), ..h1 }, preamble_sent: true, ..m }, pre + rest)
            },
            None => (PageModel { head: h1, ..m }, Seq::empty()),
        }
    } else {
        let pre = if !m.preamble_sent {
            seq![EmitView::Html(preamble_spec(m.title, ""@))]
        } else {
            Seq::<EmitView>::empty()
        };
        let last = if m.ansi {
            EmitView::Html(conv)
        } else {
            EmitView::RawChunk
        };
        (PageModel { preamble_sent: true, ..m }, pre.push(last))
    }
}

/// A text chunk: escaped, inside `<pre>`.
pub open spec fn text_step(m: PageModel, text: Seq<char>) -> (PageModel, Seq<EmitView>) {
    (PageModel { opened: true, ..m }, seq![EmitView::Html(filter_step(m.opened, converted(m.ansi, text)))])
}

pub open spec fn chunk_step(m: PageModel, text: Seq<char>, fmt: Format) -> (PageModel, Seq<EmitView>) {
    match fmt {
        Format::Html => html_step(m, text),
        Format::Text => text_step(m, text),
    }
}

/// At the end: `</pre>` for text; for HTML whose body never started, the
/// preamble with the head content kept so far, then whatever input the
/// parser still holds, so nothing read is lost.
pub open spec fn end_step(m: PageModel, fmt: Option<Format>) -> Seq<EmitView> {
    match fmt {
        Some(Format::Html) => if !m.preamble_sent {
            let pre = seq![EmitView::Html(preamble_spec(m.title, join_lines(m.head.head_parts)))];
            if m.head.buf.len() > 0 {
                pre.push(EmitView::Html(m.head.buf))
            } else {
                pre
            }
        } else {
            Seq::empty()
        },
        _ => if finish_spec(m.opened).len() > 0 {
            seq![EmitView::Html(finish_spec(m.opened))]
        } else {
            Seq::empty()
        },
    }
}

/// A page being streamed to the browser.
pub struct Page {
    head_parser: HeadParser,
    text_filter: TextFilter,
    preamble_sent: bool,
    title: String,
    ansi: bool,
}

impl View for Page {
    type V = PageModel;

    closed spec fn view(&self) -> PageModel {
        PageModel {
            head: self.head_parser@,
            opened: self.text_filter@,
            preamble_sent: self.preamble_sent,
            title: self.title@,
            ansi: self.ansi,
        }
    }
}

impl Page {
    /// A page titled `title`; `ansi` turns on ANSI conversion of the input.
    pub fn new(title: &str, ansi: bool) -> (r: Self)
        ensures
            r@ == (PageModel {
                head: HeadModel { buf: Seq::empty(), head_parts: Seq::empty(), body: None, is_html: None },
                opened: false,
                preamble_sent: false,
                title: title@,
                ansi,
            }),
    {
        Page {
            head_parser: HeadParser::new(),
            text_filter: TextFilter::new(),
            preamble_sent: false,
            title: String::from_str(title),
            ansi,
        }
    }

    /// What to send for one chunk of input (`text`: the chunk decoded as
    /// UTF-8) in format `fmt`.
    pub fn on_chunk(&mut self, text: &str, fmt: Format) -> (r: Vec<Emit>)
        ensures
            (final(self)@, emits_view(r@)) == chunk_step(old(self)@, text@, fmt),
    {
        let conv: String = if self.ansi {
            ansi_chunk_to_html(text)
        } else {
            String::from_str(text)
        };
        let mut out: Vec<Emit> = Vec::new();
        match fmt {
            Format::Html => {
                if !self.head_parser.complete() {
                    self.head_parser.feed(conv.as_str());
                    if self.head_parser.complete() {
                        let head = self.head_parser.head();
                        let preamble = build_preamble(self.title.as_str(), head.as_str());
                        out.push(Emit::Html(preamble));
                        let body_start = self.head_parser.take_body();
                        if body_start.as_str().is_empty() {
                        } else {
                            out.push(Emit::Html(body_start));
                        }
                        self.preamble_sent = true;
                    }
                } else {
                    if !self.preamble_sent {
                        let preamble = build_preamble(self.title.as_str(), "");
                        out.push(Emit::Html(preamble));
                        self.preamble_sent = true;
                    }
                    if self.ansi {
                        out.push(Emit::Html(conv));
                    } else {
                        out.push(Emit::RawChunk);
                    }
                }
            },
            Format::Text => {
                let html = self.text_filter.filter(conv.as_str());
                out.push(Emit::Html(html));
            },
        }
        let ghost expected = chunk_step(old(self)@, text@, fmt);
        assert(self@ =~= expected.0);
        assert(emits_view(out@) =~= expected.1);
        out
    }

    /// What to send once the input has ended; `fmt` is the input's format, if
    /// one was determined. Input the head parser still holds is sent too.
    pub fn on_end(&self, fmt: Option<Format>) -> (r: Vec<Emit>)
        ensures
            emits_view(r@) == end_step(self@, fmt),
    {
        let mut out: Vec<Emit> = Vec::new();
        let html = match fmt {
            Some(Format::Html) => true,
            _ => false,
        };
        if html {
            if !self.preamble_sent {
                let head = self.head_parser.head();
                out.push(Emit::Html(build_preamble(self.title.as_str(), head.as_str())));
                let rest = self.head_parser.pending();
                if !rest.as_str().is_empty() {
                    out.push(Emit::Html(rest));
                }
            }
        } else {
            let closing = self.text_filter.finish();
            if !closing.is_empty() {
                out.push(Emit::Html(String::from_str(closing)));
            }
        }
        assert(emits_view(out@) =~= end_step(self@, fmt));
        out
    }
}

/// The format the flags force: `--html` wins over `--text`.
pub fn forced_format(html: bool, text: bool) -> (r: Option<Format>)
    ensures
        r == if html {
            Some(Format::Html)
        } else if text {
            Some(Format::Text)
        } else {
            None
        },
{
    if html {
        Some(Format::Html)
    } else if text {
        Some(Format::Text)
    } else {
        None
    }
}

/// The browser to use: the flag, else a non-empty environment setting, else
/// `default`.
pub fn browser_name(flag: Option<String>, env: Option<String>) -> (r: String)
    ensures
        r@ == match flag {
            Some(f) => f@,
            None => match env {
                Some(e) => if e@.len() > 0 { e@ } else { "default"@ },
                None => "default"@,
            },
        },
{
    match flag {
        Some(f) => f,
        None => match env {
            Some(e) => if e.as_str().is_empty() {
                String::from_str("default")
            } else {
                e
            },
            None => String::from_str("default"),
        },
    }
}

/// The decimal digits of `n`.
pub open spec fn decimal(n: nat) -> Seq<char>
    decreases n,
{
    if n < 10 {
        seq![(48 + n) as char]
    } else {
        decimal(n / 10).push((48 + n % 10) as char)
    }
}

fn push_decimal(out: &mut Vec<char>, n: u32)
    ensures
        final(out)@ == old(out)@ + decimal(n as nat),
    decreases n,
{
    if n >= 10 {
        push_decimal(out, n / 10);
    }
    let d = ((48 + n % 10) as u8) as char;
    out.push(d);
    assert(final(out)@ =~= old(out)@ + decimal(n as nat)) by {
        if n >= 10 {
            assert(decimal(n as nat) == decimal((n / 10) as nat).push(d));
        } else {
            assert(decimal(n as nat) == seq![d]);
        }
    }
}

/// The address the browser is sent to: the server's host and port, and the
/// name of the current directory as the path.
pub open spec fn page_url_spec(host: Seq<char>, port: u16, dir: Seq<char>) -> Seq<char> {
    "http://"@ + host + ":"@ + decimal(port as nat) + "/"@ + dir
}

pub fn page_url(host: &str, port: u16, dir: &str) -> (r: String)
    ensures
        r@ == page_url_spec(host@, port, dir@),
{
    let mut out: Vec<char> = Vec::new();
    push_str(&mut out, "http://");
    push_str(&mut out, host);
    push_str(&mut out, ":");
    push_decimal(&mut out, port as u32);
    push_str(&mut out, "/");
    push_str(&mut out, dir);
    assert(out@ =~= page_url_spec(host@, port, dir@));
    chars_to_string(&out)
}

/// The page title: the flag, else the file name of the first argument,
/// else `browser-cat`.
pub fn page_title(flag: Option<String>, first_file_name: Option<String>) -> (r: String)
    ensures
        r@ == match flag {
            Some(t) => t@,
            None => match first_file_name {
                Some(n) => n@,
                None => "browser-cat"@,
            },
        },
{
    match flag {
        Some(t) => t,
        None => match first_file_name {
            Some(n) => n,
            None => String::from_str("browser-cat"),
        },
    }
}

/// True when `s` ends with `suffix`.
pub open spec fn ends_with(s: Seq<char>, suffix: Seq<char>) -> bool {
    suffix.len() <= s.len() && s.skip(s.len() - suffix.len()) == suffix
}

/// Invoked under a name ending in `tee`, the program also copies its input
/// to standard output.
pub fn is_tee_name(exe: &str) -> (r: bool)
    ensures
        r == ends_with(exe@, "tee"@),
{
    let v = crate::text::str_to_chars(exe);
    let t = crate::text::str_to_chars("tee");
    if t.len() > v.len() {
        return false;
    }
    let start = v.len() - t.len();
    let mut i: usize = 0;
    while i < t.len()
        invariant
            i <= t.len(),
            start + t.len() == v.len(),
            v@ == exe@,
            t@ == "tee"@,
            forall|k: int| 0 <= k < i ==> v@[start + k] == t@[k],
        decreases t.len() - i,
    {
        if v[start + i] != t[i] {
            assert(v@.skip(start as int)[i as int] == v@[start + i]);
            assert(!ends_with(exe@, "tee"@)) by {
                if ends_with(exe@, "tee"@) {
                    assert(v@.skip(start as int) == t@);
                    assert(v@.skip(start as int)[i as int] == t@[i as int]);
                }
            }
            return false;
        }
        i += 1;
    }
    assert(v@.skip(start as int) =~= t@);
    true
}


// ── Laws ────────────────────────────────────────────────────────────────────

/// A new page's state.
pub open spec fn new_page(title: Seq<char>, ansi: bool) -> PageModel {
    PageModel {
        head: HeadModel { buf: Seq::empty(), head_parts: Seq::empty(), body: None, is_html: None },
        opened: false,
        preamble_sent: false,
        title,
        ansi,
    }
}

/// The chunks handled in turn, all in format `fmt`: the final state and
/// everything emitted.
pub open spec fn run_chunks(m: PageModel, chunks: Seq<Seq<char>>, fmt: Format) -> (PageModel, Seq<EmitView>)
    decreases chunks.len(),
{
    if chunks.len() == 0 {
        (m, Seq::empty())
    } else {
        let (m1, e1) = run_chunks(m, chunks.drop_last(), fmt);
        let (m2, e2) = chunk_step(m1, chunks.last(), fmt);
        (m2, e1 + e2)
    }
}

/// The HTML of the emissions, written one after another.
pub open spec fn html_text(e: Seq<EmitView>) -> Seq<char>
    decreases e.len(),
{
    if e.len() == 0 {
        Seq::empty()
    } else {
        html_text(e.drop_last()) + match e.last() {
            EmitView::Html(s) => s,
            EmitView::RawChunk => Seq::empty(),
        }
    }
}

/// The chunks after ANSI conversion, when that is on.
pub open spec fn converted_all(ansi: bool, chunks: Seq<Seq<char>>) -> Seq<Seq<char>> {
    chunks.map_values(|c: Seq<char>| converted(ansi, c))
}

/// An emission that is a preamble for a page titled `title`.
pub open spec fn is_preamble(e: EmitView, title: Seq<char>) -> bool {
    exists|extra: Seq<char>| e == EmitView::Html(#[trigger] preamble_spec(title, extra))
}

proof fn lemma_html_run(title: Seq<char>, ansi: bool, chunks: Seq<Seq<char>>)
    ensures
        ({
            let (m, e) = run_chunks(new_page(title, ansi), chunks, Format::Html);
            &&& m.title == title
            &&& (m.head.body is None <==> !m.preamble_sent)
            &&& !m.preamble_sent ==> e.len() == 0
            &&& m.preamble_sent ==> e.len() > 0 && is_preamble(e[0], title)
        }),
    decreases chunks.len(),
{
    if chunks.len() > 0 {
        lemma_html_run(title, ansi, chunks.drop_last());
        let (m1, e1) = run_chunks(new_page(title, ansi), chunks.drop_last(), Format::Html);
        let (m2, e2) = html_step(m1, chunks.last());
        if m1.head.body is None {
            let h1 = feed_spec(m1.head, converted(m1.ansi, chunks.last()));
            if h1.body is Some {
                let pre = preamble_spec(m1.title, join_lines(h1.head_parts));
                assert(e2[0] == EmitView::Html(pre));
                assert(is_preamble(e2[0], title));
                assert((e1 + e2)[0] == e2[0]);
            } else {
                assert(e2.len() == 0);
                assert(e1 + e2 =~= e1);
            }
        } else {
            assert(e2.len() > 0);
            assert((e1 + e2)[0] == e1[0]);
        }
    }
}

/// For HTML input the page starts with the preamble: whatever chunks come,
/// the first thing sent (counting what is sent at the end) is the document
/// start with the page's title.
pub proof fn law_html_page_starts_with_preamble(title: Seq<char>, ansi: bool, chunks: Seq<Seq<char>>)
    ensures
        ({
            let (m, e) = run_chunks(new_page(title, ansi), chunks, Format::Html);
            let all = e + end_step(m, Some(Format::Html));
            all.len() > 0 && is_preamble(all[0], title)
        }),
{
    lemma_html_run(title, ansi, chunks);
    let (m, e) = run_chunks(new_page(title, ansi), chunks, Format::Html);
    let all = e + end_step(m, Some(Format::Html));
    if m.preamble_sent {
        assert(all[0] == e[0]);
    } else {
        let pre = preamble_spec(title, join_lines(m.head.head_parts));
        assert(end_step(m, Some(Format::Html))[0] == EmitView::Html(pre));
        assert(all[0] == EmitView::Html(pre));
    }
}

proof fn lemma_text_run(title: Seq<char>, ansi: bool, chunks: Seq<Seq<char>>)
    ensures
        ({
            let (m, e) = run_chunks(new_page(title, ansi), chunks, Format::Text);
            &&& m.opened == (chunks.len() > 0)
            &&& m.ansi == ansi
            &&& html_text(e) == filter_all(converted_all(ansi, chunks))
        }),
    decreases chunks.len(),
{
    if chunks.len() > 0 {
        let front = chunks.drop_last();
        lemma_text_run(title, ansi, front);
        let (m1, e1) = run_chunks(new_page(title, ansi), front, Format::Text);
        let (m2, e2) = text_step(m1, chunks.last());
        let cs = converted_all(ansi, chunks);
        assert(cs.drop_last() =~= converted_all(ansi, front));
        assert(cs.last() == converted(ansi, chunks.last()));
        assert((e1 + e2).drop_last() =~= e1);
        assert((e1 + e2).last() == e2[0]);
    }
}

/// Plain text is wrapped in one `<pre>` element: for a text page fed at
/// least one chunk, everything sent, the end included, is `<pre>`, the
/// escaped concatenation of the (ANSI-converted, when that is on) chunks,
/// and `</pre>`.
pub proof fn law_text_page_wraps(title: Seq<char>, ansi: bool, chunks: Seq<Seq<char>>)
    requires
        chunks.len() > 0,
    ensures
        ({
            let (m, e) = run_chunks(new_page(title, ansi), chunks, Format::Text);
            html_text(e + end_step(m, Some(Format::Text)))
                == "<pre>"@ + escape_text(concat_all(converted_all(ansi, chunks))) + "</pre>"@
        }),
{
    lemma_text_run(title, ansi, chunks);
    let (m, e) = run_chunks(new_page(title, ansi), chunks, Format::Text);
    law_text_filter_wraps(converted_all(ansi, chunks));
    reveal_strlit("</pre>");
    let end = end_step(m, Some(Format::Text));
    assert(end == seq![EmitView::Html("</pre>"@)]);
    assert((e + end).drop_last() =~= e);
}

/// With `--ansi` the browser only ever gets converted input: no chunk is
/// sent raw, and once the body of an HTML page has started each chunk is
/// sent as its ANSI-to-HTML conversion. Without it, such a chunk is sent as
/// the raw bytes read.
pub proof fn law_ansi_page_converts(m: PageModel, text: Seq<char>, fmt: Format)
    ensures
        m.ansi ==> forall|i: int| 0 <= i < chunk_step(m, text, fmt).1.len()
            ==> !(#[trigger] chunk_step(m, text, fmt).1[i] is RawChunk),
        m.ansi && m.head.body is Some ==> chunk_step(m, text, Format::Html).1.last() == EmitView::Html(ansi_html(text)),
        !m.ansi && m.head.body is Some ==> chunk_step(m, text, Format::Html).1.last() == EmitView::RawChunk,
{
    let e = chunk_step(m, text, fmt).1;
    if m.ansi {
        assert forall|i: int| 0 <= i < e.len() implies !(#[trigger] e[i] is RawChunk) by {
            match fmt {
                Format::Html => {
                    if m.head.body is None {
                        let h1 = feed_spec(m.head, converted(m.ansi, text));
                        if let Some(body) = h1.body {
                            let pre = seq![EmitView::Html(preamble_spec(m.title, join_lines(h1.head_parts)))];
                            if body.len() > 0 {
                                assert(e == pre + seq![EmitView::Html(body)]);
                                if i == 1 {
                                    assert(e[1] == EmitView::Html(body));
                                }
                            }
                        }
                    }
                },
                Format::Text => {},
            }
        }
    }
}

} // verus!
