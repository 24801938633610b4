//! Separating an HTML stream's `<head>` from its `<body>`, and wrapping plain
//! text in `<pre>`.
use vstd::prelude::*;
use crate::escape::{encode_text, escape_text, lemma_escape_concat};
use crate::text::{leading_ws, push_str, lemma_leading_ws_bound, str_to_chars, chars_to_string, starts_with, is_whitespace, char_is_whitespace, trim_start, count_leading_ws, vec_skip, vec_take, find_seq, find_from, occurs_at, find_vec, vec_starts_with, lemma_find_from_bounds, to_ascii_lowercase, to_ascii_uppercase, vec_to_ascii_lowercase, vec_to_ascii_uppercase, ascii_lower, ascii_upper};

verus! {

// ── HeadParser ──────────────────────────────────────────────────────────────

/// What a `HeadParser` holds: unparsed input, the kept head parts, the body
/// once it has started, and whether the input looks like HTML.
#[verifier::ext_equal]
pub struct HeadModel {
    pub buf: Seq<char>,
    pub head_parts: Seq<Seq<char>>,
    pub body: Option<Seq<char>>,
    pub is_html: Option<bool>,
}

/// True when a tag name ends here: whitespace, `>` or `/` follows it.
pub open spec fn tag_boundary(rest: Seq<char>) -> bool {
    rest.len() > 0 && (is_whitespace(rest[0]) || rest[0] == '>' || rest[0] == '/')
}

/// Length of `b` up to and including the first occurrence of `p`.
pub open spec fn through(b: Seq<char>, p: Seq<char>) -> Option<nat> {
    match find_seq(b, p) {
        Some(e) => Some(e + p.len()),
        None => None,
    }
}

/// Whether a buffer begins with a pattern: it does (`Yes`), it may once
/// more input arrives (`Maybe`), or it cannot whatever follows (`No`).
#[derive(PartialEq, Eq, Structural)]
pub enum Fit {
    Yes,
    Maybe,
    No,
}

/// `x` against the literal `p`.
pub open spec fn fit_lit(x: Seq<char>, p: Seq<char>) -> Fit {
    if starts_with(x, p) {
        Fit::Yes
    } else if starts_with(p, x) {
        Fit::Maybe
    } else {
        Fit::No
    }
}

/// `x` against the tag opening `p`, which must be followed by a tag
/// boundary.
pub open spec fn fit_tag(x: Seq<char>, p: Seq<char>) -> Fit {
    if x.len() > p.len() {
        if starts_with(x, p) && tag_boundary(x.skip(p.len() as int)) {
            Fit::Yes
        } else {
            Fit::No
        }
    } else if starts_with(p, x) {
        Fit::Maybe
    } else {
        Fit::No
    }
}

/// The end of a `title`, `script` or `style` element at the front of `b`
/// (`low`: `b` in lower case): just after its opening tag when that closes
/// itself with `/>`, else just after the first `</tag>`; `None` while that has
/// not arrived.
pub open spec fn paired_end(b: Seq<char>, low: Seq<char>, tag: Seq<char>) -> Option<nat> {
    match find_seq(b, ">"@) {
        None => None,
        Some(e) => if e > 0 && b[e - 1] == '/' {
            Some(e + 1)
        } else {
            through(low, "</"@ + tag + ">"@)
        },
    }
}

/// What the parser does with the front of its buffer.
pub enum HeadStep {
    /// Remove the first `n` characters; keep them in the head when `true`.
    Take(nat, bool),
    /// Wait for more input: the front may still become a head construct.
    NeedMore,
    /// The body starts here.
    Body,
}

/// The first alternative that fits decides: `end` gives how far its
/// construct reaches (`None`: not yet arrived).
pub open spec fn pick(f: Fit, end: Option<nat>, keep: bool, otherwise: HeadStep) -> HeadStep {
    match f {
        Fit::Yes => match end {
            Some(n) => HeadStep::Take(n, keep),
            None => HeadStep::NeedMore,
        },
        Fit::Maybe => HeadStep::NeedMore,
        Fit::No => otherwise,
    }
}

/// The head-level construct at the front of `b`: a doctype, `<html>`,
/// `</html>`, `<head>` or `</head>` tag (discarded); a `title`, `script`,
/// `style` element, a `meta`, `link` or `base` tag, or a comment (kept).
/// Tag names are matched in any case.
#[verifier::opaque]
pub open spec fn consume_spec(b: Seq<char>) -> HeadStep {
    let up = to_ascii_uppercase(b);
    let low = to_ascii_lowercase(b);
    let gt = through(b, ">"@);
    pick(fit_lit(up, "<!DOCTYPE"@), gt, false,
    pick(fit_tag(b, "<html"@), gt, false,
    pick(fit_lit(b, "</html"@), gt, false,
    pick(fit_tag(b, "<head"@), gt, false,
    pick(fit_lit(b, "</head"@), gt, false,
    pick(fit_tag(low, "<title"@), paired_end(b, low, "title"@), true,
    pick(fit_tag(low, "<script"@), paired_end(b, low, "script"@), true,
    pick(fit_tag(low, "<style"@), paired_end(b, low, "style"@), true,
    pick(fit_tag(low, "<meta"@), gt, true,
    pick(fit_tag(low, "<link"@), gt, true,
    pick(fit_tag(low, "<base"@), gt, true,
    pick(fit_lit(b, "<!--"@), through(b, "-->"@), true,
    HeadStep::Body))))))))))))
}

/// True when `s` holds a character that is not whitespace.
pub open spec fn has_content(s: Seq<char>) -> bool {
    exists|i: int| 0 <= i < s.len() && !is_whitespace(#[trigger] s[i])
}

/// The parser's loop: decide HTML-ness, then peel head-level constructs off
/// the front until the body starts or more input is needed.
pub open spec fn parse_spec(m: HeadModel) -> HeadModel
    decreases m.buf.len(),
{
    if m.is_html is None && trim_start(m.buf).len() == 0 {
        m
    } else {
        let m1 = if m.is_html is None {
            HeadModel { is_html: Some(trim_start(m.buf)[0] == '<'), ..m }
        } else {
            m
        };
        if m1.is_html == Some(false) {
            HeadModel { buf: Seq::empty(), body: Some(m1.buf), ..m1 }
        } else {
            let b = trim_start(m1.buf);
            if b.len() == 0 {
                HeadModel { buf: b, ..m1 }
            } else {
                match consume_spec(b) {
                    HeadStep::Take(n, keep) => if 0 < n <= b.len() {
                        let parts = if keep && has_content(b.take(n as int)) {
                            m1.head_parts.push(b.take(n as int))
                        } else {
                            m1.head_parts
                        };
                        proof {
                            lemma_leading_ws_bound(m1.buf);
                        }
                        parse_spec(HeadModel { buf: b.skip(n as int), head_parts: parts, ..m1 })
                    } else {
                        HeadModel { buf: Seq::empty(), body: Some(b), ..m1 }
                    },
                    HeadStep::NeedMore => HeadModel { buf: b, ..m1 },
                    HeadStep::Body => HeadModel { buf: Seq::empty(), body: Some(b), ..m1 },
                }
            }
        }
    }
}

/// Feeding `data`: appended to the body once it has started, else parsed.
pub open spec fn feed_spec(m: HeadModel, data: Seq<char>) -> HeadModel {
    match m.body {
        Some(b) => HeadModel { body: Some(b + data), ..m },
        None => parse_spec(HeadModel { buf: m.buf + data, ..m }),
    }
}

/// The head parts joined by newlines.
pub open spec fn join_lines(parts: Seq<Seq<char>>) -> Seq<char>
    decreases parts.len(),
{
    if parts.len() == 0 {
        Seq::empty()
    } else if parts.len() == 1 {
        parts[0]
    } else {
        join_lines(parts.drop_last()) + "\n"@ + parts.last()
    }
}

/// Incrementally parses an HTML stream, separating the `<head>` from the
/// `<body>`. Feed chunks via [`HeadParser::feed`] until [`HeadParser::complete`]
/// returns true, then call [`HeadParser::head`] and [`HeadParser::take_body`].
///
/// Also detects whether the input is HTML at all: if the first non-whitespace
/// character is not `<` the document is treated as plain text.
pub struct HeadParser {
    buf: Vec<char>,
    /// Accumulated `<head>` inner content (script/style/meta/title/link/base).
    head_parts: Vec<String>,
    /// Everything from the first body character onward.
    body_start: Option<String>,
    /// Whether we've determined the input is HTML.
    is_html: Option<bool>,
}

pub open spec fn strings_view(v: Seq<String>) -> Seq<Seq<char>> {
    v.map_values(|s: String| s@)
}

impl View for HeadParser {
    type V = HeadModel;

    closed spec fn view(&self) -> HeadModel {
        HeadModel {
            buf: self.buf@,
            head_parts: strings_view(self.head_parts@),
            body: match self.body_start {
                Some(b) => Some(b@),
                None => None,
            },
            is_html: self.is_html,
        }
    }
}

/// Length of `b` through the first `p`.
fn through_exec(b: &Vec<char>, p: &str) -> (r: Option<usize>)
    ensures
        match through(b@, p@) {
            Some(n) => r is Some && r.unwrap() == n,
            None => r is None,
        },
{
    let pv = str_to_chars(p);
    match find_vec(b, &pv) {
        Some(e) => {
            proof {
                lemma_find_from_bounds(b@, pv@, 0);
            }
            assert(find_seq(b@, pv@) == Some(e as nat));
            assert(e + pv.len() <= b.len());
            Some(e + pv.len())
        },
        None => None,
    }
}

/// True when `b` has a tag boundary at index `k`.
fn boundary_at(b: &Vec<char>, k: usize) -> (r: bool)
    ensures
        k <= b.len() ==> r == tag_boundary(b@.skip(k as int)),
{
    if k >= b.len() {
        return false;
    }
    let c = b[k];
    assert(b@.skip(k as int)[0] == c);
    char_is_whitespace(c) || c == '>' || c == '/'
}

fn fit_lit_exec(x: &Vec<char>, p: &str) -> (r: Fit)
    ensures
        r == fit_lit(x@, p@),
{
    let pv = str_to_chars(p);
    if vec_starts_with(x, &pv) {
        Fit::Yes
    } else if vec_starts_with(&pv, x) {
        Fit::Maybe
    } else {
        Fit::No
    }
}

fn fit_tag_exec(x: &Vec<char>, p: &str) -> (r: Fit)
    ensures
        r == fit_tag(x@, p@),
{
    let pv = str_to_chars(p);
    if x.len() > pv.len() {
        if vec_starts_with(x, &pv) && boundary_at(x, pv.len()) {
            Fit::Yes
        } else {
            Fit::No
        }
    } else if vec_starts_with(&pv, x) {
        Fit::Maybe
    } else {
        Fit::No
    }
}

fn paired_end_exec(b: &Vec<char>, low: &Vec<char>, tag: &str) -> (r: Option<usize>)
    requires
        low@.len() == b@.len(),
    ensures
        match paired_end(b@, low@, tag@) {
            Some(n) => r is Some && r.unwrap() == n,
            None => r is None,
        },
{
    proof {
        reveal_strlit(">");
    }
    let gt = str_to_chars(">");
    match find_vec(b, &gt) {
        None => None,
        Some(e) => {
            proof {
                lemma_find_from_bounds(b@, gt@, 0);
            }
            assert(find_seq(b@, gt@) == Some(e as nat));
            assert(e + gt.len() <= b.len());
            if e > 0 && b[e - 1] == '/' {
                Some(e + 1)
            } else {
                let mut close = str_to_chars("</");
                let tag_chars = str_to_chars(tag);
                let ghost close0 = close@;
                let mut j: usize = 0;
                while j < tag_chars.len()
                    invariant
                        j <= tag_chars.len(),
                        close@ == close0 + tag_chars@.take(j as int),
                    decreases tag_chars.len() - j,
                {
                    close.push(tag_chars[j]);
                    j += 1;
                    assert(close@ =~= close0 + tag_chars@.take(j as int));
                }
                assert(tag_chars@.take(tag_chars.len() as int) =~= tag@);
                proof {
                    reveal_strlit(">");
                }
                close.push(gt[0]);
                assert(close@ =~= "</"@ + tag@ + ">"@);
                match find_vec(low, &close) {
                    Some(f) => {
                        proof {
                            lemma_find_from_bounds(low@, close@, 0);
                        }
                        assert(find_seq(low@, close@) == Some(f as nat));
                        assert(f + close.len() <= low.len());
                        Some(f + close.len())
                    },
                    None => None,
                }
            }
        },
    }
}

/// The exec form of [`HeadStep`].
enum Step {
    Take(usize, bool),
    NeedMore,
    Body,
}

spec fn step_is(s: Step, h: HeadStep) -> bool {
    match (s, h) {
        (Step::Take(n, k), HeadStep::Take(m, j)) => n == m && k == j,
        (Step::NeedMore, HeadStep::NeedMore) => true,
        (Step::Body, HeadStep::Body) => true,
        _ => false,
    }
}

/// Decides the head-level construct at the front of `b`: how many characters
/// it spans and whether it is kept in the head, that more input is needed, or
/// that the body starts here.
fn try_consume_head_tag(b: &Vec<char>) -> (r: Step)
    ensures
        step_is(r, consume_spec(b@)),
{
    let up = vec_to_ascii_uppercase(b);
    let low = vec_to_ascii_lowercase(b);
    let gt = through_exec(b, ">");
    let ghost upv = to_ascii_uppercase(b@);
    let ghost lowv = to_ascii_lowercase(b@);
    let ghost gtv = through(b@, ">"@);
    let ghost s12 = pick(fit_lit(b@, "<!--"@), through(b@, "-->"@), true, HeadStep::Body);
    let ghost s11 = pick(fit_tag(lowv, "<base"@), gtv, true, s12);
    let ghost s10 = pick(fit_tag(lowv, "<link"@), gtv, true, s11);
    let ghost s9 = pick(fit_tag(lowv, "<meta"@), gtv, true, s10);
    let ghost s8 = pick(fit_tag(lowv, "<style"@), paired_end(b@, lowv, "style"@), true, s9);
    let ghost s7 = pick(fit_tag(lowv, "<script"@), paired_end(b@, lowv, "script"@), true, s8);
    let ghost s6 = pick(fit_tag(lowv, "<title"@), paired_end(b@, lowv, "title"@), true, s7);
    let ghost s5 = pick(fit_lit(b@, "</head"@), gtv, false, s6);
    let ghost s4 = pick(fit_tag(b@, "<head"@), gtv, false, s5);
    let ghost s3 = pick(fit_lit(b@, "</html"@), gtv, false, s4);
    let ghost s2 = pick(fit_tag(b@, "<html"@), gtv, false, s3);
    proof {
        reveal(consume_spec);
    }
    assert(consume_spec(b@) == pick(fit_lit(upv, "<!DOCTYPE"@), gtv, false, s2));
    match fit_lit_exec(&up, "<!DOCTYPE") {
        Fit::Yes => return decide(gt, false),
        Fit::Maybe => return Step::NeedMore,
        Fit::No => {},
    }
    match fit_tag_exec(b, "<html") {
        Fit::Yes => return decide(gt, false),
        Fit::Maybe => return Step::NeedMore,
        Fit::No => {},
    }
    match fit_lit_exec(b, "</html") {
        Fit::Yes => return decide(gt, false),
        Fit::Maybe => return Step::NeedMore,
        Fit::No => {},
    }
    match fit_tag_exec(b, "<head") {
        Fit::Yes => return decide(gt, false),
        Fit::Maybe => return Step::NeedMore,
        Fit::No => {},
    }
    match fit_lit_exec(b, "</head") {
        Fit::Yes => return decide(gt, false),
        Fit::Maybe => return Step::NeedMore,
        Fit::No => {},
    }
    match fit_tag_exec(&low, "<title") {
        Fit::Yes => return decide(paired_end_exec(b, &low, "title"), true),
        Fit::Maybe => return Step::NeedMore,
        Fit::No => {},
    }
    match fit_tag_exec(&low, "<script") {
        Fit::Yes => return decide(paired_end_exec(b, &low, "script"), true),
        Fit::Maybe => return Step::NeedMore,
        Fit::No => {},
    }
    match fit_tag_exec(&low, "<style") {
        Fit::Yes => return decide(paired_end_exec(b, &low, "style"), true),
        Fit::Maybe => return Step::NeedMore,
        Fit::No => {},
    }
    match fit_tag_exec(&low, "<meta") {
        Fit::Yes => return decide(gt, true),
        Fit::Maybe => return Step::NeedMore,
        Fit::No => {},
    }
    match fit_tag_exec(&low, "<link") {
        Fit::Yes => return decide(gt, true),
        Fit::Maybe => return Step::NeedMore,
        Fit::No => {},
    }
    match fit_tag_exec(&low, "<base") {
        Fit::Yes => return decide(gt, true),
        Fit::Maybe => return Step::NeedMore,
        Fit::No => {},
    }
    match fit_lit_exec(b, "<!--") {
        Fit::Yes => decide(through_exec(b, "-->"), true),
        Fit::Maybe => Step::NeedMore,
        Fit::No => Step::Body,
    }
}

fn decide(end: Option<usize>, keep: bool) -> (r: Step)
    ensures
        match end {
            Some(n) => r == Step::Take(n, keep),
            None => r == Step::NeedMore,
        },
{
    match end {
        Some(n) => Step::Take(n, keep),
        None => Step::NeedMore,
    }
}

/// True when `v` holds a character that is not whitespace.
fn has_content_exec(v: &Vec<char>) -> (r: bool)
    ensures
        r == has_content(v@),
{
    let mut i: usize = 0;
    while i < v.len()
        invariant
            i <= v.len(),
            forall|k: int| 0 <= k < i ==> is_whitespace(#[trigger] v@[k]),
        decreases v.len() - i,
    {
        if !char_is_whitespace(v[i]) {
            return true;
        }
        i += 1;
    }
    false
}

impl HeadParser {
    pub fn new() -> (r: Self)
        ensures
            r@ == (HeadModel { buf: Seq::empty(), head_parts: Seq::empty(), body: None, is_html: None }),
    {
        let r = HeadParser { buf: Vec::new(), head_parts: Vec::new(), body_start: None, is_html: None };
        assert(r@ =~= (HeadModel { buf: Seq::empty(), head_parts: Seq::empty(), body: None, is_html: None }));
        r
    }

    /// Feed the next chunk of input. Returns `true` once the body has started
    /// (i.e. [`HeadParser::complete`] would return `true`).
    pub fn feed(&mut self, data: &str) -> (r: bool)
        ensures
            final(self)@ == feed_spec(old(self)@, data@),
            r == final(self)@.body is Some,
    {
        match self.body_start.take() {
            Some(mut b) => {
                b.append(data);
                self.body_start = Some(b);
                assert(self@ =~= feed_spec(old(self)@, data@));
                return true;
            },
            None => {},
        }
        push_str(&mut self.buf, data);
        assert(self@ =~= HeadModel { buf: old(self)@.buf + data@, ..old(self)@ });
        self.parse();
        self.body_start.is_some()
    }

    /// True once the first body character has been seen.
    pub fn complete(&self) -> (r: bool)
        ensures
            r == self@.body is Some,
    {
        self.body_start.is_some()
    }

    /// True if the input looks like HTML (first non-whitespace char is `<`).
    pub fn is_html(&self) -> (r: bool)
        ensures
            r == (self@.is_html == Some(true)),
    {
        match self.is_html {
            Some(h) => h,
            None => false,
        }
    }

    /// Inner content of `<head>` (stripped of structural tags like DOCTYPE,
    /// `<html>`, `<head>`).
    pub fn head(&self) -> (r: String)
        ensures
            r@ == join_lines(self@.head_parts),
    {
        let ghost parts = strings_view(self.head_parts@);
        let mut out: Vec<char> = Vec::new();
        let mut i: usize = 0;
        while i < self.head_parts.len()
            invariant
                i <= self.head_parts.len(),
                parts == strings_view(self.head_parts@),
                out@ == join_lines(parts.take(i as int)),
            decreases self.head_parts.len() - i,
        {
            let ghost before = out@;
            if i > 0 {
                push_str(&mut out, "\n");
            }
            push_str(&mut out, self.head_parts[i].as_str());
            proof {
                let t = parts.take(i + 1);
                assert(t.drop_last() =~= parts.take(i as int));
                assert(t.last() == self.head_parts@[i as int]@);
                if i == 0 {
                    assert(out@ =~= t[0]);
                } else {
                    assert(out@ =~= join_lines(t.drop_last()) + "\n"@ + t.last());
                }
            }
            i += 1;
        }
        assert(parts.take(self.head_parts.len() as int) =~= parts);
        chars_to_string(&out)
    }

    /// Input held back while a head construct is unfinished (or, before
    /// HTML-ness is decided, the whitespace seen so far).
    pub fn pending(&self) -> (r: String)
        ensures
            r@ == self@.buf,
    {
        chars_to_string(&self.buf)
    }

    /// Take and return all body content seen so far, leaving the body empty
    /// (the parser stays complete once the body has started).
    /// The caller is responsible for injecting a `<body>` wrapper if needed.
    pub fn take_body(&mut self) -> (r: String)
        ensures
            r@ == match old(self)@.body {
                Some(b) => b,
                None => Seq::empty(),
            },
            final(self)@ == (HeadModel {
                body: match old(self)@.body {
                    Some(_) => Some(Seq::empty()),
                    None => None,
                },
                ..old(self)@
            }),
    {
        let r = match self.body_start.take() {
            Some(b) => {
                self.body_start = Some(String::new());
                b
            },
            None => String::new(),
        };
        assert(self@ =~= (HeadModel {
            body: match old(self)@.body {
                Some(_) => Some(Seq::empty()),
                None => None,
            },
            ..old(self)@
        }));
        r
    }

    /// Peels head-level constructs off the front of the buffer.
    fn parse(&mut self)
        requires
            old(self)@.body is None,
        ensures
            final(self)@ == parse_spec(old(self)@),
    {
        loop
            invariant
                self@.body is None,
                parse_spec(old(self)@) == parse_spec(self@),
            decreases self.buf@.len(),
        {
            let ghost m = self@;
            if self.is_html.is_none() {
                let n = count_leading_ws(&self.buf);
                if n == self.buf.len() {
                    assert(trim_start(m.buf).len() == 0);
                    return;
                }
                assert(trim_start(m.buf)[0] == self.buf@[n as int]);
                self.is_html = Some(self.buf[n] == '<');
            }
            let ghost m1 = self@;
            assert(m1 =~= (if m.is_html is None {
                HeadModel { is_html: Some(trim_start(m.buf)[0] == '<'), ..m }
            } else {
                m
            }));
            let plain = match self.is_html {
                Some(h) => !h,
                None => false,
            };
            if plain {
                let body = chars_to_string(&self.buf);
                self.buf = Vec::new();
                self.body_start = Some(body);
                assert(self@ =~= HeadModel { buf: Seq::empty(), body: Some(m1.buf), ..m1 });
                return;
            }
            let n = count_leading_ws(&self.buf);
            proof {
                lemma_leading_ws_bound(m1.buf);
            }
            if n > 0 {
                self.buf = vec_skip(&self.buf, n);
            } else {
                assert(self.buf@.skip(0) =~= self.buf@);
            }
            let ghost b = trim_start(m1.buf);
            assert(self.buf@ == b);
            if self.buf.len() == 0 {
                assert(self@ =~= HeadModel { buf: b, ..m1 });
                return;
            }
            match try_consume_head_tag(&self.buf) {
                Step::Take(k, keep) if 0 < k && k <= self.buf.len() => {
                    let consumed = vec_take(&self.buf, k);
                    if keep && has_content_exec(&consumed) {
                        self.head_parts.push(chars_to_string(&consumed));
                    }
                    self.buf = vec_skip(&self.buf, k);
                    assert(self@ =~= HeadModel {
                        buf: b.skip(k as int),
                        head_parts: if keep && has_content(b.take(k as int)) {
                            m1.head_parts.push(b.take(k as int))
                        } else {
                            m1.head_parts
                        },
                        ..m1
                    });
                    assert(!(m.is_html is None && trim_start(m.buf).len() == 0));
                    assert(m1.is_html != Some(false));
                    assert(parse_spec(m) == parse_spec(self@));
                },
                Step::NeedMore => {
                    assert(self@ =~= HeadModel { buf: b, ..m1 });
                    return;
                },
                _ => {
                    let body = chars_to_string(&self.buf);
                    self.buf = Vec::new();
                    self.body_start = Some(body);
                    assert(self@ =~= HeadModel { buf: Seq::empty(), body: Some(b), ..m1 });
                    return;
                },
            }
        }
    }
}


// ── TextFilter ──────────────────────────────────────────────────────────────

/// What one call of [`TextFilter::filter`] returns: the escaped chunk, after
/// an opening `<pre>` on the first call.
pub open spec fn filter_step(opened: bool, chunk: Seq<char>) -> Seq<char> {
    if opened {
        escape_text(chunk)
    } else {
        "<pre>"@ + escape_text(chunk)
    }
}

/// What [`TextFilter::finish`] returns.
pub open spec fn finish_spec(opened: bool) -> Seq<char> {
    if opened {
        "</pre>"@
    } else {
        ""@
    }
}

/// Wraps plain-text chunks in `<pre>` / `</pre>` HTML.
///
/// Produces the opening `<pre>` on the first chunk and `</pre>` only when
/// [`TextFilter::finish`] is called.
pub struct TextFilter {
    opened: bool,
}

impl View for TextFilter {
    /// Whether `<pre>` has been produced.
    type V = bool;

    closed spec fn view(&self) -> bool {
        self.opened
    }
}

impl TextFilter {
    pub fn new() -> (r: Self)
        ensures
            !r@,
    {
        TextFilter { opened: false }
    }

    /// Convert a plain-text chunk to HTML. HTML-escapes entities.
    pub fn filter(&mut self, chunk: &str) -> (r: String)
        ensures
            r@ == filter_step(old(self)@, chunk@),
            final(self)@,
    {
        let escaped = encode_text(chunk);
        if !self.opened {
            self.opened = true;
            String::from_str("<pre>").concat(escaped.as_str())
        } else {
            escaped
        }
    }

    /// Returns the closing `</pre>` tag (call once at end of stream).
    pub fn finish(&self) -> (r: &'static str)
        ensures
            r@ == finish_spec(self@),
    {
        if self.opened {
            "</pre>"
        } else {
            ""
        }
    }
}

impl Default for TextFilter {
    fn default() -> (r: Self)
        ensures
            !r@,
    {
        Self::new()
    }
}


// ── Laws ────────────────────────────────────────────────────────────────────

/// The chunks written one after another.
pub open spec fn concat_all(chunks: Seq<Seq<char>>) -> Seq<char>
    decreases chunks.len(),
{
    if chunks.len() == 0 {
        Seq::empty()
    } else {
        concat_all(chunks.drop_last()) + chunks.last()
    }
}

/// What successive `filter` calls on a new `TextFilter` return, together.
pub open spec fn filter_all(chunks: Seq<Seq<char>>) -> Seq<char>
    decreases chunks.len(),
{
    if chunks.len() == 0 {
        Seq::empty()
    } else {
        filter_all(chunks.drop_last()) + filter_step(chunks.len() > 1, chunks.last())
    }
}

/// A new `TextFilter` fed chunks and then finished produces the escaped
/// concatenation of the chunks inside one `<pre>` element.
pub proof fn law_text_filter_wraps(chunks: Seq<Seq<char>>)
    requires
        chunks.len() > 0,
    ensures
        filter_all(chunks) + finish_spec(true) == "<pre>"@ + escape_text(concat_all(chunks)) + "</pre>"@,
    decreases chunks.len(),
{
    lemma_filter_all(chunks);
}

proof fn lemma_filter_all(chunks: Seq<Seq<char>>)
    requires
        chunks.len() > 0,
    ensures
        filter_all(chunks) == "<pre>"@ + escape_text(concat_all(chunks)),
    decreases chunks.len(),
{
    let front = chunks.drop_last();
    if chunks.len() == 1 {
        assert(front.len() == 0);
        assert(filter_all(front) == Seq::<char>::empty());
        assert(concat_all(front) == Seq::<char>::empty());
        assert(concat_all(chunks) =~= chunks.last());
        assert(filter_all(chunks) =~= "<pre>"@ + escape_text(concat_all(chunks)));
    } else {
        lemma_filter_all(front);
        lemma_escape_concat(concat_all(front), chunks.last());
        assert(filter_all(chunks) =~= "<pre>"@ + escape_text(concat_all(chunks)));
    }
}

/// Successive `filter` calls on a filter in state `opened`: the final state
/// and what the calls returned, joined.
pub open spec fn filter_run(opened: bool, chunks: Seq<Seq<char>>) -> (bool, Seq<char>)
    decreases chunks.len(),
{
    if chunks.len() == 0 {
        (opened, Seq::empty())
    } else {
        let (o1, out) = filter_run(opened, chunks.drop_last());
        (true, out + filter_step(o1, chunks.last()))
    }
}

/// A new `TextFilter` opens `<pre>` exactly once, however the text is
/// chunked: after `n >= 1` calls everything returned is `<pre>` and the
/// escaped text, and `finish` gives `</pre>`; after none, `finish` gives
/// nothing.
pub proof fn law_text_filter_calls(chunks: Seq<Seq<char>>)
    ensures
        ({
            let (opened, out) = filter_run(false, chunks);
            &&& opened == (chunks.len() > 0)
            &&& chunks.len() > 0 ==> out == "<pre>"@ + escape_text(concat_all(chunks))
            &&& finish_spec(opened) == if chunks.len() > 0 { "</pre>"@ } else { ""@ }
        }),
    decreases chunks.len(),
{
    if chunks.len() > 0 {
        let front = chunks.drop_last();
        law_text_filter_calls(front);
        let (o1, out1) = filter_run(false, front);
        if front.len() == 0 {
            assert(concat_all(front) =~= Seq::<char>::empty());
            assert(concat_all(chunks) =~= chunks.last());
            assert(out1 + filter_step(o1, chunks.last()) =~= "<pre>"@ + escape_text(concat_all(chunks)));
        } else {
            lemma_escape_concat(concat_all(front), chunks.last());
            assert(out1 + filter_step(o1, chunks.last()) =~= "<pre>"@ + escape_text(concat_all(chunks)));
        }
    }
}

pub open spec fn fresh_model() -> HeadModel {
    HeadModel { buf: Seq::empty(), head_parts: Seq::empty(), body: None, is_html: None }
}

/// A parser fed the chunks in turn.
pub open spec fn feed_all(m: HeadModel, chunks: Seq<Seq<char>>) -> HeadModel
    decreases chunks.len(),
{
    if chunks.len() == 0 {
        m
    } else {
        feed_spec(feed_all(m, chunks.drop_last()), chunks.last())
    }
}

pub open spec fn is_suffix(x: Seq<char>, t: Seq<char>) -> bool {
    x.len() <= t.len() && t.skip(t.len() - x.len()) == x
}

proof fn lemma_suffix_skip(x: Seq<char>, t: Seq<char>, n: int)
    requires
        is_suffix(x, t),
        0 <= n <= x.len(),
    ensures
        is_suffix(x.skip(n), t),
{
    assert(t.skip(t.len() - x.skip(n).len()) =~= x.skip(n));
}

proof fn lemma_suffix_append(x: Seq<char>, t: Seq<char>, d: Seq<char>)
    requires
        is_suffix(x, t),
    ensures
        is_suffix(x + d, t + d),
{
    assert((t + d).skip((t + d).len() - (x + d).len()) =~= x + d);
}

/// What the parser holds is always a suffix of its input.
pub open spec fn holds_suffix(m: HeadModel, t: Seq<char>) -> bool {
    match m.body {
        Some(b) => is_suffix(b, t),
        None => is_suffix(m.buf, t),
    }
}

proof fn lemma_parse_suffix(m: HeadModel, t: Seq<char>)
    requires
        m.body is None,
        is_suffix(m.buf, t),
    ensures
        holds_suffix(parse_spec(m), t),
        m.is_html is Some ==> parse_spec(m).is_html == m.is_html,
    decreases m.buf.len(),
{
    lemma_leading_ws_bound(m.buf);
    lemma_suffix_skip(m.buf, t, leading_ws(m.buf) as int);
    if m.is_html is None && trim_start(m.buf).len() == 0 {
    } else {
        let m1 = if m.is_html is None {
            HeadModel { is_html: Some(trim_start(m.buf)[0] == '<'), ..m }
        } else {
            m
        };
        if m1.is_html == Some(false) {
        } else {
            let b = trim_start(m1.buf);
            if b.len() > 0 {
                match consume_spec(b) {
                    HeadStep::Take(n, keep) => if 0 < n <= b.len() {
                        lemma_suffix_skip(b, t, n as int);
                        let parts = if keep && has_content(b.take(n as int)) {
                            m1.head_parts.push(b.take(n as int))
                        } else {
                            m1.head_parts
                        };
                        lemma_parse_suffix(HeadModel { buf: b.skip(n as int), head_parts: parts, ..m1 }, t);
                    },
                    _ => {},
                }
            }
        }
    }
}

/// Parsing with HTML-ness undecided and only whitespace buffered changes
/// nothing; with something else buffered it decides HTML-ness by the first
/// non-whitespace character and, for plain text, makes all of it the body.
proof fn lemma_parse_undecided(m: HeadModel)
    requires
        m.body is None,
        m.is_html is None,
    ensures
        trim_start(m.buf).len() == 0 ==> parse_spec(m) == m,
        trim_start(m.buf).len() > 0 ==> parse_spec(m).is_html == Some(trim_start(m.buf)[0] == '<'),
        trim_start(m.buf).len() > 0 && trim_start(m.buf)[0] != '<' ==> parse_spec(m).body == Some(m.buf),
{
    if trim_start(m.buf).len() > 0 {
        let m1 = HeadModel { is_html: Some(trim_start(m.buf)[0] == '<'), ..m };
        if trim_start(m.buf)[0] != '<' {
        } else {
            assert(m.buf.skip(0) =~= m.buf);
            lemma_parse_suffix(HeadModel { is_html: Some(true), ..m }, m.buf);
            assert(parse_spec(m) == parse_spec(m1));
        }
    }
}

proof fn lemma_leading_ws_concat(a: Seq<char>, b: Seq<char>)
    ensures
        leading_ws(a) < a.len() ==> leading_ws(a + b) == leading_ws(a),
        leading_ws(a) == a.len() ==> leading_ws(a + b) == a.len() + leading_ws(b),
    decreases a.len(),
{
    lemma_leading_ws_bound(a);
    if a.len() > 0 {
        assert((a + b).drop_first() =~= a.drop_first() + b);
        assert((a + b)[0] == a[0]);
        lemma_leading_ws_concat(a.drop_first(), b);
    } else {
        assert(a + b =~= b);
    }
}

/// The first non-whitespace character of `t`, when there is one.
pub open spec fn first_content(t: Seq<char>) -> Option<char> {
    if trim_start(t).len() > 0 {
        Some(trim_start(t)[0])
    } else {
        None
    }
}

proof fn lemma_first_content_concat(a: Seq<char>, b: Seq<char>)
    ensures
        first_content(a) is Some ==> first_content(a + b) == first_content(a),
        first_content(a) is None ==> first_content(a + b) == first_content(b),
{
    lemma_leading_ws_concat(a, b);
    lemma_leading_ws_bound(a);
    lemma_leading_ws_bound(b);
    if first_content(a) is Some {
        assert(trim_start(a + b)[0] == (a + b)[leading_ws(a) as int]);
    } else {
        if trim_start(b).len() > 0 {
            assert(trim_start(a + b)[0] == (a + b)[(a.len() + leading_ws(b)) as int]);
        }
    }
}

/// How a `HeadParser` treats its input, over any sequence of chunks fed to a
/// new parser, with `t` their concatenation: until `t` holds a
/// non-whitespace character nothing is decided and all of `t` is buffered;
/// then the input is HTML exactly when that character is `<`; plain text
/// makes all of `t` the body; and whatever the parser holds (buffer or body)
/// is a suffix of `t`.
pub proof fn law_head_parser_detection(chunks: Seq<Seq<char>>)
    ensures
        ({
            let t = concat_all(chunks);
            let m = feed_all(fresh_model(), chunks);
            &&& first_content(t) is None ==> m == HeadModel { buf: t, ..fresh_model() }
            &&& first_content(t) matches Some(c) ==> m.is_html == Some(c == '<')
            &&& m.is_html == Some(false) ==> m.body == Some(t)
            &&& holds_suffix(m, t)
        }),
    decreases chunks.len(),
{
    let t = concat_all(chunks);
    let m = feed_all(fresh_model(), chunks);
    if chunks.len() == 0 {
        assert(t =~= Seq::<char>::empty());
        assert(leading_ws(t) == 0);
        assert(fresh_model() =~= HeadModel { buf: t, ..fresh_model() });
        assert(t.skip(0) =~= t);
    } else {
        let front = chunks.drop_last();
        let d = chunks.last();
        law_head_parser_detection(front);
        let t0 = concat_all(front);
        let m0 = feed_all(fresh_model(), front);
        assert(t == t0 + d);
        lemma_first_content_concat(t0, d);
        match m0.body {
            Some(b) => {
                lemma_suffix_append(b, t0, d);
            },
            None => {
                let mb = HeadModel { buf: m0.buf + d, ..m0 };
                lemma_suffix_append(m0.buf, t0, d);
                lemma_parse_suffix(mb, t);
                if m0.is_html is None {
                    // Still undecided: everything so far is buffered.
                    assert(first_content(t0) is None);
                    assert(m0.buf == t0);
                    assert(mb.buf == t);
                    lemma_parse_undecided(mb);
                    if first_content(t) is None {
                        assert(mb =~= HeadModel { buf: t, ..fresh_model() });
                    }
                }
            },
        }
    }
}


/// A kept head part begins with a head-content tag: `open` (`<` and a tag
/// name, in any case), then whitespace, `>` or `/`.
pub open spec fn opens_tag(p: Seq<char>, open: Seq<char>) -> bool {
    starts_with(to_ascii_lowercase(p), open) && tag_boundary(p.skip(open.len() as int))
}

/// What may stand in the head: a head-content tag or a comment, never a
/// doctype.
pub open spec fn is_head_content(p: Seq<char>) -> bool {
    &&& !starts_with(to_ascii_uppercase(p), "<!DOCTYPE"@)
    &&& {
        ||| opens_tag(p, "<title"@)
        ||| opens_tag(p, "<script"@)
        ||| opens_tag(p, "<style"@)
        ||| opens_tag(p, "<meta"@)
        ||| opens_tag(p, "<link"@)
        ||| opens_tag(p, "<base"@)
        ||| starts_with(p, "<!--"@)
    }
}

pub open spec fn parts_ok(parts: Seq<Seq<char>>) -> bool {
    forall|i: int| 0 <= i < parts.len() ==> is_head_content(#[trigger] parts[i]) && has_content(parts[i])
}

/// A tag opening: `<` and a lower-case tag name.
pub open spec fn is_opening(open: Seq<char>) -> bool {
    open.len() >= 2 && open[0] == '<' && forall|k: int| 1 <= k < open.len() ==> 'a' <= #[trigger] open[k] && open[k] <= 'z'
}

/// Behind a tag opening at the front of `b`, the first `>` comes after the
/// tag name.
proof fn lemma_gt_after_open(b: Seq<char>, open: Seq<char>)
    requires
        is_opening(open),
        fit_tag(to_ascii_lowercase(b), open) == Fit::Yes,
    ensures
        find_seq(b, ">"@) matches Some(e) ==> e >= open.len(),
        b.len() > open.len(),
{
    reveal_strlit(">");
    let low = to_ascii_lowercase(b);
    lemma_find_from_bounds(b, ">"@, 0);
    if let Some(e) = find_seq(b, ">"@) {
        assert(b.subrange(e as int, e + 1int)[0] == '>');
        if e < open.len() {
            assert(low.take(open.len() as int)[e as int] == open[e as int]);
            assert(low[e as int] == ascii_lower(b[e as int]));
        }
    }
}

/// A closing tag behind a tag opening at the front of `b` comes after the
/// opening and the character that ends its name.
proof fn lemma_close_after_open(b: Seq<char>, open: Seq<char>, close: Seq<char>)
    requires
        is_opening(open),
        fit_tag(to_ascii_lowercase(b), open) == Fit::Yes,
        close.len() >= 2,
        close[0] == '<',
        close[1] == '/',
    ensures
        find_seq(to_ascii_lowercase(b), close) matches Some(f) ==> f >= open.len() + 1,
{
    let low = to_ascii_lowercase(b);
    lemma_find_from_bounds(low, close, 0);
    if let Some(f) = find_seq(low, close) {
        assert(low.subrange(f as int, f + close.len() as int)[0] == '<');
        assert(low.subrange(f as int, f + close.len() as int)[1] == '/');
        assert(low[f as int] == '<');
        assert(low[f + 1int] == '/');
        if f < open.len() {
            assert(low.take(open.len() as int)[f as int] == open[f as int]);
            if f == 0 {
                assert(low.take(open.len() as int)[1] == open[1]);
            }
        }
        if f == open.len() {
            assert(low.skip(open.len() as int)[0] == low[f as int]);
            assert(low[f as int] == ascii_lower(b[f as int]));
        }
    }
}

/// A prefix of `b` that covers a tag opening and the character after its
/// name still opens the tag; its second character is a letter.
proof fn lemma_prefix_opens(b: Seq<char>, open: Seq<char>, n: int)
    requires
        is_opening(open),
        fit_tag(to_ascii_lowercase(b), open) == Fit::Yes,
        open.len() + 1 <= n <= b.len(),
    ensures
        opens_tag(b.take(n), open),
        b.take(n)[1] != '!',
{
    let p = b.take(n);
    let low = to_ascii_lowercase(b);
    assert(to_ascii_lowercase(p) =~= low.take(n));
    assert(to_ascii_lowercase(p).take(open.len() as int) =~= low.take(open.len() as int));
    assert(low.skip(open.len() as int)[0] == low[open.len() as int]);
    assert(low[open.len() as int] == ascii_lower(b[open.len() as int]));
    assert(p.skip(open.len() as int)[0] == b[open.len() as int]);
    assert(low.take(open.len() as int)[1] == open[1]);
    assert(low[1] == ascii_lower(b[1]));
}

proof fn lemma_paired_kept(b: Seq<char>, open: Seq<char>, tag: Seq<char>, n: nat)
    requires
        is_opening(open),
        fit_tag(to_ascii_lowercase(b), open) == Fit::Yes,
        paired_end(b, to_ascii_lowercase(b), tag) == Some(n),
        n <= b.len(),
    ensures
        opens_tag(b.take(n as int), open),
        b.take(n as int)[1] != '!',
{
    reveal_strlit("</");
    reveal_strlit(">");
    lemma_gt_after_open(b, open);
    let close = "</"@ + tag + ">"@;
    assert(close[0] == '<' && close[1] == '/');
    lemma_close_after_open(b, open, close);
    lemma_prefix_opens(b, open, n as int);
}

proof fn lemma_void_kept(b: Seq<char>, open: Seq<char>, n: nat)
    requires
        is_opening(open),
        fit_tag(to_ascii_lowercase(b), open) == Fit::Yes,
        through(b, ">"@) == Some(n),
        n <= b.len(),
    ensures
        opens_tag(b.take(n as int), open),
        b.take(n as int)[1] != '!',
{
    reveal_strlit(">");
    lemma_gt_after_open(b, open);
    lemma_prefix_opens(b, open, n as int);
}

/// A part the parser keeps is head content.
proof fn lemma_kept_part(b: Seq<char>, n: nat)
    requires
        consume_spec(b) == HeadStep::Take(n, true),
        0 < n <= b.len(),
    ensures
        is_head_content(b.take(n as int)),
{
    reveal(consume_spec);
    let p = b.take(n as int);
    let up = to_ascii_uppercase(b);
    let low = to_ascii_lowercase(b);
    let gt = through(b, ">"@);
    reveal_strlit("<!DOCTYPE");
    reveal_strlit("<!--");
    reveal_strlit("-->");
    reveal_strlit("<title");
    reveal_strlit("<script");
    reveal_strlit("<style");
    reveal_strlit("<meta");
    reveal_strlit("<link");
    reveal_strlit("<base");
    assert(is_opening("<title"@));
    assert(is_opening("<script"@));
    assert(is_opening("<style"@));
    assert(is_opening("<meta"@));
    assert(is_opening("<link"@));
    assert(is_opening("<base"@));
    assert(fit_lit(up, "<!DOCTYPE"@) == Fit::No);
    assert(fit_tag(b, "<html"@) == Fit::No);
    assert(fit_lit(b, "</html"@) == Fit::No);
    assert(fit_tag(b, "<head"@) == Fit::No);
    assert(fit_lit(b, "</head"@) == Fit::No);
    if fit_tag(low, "<title"@) == Fit::Yes {
        lemma_paired_kept(b, "<title"@, "title"@, n);
    } else if fit_tag(low, "<script"@) == Fit::Yes {
        lemma_paired_kept(b, "<script"@, "script"@, n);
    } else if fit_tag(low, "<style"@) == Fit::Yes {
        lemma_paired_kept(b, "<style"@, "style"@, n);
    } else if fit_tag(low, "<meta"@) == Fit::Yes {
        lemma_void_kept(b, "<meta"@, n);
    } else if fit_tag(low, "<link"@) == Fit::Yes {
        lemma_void_kept(b, "<link"@, n);
    } else if fit_tag(low, "<base"@) == Fit::Yes {
        lemma_void_kept(b, "<base"@, n);
    } else {
        assert(fit_lit(b, "<!--"@) == Fit::Yes);
        lemma_find_from_bounds(b, "-->"@, 0);
        let e = find_seq(b, "-->"@)->0;
        assert(b.subrange(e as int, e + 3int)[0] == '-');
        assert(b.take(4)[1] == '!');
        assert(b.take(4)[0] == '<');
        assert(e >= 2);
        assert(p.take(4) =~= b.take(4));
    }
    assert(!starts_with(to_ascii_uppercase(p), "<!DOCTYPE"@)) by {
        if starts_with(to_ascii_uppercase(p), "<!DOCTYPE"@) {
            assert(to_ascii_uppercase(p) =~= up.take(n as int));
            assert(up.take(9) =~= to_ascii_uppercase(p).take(9));
        }
    }
}

proof fn lemma_parse_parts(m: HeadModel)
    requires
        m.body is None,
        parts_ok(m.head_parts),
    ensures
        parts_ok(parse_spec(m).head_parts),
    decreases m.buf.len(),
{
    lemma_leading_ws_bound(m.buf);
    if m.is_html is None && trim_start(m.buf).len() == 0 {
    } else {
        let m1 = if m.is_html is None {
            HeadModel { is_html: Some(trim_start(m.buf)[0] == '<'), ..m }
        } else {
            m
        };
        if m1.is_html == Some(false) {
        } else {
            let b = trim_start(m1.buf);
            if b.len() > 0 {
                match consume_spec(b) {
                    HeadStep::Take(n, keep) => if 0 < n <= b.len() {
                        let parts = if keep && has_content(b.take(n as int)) {
                            m1.head_parts.push(b.take(n as int))
                        } else {
                            m1.head_parts
                        };
                        if keep && has_content(b.take(n as int)) {
                            lemma_kept_part(b, n);
                            assert forall|i: int| 0 <= i < parts.len() implies is_head_content(#[trigger] parts[i]) && has_content(parts[i]) by {
                                if i < m1.head_parts.len() {
                                    assert(parts[i] == m1.head_parts[i]);
                                }
                            }
                        }
                        lemma_parse_parts(HeadModel { buf: b.skip(n as int), head_parts: parts, ..m1 });
                    },
                    _ => {},
                }
            }
        }
    }
}

/// The head holds only head content: whatever chunks a new parser is fed,
/// every part it keeps for the head is non-blank and begins with a
/// head-content tag (`title`, `script`, `style`, `meta`, `link`, `base`) or a
/// comment; structural tags (doctype, `<html>`, `<head>`) are dropped.
pub proof fn law_head_holds_content(chunks: Seq<Seq<char>>)
    ensures
        parts_ok(feed_all(fresh_model(), chunks).head_parts),
    decreases chunks.len(),
{
    if chunks.len() > 0 {
        law_head_holds_content(chunks.drop_last());
        let m0 = feed_all(fresh_model(), chunks.drop_last());
        match m0.body {
            Some(b) => {},
            None => {
                lemma_parse_parts(HeadModel { buf: m0.buf + chunks.last(), ..m0 });
            },
        }
    }
}


// ── Where chunk boundaries fall ─────────────────────────────────────────────

proof fn lemma_case_concat(x: Seq<char>, y: Seq<char>)
    ensures
        to_ascii_uppercase(x + y) == to_ascii_uppercase(x) + to_ascii_uppercase(y),
        to_ascii_lowercase(x + y) == to_ascii_lowercase(x) + to_ascii_lowercase(y),
{
    assert(to_ascii_uppercase(x + y) =~= to_ascii_uppercase(x) + to_ascii_uppercase(y));
    assert(to_ascii_lowercase(x + y) =~= to_ascii_lowercase(x) + to_ascii_lowercase(y));
}

proof fn lemma_find_from_mono(s: Seq<char>, y: Seq<char>, p: Seq<char>, i: int)
    ensures
        find_from(s, p, i) matches Some(e) ==> find_from(s + y, p, i) == Some(e),
    decreases s.len() + 1 - i,
{
    if !(i < 0 || i + p.len() > s.len()) {
        assert((s + y).subrange(i, i + p.len()) =~= s.subrange(i, i + p.len()));
        if !occurs_at(s, p, i) {
            lemma_find_from_mono(s, y, p, i + 1);
        }
    }
}

proof fn lemma_find_mono(s: Seq<char>, y: Seq<char>, p: Seq<char>)
    ensures
        find_seq(s, p) matches Some(e) ==> find_seq(s + y, p) == Some(e),
        through(s, p) matches Some(n) ==> through(s + y, p) == Some(n),
{
    lemma_find_from_mono(s, y, p, 0);
}

proof fn lemma_fit_lit_mono(x: Seq<char>, y: Seq<char>, p: Seq<char>)
    ensures
        fit_lit(x, p) != Fit::Maybe ==> fit_lit(x + y, p) == fit_lit(x, p),
{
    if fit_lit(x, p) == Fit::Yes {
        assert((x + y).take(p.len() as int) =~= x.take(p.len() as int));
    } else if fit_lit(x, p) == Fit::No {
        // A mismatch within both lengths stays a mismatch.
        let k = choose|k: int| 0 <= k < x.len() && k < p.len() && x[k] != p[k];
        assert(exists|k: int| 0 <= k < x.len() && k < p.len() && x[k] != p[k]) by {
            if x.len() <= p.len() {
                assert(p.take(x.len() as int) != x);
                let k = choose|k: int| 0 <= k < x.len() && p.take(x.len() as int)[k] != x[k];
                assert(exists|k: int| 0 <= k < x.len() && p.take(x.len() as int)[k] != x[k]) by {
                    if forall|k: int| 0 <= k < x.len() ==> p.take(x.len() as int)[k] == x[k] {
                        assert(p.take(x.len() as int) =~= x);
                    }
                }
                assert(p[k] != x[k]);
            } else {
                assert(x.take(p.len() as int) != p);
                assert(exists|k: int| 0 <= k < p.len() && x.take(p.len() as int)[k] != p[k]) by {
                    if forall|k: int| 0 <= k < p.len() ==> x.take(p.len() as int)[k] == p[k] {
                        assert(x.take(p.len() as int) =~= p);
                    }
                }
                let k = choose|k: int| 0 <= k < p.len() && x.take(p.len() as int)[k] != p[k];
                assert(x[k] != p[k]);
            }
        }
        assert((x + y)[k] == x[k]);
        if starts_with(x + y, p) {
            assert((x + y).take(p.len() as int)[k] == p[k]);
        }
        if starts_with(p, x + y) {
            assert(p.take((x + y).len() as int)[k] == (x + y)[k]);
        }
    }
}

proof fn lemma_fit_tag_mono(x: Seq<char>, y: Seq<char>, p: Seq<char>)
    ensures
        fit_tag(x, p) != Fit::Maybe ==> fit_tag(x + y, p) == fit_tag(x, p),
{
    if x.len() > p.len() {
        assert((x + y).take(p.len() as int) =~= x.take(p.len() as int));
        assert((x + y).skip(p.len() as int)[0] == x.skip(p.len() as int)[0]);
    } else if !starts_with(p, x) {
        assert(exists|k: int| 0 <= k < x.len() && p.take(x.len() as int)[k] != x[k]) by {
            if forall|k: int| 0 <= k < x.len() ==> p.take(x.len() as int)[k] == x[k] {
                assert(p.take(x.len() as int) =~= x);
            }
        }
        let k = choose|k: int| 0 <= k < x.len() && p.take(x.len() as int)[k] != x[k];
        assert(p[k] != x[k]);
        assert((x + y)[k] == x[k]);
        if starts_with(x + y, p) {
            assert((x + y).take(p.len() as int)[k] == p[k]);
        }
        if starts_with(p, x + y) {
            assert(p.take((x + y).len() as int)[k] == (x + y)[k]);
        }
    }
}

proof fn lemma_paired_end_mono(b: Seq<char>, y: Seq<char>, tag: Seq<char>)
    ensures
        paired_end(b, to_ascii_lowercase(b), tag) matches Some(n)
            ==> paired_end(b + y, to_ascii_lowercase(b + y), tag) == Some(n),
{
    lemma_case_concat(b, y);
    lemma_find_mono(b, ">"@, y);
    lemma_find_mono(b, y, ">"@);
    lemma_find_from_bounds(b, ">"@, 0);
    lemma_find_mono(to_ascii_lowercase(b), to_ascii_lowercase(y), "</"@ + tag + ">"@);
    if let Some(e) = find_seq(b, ">"@) {
        if e > 0 {
            assert((b + y)[e - 1] == b[e - 1]);
        }
    }
}

/// Once the front of a buffer is decided (a construct of known length, or
/// the body), more input does not change the decision.
proof fn lemma_consume_mono(b: Seq<char>, y: Seq<char>)
    requires
        !(consume_spec(b) is NeedMore),
    ensures
        consume_spec(b + y) == consume_spec(b),
{
    reveal(consume_spec);
    lemma_case_concat(b, y);
    let up = to_ascii_uppercase(b);
    let low = to_ascii_lowercase(b);
    lemma_fit_lit_mono(up, to_ascii_uppercase(y), "<!DOCTYPE"@);
    lemma_fit_tag_mono(b, y, "<html"@);
    lemma_fit_lit_mono(b, y, "</html"@);
    lemma_fit_tag_mono(b, y, "<head"@);
    lemma_fit_lit_mono(b, y, "</head"@);
    lemma_fit_tag_mono(low, to_ascii_lowercase(y), "<title"@);
    lemma_fit_tag_mono(low, to_ascii_lowercase(y), "<script"@);
    lemma_fit_tag_mono(low, to_ascii_lowercase(y), "<style"@);
    lemma_fit_tag_mono(low, to_ascii_lowercase(y), "<meta"@);
    lemma_fit_tag_mono(low, to_ascii_lowercase(y), "<link"@);
    lemma_fit_tag_mono(low, to_ascii_lowercase(y), "<base"@);
    lemma_fit_lit_mono(b, y, "<!--"@);
    lemma_find_mono(b, y, ">"@);
    lemma_find_mono(b, y, "-->"@);
    lemma_paired_end_mono(b, y, "title"@);
    lemma_paired_end_mono(b, y, "script"@);
    lemma_paired_end_mono(b, y, "style"@);
}

/// A construct spans at least one character and at most the buffer.
proof fn lemma_take_bounds(b: Seq<char>)
    ensures
        consume_spec(b) matches HeadStep::Take(n, _) ==> 0 < n <= b.len(),
{
    reveal(consume_spec);
    reveal_strlit(">");
    reveal_strlit("-->");
    reveal_strlit("</");
    let low = to_ascii_lowercase(b);
    lemma_find_from_bounds(b, ">"@, 0);
    lemma_find_from_bounds(b, "-->"@, 0);
    lemma_find_from_bounds(low, "</"@ + "title"@ + ">"@, 0);
    lemma_find_from_bounds(low, "</"@ + "script"@ + ">"@, 0);
    lemma_find_from_bounds(low, "</"@ + "style"@ + ">"@, 0);
}

proof fn lemma_leading_ws_stops(s: Seq<char>)
    ensures
        leading_ws(s) < s.len() ==> !is_whitespace(s[leading_ws(s) as int]),
    decreases s.len(),
{
    if s.len() > 0 && is_whitespace(s[0]) {
        lemma_leading_ws_stops(s.drop_first());
        lemma_leading_ws_bound(s.drop_first());
        if leading_ws(s) < s.len() {
            assert(s.drop_first()[leading_ws(s.drop_first()) as int] == s[leading_ws(s) as int]);
        }
    }
}

/// Trimming twice is trimming once.
proof fn lemma_trim_idem(s: Seq<char>)
    ensures
        trim_start(trim_start(s)) == trim_start(s),
{
    let t = trim_start(s);
    lemma_leading_ws_bound(s);
    lemma_leading_ws_stops(s);
    if t.len() > 0 {
        assert(t[0] == s[leading_ws(s) as int]);
    }
    assert(leading_ws(t) == 0);
    assert(t.skip(0) =~= t);
}

proof fn lemma_trim_concat(x: Seq<char>, y: Seq<char>)
    ensures
        trim_start(x).len() > 0 ==> trim_start(x + y) == trim_start(x) + y,
        trim_start(x).len() == 0 ==> trim_start(x + y) == trim_start(y),
{
    lemma_leading_ws_concat(x, y);
    lemma_leading_ws_bound(x);
    lemma_leading_ws_bound(y);
    assert(trim_start(x).len() > 0 ==> (x + y).skip(leading_ws(x) as int) =~= x.skip(leading_ws(x) as int) + y);
    assert(trim_start(x).len() == 0 ==> (x + y).skip((x.len() + leading_ws(y)) as int) =~= y.skip(leading_ws(y) as int));
}

/// A decided HTML parser looks only at its buffer without the leading
/// whitespace.
proof fn lemma_parse_trim(m: HeadModel)
    requires
        m.body is None,
        m.is_html == Some(true),
    ensures
        parse_spec(m) == parse_spec(HeadModel { buf: trim_start(m.buf), ..m }),
{
    lemma_trim_idem(m.buf);
}

/// For a decided HTML parser: parsing, then appending `y`, is parsing with
/// `y` appended.
proof fn lemma_feed_after_parse_html(m1: HeadModel, y: Seq<char>)
    requires
        m1.body is None,
        m1.is_html == Some(true),
    ensures
        feed_spec(parse_spec(m1), y) == parse_spec(HeadModel { buf: m1.buf + y, ..m1 }),
    decreases m1.buf.len(),
{
    let m1y = HeadModel { buf: m1.buf + y, ..m1 };
    let b = trim_start(m1.buf);
    lemma_leading_ws_bound(m1.buf);
    lemma_trim_concat(m1.buf, y);
    lemma_parse_trim(m1y);
    if b.len() == 0 {
        // Only whitespace was buffered.
        let m2 = HeadModel { buf: b, ..m1 };
        assert(parse_spec(m1) == m2);
        assert(m2.buf + y =~= y);
        lemma_parse_trim(HeadModel { buf: m2.buf + y, ..m2 });
        assert(HeadModel { buf: trim_start(m2.buf + y), ..m2 } == HeadModel { buf: trim_start(m1y.buf), ..m1y });
    } else {
        assert(trim_start(m1y.buf) == b + y);
        lemma_trim_idem(m1.buf);
        lemma_leading_ws_stops(m1.buf);
        lemma_trim_concat(b, y);
        let mb = HeadModel { buf: b + y, ..m1 };
        assert(parse_spec(m1y) == parse_spec(mb));
        match consume_spec(b) {
            HeadStep::Take(n, keep) => {
                lemma_consume_mono(b, y);
                lemma_take_bounds(b);
                if 0 < n <= b.len() {
                    let parts = if keep && has_content(b.take(n as int)) {
                        m1.head_parts.push(b.take(n as int))
                    } else {
                        m1.head_parts
                    };
                    let m2 = HeadModel { buf: b.skip(n as int), head_parts: parts, ..m1 };
                    assert(parse_spec(m1) == parse_spec(m2));
                    lemma_feed_after_parse_html(m2, y);
                    assert((b + y).take(n as int) =~= b.take(n as int));
                    assert((b + y).skip(n as int) =~= b.skip(n as int) + y);
                    lemma_trim_idem(b + y);
                    assert(parse_spec(mb) == parse_spec(HeadModel { buf: m2.buf + y, ..m2 }));
                } else {
                    assert(feed_spec(parse_spec(m1), y) =~= parse_spec(mb));
                }
            },
            HeadStep::NeedMore => {
                assert(parse_spec(m1) == HeadModel { buf: b, ..m1 });
            },
            HeadStep::Body => {
                lemma_consume_mono(b, y);
                lemma_trim_idem(b + y);
                assert(feed_spec(parse_spec(m1), y) =~= parse_spec(mb));
            },
        }
    }
}

/// Parsing, then appending `y`, is parsing with `y` appended.
proof fn lemma_feed_after_parse(m: HeadModel, y: Seq<char>)
    requires
        m.body is None,
    ensures
        feed_spec(parse_spec(m), y) == parse_spec(HeadModel { buf: m.buf + y, ..m }),
{
    let my = HeadModel { buf: m.buf + y, ..m };
    lemma_leading_ws_bound(m.buf);
    lemma_trim_concat(m.buf, y);
    if m.is_html is None && trim_start(m.buf).len() == 0 {
        assert(parse_spec(m) == m);
    } else {
        let m1 = if m.is_html is None {
            HeadModel { is_html: Some(trim_start(m.buf)[0] == '<'), ..m }
        } else {
            m
        };
        let m1y = HeadModel { buf: m1.buf + y, ..m1 };
        assert(parse_spec(m) == parse_spec(m1));
        if m.is_html is None {
            assert(trim_start(my.buf)[0] == trim_start(m.buf)[0]);
        }
        assert(parse_spec(my) == parse_spec(m1y));
        if m1.is_html == Some(false) {
            assert(feed_spec(parse_spec(m), y) =~= parse_spec(m1y));
        } else {
            assert(m1.is_html is Some);
            assert(m1.is_html->0);
            lemma_feed_after_parse_html(m1, y);
        }
    }
}

/// The parse does not depend on where chunk boundaries fall: feeding `a`
/// and then `b` leaves a parser exactly as feeding `a` and `b` joined does,
/// whatever state it started from.
pub proof fn law_chunking_invariant(m: HeadModel, a: Seq<char>, b: Seq<char>)
    ensures
        feed_spec(feed_spec(m, a), b) == feed_spec(m, a + b),
{
    match m.body {
        Some(body) => {
            assert(body + a + b =~= body + (a + b));
        },
        None => {
            let ma = HeadModel { buf: m.buf + a, ..m };
            lemma_feed_after_parse(ma, b);
            assert(m.buf + a + b =~= m.buf + (a + b));
        },
    }
}


// ── Taking the body ─────────────────────────────────────────────────────────

/// A call on a parser: `feed` with this text, or `take_body`.
pub enum ParserOp {
    Feed(Seq<char>),
    Take,
}

/// What `take_body` returns and leaves (its contract).
pub open spec fn take_spec(m: HeadModel) -> (Seq<char>, HeadModel) {
    match m.body {
        Some(b) => (b, HeadModel { body: Some(Seq::empty()), ..m }),
        None => (Seq::empty(), m),
    }
}

/// The calls made in turn: the final parser and everything the takes
/// returned, in order.
pub open spec fn run_ops(m: HeadModel, ops: Seq<ParserOp>) -> (HeadModel, Seq<char>)
    decreases ops.len(),
{
    if ops.len() == 0 {
        (m, Seq::empty())
    } else {
        let (m1, taken) = run_ops(m, ops.drop_last());
        match ops.last() {
            ParserOp::Feed(d) => (feed_spec(m1, d), taken),
            ParserOp::Take => {
                let (b, m2) = take_spec(m1);
                (m2, taken + b)
            },
        }
    }
}

/// All the text fed by the calls, in order.
pub open spec fn fed(ops: Seq<ParserOp>) -> Seq<char>
    decreases ops.len(),
{
    if ops.len() == 0 {
        Seq::empty()
    } else {
        fed(ops.drop_last()) + match ops.last() {
            ParserOp::Feed(d) => d,
            ParserOp::Take => Seq::empty(),
        }
    }
}

pub open spec fn body_text(m: HeadModel) -> Seq<char> {
    match m.body {
        Some(b) => b,
        None => Seq::empty(),
    }
}

/// Taking the body only hands it out in parts: whatever feeds and takes a
/// new parser goes through, it decides HTML-ness, keeps its head and
/// completes exactly as one parser fed all the text at once; and what the
/// takes returned, followed by the body it still holds, is that parser's
/// body. In particular a take right after another returns nothing, and
/// takes change neither `head()` nor `is_html()`.
pub proof fn law_take_body(ops: Seq<ParserOp>)
    ensures
        ({
            let (m, taken) = run_ops(fresh_model(), ops);
            let w = feed_spec(fresh_model(), fed(ops));
            &&& m.is_html == w.is_html
            &&& m.head_parts == w.head_parts
            &&& m.buf == w.buf
            &&& (m.body is Some) == (w.body is Some)
            &&& taken + body_text(m) == body_text(w)
        }),
    decreases ops.len(),
{
    if ops.len() == 0 {
        assert(fed(ops) =~= Seq::<char>::empty());
        assert(fresh_model().buf + fed(ops) =~= Seq::<char>::empty());
        assert(feed_spec(fresh_model(), fed(ops)) == parse_spec(fresh_model()));
        assert(trim_start(Seq::<char>::empty()) =~= Seq::<char>::empty());
        assert(Seq::<char>::empty() + Seq::<char>::empty() =~= Seq::<char>::empty());
    } else {
        let front = ops.drop_last();
        law_take_body(front);
        let (m1, taken1) = run_ops(fresh_model(), front);
        let w1 = feed_spec(fresh_model(), fed(front));
        match ops.last() {
            ParserOp::Feed(d) => {
                law_chunking_invariant(fresh_model(), fed(front), d);
                assert(fed(ops) == fed(front) + d);
                match m1.body {
                    Some(x) => {
                        assert(taken1 + (x + d) =~= (taken1 + x) + d);
                    },
                    None => {
                        assert(taken1 + body_text(m1) =~= taken1);
                        assert(m1 =~= w1);
                        assert(taken1 + Seq::<char>::empty() =~= taken1);
                    },
                }
            },
            ParserOp::Take => {
                assert(fed(ops) =~= fed(front));
                match m1.body {
                    Some(x) => {
                        assert(taken1 + x + Seq::<char>::empty() =~= taken1 + x);
                    },
                    None => {
                        assert(taken1 + Seq::<char>::empty() =~= taken1);
                    },
                }
            },
        }
    }
}


// ── Nothing is lost ─────────────────────────────────────────────────────────

/// A structural tag, which the parser drops: a doctype (any case), `<html>`,
/// `</html>`, `<head>` or `</head>`.
pub open spec fn is_structural(p: Seq<char>) -> bool {
    ||| starts_with(to_ascii_uppercase(p), "<!DOCTYPE"@)
    ||| (starts_with(p, "<html"@) && tag_boundary(p.skip(5)))
    ||| starts_with(p, "</html"@)
    ||| (starts_with(p, "<head"@) && tag_boundary(p.skip(5)))
    ||| starts_with(p, "</head"@)
}

/// What the parser's loop removes from the front of its buffer, in order:
/// each run of leading whitespace and each construct it takes off.
pub open spec fn parse_removed(m: HeadModel) -> Seq<Seq<char>>
    decreases m.buf.len(),
{
    if m.is_html is None && trim_start(m.buf).len() == 0 {
        Seq::empty()
    } else {
        let m1 = if m.is_html is None {
            HeadModel { is_html: Some(trim_start(m.buf)[0] == '<'), ..m }
        } else {
            m
        };
        if m1.is_html == Some(false) {
            Seq::empty()
        } else {
            let ws = m1.buf.take(leading_ws(m1.buf) as int);
            let b = trim_start(m1.buf);
            if b.len() == 0 {
                seq![ws]
            } else {
                match consume_spec(b) {
                    HeadStep::Take(n, keep) => if 0 < n <= b.len() {
                        let parts = if keep && has_content(b.take(n as int)) {
                            m1.head_parts.push(b.take(n as int))
                        } else {
                            m1.head_parts
                        };
                        proof {
                            lemma_leading_ws_bound(m1.buf);
                        }
                        seq![ws, b.take(n as int)] + parse_removed(
                            HeadModel { buf: b.skip(n as int), head_parts: parts, ..m1 },
                        )
                    } else {
                        seq![ws]
                    },
                    _ => seq![ws],
                }
            }
        }
    }
}

/// The pieces joined.
pub open spec fn joined(ps: Seq<Seq<char>>) -> Seq<char>
    decreases ps.len(),
{
    if ps.len() == 0 {
        Seq::empty()
    } else {
        ps[0] + joined(ps.drop_first())
    }
}

/// The pieces that hold something and are not structural tags.
pub open spec fn content_pieces(ps: Seq<Seq<char>>) -> Seq<Seq<char>>
    decreases ps.len(),
{
    if ps.len() == 0 {
        Seq::empty()
    } else {
        (if has_content(ps[0]) && !is_structural(ps[0]) {
            seq![ps[0]]
        } else {
            Seq::empty()
        }) + content_pieces(ps.drop_first())
    }
}

/// What the parser still holds: its body once started, else its buffer.
pub open spec fn held(m: HeadModel) -> Seq<char> {
    match m.body {
        Some(b) => b,
        None => m.buf,
    }
}

proof fn lemma_ws_prefix_blank(s: Seq<char>)
    ensures
        !has_content(s.take(leading_ws(s) as int)),
    decreases s.len(),
{
    lemma_leading_ws_bound(s);
    if s.len() > 0 && is_whitespace(s[0]) {
        lemma_ws_prefix_blank(s.drop_first());
        let t = s.take(leading_ws(s) as int);
        assert forall|i: int| 0 <= i < t.len() implies is_whitespace(#[trigger] t[i]) by {
            if i > 0 {
                assert(t[i] == s.drop_first().take(leading_ws(s.drop_first()) as int)[i - 1]);
            }
        }
    } else {
        assert(s.take(leading_ws(s) as int) =~= Seq::<char>::empty());
    }
}

/// Head content is never a structural tag.
proof fn lemma_content_not_structural(p: Seq<char>)
    requires
        is_head_content(p),
    ensures
        !is_structural(p),
{
    reveal_strlit("<html");
    reveal_strlit("</html");
    reveal_strlit("<head");
    reveal_strlit("</head");
    reveal_strlit("<title");
    reveal_strlit("<script");
    reveal_strlit("<style");
    reveal_strlit("<meta");
    reveal_strlit("<link");
    reveal_strlit("<base");
    reveal_strlit("<!--");
    if p.len() >= 2 {
        let low = to_ascii_lowercase(p);
        assert(low[1] == ascii_lower(p[1]));
        if starts_with(p, "<html"@) || starts_with(p, "<head"@) {
            assert(p.take(5)[1] == 'h');
        }
        if starts_with(p, "</html"@) || starts_with(p, "</head"@) {
            assert(p.take(6)[1] == '/');
        }
        if opens_tag(p, "<title"@) { assert(low.take(6)[1] == 't'); }
        if opens_tag(p, "<script"@) { assert(low.take(7)[1] == 's'); }
        if opens_tag(p, "<style"@) { assert(low.take(6)[1] == 's'); }
        if opens_tag(p, "<meta"@) { assert(low.take(5)[1] == 'm'); }
        if opens_tag(p, "<link"@) { assert(low.take(5)[1] == 'l'); }
        if opens_tag(p, "<base"@) { assert(low.take(5)[1] == 'b'); }
        if starts_with(p, "<!--"@) { assert(p.take(4)[1] == '!'); }
    }
}

/// Behind `p` (holding no `>`) at the front of `b` in the given case, the
/// first `>` comes after it.
proof fn lemma_gt_after(b: Seq<char>, p: Seq<char>, upper: bool)
    requires
        forall|k: int| 0 <= k < p.len() ==> p[k] != '>',
        upper ==> starts_with(to_ascii_uppercase(b), p),
        !upper ==> starts_with(b, p),
    ensures
        find_seq(b, ">"@) matches Some(e) ==> e >= p.len(),
{
    reveal_strlit(">");
    lemma_find_from_bounds(b, ">"@, 0);
    if let Some(e) = find_seq(b, ">"@) {
        assert(b.subrange(e as int, e + 1int)[0] == '>');
        if e < p.len() {
            if upper {
                let u = to_ascii_uppercase(b);
                assert(u.take(p.len() as int)[e as int] == p[e as int]);
                assert(u[e as int] == ascii_upper(b[e as int]));
            } else {
                assert(b.take(p.len() as int)[e as int] == p[e as int]);
            }
        }
    }
}

/// A construct the parser drops is a structural tag.
proof fn lemma_dropped_part(b: Seq<char>, n: nat)
    requires
        consume_spec(b) == HeadStep::Take(n, false),
        0 < n <= b.len(),
    ensures
        is_structural(b.take(n as int)),
{
    reveal(consume_spec);
    reveal_strlit("<!DOCTYPE");
    reveal_strlit("<html");
    reveal_strlit("</html");
    reveal_strlit("<head");
    reveal_strlit("</head");
    reveal_strlit(">");
    let p = b.take(n as int);
    let up = to_ascii_uppercase(b);
    lemma_find_from_bounds(b, ">"@, 0);
    if fit_lit(up, "<!DOCTYPE"@) == Fit::Yes {
        lemma_gt_after(b, "<!DOCTYPE"@, true);
        assert(to_ascii_uppercase(p) =~= up.take(n as int));
        assert(to_ascii_uppercase(p).take(9) =~= up.take(9));
    } else if fit_tag(b, "<html"@) == Fit::Yes {
        lemma_gt_after(b, "<html"@, false);
        assert(p.take(5) =~= b.take(5));
        assert(p.skip(5)[0] == b.skip(5)[0]);
    } else if fit_lit(b, "</html"@) == Fit::Yes {
        lemma_gt_after(b, "</html"@, false);
        assert(p.take(6) =~= b.take(6));
    } else if fit_tag(b, "<head"@) == Fit::Yes {
        lemma_gt_after(b, "<head"@, false);
        assert(p.take(5) =~= b.take(5));
        assert(p.skip(5)[0] == b.skip(5)[0]);
    } else {
        assert(fit_lit(b, "</head"@) == Fit::Yes);
        lemma_gt_after(b, "</head"@, false);
        assert(p.take(6) =~= b.take(6));
    }
}

proof fn lemma_parse_loses_nothing(m: HeadModel)
    requires
        m.body is None,
    ensures
        m.buf == joined(parse_removed(m)) + held(parse_spec(m)),
        parse_spec(m).head_parts == m.head_parts + content_pieces(parse_removed(m)),
    decreases m.buf.len(),
{
    let r = parse_spec(m);
    let rm = parse_removed(m);
    lemma_leading_ws_bound(m.buf);
    if m.is_html is None && trim_start(m.buf).len() == 0 {
        assert(joined(rm) + held(r) =~= m.buf);
        assert(m.head_parts + content_pieces(rm) =~= m.head_parts);
    } else {
        let m1 = if m.is_html is None {
            HeadModel { is_html: Some(trim_start(m.buf)[0] == '<'), ..m }
        } else {
            m
        };
        if m1.is_html == Some(false) {
            assert(joined(rm) + held(r) =~= m.buf);
            assert(m.head_parts + content_pieces(rm) =~= m.head_parts);
        } else {
            let ws = m1.buf.take(leading_ws(m1.buf) as int);
            let b = trim_start(m1.buf);
            lemma_ws_prefix_blank(m1.buf);
            assert(m1.buf =~= ws + b);
            assert(content_pieces(seq![ws]) =~= Seq::<Seq<char>>::empty()) by {
                assert(seq![ws].drop_first() =~= Seq::<Seq<char>>::empty());
                assert(seq![ws][0] == ws);
                assert(content_pieces(Seq::<Seq<char>>::empty()) == Seq::<Seq<char>>::empty());
            }
            assert(joined(seq![ws]) =~= ws) by {
                assert(seq![ws].drop_first() =~= Seq::<Seq<char>>::empty());
                assert(seq![ws][0] == ws);
                assert(joined(Seq::<Seq<char>>::empty()) == Seq::<char>::empty());
            }
            if b.len() == 0 {
                assert(joined(rm) + held(r) =~= m.buf);
                assert(m.head_parts + content_pieces(rm) =~= m.head_parts);
            } else {
                match consume_spec(b) {
                    HeadStep::Take(n, keep) => if 0 < n <= b.len() {
                        let piece = b.take(n as int);
                        lemma_leading_ws_stops(m1.buf);
                        assert(b[0] == m1.buf[leading_ws(m1.buf) as int]);
                        assert(has_content(piece)) by {
                            assert(piece[0] == b[0]);
                        }
                        let parts = if keep && has_content(piece) {
                            m1.head_parts.push(piece)
                        } else {
                            m1.head_parts
                        };
                        let m2 = HeadModel { buf: b.skip(n as int), head_parts: parts, ..m1 };
                        lemma_parse_loses_nothing(m2);
                        let rest = parse_removed(m2);
                        let two = seq![ws, piece];
                        assert(rm == two + rest);
                        assert((two + rest).drop_first() =~= seq![piece] + rest);
                        assert((seq![piece] + rest).drop_first() =~= rest);
                        let t1 = seq![piece] + rest;
                        assert(rm[0] == ws);
                        assert(rm.drop_first() == t1);
                        assert(t1[0] == piece);
                        assert(t1.drop_first() == rest);
                        assert(joined(t1) == piece + joined(rest));
                        assert(joined(rm) == ws + joined(t1));
                        assert(content_pieces(rm) == content_pieces(t1)) by {
                            assert(!has_content(ws));
                            assert(content_pieces(rm) == Seq::<Seq<char>>::empty() + content_pieces(t1));
                            assert(Seq::<Seq<char>>::empty() + content_pieces(t1) =~= content_pieces(t1));
                        }
                        assert(joined(rm) =~= ws + (piece + joined(rest)));
                        assert(b =~= piece + b.skip(n as int));
                        assert(joined(rm) + held(r) =~= m.buf);
                        if keep {
                            lemma_kept_part(b, n);
                            lemma_content_not_structural(piece);
                            assert(content_pieces(t1) == seq![piece] + content_pieces(rest));
                            assert(content_pieces(rm) =~= seq![piece] + content_pieces(rest));
                        } else {
                            lemma_dropped_part(b, n);
                            assert(content_pieces(t1) == Seq::<Seq<char>>::empty() + content_pieces(rest));
                            assert(content_pieces(rm) =~= content_pieces(rest));
                        }
                        assert(r.head_parts =~= m.head_parts + content_pieces(rm));
                    } else {
                        assert(joined(rm) + held(r) =~= m.buf);
                        assert(m.head_parts + content_pieces(rm) =~= m.head_parts);
                    },
                    _ => {
                        assert(joined(rm) + held(r) =~= m.buf);
                        assert(m.head_parts + content_pieces(rm) =~= m.head_parts);
                    },
                }
            }
        }
    }
}

/// Nothing fed to the parser is lost, and a head construct is dropped only
/// when it is a structural tag: the pieces the parse removes from the front
/// (whitespace runs and whole constructs), followed by what the parser still
/// holds (its body once started, else its buffer), make up exactly the text
/// it had; and the head parts it adds are exactly the removed pieces that
/// hold something and are not structural tags, in order — so every title,
/// script, style, meta, link, base or comment taken off goes to the head.
pub proof fn law_parse_keeps_all(m: HeadModel, data: Seq<char>)
    requires
        m.body is None,
    ensures
        ({
            let r = feed_spec(m, data);
            let removed = parse_removed(HeadModel { buf: m.buf + data, ..m });
            &&& m.buf + data == joined(removed) + held(r)
            &&& r.head_parts == m.head_parts + content_pieces(removed)
        }),
{
    lemma_parse_loses_nothing(HeadModel { buf: m.buf + data, ..m });
}

} // verus!
