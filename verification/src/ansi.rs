//! ANSI/VT100 escape sequences to HTML.
use vstd::prelude::*;
use crate::escape::{encode_text, escape_text, lemma_escape_no_lt};
use crate::number::{parse_unsigned, parse_unsigned_chars};
use crate::text::{chars_to_string, push_str, vec_take, split_first_char, str_to_chars, char_width, char_len_utf8, string_push, str_starts_with, starts_with};

verus! {

// ── Colour palette ──────────────────────────────────────────────────────────

/// The 16 base ANSI colours (Linux console palette), as CSS hex strings.
pub open spec fn ansi_color_spec(i: int) -> Seq<char> {
    if i == 0 {
        "#000000"@
    } else if i == 1 {
        "#aa0000"@
    } else if i == 2 {
        "#00aa00"@
    } else if i == 3 {
        "#aa5500"@
    } else if i == 4 {
        "#0000aa"@
    } else if i == 5 {
        "#aa00aa"@
    } else if i == 6 {
        "#00aaaa"@
    } else if i == 7 {
        "#aaaaaa"@
    } else if i == 8 {
        "#555555"@
    } else if i == 9 {
        "#ff5555"@
    } else if i == 10 {
        "#55ff55"@
    } else if i == 11 {
        "#ffff55"@
    } else if i == 12 {
        "#5555ff"@
    } else if i == 13 {
        "#ff55ff"@
    } else if i == 14 {
        "#55ffff"@
    } else {
        "#ffffff"@
    }
}

/// Base colour `i` (0: black … 7: light grey, 8-15: their bright forms).
pub fn ansi_color(i: usize) -> (r: &'static str)
    requires
        i < 16,
    ensures
        r@ == ansi_color_spec(i as int),
{
    if i == 0 {
        "#000000"
    } else if i == 1 {
        "#aa0000"
    } else if i == 2 {
        "#00aa00"
    } else if i == 3 {
        "#aa5500"
    } else if i == 4 {
        "#0000aa"
    } else if i == 5 {
        "#aa00aa"
    } else if i == 6 {
        "#00aaaa"
    } else if i == 7 {
        "#aaaaaa"
    } else if i == 8 {
        "#555555"
    } else if i == 9 {
        "#ff5555"
    } else if i == 10 {
        "#55ff55"
    } else if i == 11 {
        "#ffff55"
    } else if i == 12 {
        "#5555ff"
    } else if i == 13 {
        "#ff55ff"
    } else if i == 14 {
        "#55ffff"
    } else {
        "#ffffff"
    }
}

/// Lower-case hexadecimal digit for `d < 16`.
pub open spec fn hex_digit(d: nat) -> char {
    if d < 10 {
        (48 + d) as char
    } else {
        (87 + d) as char
    }
}

/// `#rrggbb` for three channel values below 256.
pub open spec fn rgb_hex(r: nat, g: nat, b: nat) -> Seq<char> {
    seq!['#', hex_digit(r / 16), hex_digit(r % 16), hex_digit(g / 16), hex_digit(g % 16),
        hex_digit(b / 16), hex_digit(b % 16)]
}

/// Channel intensity of a 6×6×6 cube coordinate.
pub open spec fn cube_level(v: nat) -> nat {
    if v == 0 {
        0
    } else {
        v * 40 + 55
    }
}

/// CSS colour of xterm-256 palette entry `index`: the 16 base colours,
/// then the 6×6×6 colour cube (16-231), then the grey ramp (232-255).
pub open spec fn xterm256_color_spec(index: u8) -> Seq<char> {
    let i = index as nat;
    if i < 16 {
        ansi_color_spec(i as int)
    } else if i < 232 {
        let idx = (i - 16) as nat;
        rgb_hex(cube_level(idx / 36), cube_level((idx / 6) % 6), cube_level(idx % 6))
    } else {
        let level = ((i - 232) * 10 + 8) as nat;
        rgb_hex(level, level, level)
    }
}

fn hex_digit_exec(d: u32) -> (c: char)
    requires
        d < 16,
    ensures
        c == hex_digit(d as nat),
{
    if d < 10 {
        ((48 + d) as u8) as char
    } else {
        ((87 + d) as u8) as char
    }
}

fn cube_level_exec(v: u32) -> (r: u32)
    requires
        v < 6,
    ensures
        r == cube_level(v as nat),
        r < 256,
{
    if v == 0 {
        0
    } else {
        v * 40 + 55
    }
}

fn rgb_hex_exec(r: u32, g: u32, b: u32) -> (s: String)
    requires
        r < 256,
        g < 256,
        b < 256,
    ensures
        s@ == rgb_hex(r as nat, g as nat, b as nat),
{
    let mut v: Vec<char> = Vec::new();
    v.push('#');
    v.push(hex_digit_exec(r / 16));
    v.push(hex_digit_exec(r % 16));
    v.push(hex_digit_exec(g / 16));
    v.push(hex_digit_exec(g % 16));
    v.push(hex_digit_exec(b / 16));
    v.push(hex_digit_exec(b % 16));
    assert(v@ =~= rgb_hex(r as nat, g as nat, b as nat));
    chars_to_string(&v)
}

/// Returns the CSS hex colour for a given xterm-256 palette index.
pub fn xterm256_color(index: u8) -> (r: String)
    ensures
        r@ == xterm256_color_spec(index),
{
    let i = index as u32;
    if i < 16 {
        let c = ansi_color(i as usize);
        String::from_str(c)
    } else if i < 232 {
        let idx = i - 16;
        let b = idx % 6;
        let g = (idx / 6) % 6;
        let r = idx / 36;
        rgb_hex_exec(cube_level_exec(r), cube_level_exec(g), cube_level_exec(b))
    } else {
        let level = (i - 232) * 10 + 8;
        rgb_hex_exec(level, level, level)
    }
}


// ── Regular expressions ─────────────────────────────────────────────────────

/// xterm-256 colour selection: `ESC [ 38;5;N m` (foreground) or
/// `ESC [ 48;5;N m` (background).
pub const XTERM256_PATTERN: &'static str = "\\x1b\\[(?:38|48);5;(\\d+)m";

/// Standard SGR sequence: `ESC [ codes m`.
pub const ANSI_PATTERN: &'static str = "\\x1b\\[([\\d;]*)m";

/// Any other CSI sequence (cursor movement and the like).
pub const MALFORMED_PATTERN: &'static str = "\\x1b\\[[\\d;]*[A-Za-z]";

/// What `regex::Regex::new(pattern)` followed by `Regex::captures(hay)`
/// yields: the byte offsets of the leftmost match and the text of capture
/// group 1 if it took part in it.
pub uninterp spec fn regex_captures_result(pattern: Seq<char>, hay: Seq<char>) -> Option<(usize, usize, Option<Seq<char>>)>;

pub open spec fn opt_string_view(g: Option<String>) -> Option<Seq<char>> {
    match g {
        Some(t) => Some(t@),
        None => None,
    }
}

/// The view of a match result handed over by `regex_captures`.
pub open spec fn match_view(m: Option<(usize, usize, Option<String>)>) -> Option<(usize, usize, Option<Seq<char>>)> {
    match m {
        Some((st, en, g)) => Some((st, en, opt_string_view(g))),
        None => None,
    }
}

/// Compiles `pattern` with `regex::Regex::new` and searches `hay` with
/// `Regex::captures`. Returns the start and end byte offsets of the leftmost
/// match and the text of group 1 when that group took part; `None` when there
/// is no match (or the pattern does not compile). The result is only named
/// (`regex_captures_result`): the regex semantics are not restated here.
#[verifier::external_body]
fn regex_captures(pattern: &str, hay: &str) -> (r: Option<(usize, usize, Option<String>)>)
    ensures
        match_view(r) == regex_captures_result(pattern@, hay@),
{
    match regex::Regex::new(pattern) {
        Ok(re) => match re.captures(hay) {
            Some(caps) => caps.get(0).map(|m| (m.start(), m.end(), caps.get(1).map(|g| g.as_str().to_string()))),
            None => None,
        },
        Err(_) => None,
    }
}

// ── Tokens ──────────────────────────────────────────────────────────────────

/// A lexical unit of the input, as a mathematical value.
pub enum TokenView {
    Text(Seq<char>),
    Backspace,
    Xterm256Fg(u8),
    Xterm256Bg(u8),
    Ansi(Seq<u32>),
    Ignore,
}

/// A lexical unit of the input.
pub enum Token {
    /// A run of characters without backspace or escape.
    Text(String),
    Backspace,
    Xterm256Fg(u8),
    Xterm256Bg(u8),
    /// The code list of an SGR (`ESC [ … m`) sequence.
    Ansi(Vec<u32>),
    /// A sequence that renders nothing.
    Ignore,
}

impl View for Token {
    type V = TokenView;

    open spec fn view(&self) -> TokenView {
        match self {
            Token::Text(t) => TokenView::Text(t@),
            Token::Backspace => TokenView::Backspace,
            Token::Xterm256Fg(i) => TokenView::Xterm256Fg(*i),
            Token::Xterm256Bg(i) => TokenView::Xterm256Bg(*i),
            Token::Ansi(c) => TokenView::Ansi(c@),
            Token::Ignore => TokenView::Ignore,
        }
    }
}

pub open spec fn is_control(c: char) -> bool {
    c == '\x08' || c == '\x1b'
}

/// Index of the first backspace or escape in `s` (`s.len()` if none).
pub open spec fn first_control(s: Seq<char>) -> nat
    decreases s.len(),
{
    if s.len() == 0 {
        0
    } else if is_control(s[0]) {
        0
    } else {
        1 + first_control(s.drop_first())
    }
}

proof fn lemma_first_control(s: Seq<char>, j: int)
    requires
        0 <= j <= s.len(),
        forall|k: int| 0 <= k < j ==> !is_control(#[trigger] s[k]),
        j == s.len() || is_control(s[j]),
    ensures
        first_control(s) == j,
    decreases j,
{
    if j > 0 {
        assert forall|k: int| 0 <= k < j - 1 implies !is_control(#[trigger] s.drop_first()[k]) by {
            assert(s.drop_first()[k] == s[k + 1]);
        }
        if j < s.len() {
            assert(s.drop_first()[j - 1] == s[j]);
        }
        lemma_first_control(s.drop_first(), j - 1);
    }
}

/// Index of the first `c` in `s` (`s.len()` if none).
pub open spec fn find_char(s: Seq<char>, c: char) -> nat
    decreases s.len(),
{
    if s.len() == 0 {
        0
    } else if s[0] == c {
        0
    } else {
        1 + find_char(s.drop_first(), c)
    }
}

proof fn lemma_find_char(s: Seq<char>, c: char, j: int)
    requires
        0 <= j <= s.len(),
        forall|k: int| 0 <= k < j ==> #[trigger] s[k] != c,
        j == s.len() || s[j] == c,
    ensures
        find_char(s, c) == j,
    decreases j,
{
    if j > 0 {
        assert forall|k: int| 0 <= k < j - 1 implies #[trigger] s.drop_first()[k] != c by {
            assert(s.drop_first()[k] == s[k + 1]);
        }
        if j < s.len() {
            assert(s.drop_first()[j - 1] == s[j]);
        }
        lemma_find_char(s.drop_first(), c, j - 1);
    }
}

/// The number of characters at the front of `s` whose UTF-8 encoding is
/// exactly `e` bytes long, if there is such a prefix.
pub open spec fn prefix_chars(s: Seq<char>, e: int) -> Option<nat>
    decreases s.len(),
{
    if e == 0 {
        Some(0)
    } else if e < 0 || s.len() == 0 {
        None
    } else {
        match prefix_chars(s.drop_first(), e - char_width(s[0])) {
            Some(k) => Some(k + 1),
            None => None,
        }
    }
}

pub open spec fn shift(o: Option<nat>, k: nat) -> Option<nat> {
    match o {
        Some(x) => Some(x + k),
        None => None,
    }
}

pub open spec fn group_text(g: Option<Seq<char>>) -> Seq<char> {
    match g {
        Some(t) => t,
        None => Seq::empty(),
    }
}

/// A match result that starts at the first byte of `s` and ends after a
/// whole, non-empty run of characters: how many characters it covers and
/// the text of its group 1 (empty if the group took no part).
pub open spec fn match_at_start(s: Seq<char>, m: Option<(usize, usize, Option<Seq<char>>)>) -> Option<(nat, Seq<char>)> {
    match m {
        Some((st, en, g)) => if st == 0 && en > 0 {
            match prefix_chars(s, en as int) {
                Some(k) => if k > 0 { Some((k, group_text(g))) } else { None },
                None => None,
            }
        } else {
            None
        },
        None => None,
    }
}

/// The part of `s` after the characters of its first `e` bytes.
fn skip_bytes<'a>(s: &'a str, e: usize) -> (r: Option<&'a str>)
    ensures
        match prefix_chars(s@, e as int) {
            Some(k) => r is Some && r->0@ == s@.skip(k as int),
            None => r is None,
        },
{
    let mut cur = s;
    let mut b: usize = 0;
    let ghost mut k: nat = 0;
    while b < e
        invariant
            b <= e,
            k <= s@.len(),
            cur@ == s@.skip(k as int),
            prefix_chars(s@, e as int) == shift(prefix_chars(cur@, e - b), k),
        decreases cur@.len(),
    {
        if cur.is_empty() {
            return None;
        }
        let (c, next) = split_first_char(cur);
        let w = char_len_utf8(c);
        assert(cur@.drop_first() =~= next@);
        assert(cur@[0] == c);
        if w > e - b {
            assert(prefix_chars(next@, (e - b) - w) is None);
            return None;
        }
        b = b + w;
        proof {
            assert(next@ =~= s@.skip(k as int + 1));
            k = k + 1;
        }
        cur = next;
    }
    Some(cur)
}

/// `ESC [ 48` opens a background selection.
pub open spec fn selects_background(s: Seq<char>) -> bool {
    starts_with(s, "\x1b[48"@)
}

/// The palette index written in an xterm-256 sequence: its decimal digits as
/// a `u8`, or 0 when they do not parse.
pub open spec fn palette_index(g: Seq<char>) -> u8 {
    match parse_unsigned(g, 255) {
        Some(n) => n as u8,
        None => 0,
    }
}

pub open spec fn xterm256_token(s: Seq<char>, g: Seq<char>) -> TokenView {
    if selects_background(s) {
        TokenView::Xterm256Bg(palette_index(g))
    } else {
        TokenView::Xterm256Fg(palette_index(g))
    }
}

/// The codes of an SGR parameter list: the `;`-separated fields that parse
/// as `u32`, in order (empty and unparsable fields are dropped).
pub open spec fn codes_of(s: Seq<char>) -> Seq<u32>
    decreases s.len(),
{
    let j = find_char(s, ';');
    let here = match parse_unsigned(s.take(j as int), u32::MAX as nat) {
        Some(v) => seq![v as u32],
        None => Seq::<u32>::empty(),
    };
    if j >= s.len() {
        here
    } else {
        here + codes_of(s.skip(j as int + 1))
    }
}

/// The token at the front of `s`, which starts with an escape, and how many
/// characters it spans.
pub open spec fn escape_token_spec(s: Seq<char>) -> (TokenView, nat) {
    let x = match_at_start(s, regex_captures_result(XTERM256_PATTERN@, s));
    let a = match_at_start(s, regex_captures_result(ANSI_PATTERN@, s));
    let m = match_at_start(s, regex_captures_result(MALFORMED_PATTERN@, s));
    match x {
        Some((k, g)) => (xterm256_token(s, g), k),
        None => match a {
            Some((k, g)) => (TokenView::Ansi(codes_of(g)), k),
            None => match m {
                Some((k, _)) => (TokenView::Ignore, k),
                None => (TokenView::Ignore, 1),
            },
        },
    }
}

/// The tokens of `s`: runs of text, backspaces and escape sequences.
pub open spec fn tokens_from(s: Seq<char>) -> Seq<TokenView>
    decreases s.len(),
{
    if s.len() == 0 {
        Seq::empty()
    } else {
        let j = first_control(s);
        if j >= s.len() {
            seq![TokenView::Text(s)]
        } else if j > 0 {
            seq![TokenView::Text(s.take(j as int))] + tokens_from(s.skip(j as int))
        } else if s[0] == '\x08' {
            seq![TokenView::Backspace] + tokens_from(s.skip(1))
        } else {
            let (t, k) = escape_token_spec(s);
            if 0 < k <= s.len() {
                seq![t] + tokens_from(s.skip(k as int))
            } else {
                Seq::empty()
            }
        }
    }
}

/// The SGR codes of an `ANSI_PATTERN` group.
pub fn parse_codes(g: &str) -> (r: Vec<u32>)
    ensures
        r@ == codes_of(g@),
{
    let v = str_to_chars(g);
    let mut out: Vec<u32> = Vec::new();
    let mut i: usize = 0;
    assert(g@.skip(0) =~= g@);
    assert(out@ + codes_of(g@) =~= codes_of(g@));
    loop
        invariant
            i <= v.len(),
            v@ == g@,
            codes_of(g@) == out@ + codes_of(g@.skip(i as int)),
        decreases v.len() - i,
    {
        let mut j = i;
        while j < v.len() && v[j] != ';'
            invariant
                i <= j <= v.len(),
                forall|k: int| i <= k < j ==> v@[k] != ';',
            decreases v.len() - j,
        {
            j += 1;
        }
        let ghost rest = g@.skip(i as int);
        proof {
            assert forall|k: int| 0 <= k < j - i implies #[trigger] rest[k] != ';' by {
                assert(rest[k] == v@[i + k]);
            }
            if j < v.len() {
                assert(rest[j - i] == v@[j as int]);
            }
            lemma_find_char(rest, ';', j - i);
            assert(rest.take(j - i) =~= v@.subrange(i as int, j as int));
        }
        let parsed = parse_unsigned_chars(&v, i, j, u32::MAX);
        match parsed {
            Some(n) => {
                out.push(n);
            },
            None => {},
        }
        if j >= v.len() {
            assert(out@ =~= codes_of(g@));
            return out;
        }
        proof {
            assert(rest.skip(j - i + 1) =~= g@.skip(j + 1));
        }
        i = j + 1;
        assert(codes_of(g@) =~= out@ + codes_of(g@.skip(i as int)));
    }
}

/// The xterm-256 token at the front of `s` given the result of
/// `XTERM256_PATTERN` on `s`, and the text after it.
pub fn xterm256_token_of<'a>(s: &'a str, m: Option<(usize, usize, Option<String>)>) -> (r: Option<(Token, &'a str)>)
    ensures
        match match_at_start(s@, match_view(m)) {
            Some((k, g)) => r is Some && r.unwrap().0@ == xterm256_token(s@, g) && r.unwrap().1@ == s@.skip(k as int),
            None => r is None,
        },
{
    match m {
        Some((st, en, g)) => {
            if st != 0 || en == 0 {
                return None;
            }
            match skip_bytes(s, en) {
                Some(after) => {
                    let idx: u8 = match g {
                        Some(t) => {
                            let tv = str_to_chars(t.as_str());
                            let n = tv.len();
                            assert(tv@.subrange(0, n as int) =~= tv@);
                            match parse_unsigned_chars(&tv, 0, n, 255) {
                                Some(x) => x as u8,
                                None => 0,
                            }
                        },
                        None => 0,
                    };
                    if str_starts_with(s, "\x1b[48") {
                        Some((Token::Xterm256Bg(idx), after))
                    } else {
                        Some((Token::Xterm256Fg(idx), after))
                    }
                },
                None => None,
            }
        },
        None => None,
    }
}

/// The SGR token at the front of `s` given the result of `ANSI_PATTERN` on
/// `s`, and the text after it.
pub fn ansi_token_of<'a>(s: &'a str, m: Option<(usize, usize, Option<String>)>) -> (r: Option<(Token, &'a str)>)
    ensures
        match match_at_start(s@, match_view(m)) {
            Some((k, g)) => r is Some && r.unwrap().0@ == TokenView::Ansi(codes_of(g)) && r.unwrap().1@ == s@.skip(k as int),
            None => r is None,
        },
{
    match m {
        Some((st, en, g)) => {
            if st != 0 || en == 0 {
                return None;
            }
            match skip_bytes(s, en) {
                Some(after) => {
                    let codes = match g {
                        Some(t) => parse_codes(t.as_str()),
                        None => {
                            let v: Vec<u32> = Vec::new();
                            assert(v@ =~= codes_of(Seq::<char>::empty()));
                            v
                        },
                    };
                    Some((Token::Ansi(codes), after))
                },
                None => None,
            }
        },
        None => None,
    }
}

/// The text after a sequence matched by `MALFORMED_PATTERN` at the front of
/// `s`, given that pattern's result on `s`.
pub fn malformed_token_of<'a>(s: &'a str, m: Option<(usize, usize, Option<String>)>) -> (r: Option<&'a str>)
    ensures
        match match_at_start(s@, match_view(m)) {
            Some((k, _)) => r is Some && r.unwrap()@ == s@.skip(k as int),
            None => r is None,
        },
{
    match m {
        Some((st, en, _)) => {
            if st != 0 || en == 0 {
                return None;
            }
            skip_bytes(s, en)
        },
        None => None,
    }
}

/// The token at the front of `s` (which starts with an escape) and the text
/// after it.
fn escape_token<'a>(s: &'a str) -> (r: (Token, &'a str))
    requires
        s@.len() > 0,
        s@[0] == '\x1b',
    ensures
        r.0@ == escape_token_spec(s@).0,
        r.1@ == s@.skip(escape_token_spec(s@).1 as int),
        0 < escape_token_spec(s@).1 <= s@.len(),
{
    proof {
        lemma_match_at_start_bounds(s@, regex_captures_result(XTERM256_PATTERN@, s@));
        lemma_match_at_start_bounds(s@, regex_captures_result(ANSI_PATTERN@, s@));
        lemma_match_at_start_bounds(s@, regex_captures_result(MALFORMED_PATTERN@, s@));
    }
    let xm = regex_captures(XTERM256_PATTERN, s);
    match xterm256_token_of(s, xm) {
        Some(r) => return r,
        None => {},
    }
    let am = regex_captures(ANSI_PATTERN, s);
    match ansi_token_of(s, am) {
        Some(r) => return r,
        None => {},
    }
    let mm = regex_captures(MALFORMED_PATTERN, s);
    match malformed_token_of(s, mm) {
        Some(after) => (Token::Ignore, after),
        None => {
            // A bare escape: skip it alone.
            let (_, after) = split_first_char(s);
            (Token::Ignore, after)
        },
    }
}

proof fn lemma_prefix_chars_bounds(s: Seq<char>, e: int)
    ensures
        prefix_chars(s, e) matches Some(k) ==> k <= s.len() && (e > 0 ==> k > 0),
    decreases s.len(),
{
    if e != 0 && e > 0 && s.len() > 0 {
        lemma_prefix_chars_bounds(s.drop_first(), e - char_width(s[0]));
    }
}

proof fn lemma_match_at_start_bounds(s: Seq<char>, m: Option<(usize, usize, Option<Seq<char>>)>)
    ensures
        match_at_start(s, m) matches Some((k, _)) ==> 0 < k <= s.len(),
{
    match m {
        Some((st, en, g)) => lemma_prefix_chars_bounds(s, en as int),
        None => {},
    }
}

pub open spec fn tokens_view(ts: Seq<Token>) -> Seq<TokenView> {
    ts.map_values(|t: Token| t@)
}

/// Splits `input` into text runs, backspaces and escape sequences.
pub fn tokenize(input: &str) -> (r: Vec<Token>)
    ensures
        tokens_view(r@) == tokens_from(input@),
{
    let mut tokens: Vec<Token> = Vec::new();
    let mut rest = input;
    assert(tokens_view(tokens@) + tokens_from(input@) =~= tokens_from(input@));
    loop
        invariant
            tokens_from(input@) == tokens_view(tokens@) + tokens_from(rest@),
        decreases rest@.len(),
    {
        if rest.is_empty() {
            assert(tokens_view(tokens@) + tokens_from(rest@) =~= tokens_view(tokens@));
            return tokens;
        }
        let ghost old_tokens = tokens@;
        let (c, after_first) = split_first_char(rest);
        if c == '\x08' {
            proof {
                lemma_first_control(rest@, 0);
            }
            tokens.push(Token::Backspace);
            assert(tokens_view(tokens@) =~= tokens_view(old_tokens).push(TokenView::Backspace));
            rest = after_first;
        } else if c == '\x1b' {
            proof {
                lemma_first_control(rest@, 0);
            }
            let (t, after) = escape_token(rest);
            tokens.push(t);
            assert(tokens_view(tokens@) =~= tokens_view(old_tokens).push(t@));
            rest = after;
        } else {
            // A run of text up to the next control character.
            let mut text = String::new();
            let mut cur = rest;
            let ghost mut j: int = 0;
            loop
                invariant
                    0 <= j <= rest@.len(),
                    cur@ == rest@.skip(j),
                    text@ == rest@.take(j),
                    forall|k: int| 0 <= k < j ==> !is_control(#[trigger] rest@[k]),
                    rest@.len() > 0,
                    j > 0 || !is_control(rest@[0]),
                ensures
                    0 <= j <= rest@.len(),
                    cur@ == rest@.skip(j),
                    text@ == rest@.take(j),
                    forall|k: int| 0 <= k < j ==> !is_control(#[trigger] rest@[k]),
                    j > 0,
                    j == rest@.len() || is_control(rest@[j]),
                decreases cur@.len(),
            {
                if cur.is_empty() {
                    break;
                }
                let (d, next) = split_first_char(cur);
                assert(rest@[j] == d);
                if d == '\x08' || d == '\x1b' {
                    assert(j > 0);
                    break;
                }
                string_push(&mut text, d);
                proof {
                    assert(rest@.take(j + 1) =~= rest@.take(j).push(d));
                    assert(next@ =~= rest@.skip(j + 1));
                    j = j + 1;
                }
                cur = next;
            }
            proof {
                if j < rest@.len() {
                    assert(cur@[0] == rest@[j]);
                }
                lemma_first_control(rest@, j);
                if j >= rest@.len() {
                    assert(rest@.take(j) =~= rest@);
                    assert(tokens_from(cur@) =~= Seq::<TokenView>::empty());
                }
            }
            tokens.push(Token::Text(text));
            assert(tokens_view(tokens@) =~= tokens_view(old_tokens).push(TokenView::Text(rest@.take(j))));
            rest = cur;
        }
    }
}


// ── Rendering ───────────────────────────────────────────────────────────────

/// A piece of rendered output: a span opening, a span closing, or text
/// (held as written, rendered HTML-escaped).
pub enum Piece {
    Open(Seq<char>),
    Close,
    Text(Seq<char>),
}

pub open spec fn open_tag(css: Seq<char>) -> Seq<char> {
    "<span style=\""@ + css + "\">"@
}

pub open spec fn piece_chars(p: Piece) -> Seq<char> {
    match p {
        Piece::Open(css) => open_tag(css),
        Piece::Close => "</span>"@,
        Piece::Text(t) => escape_text(t),
    }
}

/// The pieces written one after another.
pub open spec fn flatten(ps: Seq<Piece>) -> Seq<char>
    decreases ps.len(),
{
    if ps.len() == 0 {
        Seq::empty()
    } else {
        flatten(ps.drop_last()) + piece_chars(ps.last())
    }
}

/// The output so far, as pieces, and the number of `<span>` tags still open.
#[verifier::ext_equal]
pub struct RenderState {
    pub pieces: Seq<Piece>,
    pub depth: nat,
}

pub open spec fn initial_state() -> RenderState {
    RenderState { pieces: Seq::empty(), depth: 0 }
}

/// `n` closing tags.
pub open spec fn closes(n: nat) -> Seq<Piece>
    decreases n,
{
    if n == 0 {
        Seq::empty()
    } else {
        closes((n - 1) as nat).push(Piece::Close)
    }
}

pub open spec fn push_style(st: RenderState, css: Seq<char>) -> RenderState {
    RenderState { pieces: st.pieces.push(Piece::Open(css)), depth: st.depth + 1 }
}

/// Closes every open span.
pub open spec fn reset(st: RenderState) -> RenderState {
    RenderState { pieces: st.pieces + closes(st.depth), depth: 0 }
}

/// What one SGR code does.
pub enum CodeEffect {
    /// Close every open span.
    Reset,
    /// Open a span with this CSS declaration.
    Push(Seq<char>),
    /// Nothing.
    Keep,
}

pub open spec fn code_effect(code: u32) -> CodeEffect {
    if code == 0 || code == 39 || code == 49 {
        CodeEffect::Reset
    } else if code == 1 {
        CodeEffect::Push("font-weight:bold"@)
    } else if code == 2 {
        CodeEffect::Push("opacity:0.5"@)
    } else if code == 3 {
        CodeEffect::Push("font-style:italic"@)
    } else if code == 4 {
        CodeEffect::Push("text-decoration:underline"@)
    } else if code == 5 || code == 6 {
        CodeEffect::Push("text-decoration:blink"@)
    } else if code == 7 {
        CodeEffect::Push("filter:invert(100%)"@)
    } else if code == 8 {
        CodeEffect::Push("visibility:hidden"@)
    } else if code == 9 {
        CodeEffect::Push("text-decoration:line-through"@)
    } else if 30 <= code <= 37 {
        CodeEffect::Push("color:"@ + ansi_color_spec(code - 30))
    } else if 40 <= code <= 47 {
        CodeEffect::Push("background-color:"@ + ansi_color_spec(code - 40))
    } else if 90 <= code <= 97 {
        CodeEffect::Push("color:"@ + ansi_color_spec(code - 90 + 8))
    } else if 100 <= code <= 107 {
        CodeEffect::Push("background-color:"@ + ansi_color_spec(code - 100 + 8))
    } else {
        CodeEffect::Keep
    }
}

pub open spec fn apply_code(st: RenderState, code: u32) -> RenderState {
    match code_effect(code) {
        CodeEffect::Reset => reset(st),
        CodeEffect::Push(css) => push_style(st, css),
        CodeEffect::Keep => st,
    }
}

pub open spec fn apply_code_seq(st: RenderState, codes: Seq<u32>) -> RenderState
    decreases codes.len(),
{
    if codes.len() == 0 {
        st
    } else {
        apply_code(apply_code_seq(st, codes.drop_last()), codes.last())
    }
}

/// An empty code list resets; otherwise each code applies in turn.
pub open spec fn apply_codes(st: RenderState, codes: Seq<u32>) -> RenderState {
    if codes.len() == 0 {
        reset(st)
    } else {
        apply_code_seq(st, codes)
    }
}

/// The pieces with the last character of text written removed (tags stay
/// whole; nothing changes when no text was written).
pub open spec fn erase_last(ps: Seq<Piece>) -> Seq<Piece>
    decreases ps.len(),
{
    if ps.len() == 0 {
        ps
    } else {
        match ps.last() {
            Piece::Text(t) => if t.len() > 0 {
                ps.drop_last().push(Piece::Text(t.drop_last()))
            } else {
                erase_last(ps.drop_last()).push(ps.last())
            },
            _ => erase_last(ps.drop_last()).push(ps.last()),
        }
    }
}

/// A backspace erases the last character of text written.
pub open spec fn backspace(st: RenderState) -> RenderState {
    RenderState { pieces: erase_last(st.pieces), depth: st.depth }
}

pub open spec fn render_token(st: RenderState, t: TokenView) -> RenderState {
    match t {
        TokenView::Text(s) => RenderState { pieces: st.pieces.push(Piece::Text(s)), depth: st.depth },
        TokenView::Backspace => backspace(st),
        TokenView::Xterm256Fg(i) => push_style(st, "color:"@ + xterm256_color_spec(i)),
        TokenView::Xterm256Bg(i) => push_style(st, "background-color:"@ + xterm256_color_spec(i)),
        TokenView::Ansi(codes) => apply_codes(st, codes),
        TokenView::Ignore => st,
    }
}

pub open spec fn render_tokens(st: RenderState, ts: Seq<TokenView>) -> RenderState
    decreases ts.len(),
{
    if ts.len() == 0 {
        st
    } else {
        render_token(render_tokens(st, ts.drop_last()), ts.last())
    }
}

/// The HTML fragment for `input`: its tokens rendered in turn, then every
/// span still open closed.
pub open spec fn ansi_html(input: Seq<char>) -> Seq<char> {
    flatten(reset(render_tokens(initial_state(), tokens_from(input))).pieces)
}

/// Marker for a single open `<span>` tag on the stack.
pub struct Style;

/// A piece of output as the renderer holds it.
pub enum Part {
    Open(String),
    Close,
    Text(Vec<char>),
}

impl View for Part {
    type V = Piece;

    open spec fn view(&self) -> Piece {
        match self {
            Part::Open(css) => Piece::Open(css@),
            Part::Close => Piece::Close,
            Part::Text(t) => Piece::Text(t@),
        }
    }
}

pub open spec fn parts_view(v: Seq<Part>) -> Seq<Piece> {
    v.map_values(|p: Part| p@)
}

/// Converts tokens into HTML output, tracking the open `<span>` tags.
pub struct Renderer {
    stack: Vec<Style>,
    pieces: Vec<Part>,
}

impl Renderer {
    pub closed spec fn state(&self) -> RenderState {
        RenderState { pieces: parts_view(self.pieces@), depth: self.stack@.len() }
    }

    pub fn new() -> (r: Self)
        ensures
            r.state() == initial_state(),
    {
        let r = Renderer { stack: Vec::new(), pieces: Vec::new() };
        assert(r.state() =~= initial_state());
        r
    }

    fn push_part(&mut self, p: Part)
        ensures
            final(self).stack@ == old(self).stack@,
            parts_view(final(self).pieces@) == parts_view(old(self).pieces@).push(p@),
    {
        self.pieces.push(p);
        assert(parts_view(self.pieces@) =~= parts_view(old(self).pieces@).push(p@));
    }

    /// Opens a span with the CSS declaration `css`.
    pub fn push_style(&mut self, css: &str)
        ensures
            final(self).state() == push_style(old(self).state(), css@),
    {
        self.push_part(Part::Open(String::from_str(css)));
        self.stack.push(Style);
        assert(self.state() =~= push_style(old(self).state(), css@));
    }

    /// Closes every open span.
    pub fn reset_styles(&mut self)
        ensures
            final(self).state() == reset(old(self).state()),
    {
        let ghost d = old(self).stack@.len();
        let ghost p0 = parts_view(old(self).pieces@);
        assert(p0 + closes(0) =~= p0);
        while self.stack.len() > 0
            invariant
                self.stack@.len() <= d,
                parts_view(self.pieces@) == p0 + closes((d - self.stack@.len()) as nat),
            decreases self.stack@.len(),
        {
            let ghost n = (d - self.stack@.len()) as nat;
            self.stack.pop();
            self.push_part(Part::Close);
            assert(closes((n + 1) as nat) == closes(n).push(Piece::Close));
            assert(parts_view(self.pieces@) =~= p0 + closes((d - self.stack@.len()) as nat));
        }
        assert(self.state() =~= reset(old(self).state()));
    }

    /// Applies one SGR code.
    pub fn apply_code(&mut self, code: u32)
        ensures
            final(self).state() == apply_code(old(self).state(), code),
    {
        if code == 0 || code == 39 || code == 49 {
            self.reset_styles();
        } else if code == 1 {
            self.push_style("font-weight:bold");
        } else if code == 2 {
            self.push_style("opacity:0.5");
        } else if code == 3 {
            self.push_style("font-style:italic");
        } else if code == 4 {
            self.push_style("text-decoration:underline");
        } else if code == 5 || code == 6 {
            self.push_style("text-decoration:blink");
        } else if code == 7 {
            self.push_style("filter:invert(100%)");
        } else if code == 8 {
            self.push_style("visibility:hidden");
        } else if code == 9 {
            self.push_style("text-decoration:line-through");
        } else if 30 <= code && code <= 37 {
            let css = String::from_str("color:").concat(ansi_color((code - 30) as usize));
            self.push_style(css.as_str());
        } else if 40 <= code && code <= 47 {
            let css = String::from_str("background-color:").concat(ansi_color((code - 40) as usize));
            self.push_style(css.as_str());
        } else if 90 <= code && code <= 97 {
            let css = String::from_str("color:").concat(ansi_color((code - 90 + 8) as usize));
            self.push_style(css.as_str());
        } else if 100 <= code && code <= 107 {
            let css = String::from_str("background-color:").concat(ansi_color((code - 100 + 8) as usize));
            self.push_style(css.as_str());
        }
    }

    /// Applies the codes of one SGR sequence; an empty list resets.
    pub fn apply_codes(&mut self, codes: &Vec<u32>)
        ensures
            final(self).state() == apply_codes(old(self).state(), codes@),
    {
        if codes.len() == 0 {
            self.reset_styles();
            return;
        }
        let mut i: usize = 0;
        while i < codes.len()
            invariant
                i <= codes.len(),
                self.state() == apply_code_seq(old(self).state(), codes@.take(i as int)),
            decreases codes.len() - i,
        {
            self.apply_code(codes[i]);
            assert(codes@.take(i + 1).drop_last() =~= codes@.take(i as int));
            i += 1;
        }
        assert(codes@.take(codes.len() as int) =~= codes@);
    }

    pub fn apply_xterm_fg(&mut self, idx: u8)
        ensures
            final(self).state() == push_style(old(self).state(), "color:"@ + xterm256_color_spec(idx)),
    {
        let css = String::from_str("color:").concat(xterm256_color(idx).as_str());
        self.push_style(css.as_str());
    }

    pub fn apply_xterm_bg(&mut self, idx: u8)
        ensures
            final(self).state() == push_style(old(self).state(), "background-color:"@ + xterm256_color_spec(idx)),
    {
        let css = String::from_str("background-color:").concat(xterm256_color(idx).as_str());
        self.push_style(css.as_str());
    }

    /// Appends `text` (HTML-escaped in the output).
    pub fn write_text(&mut self, text: &str)
        ensures
            final(self).state() == (RenderState { pieces: old(self).state().pieces.push(Piece::Text(text@)), depth: old(self).state().depth }),
    {
        self.push_part(Part::Text(str_to_chars(text)));
        assert(self.state() =~= (RenderState { pieces: old(self).state().pieces.push(Piece::Text(text@)), depth: old(self).state().depth }));
    }

    /// Erases the last character of text written; tags stay whole.
    pub fn backspace(&mut self)
        ensures
            final(self).state() == backspace(old(self).state()),
    {
        let ghost ps = parts_view(self.pieces@);
        let mut i = self.pieces.len();
        assert(ps.take(i as int) =~= ps);
        assert(ps.skip(i as int) =~= Seq::<Piece>::empty());
        assert(erase_last(ps) =~= erase_last(ps.take(i as int)) + ps.skip(i as int));
        loop
            invariant
                i <= self.pieces.len(),
                ps == parts_view(self.pieces@),
                self.stack@ == old(self).stack@,
                self.pieces@ == old(self).pieces@,
                erase_last(ps) == erase_last(ps.take(i as int)) + ps.skip(i as int),
            decreases i,
        {
            if i == 0 {
                assert(ps.take(0) =~= Seq::<Piece>::empty());
                assert(ps.skip(0) =~= ps);
                assert(erase_last(ps) =~= ps);
                assert(self.state() =~= backspace(old(self).state()));
                return;
            }
            let ghost pre = ps.take(i as int);
            assert(pre.drop_last() =~= ps.take(i - 1));
            assert(pre.last() == ps[i - 1]);
            assert(ps[i - 1] == self.pieces@[i - 1]@);
            let found: Option<Vec<char>> = match &self.pieces[i - 1] {
                Part::Text(t) => if t.len() > 0 {
                    Some(vec_take(t, t.len() - 1))
                } else {
                    None
                },
                _ => None,
            };
            match found {
                Some(shorter) => {
                    proof {
                        let t = ps[i - 1]->Text_0;
                        assert(shorter@ == t.drop_last());
                        assert(erase_last(pre) == ps.take(i - 1).push(Piece::Text(t.drop_last())));
                    }
                    self.pieces.set(i - 1, Part::Text(shorter));
                    assert(parts_view(self.pieces@) =~= erase_last(ps));
                    assert(self.state() =~= backspace(old(self).state()));
                    return;
                },
                None => {
                    assert(erase_last(pre) == erase_last(ps.take(i - 1)).push(ps[i - 1]));
                    assert(ps.skip(i - 1) =~= seq![ps[i - 1]] + ps.skip(i as int));
                    assert(erase_last(ps) =~= erase_last(ps.take(i - 1)) + ps.skip(i - 1));
                    i -= 1;
                },
            }
        }
    }

    /// Renders one token.
    pub fn render(&mut self, t: &Token)
        ensures
            final(self).state() == render_token(old(self).state(), t@),
    {
        match t {
            Token::Text(s) => self.write_text(s.as_str()),
            Token::Backspace => self.backspace(),
            Token::Xterm256Fg(i) => self.apply_xterm_fg(*i),
            Token::Xterm256Bg(i) => self.apply_xterm_bg(*i),
            Token::Ansi(codes) => self.apply_codes(codes),
            Token::Ignore => {},
        }
    }

    /// The output so far: the pieces written out, text HTML-escaped.
    pub fn into_output(self) -> (r: String)
        ensures
            r@ == flatten(self.state().pieces),
    {
        let ghost ps = parts_view(self.pieces@);
        let mut out: Vec<char> = Vec::new();
        let mut i: usize = 0;
        while i < self.pieces.len()
            invariant
                i <= self.pieces.len(),
                ps == parts_view(self.pieces@),
                out@ == flatten(ps.take(i as int)),
            decreases self.pieces.len() - i,
        {
            assert(ps[i as int] == self.pieces@[i as int]@);
            match &self.pieces[i] {
                Part::Open(css) => {
                    push_str(&mut out, "<span style=\"");
                    push_str(&mut out, css.as_str());
                    push_str(&mut out, "\">");
                },
                Part::Close => {
                    push_str(&mut out, "</span>");
                },
                Part::Text(t) => {
                    let escaped = encode_text(chars_to_string(t).as_str());
                    push_str(&mut out, escaped.as_str());
                },
            }
            assert(ps.take(i + 1).drop_last() =~= ps.take(i as int));
            assert(out@ =~= flatten(ps.take(i + 1)));
            i += 1;
        }
        assert(ps.take(self.pieces.len() as int) =~= ps);
        chars_to_string(&out)
    }
}

// ── Public API ──────────────────────────────────────────────────────────────

/// Convert a string containing ANSI escape sequences to an HTML fragment.
/// All spans are properly closed at the end.
pub fn ansi_to_html(input: &str) -> (r: String)
    ensures
        r@ == ansi_html(input@),
{
    let tokens = tokenize(input);
    let mut r = Renderer::new();
    let ghost ts = tokens_view(tokens@);
    let mut i: usize = 0;
    while i < tokens.len()
        invariant
            i <= tokens.len(),
            ts == tokens_view(tokens@),
            ts == tokens_from(input@),
            r.state() == render_tokens(initial_state(), ts.take(i as int)),
        decreases tokens.len() - i,
    {
        r.render(&tokens[i]);
        assert(ts.take(i + 1).drop_last() =~= ts.take(i as int));
        assert(ts[i as int] == tokens@[i as int]@);
        i += 1;
    }
    assert(ts.take(tokens.len() as int) =~= ts);
    r.reset_styles();
    r.into_output()
}

/// Streaming version: convert chunks incrementally.
/// Note: escape sequences must not be split across chunks.
pub fn ansi_chunk_to_html(input: &str) -> (r: String)
    ensures
        r@ == ansi_html(input@),
{
    ansi_to_html(input)
}


// ── Laws ────────────────────────────────────────────────────────────────────

pub open spec fn is_lower_hex_digit(c: char) -> bool {
    ('0' <= c && c <= '9') || ('a' <= c && c <= 'f')
}

/// `#` followed by six lower-case hexadecimal digits.
pub open spec fn is_css_hex_color(s: Seq<char>) -> bool {
    s.len() == 7 && s[0] == '#' && forall|i: int| 1 <= i < 7 ==> is_lower_hex_digit(#[trigger] s[i])
}

proof fn lemma_rgb_hex(r: nat, g: nat, b: nat)
    requires
        r < 256,
        g < 256,
        b < 256,
    ensures
        is_css_hex_color(rgb_hex(r, g, b)),
{
    let s = rgb_hex(r, g, b);
    assert forall|i: int| 1 <= i < 7 implies is_lower_hex_digit(#[trigger] s[i]) by {
        assert(r / 16 < 16 && g / 16 < 16 && b / 16 < 16);
    }
}

/// Every palette entry is a CSS colour `#rrggbb` in lower-case hexadecimal.
pub proof fn law_palette_is_css_hex(index: u8)
    ensures
        is_css_hex_color(xterm256_color_spec(index)),
{
    let i = index as nat;
    if i < 16 {
        reveal_strlit("#000000");
        reveal_strlit("#aa0000");
        reveal_strlit("#00aa00");
        reveal_strlit("#aa5500");
        reveal_strlit("#0000aa");
        reveal_strlit("#aa00aa");
        reveal_strlit("#00aaaa");
        reveal_strlit("#aaaaaa");
        reveal_strlit("#555555");
        reveal_strlit("#ff5555");
        reveal_strlit("#55ff55");
        reveal_strlit("#ffff55");
        reveal_strlit("#5555ff");
        reveal_strlit("#ff55ff");
        reveal_strlit("#55ffff");
        reveal_strlit("#ffffff");
    } else if i < 232 {
        let idx = (i - 16) as nat;
        assert(idx / 36 < 6 && (idx / 6) % 6 < 6 && idx % 6 < 6);
        lemma_rgb_hex(cube_level(idx / 36), cube_level((idx / 6) % 6), cube_level(idx % 6));
    } else {
        let level = ((i - 232) * 10 + 8) as nat;
        lemma_rgb_hex(level, level, level);
    }
}

/// Text without escapes or backspaces passes through, only HTML-escaped.
pub proof fn law_plain_text_passthrough(s: Seq<char>)
    requires
        !s.contains('\x08'),
        !s.contains('\x1b'),
    ensures
        ansi_html(s) == escape_text(s),
{
    if s.len() == 0 {
        assert(tokens_from(s) =~= Seq::<TokenView>::empty());
        assert(escape_text(s) =~= Seq::<char>::empty());
        assert(reset(initial_state()).pieces =~= Seq::<Piece>::empty());
        assert(ansi_html(s) =~= Seq::<char>::empty());
    } else {
        assert forall|k: int| 0 <= k < s.len() implies !is_control(#[trigger] s[k]) by {
            assert(s[k] != '\x08' && s[k] != '\x1b');
        }
        lemma_first_control(s, s.len() as int);
        let ts = tokens_from(s);
        assert(ts =~= seq![TokenView::Text(s)]);
        assert(ts.drop_last() =~= Seq::<TokenView>::empty());
        let st = render_tokens(initial_state(), ts);
        assert(render_tokens(initial_state(), ts.drop_last()) == initial_state());
        assert(st.pieces =~= seq![Piece::Text(s)]);
        assert(st.depth == 0);
        let ps = reset(st).pieces;
        assert(ps =~= seq![Piece::Text(s)]);
        assert(ps.drop_last() =~= Seq::<Piece>::empty());
        assert(ps.last() == Piece::Text(s));
        assert(flatten(ps.drop_last()) =~= Seq::<char>::empty());
        assert(flatten(ps) == flatten(ps.drop_last()) + piece_chars(ps.last()));
        assert(flatten(ps) =~= escape_text(s));
    }
}

/// Openings minus closings.
pub open spec fn nesting(ps: Seq<Piece>) -> int
    decreases ps.len(),
{
    if ps.len() == 0 {
        0
    } else {
        nesting(ps.drop_last()) + match ps.last() {
            Piece::Open(_) => 1int,
            Piece::Close => -1int,
            Piece::Text(_) => 0int,
        }
    }
}

/// No prefix closes more spans than it opened.
pub open spec fn well_nested(ps: Seq<Piece>) -> bool {
    forall|i: int| 0 <= i <= ps.len() ==> nesting(#[trigger] ps.take(i)) >= 0
}

/// No text piece renders a `<`: every tag in the output is a piece.
pub open spec fn texts_tag_free(ps: Seq<Piece>) -> bool {
    forall|i: int| 0 <= i < ps.len() ==> (#[trigger] ps[i] is Text ==> !piece_chars(ps[i]).contains('<'))
}

/// The pieces of a render state nest properly and match its depth.
pub open spec fn nests(st: RenderState) -> bool {
    nesting(st.pieces) == st.depth && well_nested(st.pieces)
}

pub open spec fn delta(p: Piece) -> int {
    match p {
        Piece::Open(_) => 1int,
        Piece::Close => -1int,
        Piece::Text(_) => 0int,
    }
}

proof fn lemma_push_piece(ps: Seq<Piece>, p: Piece)
    requires
        well_nested(ps),
        nesting(ps) + delta(p) >= 0,
    ensures
        nesting(ps.push(p)) == nesting(ps) + delta(p),
        well_nested(ps.push(p)),
{
    let q = ps.push(p);
    assert(q.drop_last() =~= ps);
    assert forall|i: int| 0 <= i <= q.len() implies nesting(#[trigger] q.take(i)) >= 0 by {
        if i <= ps.len() {
            assert(q.take(i) =~= ps.take(i));
        } else {
            assert(q.take(i) =~= q);
        }
    }
}

proof fn lemma_closes_nest(ps: Seq<Piece>, n: nat)
    requires
        well_nested(ps),
        nesting(ps) >= n,
    ensures
        well_nested(ps + closes(n)),
        nesting(ps + closes(n)) == nesting(ps) - n,
    decreases n,
{
    if n == 0 {
        assert(ps + closes(0) =~= ps);
    } else {
        lemma_closes_nest(ps, (n - 1) as nat);
        let q = ps + closes((n - 1) as nat);
        lemma_push_piece(q, Piece::Close);
        assert(ps + closes(n) =~= q.push(Piece::Close));
    }
}

proof fn lemma_reset_nests(st: RenderState)
    requires
        nests(st),
    ensures
        nests(reset(st)),
{
    lemma_closes_nest(st.pieces, st.depth);
}

pub open spec fn same_kind(p: Piece, q: Piece) -> bool {
    delta(p) == delta(q)
}

proof fn lemma_erase_shape(ps: Seq<Piece>)
    ensures
        erase_last(ps).len() == ps.len(),
        forall|i: int| 0 <= i < ps.len() ==> same_kind(#[trigger] erase_last(ps)[i], ps[i]),
    decreases ps.len(),
{
    if ps.len() > 0 {
        lemma_erase_shape(ps.drop_last());
        let e = erase_last(ps);
        assert forall|i: int| 0 <= i < ps.len() implies same_kind(#[trigger] e[i], ps[i]) by {
            if i < ps.len() - 1 {
                match ps.last() {
                    Piece::Text(t) => if t.len() > 0 {
                        assert(e[i] == ps.drop_last()[i]);
                    } else {
                        assert(e[i] == erase_last(ps.drop_last())[i]);
                    },
                    _ => {
                        assert(e[i] == erase_last(ps.drop_last())[i]);
                    },
                }
            }
        }
    }
}

proof fn lemma_nesting_shape(ps: Seq<Piece>, qs: Seq<Piece>)
    requires
        ps.len() == qs.len(),
        forall|i: int| 0 <= i < ps.len() ==> same_kind(#[trigger] ps[i], qs[i]),
    ensures
        nesting(ps) == nesting(qs),
    decreases ps.len(),
{
    if ps.len() > 0 {
        assert forall|i: int| 0 <= i < ps.len() - 1 implies same_kind(#[trigger] ps.drop_last()[i], qs.drop_last()[i]) by {
            assert(ps.drop_last()[i] == ps[i] && qs.drop_last()[i] == qs[i]);
        }
        lemma_nesting_shape(ps.drop_last(), qs.drop_last());
        assert(same_kind(ps[ps.len() - 1], qs[qs.len() - 1]));
    }
}

proof fn lemma_backspace_nests(st: RenderState)
    requires
        nests(st),
    ensures
        nests(backspace(st)),
{
    let ps = st.pieces;
    let e = erase_last(ps);
    lemma_erase_shape(ps);
    lemma_nesting_shape(e, ps);
    assert forall|i: int| 0 <= i <= e.len() implies nesting(#[trigger] e.take(i)) >= 0 by {
        assert forall|k: int| 0 <= k < i implies same_kind(#[trigger] e.take(i)[k], ps.take(i)[k]) by {
            assert(e.take(i)[k] == e[k]);
            assert(ps.take(i)[k] == ps[k]);
        }
        lemma_nesting_shape(e.take(i), ps.take(i));
        assert(nesting(ps.take(i)) >= 0);
    }
}

proof fn lemma_code_seq_nests(st: RenderState, codes: Seq<u32>)
    requires
        nests(st),
    ensures
        nests(apply_code_seq(st, codes)),
    decreases codes.len(),
{
    if codes.len() > 0 {
        lemma_code_seq_nests(st, codes.drop_last());
        let st1 = apply_code_seq(st, codes.drop_last());
        match code_effect(codes.last()) {
            CodeEffect::Reset => lemma_reset_nests(st1),
            CodeEffect::Push(css) => lemma_push_piece(st1.pieces, Piece::Open(css)),
            CodeEffect::Keep => {},
        }
    }
}

proof fn lemma_token_nests(st: RenderState, t: TokenView)
    requires
        nests(st),
    ensures
        nests(render_token(st, t)),
{
    match t {
        TokenView::Text(s) => lemma_push_piece(st.pieces, Piece::Text(s)),
        TokenView::Backspace => lemma_backspace_nests(st),
        TokenView::Xterm256Fg(i) => lemma_push_piece(st.pieces, Piece::Open("color:"@ + xterm256_color_spec(i))),
        TokenView::Xterm256Bg(i) => lemma_push_piece(st.pieces, Piece::Open("background-color:"@ + xterm256_color_spec(i))),
        TokenView::Ansi(codes) => if codes.len() == 0 {
            lemma_reset_nests(st)
        } else {
            lemma_code_seq_nests(st, codes)
        },
        TokenView::Ignore => {},
    }
}

proof fn lemma_tokens_nest(ts: Seq<TokenView>)
    ensures
        nests(render_tokens(initial_state(), ts)),
    decreases ts.len(),
{
    if ts.len() == 0 {
        let e = Seq::<Piece>::empty();
        assert forall|i: int| 0 <= i <= e.len() implies nesting(#[trigger] e.take(i)) >= 0 by {
            assert(e.take(i) =~= e);
        }
    } else {
        lemma_tokens_nest(ts.drop_last());
        lemma_token_nests(render_tokens(initial_state(), ts.drop_last()), ts.last());
    }
}

/// All spans are properly closed at the end: for any input, the output is a
/// sequence of span openings, `</span>` closings and escaped text holding no
/// `<`, in which no prefix closes more spans than it opened and the whole
/// closes as many as it opens. (Backspaces erase text only; tags stay whole.)
pub proof fn law_spans_closed(input: Seq<char>)
    ensures
        exists|ps: Seq<Piece>|
            flatten(ps) == ansi_html(input) && nesting(ps) == 0 && well_nested(ps) && texts_tag_free(ps),
{
    let ts = tokens_from(input);
    let st = render_tokens(initial_state(), ts);
    lemma_tokens_nest(ts);
    lemma_reset_nests(st);
    let ps = reset(st).pieces;
    assert forall|i: int| 0 <= i < ps.len() && (#[trigger] ps[i]) is Text implies !piece_chars(ps[i]).contains('<') by {
        if let Piece::Text(t) = ps[i] {
            lemma_escape_no_lt(t);
        }
    }
    assert(flatten(ps) == ansi_html(input) && nesting(ps) == 0 && well_nested(ps) && texts_tag_free(ps));
}

/// The 16 base colours, in palette order, written out.
pub open spec fn base_colours() -> Seq<Seq<char>> {
    seq!["#000000"@, "#aa0000"@, "#00aa00"@, "#aa5500"@, "#0000aa"@, "#aa00aa"@, "#00aaaa"@, "#aaaaaa"@,
        "#555555"@, "#ff5555"@, "#55ff55"@, "#ffff55"@, "#5555ff"@, "#ff55ff"@, "#55ffff"@, "#ffffff"@]
}

/// The SGR code table: 0, 39 and 49 close every span; 1-9 open the text
/// styles (5 and 6 both blink); 30-37 and 40-47 open a foreground or
/// background span in base colour `code - 30` or `code - 40`; 90-97 and
/// 100-107 do the same in the bright colours 8-15; every other code does
/// nothing.
pub proof fn law_sgr_codes(st: RenderState, code: u32)
    ensures
        code == 0 || code == 39 || code == 49 ==> apply_code(st, code) == reset(st),
        code == 1 ==> apply_code(st, code) == push_style(st, "font-weight:bold"@),
        code == 2 ==> apply_code(st, code) == push_style(st, "opacity:0.5"@),
        code == 3 ==> apply_code(st, code) == push_style(st, "font-style:italic"@),
        code == 4 ==> apply_code(st, code) == push_style(st, "text-decoration:underline"@),
        code == 5 || code == 6 ==> apply_code(st, code) == push_style(st, "text-decoration:blink"@),
        code == 7 ==> apply_code(st, code) == push_style(st, "filter:invert(100%)"@),
        code == 8 ==> apply_code(st, code) == push_style(st, "visibility:hidden"@),
        code == 9 ==> apply_code(st, code) == push_style(st, "text-decoration:line-through"@),
        30 <= code <= 37 ==> apply_code(st, code) == push_style(st, "color:"@ + base_colours()[code - 30]),
        40 <= code <= 47 ==> apply_code(st, code) == push_style(st, "background-color:"@ + base_colours()[code - 40]),
        90 <= code <= 97 ==> apply_code(st, code) == push_style(st, "color:"@ + base_colours()[code - 90 + 8]),
        100 <= code <= 107 ==> apply_code(st, code) == push_style(st, "background-color:"@ + base_colours()[code - 100 + 8]),
        !(code <= 9 || 30 <= code <= 49 || 90 <= code <= 97 || 100 <= code <= 107) ==> apply_code(st, code) == st,
{
    assert forall|i: int| 0 <= i < 16 implies ansi_color_spec(i) == #[trigger] base_colours()[i] by {
        assert(base_colours()[0] == "#000000"@);
        assert(base_colours()[1] == "#aa0000"@);
        assert(base_colours()[2] == "#00aa00"@);
        assert(base_colours()[3] == "#aa5500"@);
        assert(base_colours()[4] == "#0000aa"@);
        assert(base_colours()[5] == "#aa00aa"@);
        assert(base_colours()[6] == "#00aaaa"@);
        assert(base_colours()[7] == "#aaaaaa"@);
        assert(base_colours()[8] == "#555555"@);
        assert(base_colours()[9] == "#ff5555"@);
        assert(base_colours()[10] == "#55ff55"@);
        assert(base_colours()[11] == "#ffff55"@);
        assert(base_colours()[12] == "#5555ff"@);
        assert(base_colours()[13] == "#ff55ff"@);
        assert(base_colours()[14] == "#55ffff"@);
        assert(base_colours()[15] == "#ffffff"@);
    }
    if 30 <= code <= 37 {
        assert(ansi_color_spec(code - 30) == base_colours()[code - 30]);
    }
    if 40 <= code <= 47 {
        assert(ansi_color_spec(code - 40) == base_colours()[code - 40]);
    }
    if 90 <= code <= 97 {
        assert(ansi_color_spec(code - 90 + 8) == base_colours()[code - 90 + 8]);
    }
    if 100 <= code <= 107 {
        assert(ansi_color_spec(code - 100 + 8) == base_colours()[code - 100 + 8]);
    }
}

/// An SGR foreground sequence followed by text renders as one span of that
/// colour around the escaped text: `ESC[3Nm` then `t` gives
/// `<span style="color:C">` + escape(t) + `</span>`, `C` the base colour N.
pub proof fn law_sgr_colour_render(code: u32, t: Seq<char>)
    requires
        30 <= code <= 37,
    ensures
        flatten(reset(render_tokens(initial_state(), seq![TokenView::Ansi(seq![code]), TokenView::Text(t)])).pieces)
            == "<span style=\""@ + "color:"@ + base_colours()[code - 30] + "\">"@ + escape_text(t) + "</span>"@,
{
    law_sgr_codes(initial_state(), code);
    let ts = seq![TokenView::Ansi(seq![code]), TokenView::Text(t)];
    let css = "color:"@ + base_colours()[code - 30];
    assert(ts.drop_last() =~= seq![TokenView::Ansi(seq![code])]);
    assert(ts.drop_last().drop_last() =~= Seq::<TokenView>::empty());
    assert(seq![code].drop_last() =~= Seq::<u32>::empty());
    let st1 = render_tokens(initial_state(), ts.drop_last());
    assert(ts.drop_last().last() == TokenView::Ansi(seq![code]));
    assert(render_tokens(initial_state(), ts.drop_last().drop_last()) == initial_state());
    assert(st1 == render_token(initial_state(), TokenView::Ansi(seq![code])));
    assert(st1 == apply_codes(initial_state(), seq![code]));
    assert(seq![code].len() == 1 && seq![code].last() == code);
    assert(apply_code_seq(initial_state(), seq![code].drop_last()) == initial_state());
    assert(apply_codes(initial_state(), seq![code]) == apply_code(initial_state(), code));
    assert(st1 == push_style(initial_state(), css));
    let st2 = render_tokens(initial_state(), ts);
    assert(st2.pieces =~= seq![Piece::Open(css), Piece::Text(t)]);
    assert(st2.depth == 1);
    assert(closes(0) =~= Seq::<Piece>::empty());
    assert(closes(1) == closes(0).push(Piece::Close));
    assert(closes(1) =~= seq![Piece::Close]);
    let ps = reset(st2).pieces;
    assert(ps =~= seq![Piece::Open(css), Piece::Text(t), Piece::Close]);
    assert(ps.drop_last() =~= seq![Piece::Open(css), Piece::Text(t)]);
    assert(ps.drop_last().drop_last() =~= seq![Piece::Open(css)]);
    assert(ps.drop_last().drop_last().drop_last() =~= Seq::<Piece>::empty());
    let f1 = flatten(ps.drop_last().drop_last());
    assert(f1 == flatten(Seq::<Piece>::empty()) + open_tag(css));
    assert(f1 =~= open_tag(css));
    let f2 = flatten(ps.drop_last());
    assert(f2 == f1 + escape_text(t));
    assert(flatten(ps) == f2 + "</span>"@);
    assert(flatten(ps) =~= "<span style=\""@ + css + "\">"@ + escape_text(t) + "</span>"@);
}

/// The intensities of the colour cube's six steps, written out.
pub open spec fn cube_steps() -> Seq<nat> {
    seq![0nat, 95nat, 135nat, 175nat, 215nat, 255nat]
}

/// `#rrggbb` in lower-case hexadecimal, by the digit table.
pub open spec fn css_rgb(r: nat, g: nat, b: nat) -> Seq<char> {
    let h = "0123456789abcdef"@;
    seq!['#', h[(r / 16) as int], h[(r % 16) as int], h[(g / 16) as int], h[(g % 16) as int],
        h[(b / 16) as int], h[(b % 16) as int]]
}

proof fn lemma_hex_digit(d: nat)
    requires
        d < 16,
    ensures
        hex_digit(d) == "0123456789abcdef"@[d as int],
{
    reveal_strlit("0123456789abcdef");
    assert(d == 0 || d == 1 || d == 2 || d == 3 || d == 4 || d == 5 || d == 6 || d == 7 || d == 8 || d == 9
        || d == 10 || d == 11 || d == 12 || d == 13 || d == 14 || d == 15);
}

proof fn lemma_css_rgb(r: nat, g: nat, b: nat)
    requires
        r < 256,
        g < 256,
        b < 256,
    ensures
        rgb_hex(r, g, b) == css_rgb(r, g, b),
{
    lemma_hex_digit(r / 16);
    lemma_hex_digit(r % 16);
    lemma_hex_digit(g / 16);
    lemma_hex_digit(g % 16);
    lemma_hex_digit(b / 16);
    lemma_hex_digit(b % 16);
    assert(rgb_hex(r, g, b) =~= css_rgb(r, g, b));
}

/// The xterm-256 palette: entries 0-15 are the base colours; entry
/// `16 + 36r + 6g + b` (each of r, g, b below 6) is the cube colour with
/// channel intensities 0, 95, 135, 175, 215, 255 for steps 0-5; entry
/// `232 + k` is the grey `8 + 10k` on all three channels.
pub proof fn law_xterm256_palette(index: u8)
    ensures
        index < 16 ==> xterm256_color_spec(index) == base_colours()[index as int],
        16 <= index < 232 ==> ({
            let i = index - 16;
            xterm256_color_spec(index) == css_rgb(cube_steps()[i / 36], cube_steps()[(i / 6) % 6], cube_steps()[i % 6])
        }),
        232 <= index ==> ({
            let grey = (8 + 10 * (index - 232)) as nat;
            xterm256_color_spec(index) == css_rgb(grey, grey, grey)
        }),
{
    let i = index as nat;
    if i < 16 {
        law_sgr_codes(initial_state(), 30);
        assert(index == 0 || index == 1 || index == 2 || index == 3 || index == 4 || index == 5 || index == 6
            || index == 7 || index == 8 || index == 9 || index == 10 || index == 11 || index == 12 || index == 13
            || index == 14 || index == 15);
    } else if i < 232 {
        let k = (i - 16) as nat;
        assert(k / 36 < 6 && (k / 6) % 6 < 6 && k % 6 < 6);
        assert forall|v: nat| v < 6 implies cube_level(v) == #[trigger] cube_steps()[v as int] by {
            assert(v == 0 || v == 1 || v == 2 || v == 3 || v == 4 || v == 5);
        }
        assert(cube_level(k / 36) == cube_steps()[(k / 36) as int]);
        assert(cube_level((k / 6) % 6) == cube_steps()[((k / 6) % 6) as int]);
        assert(cube_level(k % 6) == cube_steps()[(k % 6) as int]);
        lemma_css_rgb(cube_level(k / 36), cube_level((k / 6) % 6), cube_level(k % 6));
    } else {
        let level = ((i - 232) * 10 + 8) as nat;
        lemma_css_rgb(level, level, level);
    }
}

} // verus!
