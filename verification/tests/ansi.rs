use browser_cat::ansi::{
    ansi_chunk_to_html, ansi_color, ansi_to_html, ansi_token_of, malformed_token_of, parse_codes,
    tokenize, xterm256_color, xterm256_token_of, Token,
};

#[test]
fn plain_text_passthrough() {
    assert_eq!(ansi_to_html("hello world"), "hello world");
}

#[test]
fn html_entities_escaped() {
    assert_eq!(ansi_to_html("<b>&</b>"), "&lt;b&gt;&amp;&lt;/b&gt;");
}

#[test]
fn bold() {
    let input = "\x1b[1mhello\x1b[0m";
    let out = ansi_to_html(input);
    assert!(out.contains("font-weight:bold"));
    assert!(out.contains("hello"));
    assert!(out.ends_with("</span>"));
}

#[test]
fn foreground_colour() {
    let input = "\x1b[31mred\x1b[0m";
    let out = ansi_to_html(input);
    assert!(out.contains("color:#aa0000"));
    assert!(out.contains("red"));
}

#[test]
fn xterm256_foreground() {
    // index 196 = bright red in the 6x6x6 cube
    let input = "\x1b[38;5;196mred\x1b[0m";
    let out = ansi_to_html(input);
    assert!(out.contains("color:#"));
    assert!(out.contains("red"));
}

#[test]
fn xterm256_grayscale() {
    let input = "\x1b[38;5;240mtext\x1b[0m";
    let out = ansi_to_html(input);
    assert!(out.contains("color:#"));
}

#[test]
fn unclosed_spans_are_closed() {
    let input = "\x1b[1mbold without reset";
    let out = ansi_to_html(input);
    assert!(out.ends_with("</span>"));
}

#[test]
fn xterm256_palette_index0() {
    assert_eq!(xterm256_color(0), ansi_color(0));
}

#[test]
fn xterm256_palette_cube() {
    // index 16 = first entry of the 6x6x6 cube: r=0,g=0,b=0 → black
    assert_eq!(xterm256_color(16), "#000000");
    // index 231 = last of cube: r=5,g=5,b=5 → white
    assert_eq!(xterm256_color(231), "#ffffff");
}

#[test]
fn xterm256_palette_grayscale() {
    // index 232: level = 0*10+8 = 8 → #080808
    assert_eq!(xterm256_color(232), "#080808");
    // index 255: level = 23*10+8 = 238 → #eeeeee
    assert_eq!(xterm256_color(255), "#eeeeee");
}

// ── Exact outputs ────────────────────────────────────────────────────────────

#[test]
fn bold_exact_output() {
    assert_eq!(
        ansi_to_html("\x1b[1mhello\x1b[0m"),
        "<span style=\"font-weight:bold\">hello</span>"
    );
}

#[test]
fn unclosed_spans_closed_exactly() {
    assert_eq!(
        ansi_to_html("\x1b[1;31mx"),
        "<span style=\"font-weight:bold\"><span style=\"color:#aa0000\">x</span></span>"
    );
}

#[test]
fn xterm256_exact_colours() {
    assert_eq!(
        ansi_to_html("\x1b[38;5;196mred\x1b[0m"),
        "<span style=\"color:#ff0000\">red</span>"
    );
    assert_eq!(
        ansi_to_html("\x1b[48;5;240mx"),
        "<span style=\"background-color:#585858\">x</span>"
    );
}

#[test]
fn bright_and_background_colours() {
    assert_eq!(
        ansi_to_html("\x1b[92;104mx\x1b[49m"),
        "<span style=\"color:#55ff55\"><span style=\"background-color:#5555ff\">x</span></span>"
    );
    assert_eq!(
        ansi_to_html("\x1b[47mx\x1b[39my"),
        "<span style=\"background-color:#aaaaaa\">x</span>y"
    );
}

#[test]
fn every_style_code() {
    let cases = [
        (2, "opacity:0.5"),
        (3, "font-style:italic"),
        (4, "text-decoration:underline"),
        (5, "text-decoration:blink"),
        (6, "text-decoration:blink"),
        (7, "filter:invert(100%)"),
        (8, "visibility:hidden"),
        (9, "text-decoration:line-through"),
    ];
    for (code, css) in cases {
        let out = ansi_to_html(&format!("\x1b[{}mx", code));
        assert_eq!(out, format!("<span style=\"{}\">x</span>", css));
    }
}

#[test]
fn empty_sgr_resets() {
    assert_eq!(
        ansi_to_html("\x1b[1ma\x1b[mb"),
        "<span style=\"font-weight:bold\">a</span>b"
    );
}

#[test]
fn unknown_codes_are_ignored() {
    assert_eq!(ansi_to_html("\x1b[38mx\x1b[12my"), "xy");
}

#[test]
fn other_csi_sequences_are_dropped() {
    assert_eq!(ansi_to_html("a\x1b[2Jb\x1b[10;5Hc"), "abc");
}

#[test]
fn bare_escape_is_dropped() {
    assert_eq!(ansi_to_html("a\x1bb"), "ab");
    assert_eq!(ansi_to_html("\x1b"), "");
}

#[test]
fn backspace_erases_text() {
    assert_eq!(ansi_to_html("ab\x08c"), "ac");
    assert_eq!(ansi_to_html("\x08x"), "x");
    // Nothing written yet: the tag stays whole.
    assert_eq!(
        ansi_to_html("\x1b[1m\x08x"),
        "<span style=\"font-weight:bold\">x</span>"
    );
    // The last character of text goes, even before a later tag; an escaped
    // character goes whole.
    assert_eq!(
        ansi_to_html("a&\x1b[1mb\x1b[0m\x08\x08\x08"),
        "<span style=\"font-weight:bold\"></span>"
    );
    assert_eq!(
        ansi_to_html("x<\x1b[1m\x08"),
        "x<span style=\"font-weight:bold\"></span>"
    );
}

#[test]
fn multibyte_text_is_kept() {
    assert_eq!(ansi_to_html("héllo → \x1b[1m世界\x1b[0m"), "héllo → <span style=\"font-weight:bold\">世界</span>");
}

#[test]
fn unicode_digits_do_not_parse() {
    // `\d` takes Unicode digits, `parse` does not: the code is dropped.
    assert_eq!(ansi_to_html("\x1b[٣mx"), "x");
}

#[test]
fn chunk_conversion_matches_whole_conversion() {
    let input = "\x1b[31mred\x1b[0m plain <&>";
    assert_eq!(ansi_chunk_to_html(input), ansi_to_html(input));
}

#[test]
fn empty_input() {
    assert_eq!(ansi_to_html(""), "");
}

#[test]
fn palette_base_colours() {
    assert_eq!(ansi_color(1), "#aa0000");
    assert_eq!(ansi_color(15), "#ffffff");
    for i in 0..16u8 {
        assert_eq!(xterm256_color(i), ansi_color(i as usize));
    }
}

#[test]
fn palette_entries_are_css_hex() {
    for i in 0..=255u8 {
        let c = xterm256_color(i);
        assert_eq!(c.len(), 7);
        assert!(c.starts_with('#'));
        assert!(c[1..].chars().all(|ch| ch.is_ascii_hexdigit() && !ch.is_ascii_uppercase()));
    }
    assert_eq!(xterm256_color(17), "#00005f");
    assert_eq!(xterm256_color(124), "#af0000");
}

// ── Tokens ───────────────────────────────────────────────────────────────────

#[test]
fn tokenize_splits_text_and_sequences() {
    let toks = tokenize("ab\x1b[1;2mc\x08\x1b[38;5;9md\x1b[Ke");
    assert_eq!(toks.len(), 8);
    assert!(matches!(&toks[0], Token::Text(t) if t == "ab"));
    assert!(matches!(&toks[1], Token::Ansi(c) if c == &vec![1, 2]));
    assert!(matches!(&toks[2], Token::Text(t) if t == "c"));
    assert!(matches!(&toks[3], Token::Backspace));
    assert!(matches!(&toks[4], Token::Xterm256Fg(9)));
    assert!(matches!(&toks[5], Token::Text(t) if t == "d"));
    assert!(matches!(&toks[6], Token::Ignore));
    assert!(matches!(&toks[7], Token::Text(t) if t == "e"));
}

#[test]
fn tokenize_background_selection() {
    let toks = tokenize("\x1b[48;5;300m");
    // 300 does not fit a palette index: index 0.
    assert!(matches!(&toks[0], Token::Xterm256Bg(0)));
}

#[test]
fn parse_codes_drops_empty_and_bad_fields() {
    assert_eq!(parse_codes("1;;31"), vec![1, 31]);
    assert_eq!(parse_codes(""), Vec::<u32>::new());
    assert_eq!(parse_codes(";"), Vec::<u32>::new());
    assert_eq!(parse_codes("4294967295;4294967296;+7"), vec![4294967295, 7]);
}

#[test]
fn xterm_token_from_match_result() {
    let s = "\x1b[38;5;42mrest";
    let r = xterm256_token_of(s, Some((0, 10, Some("42".to_string()))));
    let (t, after) = r.unwrap();
    assert!(matches!(t, Token::Xterm256Fg(42)));
    assert_eq!(after, "rest");
    // A match that does not start at the front is no token.
    assert!(xterm256_token_of(s, Some((3, 10, None))).is_none());
    assert!(xterm256_token_of(s, None).is_none());
    // An empty match is no token.
    assert!(xterm256_token_of(s, Some((0, 0, None))).is_none());
    // A match that ends inside a character is no token.
    assert!(xterm256_token_of("\x1b€", Some((0, 2, None))).is_none());
    // A background selection.
    let (t, _) = xterm256_token_of("\x1b[48;5;7m", Some((0, 9, Some("7".to_string())))).unwrap();
    assert!(matches!(t, Token::Xterm256Bg(7)));
}

#[test]
fn ansi_token_from_match_result() {
    let (t, after) = ansi_token_of("\x1b[1;32mx", Some((0, 7, Some("1;32".to_string())))).unwrap();
    assert!(matches!(t, Token::Ansi(c) if c == vec![1, 32]));
    assert_eq!(after, "x");
    let (t, _) = ansi_token_of("\x1b[m", Some((0, 3, None))).unwrap();
    assert!(matches!(t, Token::Ansi(c) if c.is_empty()));
}

#[test]
fn malformed_token_from_match_result() {
    assert_eq!(malformed_token_of("\x1b[2Jx", Some((0, 4, None))), Some("x"));
    assert_eq!(malformed_token_of("\x1b[2Jx", Some((1, 4, None))), None);
}
