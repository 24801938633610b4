//! HTML text escaping, done by the `html-escape` crate.
use vstd::prelude::*;

verus! {

/// The escaped form of one character: `&`, `<` and `>` become entities,
/// every other character stands for itself.
pub open spec fn escape_char(c: char) -> Seq<char> {
    if c == '&' {
        seq!['&', 'a', 'm', 'p', ';']
    } else if c == '<' {
        seq!['&', 'l', 't', ';']
    } else if c == '>' {
        seq!['&', 'g', 't', ';']
    } else {
        seq![c]
    }
}

/// `s` with every character replaced by its escaped form.
pub open spec fn escape_text(s: Seq<char>) -> Seq<char>
    decreases s.len(),
{
    if s.len() == 0 {
        Seq::empty()
    } else {
        escape_text(s.drop_last()) + escape_char(s.last())
    }
}

/// Escaping distributes over concatenation.
pub proof fn lemma_escape_concat(a: Seq<char>, b: Seq<char>)
    ensures
        escape_text(a + b) == escape_text(a) + escape_text(b),
    decreases b.len(),
{
    if b.len() == 0 {
        assert(a + b =~= a);
        assert(escape_text(a) + escape_text(b) =~= escape_text(a));
    } else {
        assert((a + b).drop_last() =~= a + b.drop_last());
        assert((a + b).last() == b.last());
        lemma_escape_concat(a, b.drop_last());
        assert(escape_text(a + b) =~= escape_text(a) + escape_text(b));
    }
}

/// No `<` survives escaping.
pub proof fn lemma_escape_no_lt(s: Seq<char>)
    ensures
        !escape_text(s).contains('<'),
    decreases s.len(),
{
    if s.len() > 0 {
        lemma_escape_no_lt(s.drop_last());
        let e = escape_text(s);
        assert forall|i: int| 0 <= i < e.len() implies e[i] != '<' by {
            let p = escape_text(s.drop_last());
            if i >= p.len() {
                assert(e[i] == escape_char(s.last())[i - p.len()]);
            } else {
                assert(e[i] == p[i]);
            }
        }
    }
}

/// A string with none of `&`, `<`, `>` escapes to itself.
pub proof fn lemma_escape_plain(s: Seq<char>)
    requires
        !s.contains('&'),
        !s.contains('<'),
        !s.contains('>'),
    ensures
        escape_text(s) == s,
    decreases s.len(),
{
    if s.len() > 0 {
        assert(!s.drop_last().contains('&') && !s.drop_last().contains('<') && !s.drop_last().contains('>')) by {
            assert forall|i: int| 0 <= i < s.drop_last().len() implies s.drop_last()[i] == s[i] by {}
        }
        lemma_escape_plain(s.drop_last());
        assert(s.last() == s[s.len() - 1]);
        assert(s.drop_last() + seq![s.last()] =~= s);
    }
}

/// `html_escape::encode_text`: the text with every `&`, `<` and `>`
/// replaced by `&amp;`, `&lt;` and `&gt;` (the crate's documented behaviour
/// of `encode_text`, and what its escape table holds); all other characters
/// are copied unchanged.
#[verifier::external_body]
pub(crate) fn encode_text(s: &str) -> (r: String)
    ensures
        r@ == escape_text(s@),
{
    html_escape::encode_text(s).into_owned()
}

} // verus!
