//! Character-level helpers on strings: conversion between `str`/`String`
//! and character vectors, and the std string operations the converters use.
use vstd::prelude::*;
use vstd::utf8::*;
use vstd::string::*;

verus! {

/// The characters of `s`, in order.
pub fn str_to_chars(s: &str) -> (r: Vec<char>)
    ensures
        r@ == s@,
{
    let mut out: Vec<char> = Vec::new();
    for c in it: s.chars()
        invariant
            out@ == it.seq().take(it.index() as int),
            it.seq() == s@,
    {
        out.push(c);
    }
    out
}

/// `String::push`: appends one character.
#[verifier::external_body]
pub(crate) fn string_push(s: &mut String, c: char)
    ensures
        final(s)@ == old(s)@.push(c),
{
    s.push(c);
}

/// A `String` holding exactly the characters of `v`.
pub fn chars_to_string(v: &Vec<char>) -> (r: String)
    ensures
        r@ == v@,
{
    let mut out = String::new();
    let mut i: usize = 0;
    while i < v.len()
        invariant
            i <= v.len(),
            out@ == v@.take(i as int),
        decreases v.len() - i,
    {
        string_push(&mut out, v[i]);
        i += 1;
        assert(out@ =~= v@.take(i as int));
    }
    assert(v@.take(v.len() as int) =~= v@);
    out
}

/// Appends the characters of `s` to `out`.
pub fn push_str(out: &mut Vec<char>, s: &str)
    ensures
        final(out)@ == old(out)@ + s@,
{
    for c in it: s.chars()
        invariant
            out@ == old(out)@ + it.seq().take(it.index() as int),
            it.seq() == s@,
    {
        out.push(c);
        assert(old(out)@ + it.seq().take(it.index() + 1) =~= out@);
    }
}

/// Number of bytes in the UTF-8 encoding of `c`.
pub open spec fn char_width(c: char) -> nat {
    if (c as u32) < 0x80 {
        1
    } else if (c as u32) < 0x800 {
        2
    } else if (c as u32) < 0x10000 {
        3
    } else {
        4
    }
}

/// Number of bytes in the UTF-8 encoding of `s`.
pub open spec fn utf8_len(s: Seq<char>) -> nat
    decreases s.len(),
{
    if s.len() == 0 {
        0
    } else {
        char_width(s[0]) + utf8_len(s.drop_first())
    }
}

pub proof fn lemma_char_width(c: char)
    ensures
        encode_scalar(c as u32).len() == char_width(c),
{
    char_is_scalar(c);
}

pub proof fn lemma_utf8_len(s: Seq<char>)
    ensures
        encode_utf8(s).len() == utf8_len(s),
    decreases s.len(),
{
    if s.len() > 0 {
        lemma_char_width(s[0]);
        lemma_utf8_len(s.drop_first());
    }
}

pub proof fn lemma_encode_concat(a: Seq<char>, b: Seq<char>)
    ensures
        encode_utf8(a + b) == encode_utf8(a) + encode_utf8(b),
    decreases a.len(),
{
    if a.len() == 0 {
        assert(a + b =~= b);
    } else {
        assert((a + b).drop_first() =~= a.drop_first() + b);
        lemma_encode_concat(a.drop_first(), b);
        assert(encode_utf8(a + b) =~= encode_utf8(a) + encode_utf8(b));
    }
}

pub proof fn lemma_encode_injective(a: Seq<char>, b: Seq<char>)
    requires
        encode_utf8(a) == encode_utf8(b),
    ensures
        a == b,
{
    encode_utf8_decode_utf8(a);
    encode_utf8_decode_utf8(b);
}

proof fn lemma_prefix_is_boundary(s: Seq<char>, k: int)
    requires
        0 <= k <= s.len(),
    ensures
        is_char_boundary(encode_utf8(s), encode_utf8(s.take(k)).len() as int),
    decreases k,
{
    let bytes = encode_utf8(s);
    encode_utf8_valid_utf8(s);
    if k == 0 {
    } else {
        encode_utf8_first_scalar(s);
        assert(pop_first_scalar(bytes) =~= encode_utf8(s.drop_first()));
        assert(s.take(k).drop_first() =~= s.drop_first().take(k - 1));
        lemma_prefix_is_boundary(s.drop_first(), k - 1);
        assert(encode_utf8(s.take(k)).len() > 0);
    }
}

/// Splits `s` after its first `k` characters, given the byte length of
/// those characters.
pub fn split_at_chars<'a>(s: &'a str, Ghost(k): Ghost<int>, nbytes: usize) -> (r: (&'a str, &'a str))
    requires
        0 <= k <= s@.len(),
        nbytes == utf8_len(s@.take(k)),
    ensures
        r.0@ == s@.take(k),
        r.1@ == s@.skip(k),
{
    proof {
        lemma_utf8_len(s@.take(k));
        lemma_prefix_is_boundary(s@, k);
    }
    let r = s.split_at(nbytes);
    proof {
        assert(s@ =~= s@.take(k) + s@.skip(k));
        lemma_encode_concat(s@.take(k), s@.skip(k));
        let bytes = encode_utf8(s@);
        assert(bytes.subrange(0, nbytes as int) =~= encode_utf8(s@.take(k)));
        assert(bytes.subrange(nbytes as int, bytes.len() as int) =~= encode_utf8(s@.skip(k)));
        lemma_encode_injective(r.0@, s@.take(k));
        lemma_encode_injective(r.1@, s@.skip(k));
    }
    r
}

/// Number of bytes in the UTF-8 encoding of `c` (`char::len_utf8`).
pub fn char_len_utf8(c: char) -> (n: usize)
    ensures
        n == char_width(c),
{
    let v = c as u32;
    if v < 0x80 {
        1
    } else if v < 0x800 {
        2
    } else if v < 0x10000 {
        3
    } else {
        4
    }
}

/// Splits off the first character of a non-empty `s`.
pub fn split_first_char<'a>(s: &'a str) -> (r: (char, &'a str))
    requires
        s@.len() > 0,
    ensures
        s@ == seq![r.0] + r.1@,
        r.0 == s@[0],
        r.1@ == s@.skip(1),
{
    let c = s.get_char(0);
    let n = char_len_utf8(c);
    proof {
        assert(s@.take(1).drop_first() =~= Seq::<char>::empty());
        assert(utf8_len(s@.take(1).drop_first()) == 0);
        assert(s@.take(1)[0] == c);
        assert(utf8_len(s@.take(1)) == n);
    }
    let (_, rest) = split_at_chars(s, Ghost(1), n);
    assert(s@ =~= seq![c] + rest@);
    (c, rest)
}

/// True when `s` begins with `p`.
pub open spec fn starts_with(s: Seq<char>, p: Seq<char>) -> bool {
    p.len() <= s.len() && s.take(p.len() as int) == p
}

/// `str::starts_with` for a string prefix.
pub fn str_starts_with(s: &str, p: &str) -> (r: bool)
    ensures
        r == starts_with(s@, p@),
{
    let mut a = s;
    let mut b = p;
    let ghost mut k: int = 0;
    loop
        invariant
            0 <= k <= p@.len(),
            k <= s@.len(),
            a@ == s@.skip(k),
            b@ == p@.skip(k),
            s@.take(k) == p@.take(k),
        decreases b@.len(),
    {
        if b.is_empty() {
            assert(p@.take(k) =~= p@);
            return true;
        }
        if a.is_empty() {
            return false;
        }
        let (c1, a2) = split_first_char(a);
        let (c2, b2) = split_first_char(b);
        assert(a@[0] == c1 && b@[0] == c2);
        assert(s@.skip(k)[0] == s@[k] && p@.skip(k)[0] == p@[k]);
        if c1 != c2 {
            assert(s@[k] == c1 && p@[k] == c2);
            assert(!starts_with(s@, p@)) by {
                if starts_with(s@, p@) {
                    assert(s@.take(p@.len() as int)[k] == s@[k]);
                }
            }
            return false;
        }
        proof {
            assert(s@.take(k + 1) =~= s@.take(k).push(c1));
            assert(p@.take(k + 1) =~= p@.take(k).push(c2));
            assert(a2@ =~= s@.skip(k).skip(1));
            assert(b2@ =~= p@.skip(k).skip(1));
            assert(s@.skip(k).skip(1) =~= s@.skip(k + 1));
            assert(p@.skip(k).skip(1) =~= p@.skip(k + 1));
            k = k + 1;
        }
        a = a2;
        b = b2;
    }
}

/// `char::is_whitespace`: the Unicode `White_Space` property.
pub open spec fn is_whitespace(c: char) -> bool {
    let v = c as u32;
    ||| (0x09 <= v && v <= 0x0d)
    ||| v == 0x20
    ||| v == 0x85
    ||| v == 0xa0
    ||| v == 0x1680
    ||| (0x2000 <= v && v <= 0x200a)
    ||| v == 0x2028
    ||| v == 0x2029
    ||| v == 0x202f
    ||| v == 0x205f
    ||| v == 0x3000
}

pub fn char_is_whitespace(c: char) -> (r: bool)
    ensures
        r == is_whitespace(c),
{
    let v = c as u32;
    (0x09 <= v && v <= 0x0d) || v == 0x20 || v == 0x85 || v == 0xa0 || v == 0x1680 || (0x2000 <= v
        && v <= 0x200a) || v == 0x2028 || v == 0x2029 || v == 0x202f || v == 0x205f || v == 0x3000
}

/// Number of leading whitespace characters of `s`.
pub open spec fn leading_ws(s: Seq<char>) -> nat
    decreases s.len(),
{
    if s.len() == 0 {
        0
    } else if is_whitespace(s[0]) {
        1 + leading_ws(s.drop_first())
    } else {
        0
    }
}

/// `str::trim_start`: `s` without its leading whitespace.
pub open spec fn trim_start(s: Seq<char>) -> Seq<char> {
    s.skip(leading_ws(s) as int)
}

pub proof fn lemma_leading_ws_bound(s: Seq<char>)
    ensures
        leading_ws(s) <= s.len(),
    decreases s.len(),
{
    if s.len() > 0 {
        lemma_leading_ws_bound(s.drop_first());
    }
}

pub proof fn lemma_leading_ws(s: Seq<char>, j: int)
    requires
        0 <= j <= s.len(),
        forall|k: int| 0 <= k < j ==> is_whitespace(#[trigger] s[k]),
        j == s.len() || !is_whitespace(s[j]),
    ensures
        leading_ws(s) == j,
    decreases j,
{
    if j > 0 {
        assert forall|k: int| 0 <= k < j - 1 implies is_whitespace(#[trigger] s.drop_first()[k]) by {
            assert(s.drop_first()[k] == s[k + 1]);
        }
        if j < s.len() {
            assert(s.drop_first()[j - 1] == s[j]);
        }
        lemma_leading_ws(s.drop_first(), j - 1);
    }
}

/// Number of leading whitespace characters of `v`.
pub fn count_leading_ws(v: &Vec<char>) -> (n: usize)
    ensures
        n == leading_ws(v@),
        n <= v.len(),
{
    let mut i: usize = 0;
    while i < v.len() && char_is_whitespace(v[i])
        invariant
            i <= v.len(),
            forall|k: int| 0 <= k < i ==> is_whitespace(#[trigger] v@[k]),
        decreases v.len() - i,
    {
        i += 1;
    }
    proof {
        lemma_leading_ws(v@, i as int);
    }
    i
}

/// `v[from..]` as a new vector.
pub fn vec_skip(v: &Vec<char>, from: usize) -> (r: Vec<char>)
    requires
        from <= v.len(),
    ensures
        r@ == v@.skip(from as int),
{
    let mut out: Vec<char> = Vec::new();
    let mut i = from;
    while i < v.len()
        invariant
            from <= i <= v.len(),
            out@ == v@.subrange(from as int, i as int),
        decreases v.len() - i,
    {
        out.push(v[i]);
        i += 1;
        assert(out@ =~= v@.subrange(from as int, i as int));
    }
    out
}

/// `v[..n]` as a new vector.
pub fn vec_take(v: &Vec<char>, n: usize) -> (r: Vec<char>)
    requires
        n <= v.len(),
    ensures
        r@ == v@.take(n as int),
{
    let mut out: Vec<char> = Vec::new();
    let mut i: usize = 0;
    while i < n
        invariant
            i <= n <= v.len(),
            out@ == v@.take(i as int),
        decreases n - i,
    {
        out.push(v[i]);
        i += 1;
        assert(out@ =~= v@.take(i as int));
    }
    out
}

/// True when `p` occurs in `s` at index `i`.
pub open spec fn occurs_at(s: Seq<char>, p: Seq<char>, i: int) -> bool {
    0 <= i && i + p.len() <= s.len() && s.subrange(i, i + p.len()) == p
}

/// First index at or after `i` where `p` occurs in `s`.
pub open spec fn find_from(s: Seq<char>, p: Seq<char>, i: int) -> Option<nat>
    decreases s.len() + 1 - i,
{
    if i < 0 || i + p.len() > s.len() {
        None
    } else if occurs_at(s, p, i) {
        Some(i as nat)
    } else {
        find_from(s, p, i + 1)
    }
}

/// `str::find`: the first index where `p` occurs in `s`.
pub open spec fn find_seq(s: Seq<char>, p: Seq<char>) -> Option<nat> {
    find_from(s, p, 0)
}

pub proof fn lemma_find_from_bounds(s: Seq<char>, p: Seq<char>, i: int)
    ensures
        find_from(s, p, i) matches Some(j) ==> i <= j && j + p.len() <= s.len() && occurs_at(s, p, j as int),
    decreases s.len() + 1 - i,
{
    if !(i < 0 || i + p.len() > s.len()) && !occurs_at(s, p, i) {
        lemma_find_from_bounds(s, p, i + 1);
    }
}

fn occurs_at_exec(v: &Vec<char>, p: &Vec<char>, i: usize) -> (r: bool)
    requires
        i + p.len() <= v.len(),
    ensures
        r == occurs_at(v@, p@, i as int),
{
    let mut k: usize = 0;
    while k < p.len()
        invariant
            k <= p.len(),
            i + p.len() <= v.len(),
            forall|m: int| 0 <= m < k ==> v@[i + m] == p@[m],
        decreases p.len() - k,
    {
        if v[i + k] != p[k] {
            assert(v@.subrange(i as int, i + p.len())[k as int] == v@[i + k]);
            return false;
        }
        k += 1;
    }
    assert(v@.subrange(i as int, i + p.len()) =~= p@);
    true
}

/// The first index where `p` occurs in `v`.
pub fn find_vec(v: &Vec<char>, p: &Vec<char>) -> (r: Option<usize>)
    ensures
        r matches Some(j) ==> find_seq(v@, p@) == Some(j as nat),
        r is None ==> find_seq(v@, p@) is None,
{
    if p.len() > v.len() {
        return None;
    }
    if p.len() == 0 {
        assert(occurs_at(v@, p@, 0)) by {
            assert(v@.subrange(0, 0) =~= p@);
        }
        return Some(0);
    }
    let mut i: usize = 0;
    while i <= v.len() - p.len()
        invariant
            1 <= p.len() <= v.len(),
            i <= v.len() - p.len() + 1,
            find_seq(v@, p@) == find_from(v@, p@, i as int),
        decreases v.len() - i,
    {
        if occurs_at_exec(v, p, i) {
            return Some(i);
        }
        i += 1;
    }
    None
}

/// True when `v` begins with `p`.
pub fn vec_starts_with(v: &Vec<char>, p: &Vec<char>) -> (r: bool)
    ensures
        r == starts_with(v@, p@),
{
    if p.len() > v.len() {
        return false;
    }
    let r = occurs_at_exec(v, p, 0);
    assert(v@.subrange(0, p@.len() as int) =~= v@.take(p@.len() as int));
    r
}

/// ASCII lower-case form of one character.
pub open spec fn ascii_lower(c: char) -> char {
    if 'A' <= c && c <= 'Z' {
        ((c as u32) + 32) as char
    } else {
        c
    }
}

/// ASCII upper-case form of one character.
pub open spec fn ascii_upper(c: char) -> char {
    if 'a' <= c && c <= 'z' {
        ((c as u32) - 32) as char
    } else {
        c
    }
}

/// `str::to_ascii_lowercase`.
pub open spec fn to_ascii_lowercase(s: Seq<char>) -> Seq<char> {
    s.map_values(|c: char| ascii_lower(c))
}

/// `str::to_ascii_uppercase`.
pub open spec fn to_ascii_uppercase(s: Seq<char>) -> Seq<char> {
    s.map_values(|c: char| ascii_upper(c))
}

pub fn vec_to_ascii_lowercase(v: &Vec<char>) -> (r: Vec<char>)
    ensures
        r@ == to_ascii_lowercase(v@),
{
    let mut out: Vec<char> = Vec::new();
    let mut i: usize = 0;
    while i < v.len()
        invariant
            i <= v.len(),
            out@ == to_ascii_lowercase(v@.take(i as int)),
        decreases v.len() - i,
    {
        let c = v[i];
        let l = if 'A' <= c && c <= 'Z' {
            ((c as u32 + 32) as u8) as char
        } else {
            c
        };
        out.push(l);
        i += 1;
        assert(out@ =~= to_ascii_lowercase(v@.take(i as int)));
    }
    assert(v@.take(v.len() as int) =~= v@);
    out
}

pub fn vec_to_ascii_uppercase(v: &Vec<char>) -> (r: Vec<char>)
    ensures
        r@ == to_ascii_uppercase(v@),
{
    let mut out: Vec<char> = Vec::new();
    let mut i: usize = 0;
    while i < v.len()
        invariant
            i <= v.len(),
            out@ == to_ascii_uppercase(v@.take(i as int)),
        decreases v.len() - i,
    {
        let c = v[i];
        let u = if 'a' <= c && c <= 'z' {
            ((c as u32 - 32) as u8) as char
        } else {
            c
        };
        out.push(u);
        i += 1;
        assert(out@ =~= to_ascii_uppercase(v@.take(i as int)));
    }
    assert(v@.take(v.len() as int) =~= v@);
    out
}

/// `==` on string slices.
pub fn str_eq(a: &str, b: &str) -> (r: bool)
    ensures
        r == (a@ == b@),
{
    let mut x = a;
    let mut y = b;
    let ghost mut k: int = 0;
    loop
        invariant
            0 <= k <= a@.len(),
            k <= b@.len(),
            x@ == a@.skip(k),
            y@ == b@.skip(k),
            a@.take(k) == b@.take(k),
        decreases x@.len(),
    {
        if x.is_empty() || y.is_empty() {
            let r = x.is_empty() && y.is_empty();
            proof {
                if r {
                    assert(a@ =~= a@.take(k));
                    assert(b@ =~= b@.take(k));
                } else {
                    assert(a@.len() != b@.len());
                }
            }
            return r;
        }
        let (c1, x2) = split_first_char(x);
        let (c2, y2) = split_first_char(y);
        assert(x@[0] == c1 && y@[0] == c2);
        assert(a@.skip(k)[0] == a@[k] && b@.skip(k)[0] == b@[k]);
        if c1 != c2 {
            assert(a@[k] != b@[k]);
            return false;
        }
        proof {
            assert(a@.take(k + 1) =~= a@.take(k).push(c1));
            assert(b@.take(k + 1) =~= b@.take(k).push(c2));
            assert(x2@ =~= a@.skip(k).skip(1));
            assert(y2@ =~= b@.skip(k).skip(1));
            assert(a@.skip(k).skip(1) =~= a@.skip(k + 1));
            assert(b@.skip(k).skip(1) =~= b@.skip(k + 1));
            k = k + 1;
        }
        x = x2;
        y = y2;
    }
}

} // verus!
