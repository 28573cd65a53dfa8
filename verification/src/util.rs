//! Text helpers every page is built from: escaping, percent-encoding, query
//! strings and cookies, and the small number formats the pages print.
//!
//! Strings are modelled by their views, `Seq<char>`; percent-encoding works on
//! the UTF-8 bytes, `encode_utf8` of the view.

use vstd::prelude::*;
use vstd::utf8::*;
use vstd::string::StringSliceAdditionalSpecFns;

verus! {

broadcast use vstd::string::group_string_axioms;

// ---------------------------------------------------------------------------
// Building strings

/// Appends one character. `String::push`, which vstd leaves unspecified.
#[verifier::external_body]
pub(crate) fn push_char(s: &mut String, c: char)
    ensures
        final(s)@ == old(s)@.push(c),
{
    s.push(c);
}

/// Appends a string slice. `String::push_str`.
#[verifier::external_body]
pub(crate) fn push_str(s: &mut String, t: &str)
    ensures
        final(s)@ == old(s)@ + t@,
{
    s.push_str(t);
}

/// What `String::from_utf8_lossy` makes of a byte string.
pub uninterp spec fn lossy_utf8(b: Seq<u8>) -> Seq<char>;

/// A string from raw bytes, with every invalid sequence replaced.
/// `String::from_utf8_lossy`: the result is a function of the bytes, and valid
/// UTF-8 comes back as the text it encodes.
#[verifier::external_body]
pub(crate) fn utf8_lossy(b: &[u8]) -> (r: String)
    ensures
        r@ == lossy_utf8(b@),
        valid_utf8(b@) ==> r@ == decode_utf8(b@),
{
    String::from_utf8_lossy(b).into_owned()
}

/// The characters of a string slice, in order.
pub fn chars_of(s: &str) -> (v: Vec<char>)
    ensures
        v@ == s@,
{
    let mut v: Vec<char> = Vec::new();
    for c in it: s.chars()
        invariant
            v@ == it.seq().take(it.index() as int),
    {
        v.push(c);
    }
    v
}

/// A string holding exactly these characters.
pub fn string_of(v: &[char]) -> (s: String)
    ensures
        s@ == v@,
{
    let mut s = String::new();
    let mut i: usize = 0;
    while i < v.len()
        invariant
            i <= v@.len(),
            s@ == v@.take(i as int),
        decreases v@.len() - i,
    {
        push_char(&mut s, v[i]);
        i = i + 1;
        assert(v@.take(i as int) == v@.take(i - 1).push(v@[i - 1]));
    }
    assert(v@.take(v@.len() as int) == v@);
    s
}

/// A copy of a string slice as an owned string.
pub fn owned(t: &str) -> (s: String)
    ensures
        s@ == t@,
{
    let mut s = String::new();
    push_str(&mut s, t);
    s
}

/// Concatenation of a list of character sequences.
pub open spec fn concat(parts: Seq<Seq<char>>) -> Seq<char>
    decreases parts.len(),
{
    if parts.len() == 0 {
        Seq::empty()
    } else {
        concat(parts.drop_last()) + parts.last()
    }
}

/// `f` applied to every character, the results run together.
pub open spec fn flat_map(s: Seq<char>, f: spec_fn(char) -> Seq<char>) -> Seq<char>
    decreases s.len(),
{
    if s.len() == 0 {
        Seq::empty()
    } else {
        flat_map(s.drop_last(), f) + f(s.last())
    }
}

/// `f` applied to every byte, the results run together.
pub open spec fn flat_map_bytes(s: Seq<u8>, f: spec_fn(u8) -> Seq<char>) -> Seq<char>
    decreases s.len(),
{
    if s.len() == 0 {
        Seq::empty()
    } else {
        flat_map_bytes(s.drop_last(), f) + f(s.last())
    }
}

pub proof fn lemma_flat_map_step(s: Seq<char>, i: int, f: spec_fn(char) -> Seq<char>)
    requires
        0 <= i < s.len(),
    ensures
        flat_map(s.take(i + 1), f) == flat_map(s.take(i), f) + f(s[i]),
{
    assert(s.take(i + 1).drop_last() == s.take(i));
}

pub proof fn lemma_flat_map_bytes_step(s: Seq<u8>, i: int, f: spec_fn(u8) -> Seq<char>)
    requires
        0 <= i < s.len(),
    ensures
        flat_map_bytes(s.take(i + 1), f) == flat_map_bytes(s.take(i), f) + f(s[i]),
{
    assert(s.take(i + 1).drop_last() == s.take(i));
}

/// `flat_map` distributes over concatenation.
pub proof fn lemma_flat_map_append(a: Seq<char>, b: Seq<char>, f: spec_fn(char) -> Seq<char>)
    ensures
        flat_map(a + b, f) == flat_map(a, f) + flat_map(b, f),
    decreases b.len(),
{
    if b.len() == 0 {
        assert(a + b == a);
    } else {
        lemma_flat_map_append(a, b.drop_last(), f);
        assert((a + b).drop_last() == a + b.drop_last());
    }
}

// ---------------------------------------------------------------------------
// HTML escaping

/// What one character becomes in HTML text or a quoted attribute value.
pub open spec fn escape_char(c: char) -> Seq<char> {
    if c == '&' {
        seq!['&', 'a', 'm', 'p', ';']
    } else if c == '<' {
        seq!['&', 'l', 't', ';']
    } else if c == '>' {
        seq!['&', 'g', 't', ';']
    } else if c == '"' {
        seq!['&', 'q', 'u', 'o', 't', ';']
    } else if c == '\'' {
        seq!['&', '#', '3', '9', ';']
    } else {
        seq![c]
    }
}

pub open spec fn html_escaped(s: Seq<char>) -> Seq<char> {
    flat_map(s, |c: char| escape_char(c))
}

/// Text that is safe inside an element or a quoted attribute: `&`, `<`, `>`,
/// `"` and `'` as entities, everything else as itself.
pub fn html_escape(s: &str) -> (r: String)
    ensures
        r@ == html_escaped(s@),
{
    let v = chars_of(s);
    let mut out = String::new();
    let mut i: usize = 0;
    while i < v.len()
        invariant
            v@ == s@,
            i <= v@.len(),
            out@ == html_escaped(v@.take(i as int)),
        decreases v@.len() - i,
    {
        let c = v[i];
        if c == '&' {
            push_char(&mut out, '&');
            push_char(&mut out, 'a');
            push_char(&mut out, 'm');
            push_char(&mut out, 'p');
            push_char(&mut out, ';');
        } else if c == '<' {
            push_char(&mut out, '&');
            push_char(&mut out, 'l');
            push_char(&mut out, 't');
            push_char(&mut out, ';');
        } else if c == '>' {
            push_char(&mut out, '&');
            push_char(&mut out, 'g');
            push_char(&mut out, 't');
            push_char(&mut out, ';');
        } else if c == '"' {
            push_char(&mut out, '&');
            push_char(&mut out, 'q');
            push_char(&mut out, 'u');
            push_char(&mut out, 'o');
            push_char(&mut out, 't');
            push_char(&mut out, ';');
        } else if c == '\'' {
            push_char(&mut out, '&');
            push_char(&mut out, '#');
            push_char(&mut out, '3');
            push_char(&mut out, '9');
            push_char(&mut out, ';');
        } else {
            push_char(&mut out, c);
        }
        proof {
            lemma_flat_map_step(v@, i as int, |c: char| escape_char(c));
        }
        i = i + 1;
    }
    assert(v@.take(v@.len() as int) == v@);
    out
}

/// Escaping leaves no character that could open a tag or end an attribute.
pub proof fn law_escaped_has_no_markup(s: Seq<char>)
    ensures
        forall|k: int|
            0 <= k < html_escaped(s).len() ==> {
                let c = #[trigger] html_escaped(s)[k];
                c != '<' && c != '>' && c != '"' && c != '\''
            },
    decreases s.len(),
{
    if s.len() > 0 {
        law_escaped_has_no_markup(s.drop_last());
        let a = html_escaped(s.drop_last());
        let b = escape_char(s.last());
        assert(html_escaped(s) == a + b);
        assert forall|k: int| 0 <= k < html_escaped(s).len() implies {
            let c = #[trigger] html_escaped(s)[k];
            c != '<' && c != '>' && c != '"' && c != '\''
        } by {
            if k >= a.len() {
                assert(html_escaped(s)[k] == b[k - a.len()]);
            } else {
                assert(html_escaped(s)[k] == a[k]);
            }
        }
    }
}

// ---------------------------------------------------------------------------
// Percent-encoding

pub open spec fn is_unreserved(b: u8) -> bool {
    (65u8 <= b <= 90u8) || (97u8 <= b <= 122u8) || (48u8 <= b <= 57u8) || b == 45u8 || b
        == 46u8 || b == 95u8 || b == 126u8
}

/// The upper-case hex digit of a value below sixteen.
pub open spec fn hex_digit(n: u8) -> char {
    if n < 10 {
        (n + 48) as char
    } else {
        (n + 55) as char
    }
}

pub open spec fn encode_byte(b: u8) -> Seq<char> {
    if is_unreserved(b) {
        seq![b as char]
    } else {
        seq!['%', hex_digit(b / 16), hex_digit(b % 16)]
    }
}

/// Percent-encoding of a byte string: unreserved bytes as themselves, every
/// other byte as `%XX` in upper-case hex.
pub open spec fn pct_encoded(b: Seq<u8>) -> Seq<char> {
    flat_map_bytes(b, |x: u8| encode_byte(x))
}

fn hex_char(n: u8) -> (c: char)
    requires
        n < 16,
    ensures
        c == hex_digit(n),
{
    if n < 10 {
        (n + 48) as char
    } else {
        (n + 55) as char
    }
}

/// `s` with every byte outside the unreserved set written as `%XX`, so the
/// result is safe in a path segment, a query value and a cookie alike.
pub fn percent_encode(s: &str) -> (r: String)
    ensures
        r@ == pct_encoded(s.spec_bytes()),
{
    let b = s.as_bytes();
    let mut out = String::new();
    let mut i: usize = 0;
    while i < b.len()
        invariant
            b@ == s.spec_bytes(),
            i <= b@.len(),
            out@ == pct_encoded(b@.take(i as int)),
        decreases b@.len() - i,
    {
        let x = b[i];
        if (65u8 <= x && x <= 90u8) || (97u8 <= x && x <= 122u8) || (48u8 <= x && x <= 57u8)
            || x == 45u8 || x == 46u8 || x == 95u8 || x == 126u8 {
            push_char(&mut out, x as char);
        } else {
            push_char(&mut out, '%');
            push_char(&mut out, hex_char(x / 16));
            push_char(&mut out, hex_char(x % 16));
        }
        proof {
            lemma_flat_map_bytes_step(b@, i as int, |x: u8| encode_byte(x));
        }
        i = i + 1;
    }
    assert(b@.take(b@.len() as int) == b@);
    out
}

/// The value of a hex digit, upper or lower case.
pub open spec fn hex_value(c: u8) -> Option<u8> {
    if 48u8 <= c <= 57u8 {
        Some((c - 48u8) as u8)
    } else if 97u8 <= c <= 102u8 {
        Some((c - 97u8 + 10) as u8)
    } else if 65u8 <= c <= 70u8 {
        Some((c - 65u8 + 10) as u8)
    } else {
        None
    }
}

fn hex_val(c: u8) -> (r: Option<u8>)
    ensures
        r == hex_value(c),
{
    if 48u8 <= c && c <= 57u8 {
        Some(c - 48u8)
    } else if 97u8 <= c && c <= 102u8 {
        Some(c - 97u8 + 10)
    } else if 65u8 <= c && c <= 70u8 {
        Some(c - 65u8 + 10)
    } else {
        None
    }
}

/// Bytes of `b` with every `%XX` of two hex digits replaced by the byte it
/// names; anything else, a stray `%` included, passes through.
pub open spec fn pct_decoded(b: Seq<u8>) -> Seq<u8>
    decreases b.len(),
{
    if b.len() == 0 {
        Seq::empty()
    } else if b.len() >= 3 && b[0] == 37u8 && hex_value(b[1]) is Some && hex_value(b[2]) is Some {
        seq![(hex_value(b[1]).unwrap() * 16 + hex_value(b[2]).unwrap()) as u8] + pct_decoded(
            b.skip(3),
        )
    } else {
        seq![b[0]] + pct_decoded(b.skip(1))
    }
}

/// The raw bytes that `s` percent-encodes.
pub fn percent_decode_bytes(s: &str) -> (r: Vec<u8>)
    ensures
        r@ == pct_decoded(s.spec_bytes()),
{
    let b = s.as_bytes();
    let mut out: Vec<u8> = Vec::new();
    let mut i: usize = 0;
    assert(b@.skip(0) == b@);
    while i < b.len()
        invariant
            b@ == s.spec_bytes(),
            i <= b@.len(),
            out@ + pct_decoded(b@.skip(i as int)) == pct_decoded(b@),
        decreases b@.len() - i,
    {
        let ghost rest = b@.skip(i as int);
        if b.len() - i > 2 && b[i] == 37u8 {
            let h = hex_val(b[i + 1]);
            let l = hex_val(b[i + 2]);
            if h.is_some() && l.is_some() {
                let hv = h.unwrap();
                let lv = l.unwrap();
                let byte: u8 = hv * 16 + lv;
                proof {
                    assert(rest[0] == b@[i as int]);
                    assert(rest[1] == b@[i + 1]);
                    assert(rest[2] == b@[i + 2]);
                    assert(rest.skip(3) == b@.skip(i + 3));
                    assert(out@.push(byte) + pct_decoded(b@.skip(i + 3)) == out@ + pct_decoded(
                        rest,
                    ));
                }
                out.push(byte);
                i = i + 3;
                continue;
            }
        }
        proof {
            assert(rest[0] == b@[i as int]);
            assert(rest.skip(1) == b@.skip(i + 1));
            assert(out@.push(b@[i as int]) + pct_decoded(b@.skip(i + 1)) == out@ + pct_decoded(
                rest,
            ));
        }
        out.push(b[i]);
        i = i + 1;
    }
    assert(b@.skip(b@.len() as int) == Seq::<u8>::empty());
    out
}

/// The text a byte string reads as: its decoding where it is UTF-8, with
/// every invalid sequence replaced otherwise.
pub open spec fn text_of(b: Seq<u8>) -> Seq<char> {
    if valid_utf8(b) {
        decode_utf8(b)
    } else {
        lossy_utf8(b)
    }
}

/// Text `s` percent-decodes to.
pub open spec fn pct_decode_text(s: Seq<char>) -> Seq<char> {
    text_of(pct_decoded(encode_utf8(s)))
}

/// `s` with its `%XX` escapes decoded, read back as UTF-8 (invalid sequences
/// replaced).
pub fn percent_decode(s: &str) -> (r: String)
    ensures
        r@ == pct_decode_text(s@),
        valid_utf8(pct_decoded(s.spec_bytes())) ==> r@ == decode_utf8(pct_decoded(s.spec_bytes())),
{
    let bytes = percent_decode_bytes(s);
    utf8_lossy(bytes.as_slice())
}


/// The byte an upper-case hex digit is written as.
pub open spec fn hex_byte(n: u8) -> u8 {
    if n < 10 {
        (n + 48) as u8
    } else {
        (n + 55) as u8
    }
}

/// What one byte is percent-encoded as, in bytes.
pub open spec fn encode_byte_bytes(x: u8) -> Seq<u8> {
    if is_unreserved(x) {
        seq![x]
    } else {
        seq![37u8, hex_byte(x / 16), hex_byte(x % 16)]
    }
}

/// A byte string percent-encoded, in bytes.
pub open spec fn pct_encoded_bytes(b: Seq<u8>) -> Seq<u8>
    decreases b.len(),
{
    if b.len() == 0 {
        Seq::empty()
    } else {
        pct_encoded_bytes(b.drop_last()) + encode_byte_bytes(b.last())
    }
}

proof fn lemma_decode_one(x: u8, rest: Seq<u8>)
    ensures
        pct_decoded(encode_byte_bytes(x) + rest) == seq![x] + pct_decoded(rest),
{
    let e = encode_byte_bytes(x);
    if is_unreserved(x) {
        assert((e + rest)[0] == x);
        assert((e + rest).skip(1) =~= rest);
    } else {
        let hi = x / 16;
        let lo = x % 16;
        assert(hex_value(hex_byte(hi)) == Some(hi));
        assert(hex_value(hex_byte(lo)) == Some(lo));
        assert((e + rest)[0] == 37u8);
        assert((e + rest)[1] == hex_byte(hi));
        assert((e + rest)[2] == hex_byte(lo));
        assert((e + rest).skip(3) =~= rest);
        assert((hi * 16 + lo) as u8 == x);
    }
}

proof fn lemma_decode_encoded(b: Seq<u8>, rest: Seq<u8>)
    ensures
        pct_decoded(pct_encoded_bytes(b) + rest) == b + pct_decoded(rest),
    decreases b.len(),
{
    if b.len() == 0 {
        assert(pct_encoded_bytes(b) + rest =~= rest);
        assert(b + pct_decoded(rest) =~= pct_decoded(rest));
    } else {
        let init = b.drop_last();
        let x = b.last();
        assert(pct_encoded_bytes(b) + rest =~= pct_encoded_bytes(init) + (encode_byte_bytes(x) + rest));
        lemma_decode_encoded(init, encode_byte_bytes(x) + rest);
        lemma_decode_one(x, rest);
        assert(init + (seq![x] + pct_decoded(rest)) =~= b + pct_decoded(rest));
    }
}

/// Every character of a percent-encoding is ASCII, and its bytes are
/// `pct_encoded_bytes`.
proof fn lemma_encoded_ascii(b: Seq<u8>)
    ensures
        is_ascii_chars(pct_encoded(b)),
        pct_encoded(b).len() == pct_encoded_bytes(b).len(),
        forall|i: int| 0 <= i < pct_encoded(b).len() ==> #[trigger] pct_encoded(b)[i] as u8 == pct_encoded_bytes(b)[i],
        forall|i: int| 0 <= i < pct_encoded(b).len() ==> is_unreserved(#[trigger] pct_encoded(b)[i] as u8) || pct_encoded(b)[i] == '%',
    decreases b.len(),
{
    if b.len() > 0 {
        let init = b.drop_last();
        let x = b.last();
        lemma_encoded_ascii(init);
        let a = pct_encoded(init);
        let e = encode_byte(x);
        assert(pct_encoded(b) == a + e);
        assert(pct_encoded_bytes(b) == pct_encoded_bytes(init) + encode_byte_bytes(x));
        assert forall|i: int| 0 <= i < e.len() implies '\0' <= #[trigger] e[i] <= '\u{7f}' && e[i] as u8 == encode_byte_bytes(x)[i]
            && (is_unreserved(e[i] as u8) || e[i] == '%') by {
            if is_unreserved(x) {
                assert(x < 128);
            } else {
                assert(x / 16 < 16);
                assert(x % 16 < 16);
            }
        }
        assert forall|i: int| 0 <= i < pct_encoded(b).len() implies '\0' <= #[trigger] pct_encoded(b)[i] <= '\u{7f}' by {
            if i >= a.len() {
                assert(pct_encoded(b)[i] == e[i - a.len()]);
            }
        }
        assert forall|i: int| 0 <= i < pct_encoded(b).len() implies #[trigger] pct_encoded(b)[i] as u8 == pct_encoded_bytes(b)[i] by {
            if i >= a.len() {
                assert(pct_encoded(b)[i] == e[i - a.len()]);
            }
        }
        assert forall|i: int| 0 <= i < pct_encoded(b).len() implies is_unreserved(#[trigger] pct_encoded(b)[i] as u8) || pct_encoded(b)[i] == '%' by {
            if i >= a.len() {
                assert(pct_encoded(b)[i] == e[i - a.len()]);
            }
        }
    }
}

/// Percent-decoding undoes percent-encoding: the text a string encodes to
/// decodes, as bytes, to the string's own UTF-8, which reads back as the
/// string.
pub proof fn law_percent_round_trip(s: Seq<char>)
    ensures
        pct_decoded(encode_utf8(pct_encoded(encode_utf8(s)))) == encode_utf8(s),
        valid_utf8(pct_decoded(encode_utf8(pct_encoded(encode_utf8(s))))),
        decode_utf8(pct_decoded(encode_utf8(pct_encoded(encode_utf8(s))))) == s,
{
    let b = encode_utf8(s);
    let t = pct_encoded(b);
    lemma_encoded_ascii(b);
    is_ascii_chars_encode_utf8(t);
    assert(encode_utf8(t) =~= pct_encoded_bytes(b));
    lemma_decode_encoded(b, Seq::empty());
    assert(pct_encoded_bytes(b) + Seq::<u8>::empty() =~= pct_encoded_bytes(b));
    assert(b + pct_decoded(Seq::<u8>::empty()) =~= b);
    encode_utf8_valid_utf8(s);
    encode_utf8_decode_utf8(s);
}

/// A percent-encoding holds nothing but unreserved characters and `%`: no
/// `|`, `/`, `&`, `=` or `;` to be taken for a separator.
pub proof fn law_encoded_is_unreserved(b: Seq<u8>, i: int)
    requires
        0 <= i < pct_encoded(b).len(),
    ensures
        pct_encoded(b)[i] <= '\u{7f}',
        is_unreserved(pct_encoded(b)[i] as u8) || pct_encoded(b)[i] == '%',
        pct_encoded(b)[i] != '|' && pct_encoded(b)[i] != '/' && pct_encoded(b)[i] != '&'
            && pct_encoded(b)[i] != '=' && pct_encoded(b)[i] != ';',
{
    lemma_encoded_ascii(b);
}

// ---------------------------------------------------------------------------
// Character classes

/// `char::is_whitespace`: the Unicode White_Space property.
pub open spec fn is_ws(c: char) -> bool {
    ('\u{9}' <= c <= '\u{d}') || c == ' ' || c == '\u{85}' || c == '\u{a0}' || c == '\u{1680}'
        || ('\u{2000}' <= c <= '\u{200a}') || c == '\u{2028}' || c == '\u{2029}' || c
        == '\u{202f}' || c == '\u{205f}' || c == '\u{3000}'
}

pub fn char_is_ws(c: char) -> (r: bool)
    ensures
        r == is_ws(c),
{
    ('\u{9}' <= c && c <= '\u{d}') || c == ' ' || c == '\u{85}' || c == '\u{a0}' || c
        == '\u{1680}' || ('\u{2000}' <= c && c <= '\u{200a}') || c == '\u{2028}' || c
        == '\u{2029}' || c == '\u{202f}' || c == '\u{205f}' || c == '\u{3000}'
}

pub open spec fn is_ascii_alpha(c: char) -> bool {
    ('a' <= c <= 'z') || ('A' <= c <= 'Z')
}

pub open spec fn is_ascii_digit(c: char) -> bool {
    '0' <= c <= '9'
}

pub open spec fn is_ascii_alnum(c: char) -> bool {
    is_ascii_alpha(c) || is_ascii_digit(c)
}

/// ASCII lower case of one character; everything else as itself.
pub open spec fn lower_char(c: char) -> char {
    if 'A' <= c <= 'Z' {
        ((c as u32) + 32) as char
    } else {
        c
    }
}

pub fn to_lower_char(c: char) -> (r: char)
    ensures
        r == lower_char(c),
{
    if 'A' <= c && c <= 'Z' {
        ((c as u8) + 32) as char
    } else {
        c
    }
}

pub open spec fn lower(s: Seq<char>) -> Seq<char> {
    s.map_values(|c: char| lower_char(c))
}

/// ASCII lower case of a string.
pub fn ascii_lower(v: &[char]) -> (r: Vec<char>)
    ensures
        r@ == lower(v@),
{
    let mut r: Vec<char> = Vec::new();
    let mut i: usize = 0;
    while i < v.len()
        invariant
            i <= v@.len(),
            r@ == lower(v@.take(i as int)),
        decreases v@.len() - i,
    {
        r.push(to_lower_char(v[i]));
        i = i + 1;
        assert(lower(v@.take(i as int)) == lower(v@.take(i - 1)).push(lower_char(v@[i - 1])));
    }
    assert(v@.take(v@.len() as int) == v@);
    r
}

// ---------------------------------------------------------------------------
// Searching and trimming character sequences

/// Index of the first `c` in `s`, if any.
pub open spec fn first_index(s: Seq<char>, c: char) -> Option<int>
    decreases s.len(),
{
    if s.len() == 0 {
        None
    } else if s[0] == c {
        Some(0)
    } else {
        match first_index(s.skip(1), c) {
            Some(i) => Some(i + 1),
            None => None,
        }
    }
}

pub proof fn lemma_first_index(s: Seq<char>, c: char)
    ensures
        match first_index(s, c) {
            Some(i) => 0 <= i < s.len() && s[i] == c && forall|j: int| 0 <= j < i ==> s[j] != c,
            None => forall|j: int| 0 <= j < s.len() ==> s[j] != c,
        },
    decreases s.len(),
{
    if s.len() > 0 && s[0] != c {
        lemma_first_index(s.skip(1), c);
        match first_index(s.skip(1), c) {
            Some(i) => {
                assert forall|j: int| 0 <= j < i + 1 implies s[j] != c by {
                    if j > 0 {
                        assert(s[j] == s.skip(1)[j - 1]);
                    }
                }
            },
            None => {
                assert forall|j: int| 0 <= j < s.len() implies s[j] != c by {
                    if j > 0 {
                        assert(s[j] == s.skip(1)[j - 1]);
                    }
                }
            },
        }
    }
}

/// The first index is the only index with `c` before which there is none.
pub proof fn lemma_first_index_unique(s: Seq<char>, c: char, i: int)
    requires
        0 <= i < s.len(),
        s[i] == c,
        forall|j: int| 0 <= j < i ==> s[j] != c,
    ensures
        first_index(s, c) == Some(i),
    decreases s.len(),
{
    lemma_first_index(s, c);
    match first_index(s, c) {
        Some(k) => {
            if k < i {
                assert(s[k] == c);
            } else if k > i {
            }
        },
        None => {
            assert(s[i] == c);
        },
    }
}

pub proof fn lemma_first_index_none(s: Seq<char>, c: char)
    requires
        forall|j: int| 0 <= j < s.len() ==> s[j] != c,
    ensures
        first_index(s, c) is None,
{
    lemma_first_index(s, c);
    match first_index(s, c) {
        Some(k) => {
            assert(s[k] == c);
        },
        None => {},
    }
}

/// Where `c` first occurs in `v`.
pub fn find_char(v: &[char], c: char) -> (r: Option<usize>)
    ensures
        r matches Some(i) ==> first_index(v@, c) == Some(i as int) && i < v@.len() && v@[i as int]
            == c,
        r is None ==> first_index(v@, c) is None,
{
    let mut i: usize = 0;
    while i < v.len()
        invariant
            i <= v@.len(),
            forall|j: int| 0 <= j < i ==> v@[j] != c,
        decreases v@.len() - i,
    {
        if v[i] == c {
            proof {
                lemma_first_index_unique(v@, c, i as int);
            }
            return Some(i);
        }
        i = i + 1;
    }
    proof {
        lemma_first_index_none(v@, c);
    }
    None
}

/// Whether `c` occurs in `v`.
pub fn has_char(v: &[char], c: char) -> (r: bool)
    ensures
        r == v@.contains(c),
{
    let mut k: usize = 0;
    while k < v.len()
        invariant
            k <= v@.len(),
            forall|j: int| 0 <= j < k ==> v@[j] != c,
        decreases v@.len() - k,
    {
        if v[k] == c {
            assert(v@.contains(c));
            return true;
        }
        k = k + 1;
    }
    false
}

/// Index of the last `c` in `s`, if any.
pub open spec fn last_index(s: Seq<char>, c: char) -> Option<int>
    decreases s.len(),
{
    if s.len() == 0 {
        None
    } else if s.last() == c {
        Some(s.len() - 1)
    } else {
        last_index(s.drop_last(), c)
    }
}

pub proof fn lemma_last_index(s: Seq<char>, c: char)
    ensures
        match last_index(s, c) {
            Some(i) => 0 <= i < s.len() && s[i] == c && forall|j: int| i < j < s.len() ==> s[j]
                != c,
            None => forall|j: int| 0 <= j < s.len() ==> s[j] != c,
        },
    decreases s.len(),
{
    if s.len() > 0 && s.last() != c {
        lemma_last_index(s.drop_last(), c);
        assert forall|j: int| 0 <= j < s.len() - 1 implies s[j] == s.drop_last()[j] by {}
    }
}

pub fn rfind_char(v: &[char], c: char) -> (r: Option<usize>)
    ensures
        r matches Some(i) ==> last_index(v@, c) == Some(i as int) && i < v@.len() && v@[i as int]
            == c,
        r is None ==> last_index(v@, c) is None,
{
    proof {
        lemma_last_index(v@, c);
    }
    let mut i: usize = v.len();
    assert(v@.take(v@.len() as int) == v@);
    while i > 0
        invariant
            i <= v@.len(),
            last_index(v@, c) == last_index(v@.take(i as int), c),
        decreases i,
    {
        assert(v@.take(i as int).last() == v@[i - 1]);
        assert(v@.take(i as int).drop_last() == v@.take(i - 1));
        if v[i - 1] == c {
            return Some(i - 1);
        }
        i = i - 1;
    }
    None
}

/// `s` without leading and trailing white space.
pub open spec fn trim_start(s: Seq<char>) -> Seq<char>
    decreases s.len(),
{
    if s.len() > 0 && is_ws(s[0]) {
        trim_start(s.skip(1))
    } else {
        s
    }
}

pub open spec fn trim_end(s: Seq<char>) -> Seq<char>
    decreases s.len(),
{
    if s.len() > 0 && is_ws(s.last()) {
        trim_end(s.drop_last())
    } else {
        s
    }
}

pub open spec fn trim(s: Seq<char>) -> Seq<char> {
    trim_end(trim_start(s))
}

/// Trimming the start takes a prefix off and nothing else.
pub proof fn lemma_trim_start_suffix(s: Seq<char>)
    ensures
        exists|j: int| 0 <= j <= s.len() && trim_start(s) == #[trigger] s.skip(j),
    decreases s.len(),
{
    if s.len() > 0 && is_ws(s[0]) {
        lemma_trim_start_suffix(s.skip(1));
        let j = choose|j: int| 0 <= j <= s.skip(1).len() && trim_start(s.skip(1)) == #[trigger] s.skip(1).skip(j);
        assert(s.skip(1).skip(j) =~= s.skip(j + 1));
    } else {
        assert(s.skip(0) =~= s);
    }
}

/// Trimming the end takes a suffix off and nothing else.
pub proof fn lemma_trim_end_prefix(s: Seq<char>)
    ensures
        trim_end(s).len() <= s.len(),
        trim_end(s) == s.take(trim_end(s).len() as int),
    decreases s.len(),
{
    if s.len() > 0 && is_ws(s.last()) {
        lemma_trim_end_prefix(s.drop_last());
        assert(s.drop_last().take(trim_end(s).len() as int) =~= s.take(trim_end(s).len() as int));
    } else {
        assert(s.take(s.len() as int) =~= s);
    }
}

/// A text that trimming leaves alone starts and ends with something other
/// than white space, where it is not empty.
pub proof fn lemma_trimmed_ends(s: Seq<char>)
    requires
        trim(s) == s,
        s.len() > 0,
    ensures
        !is_ws(s[0]),
        !is_ws(s.last()),
{
    lemma_trim_start_suffix(s);
    let j = choose|j: int| 0 <= j <= s.len() && trim_start(s) == #[trigger] s.skip(j);
    lemma_trim_end_prefix(trim_start(s));
    if is_ws(s[0]) {
        lemma_trim_start_suffix(s.skip(1));
        let k = choose|k: int| 0 <= k <= s.skip(1).len() && trim_start(s.skip(1)) == #[trigger] s.skip(1).skip(k);
        assert(trim_start(s).len() < s.len());
    }
    if is_ws(s.last()) {
        let t = trim_start(s);
        if t.len() > 0 {
            assert(t.last() == s.last());
            lemma_trim_end_prefix(t.drop_last());
            assert(trim_end(t).len() < s.len());
        }
    }
}

/// A text that starts and ends with something other than white space is its
/// own trim.
pub proof fn lemma_trim_plain(s: Seq<char>)
    requires
        s.len() > 0,
        !is_ws(s[0]),
        !is_ws(s.last()),
    ensures
        trim(s) == s,
{
}

/// The bounds `(a, b)` such that `v[a..b]` is `v` trimmed.
pub fn trim_bounds(v: &[char]) -> (r: (usize, usize))
    ensures
        r.0 <= r.1 <= v@.len(),
        v@.subrange(r.0 as int, r.1 as int) == trim(v@),
{
    let mut a: usize = 0;
    assert(v@.skip(0) == v@);
    while a < v.len() && char_is_ws(v[a])
        invariant
            a <= v@.len(),
            trim_start(v@) == trim_start(v@.skip(a as int)),
        decreases v@.len() - a,
    {
        assert(v@.skip(a as int).skip(1) == v@.skip(a + 1));
        a = a + 1;
    }
    assert(trim_start(v@) == v@.skip(a as int));
    let mut b: usize = v.len();
    while b > a && char_is_ws(v[b - 1])
        invariant
            a <= b <= v@.len(),
            trim(v@) == trim_end(v@.subrange(a as int, b as int)),
        decreases b,
    {
        assert(v@.subrange(a as int, b as int).drop_last() == v@.subrange(a as int, b - 1));
        b = b - 1;
    }
    (a, b)
}

/// `v` trimmed of white space at both ends.
pub fn trimmed(v: &[char]) -> (r: Vec<char>)
    ensures
        r@ == trim(v@),
{
    let (a, b) = trim_bounds(v);
    slice_vec(v, a, b)
}

/// A copy of `v[a..b]`.
pub fn slice_vec(v: &[char], a: usize, b: usize) -> (r: Vec<char>)
    requires
        a <= b <= v@.len(),
    ensures
        r@ == v@.subrange(a as int, b as int),
{
    let mut r: Vec<char> = Vec::new();
    let mut i: usize = a;
    while i < b
        invariant
            a <= i <= b <= v@.len(),
            r@ == v@.subrange(a as int, i as int),
        decreases b - i,
    {
        r.push(v[i]);
        i = i + 1;
        assert(v@.subrange(a as int, i as int) == v@.subrange(a as int, i - 1).push(v@[i - 1]));
    }
    r
}

/// Whether `pat` occurs in `s` at `at`.
pub open spec fn occurs_at(s: Seq<char>, at: int, pat: Seq<char>) -> bool {
    0 <= at && at + pat.len() <= s.len() && s.subrange(at, at + pat.len()) == pat
}

pub fn starts_at(v: &[char], at: usize, pat: &[char]) -> (r: bool)
    ensures
        r == occurs_at(v@, at as int, pat@),
{
    if at > v.len() || pat.len() > v.len() - at {
        return false;
    }
    let mut k: usize = 0;
    while k < pat.len()
        invariant
            at + pat@.len() <= v@.len(),
            k <= pat@.len(),
            forall|j: int| 0 <= j < k ==> v@[at + j] == pat@[j],
        decreases pat@.len() - k,
    {
        assert(at + k < v.len());
        let j: usize = at + k;
        if v[j] != pat[k] {
            assert(v@.subrange(at as int, at + pat@.len())[k as int] != pat@[k as int]);
            return false;
        }
        k = k + 1;
    }
    assert(v@.subrange(at as int, at + pat@.len()) =~= pat@);
    true
}

/// Whether `pat` occurs anywhere in `s`.
pub open spec fn contains_seq(s: Seq<char>, pat: Seq<char>) -> bool {
    exists|i: int| occurs_at(s, i, pat)
}

pub fn contains_chars(v: &[char], pat: &[char]) -> (r: bool)
    ensures
        r == contains_seq(v@, pat@),
{
    let mut i: usize = 0;
    loop
        invariant
            i <= v@.len(),
            forall|j: int| 0 <= j < i ==> !occurs_at(v@, j, pat@),
        decreases v@.len() - i,
    {
        if starts_at(v, i, pat) {
            return true;
        }
        if i == v.len() {
            assert forall|j: int| !occurs_at(v@, j, pat@) by {
                if 0 <= j < i {
                }
            }
            return false;
        }
        i = i + 1;
    }
}


// ---------------------------------------------------------------------------
// Numbers

pub open spec fn digit_char(d: nat) -> char {
    ((d % 10) + 48) as char
}

/// Decimal digits of `n`, no leading zeros.
pub open spec fn dec(n: nat) -> Seq<char>
    decreases n,
{
    if n < 10 {
        seq![digit_char(n)]
    } else {
        dec(n / 10).push(digit_char(n % 10))
    }
}

/// Appends the decimal digits of `n`.
pub fn push_dec(out: &mut String, n: u64)
    ensures
        final(out)@ == old(out)@ + dec(n as nat),
    decreases n,
{
    if n < 10 {
        push_char(out, ((n as u8) + 48) as char);
    } else {
        push_dec(out, n / 10);
        push_char(out, (((n % 10) as u8) + 48) as char);
        assert(dec(n as nat) == dec((n / 10) as nat).push(digit_char((n % 10) as nat)));
    }
}

pub fn dec_string(n: u64) -> (r: String)
    ensures
        r@ == dec(n as nat),
{
    let mut r = String::new();
    push_dec(&mut r, n);
    r
}

pub open spec fn hex_lower_char(d: nat) -> char {
    if d % 16 < 10 {
        ((d % 16) + 48) as char
    } else {
        ((d % 16) + 87) as char
    }
}

/// Lower-case hex digits of `n`, no leading zeros: what `{:x}` prints.
pub open spec fn hex(n: nat) -> Seq<char>
    decreases n,
{
    if n < 16 {
        seq![hex_lower_char(n)]
    } else {
        hex(n / 16).push(hex_lower_char(n % 16))
    }
}

pub fn push_hex(out: &mut String, n: u64)
    ensures
        final(out)@ == old(out)@ + hex(n as nat),
    decreases n,
{
    let d = (n % 16) as u8;
    let c = if d < 10 {
        (d + 48) as char
    } else {
        (d + 87) as char
    };
    if n >= 16 {
        push_hex(out, n / 16);
    }
    push_char(out, c);
    assert(hex(n as nat) == if n < 16 {
        seq![hex_lower_char(n as nat)]
    } else {
        hex((n / 16) as nat).push(hex_lower_char((n % 16) as nat))
    });
}

// ---------------------------------------------------------------------------
// Splitting

/// `str::split` on one character: the pieces between separators, empty ones
/// included, always at least one.
pub open spec fn split(s: Seq<char>, sep: char) -> Seq<Seq<char>>
    decreases s.len(),
{
    if s.len() == 0 {
        seq![Seq::empty()]
    } else {
        let p = split(s.drop_last(), sep);
        if s.last() == sep {
            p.push(Seq::empty())
        } else {
            p.update(p.len() - 1, p.last().push(s.last()))
        }
    }
}

pub proof fn lemma_split_nonempty(s: Seq<char>, sep: char)
    ensures
        split(s, sep).len() >= 1,
    decreases s.len(),
{
    if s.len() > 0 {
        lemma_split_nonempty(s.drop_last(), sep);
    }
}

/// No piece of a split holds the separator.
pub proof fn lemma_split_pieces(s: Seq<char>, sep: char)
    ensures
        forall|i: int| 0 <= i < split(s, sep).len() ==> !(#[trigger] split(s, sep)[i]).contains(sep),
    decreases s.len(),
{
    if s.len() > 0 {
        let init = s.drop_last();
        lemma_split_pieces(init, sep);
        lemma_split_nonempty(init, sep);
        let p = split(init, sep);
        assert forall|i: int| 0 <= i < split(s, sep).len() implies !(#[trigger] split(s, sep)[i]).contains(sep) by {
            if s.last() == sep {
                if i < p.len() {
                    assert(split(s, sep)[i] == p[i]);
                } else {
                    assert(split(s, sep)[i] =~= Seq::<char>::empty());
                }
            } else if i < p.len() - 1 {
                assert(split(s, sep)[i] == p[i]);
            } else {
                let piece = split(s, sep)[i];
                assert(piece == p.last().push(s.last()));
                assert(!p[p.len() - 1].contains(sep));
                if piece.contains(sep) {
                    let k = piece.index_of(sep);
                    if k < p.last().len() {
                        assert(piece[k] == p.last()[k]);
                    }
                }
            }
        }
    }
}

/// A string without the separator is one piece.
pub proof fn lemma_split_plain(s: Seq<char>, sep: char)
    requires
        !s.contains(sep),
    ensures
        split(s, sep) == seq![s],
    decreases s.len(),
{
    if s.len() > 0 {
        assert(!s.drop_last().contains(sep)) by {
            if s.drop_last().contains(sep) {
                let k = s.drop_last().index_of(sep);
                assert(s[k] == sep);
            }
        }
        lemma_split_plain(s.drop_last(), sep);
        assert(s.last() != sep) by {
            assert(s[s.len() - 1] == s.last());
        }
        assert(s.drop_last().push(s.last()) =~= s);
        let p = split(s.drop_last(), sep);
        assert(p.update(p.len() - 1, p.last().push(s.last())) =~= seq![s]);
    } else {
        assert(s =~= Seq::<char>::empty());
    }
}

/// Characters without the separator run on the last piece.
pub proof fn lemma_split_runs_on(p: Seq<char>, b: Seq<char>, sep: char)
    requires
        !b.contains(sep),
    ensures
        split(p + b, sep) == split(p, sep).update(split(p, sep).len() - 1, split(p, sep).last() + b),
    decreases b.len(),
{
    lemma_split_nonempty(p, sep);
    if b.len() == 0 {
        assert(p + b =~= p);
        assert(split(p, sep).last() + b =~= split(p, sep).last());
        assert(split(p, sep).update(split(p, sep).len() - 1, split(p, sep).last()) =~= split(p, sep));
    } else {
        let init = b.drop_last();
        assert(!init.contains(sep)) by {
            if init.contains(sep) {
                let k = init.index_of(sep);
                assert(b[k] == sep);
            }
        }
        lemma_split_runs_on(p, init, sep);
        assert((p + b).drop_last() =~= p + init);
        assert((p + b).last() == b.last());
        assert(b.last() != sep) by {
            assert(b[b.len() - 1] == b.last());
        }
        let q = split(p + init, sep);
        let sp = split(p, sep);
        assert(q.len() == sp.len());
        assert(q.last() =~= sp.last() + init);
        assert(b =~= init.push(b.last()));
        assert((sp.last() + init).push(b.last()) =~= sp.last() + b);
        assert(q.update(q.len() - 1, q.last().push(b.last())) =~= sp.update(sp.len() - 1, sp.last() + b));
    }
}

/// The views of a list of character vectors.
pub open spec fn views(v: Seq<Vec<char>>) -> Seq<Seq<char>> {
    v.map_values(|x: Vec<char>| x@)
}

pub fn split_chars(v: &[char], sep: char) -> (r: Vec<Vec<char>>)
    ensures
        views(r@) == split(v@, sep),
{
    let mut done: Vec<Vec<char>> = Vec::new();
    let mut cur: Vec<char> = Vec::new();
    let mut i: usize = 0;
    while i < v.len()
        invariant
            i <= v@.len(),
            views(done@).push(cur@) == split(v@.take(i as int), sep),
        decreases v@.len() - i,
    {
        let ghost before = views(done@).push(cur@);
        assert(v@.take(i + 1).drop_last() == v@.take(i as int));
        proof {
            lemma_split_nonempty(v@.take(i as int), sep);
        }
        if v[i] == sep {
            let finished = cur;
            done.push(finished);
            cur = Vec::new();
            assert(views(done@).push(cur@) == before.push(Seq::empty()));
        } else {
            cur.push(v[i]);
            assert(views(done@).push(cur@) == before.update(
                before.len() - 1,
                before.last().push(v@[i as int]),
            ));
        }
        i = i + 1;
    }
    assert(v@.take(v@.len() as int) == v@);
    done.push(cur);
    done
}

/// `str::split_once` on one character.
pub open spec fn split_once(s: Seq<char>, c: char) -> Option<(Seq<char>, Seq<char>)> {
    match first_index(s, c) {
        Some(i) => Some((s.take(i), s.skip(i + 1))),
        None => None,
    }
}

pub fn split_once_chars(v: &[char], c: char) -> (r: Option<(Vec<char>, Vec<char>)>)
    ensures
        match split_once(v@, c) {
            Some((a, b)) => r matches Some((x, y)) && x@ == a && y@ == b,
            None => r is None,
        },
{
    match find_char(v, c) {
        Some(i) => {
            proof {
                lemma_first_index(v@, c);
            }
            let a = slice_vec(v, 0, i);
            assert(i < v.len());
            let b = slice_vec(v, i + 1, v.len());
            Some((a, b))
        },
        None => None,
    }
}

// ---------------------------------------------------------------------------
// Query strings and cookies

pub open spec fn view_pairs(v: Seq<(String, String)>) -> Seq<(Seq<char>, Seq<char>)> {
    v.map_values(|p: (String, String)| (p.0@, p.1@))
}

/// One `key=value` of a query string, decoded; a bare key has an empty value.
pub open spec fn query_pair(piece: Seq<char>) -> (Seq<char>, Seq<char>) {
    match split_once(piece, '=') {
        Some((k, v)) => (pct_decode_text(k), pct_decode_text(v)),
        None => (pct_decode_text(piece), Seq::empty()),
    }
}

pub open spec fn query_pairs(pieces: Seq<Seq<char>>) -> Seq<(Seq<char>, Seq<char>)>
    decreases pieces.len(),
{
    if pieces.len() == 0 {
        Seq::empty()
    } else if pieces.last().len() == 0 {
        query_pairs(pieces.drop_last())
    } else {
        query_pairs(pieces.drop_last()).push(query_pair(pieces.last()))
    }
}

/// What `parse_query` makes of a query string: its `&`-separated pieces,
/// empty ones skipped, each split at its first `=` and percent-decoded.
pub open spec fn parsed_query(q: Seq<char>) -> Seq<(Seq<char>, Seq<char>)> {
    query_pairs(split(q, '&'))
}

pub fn parse_query(q: &str) -> (r: Vec<(String, String)>)
    ensures
        view_pairs(r@) == parsed_query(q@),
{
    let v = chars_of(q);
    let pieces = split_chars(v.as_slice(), '&');
    let mut out: Vec<(String, String)> = Vec::new();
    let mut i: usize = 0;
    while i < pieces.len()
        invariant
            views(pieces@) == split(q@, '&'),
            i <= pieces@.len(),
            view_pairs(out@) == query_pairs(views(pieces@).take(i as int)),
        decreases pieces@.len() - i,
    {
        let piece = &pieces[i];
        assert(views(pieces@).take(i + 1).drop_last() == views(pieces@).take(i as int));
        assert(piece@ == views(pieces@)[i as int]);
        if piece.len() > 0 {
            let pair = match split_once_chars(piece.as_slice(), '=') {
                Some((k, val)) => {
                    let ks = string_of(k.as_slice());
                    let vs = string_of(val.as_slice());
                    (percent_decode(ks.as_str()), percent_decode(vs.as_str()))
                },
                None => {
                    let ps = string_of(piece.as_slice());
                    (percent_decode(ps.as_str()), String::new())
                },
            };
            out.push(pair);
            assert(view_pairs(out@) == view_pairs(out@.drop_last()).push((pair.0@, pair.1@)));
        }
        i = i + 1;
    }
    assert(views(pieces@).take(pieces@.len() as int) == views(pieces@));
    out
}

/// The first value given for `key`.
pub open spec fn lookup(q: Seq<(Seq<char>, Seq<char>)>, key: Seq<char>) -> Option<Seq<char>>
    decreases q.len(),
{
    if q.len() == 0 {
        None
    } else if q[0].0 == key {
        Some(q[0].1)
    } else {
        lookup(q.skip(1), key)
    }
}

pub fn query_get<'a>(q: &'a [(String, String)], key: &str) -> (r: Option<&'a str>)
    ensures
        match lookup(view_pairs(q@), key@) {
            Some(v) => r matches Some(x) && x@ == v,
            None => r is None,
        },
{
    let mut i: usize = 0;
    assert(view_pairs(q@).skip(0) == view_pairs(q@));
    while i < q.len()
        invariant
            i <= q@.len(),
            lookup(view_pairs(q@), key@) == lookup(view_pairs(q@).skip(i as int), key@),
        decreases q@.len() - i,
    {
        let ghost rest = view_pairs(q@).skip(i as int);
        assert(rest[0] == (q@[i as int].0@, q@[i as int].1@));
        if str_eq(q[i].0.as_str(), key) {
            return Some(q[i].1.as_str());
        }
        assert(rest.skip(1) == view_pairs(q@).skip(i + 1));
        i = i + 1;
    }
    None
}

/// Whether two string slices hold the same text.
pub fn str_eq(a: &str, b: &str) -> (r: bool)
    ensures
        r == (a@ == b@),
{
    let x = chars_of(a);
    let y = chars_of(b);
    if x.len() != y.len() {
        return false;
    }
    let mut i: usize = 0;
    while i < x.len()
        invariant
            x@ == a@,
            y@ == b@,
            x@.len() == y@.len(),
            i <= x@.len(),
            forall|j: int| 0 <= j < i ==> x@[j] == y@[j],
        decreases x@.len() - i,
    {
        if x[i] != y[i] {
            return false;
        }
        i = i + 1;
    }
    assert(x@ =~= y@);
    true
}

/// One `name=value` of a `Cookie` header, trimmed; `None` without an `=`.
pub open spec fn cookie_piece(piece: Seq<char>) -> Option<(Seq<char>, Seq<char>)> {
    match split_once(trim(piece), '=') {
        Some((k, v)) => Some((trim(k), trim(v))),
        None => None,
    }
}

pub open spec fn cookie_pairs(pieces: Seq<Seq<char>>) -> Seq<(Seq<char>, Seq<char>)>
    decreases pieces.len(),
{
    if pieces.len() == 0 {
        Seq::empty()
    } else {
        match cookie_piece(pieces.last()) {
            Some(p) => cookie_pairs(pieces.drop_last()).push(p),
            None => cookie_pairs(pieces.drop_last()),
        }
    }
}

/// The pairs of a `Cookie` header value: `;`-separated, each split at its
/// first `=`, names and values trimmed and not decoded.
pub open spec fn parsed_cookies(value: Seq<char>) -> Seq<(Seq<char>, Seq<char>)> {
    cookie_pairs(split(value, ';'))
}

pub fn parse_cookies(value: &str) -> (r: Vec<(String, String)>)
    ensures
        view_pairs(r@) == parsed_cookies(value@),
{
    let v = chars_of(value);
    let pieces = split_chars(v.as_slice(), ';');
    let mut out: Vec<(String, String)> = Vec::new();
    let mut i: usize = 0;
    while i < pieces.len()
        invariant
            views(pieces@) == split(value@, ';'),
            i <= pieces@.len(),
            view_pairs(out@) == cookie_pairs(views(pieces@).take(i as int)),
        decreases pieces@.len() - i,
    {
        let piece = &pieces[i];
        assert(views(pieces@).take(i + 1).drop_last() == views(pieces@).take(i as int));
        assert(piece@ == views(pieces@)[i as int]);
        let t = trimmed(piece.as_slice());
        match split_once_chars(t.as_slice(), '=') {
            Some((k, val)) => {
                let kt = trimmed(k.as_slice());
                let vt = trimmed(val.as_slice());
                let pair = (string_of(kt.as_slice()), string_of(vt.as_slice()));
                out.push(pair);
                assert(view_pairs(out@) == view_pairs(out@.drop_last()).push((pair.0@, pair.1@)));
            },
            None => {},
        }
        i = i + 1;
    }
    assert(views(pieces@).take(pieces@.len() as int) == views(pieces@));
    out
}


// ---------------------------------------------------------------------------
// Finding a pattern

/// The first position at or after `i` where `pat` occurs in `s`.
pub open spec fn find_from(s: Seq<char>, pat: Seq<char>, i: int) -> Option<int>
    decreases s.len() + 1 - i,
{
    if i < 0 || i > s.len() {
        None
    } else if occurs_at(s, i, pat) {
        Some(i)
    } else {
        find_from(s, pat, i + 1)
    }
}

/// `str::find` with a string pattern.
pub open spec fn find_seq(s: Seq<char>, pat: Seq<char>) -> Option<int> {
    find_from(s, pat, 0)
}

pub proof fn lemma_find_from(s: Seq<char>, pat: Seq<char>, i: int)
    requires
        0 <= i,
    ensures
        match find_from(s, pat, i) {
            Some(k) => i <= k <= s.len() && occurs_at(s, k, pat) && forall|j: int|
                i <= j < k ==> !occurs_at(s, j, pat),
            None => forall|j: int| i <= j ==> !occurs_at(s, j, pat),
        },
    decreases s.len() + 1 - i,
{
    if i <= s.len() && !occurs_at(s, i, pat) {
        lemma_find_from(s, pat, i + 1);
    }
}

pub fn find_chars_from(v: &[char], pat: &[char], from: usize) -> (r: Option<usize>)
    ensures
        match find_from(v@, pat@, from as int) {
            Some(k) => r == Some(k as usize),
            None => r is None,
        },
{
    if from > v.len() {
        return None;
    }
    let mut i: usize = from;
    loop
        invariant
            from <= i <= v@.len(),
            find_from(v@, pat@, from as int) == find_from(v@, pat@, i as int),
        decreases v@.len() - i,
    {
        if starts_at(v, i, pat) {
            return Some(i);
        }
        if i == v.len() {
            assert(find_from(v@, pat@, i + 1) is None);
            return None;
        }
        i = i + 1;
    }
}

// ---------------------------------------------------------------------------
// Integers

pub open spec fn all_digits(s: Seq<char>) -> bool {
    forall|k: int| 0 <= k < s.len() ==> is_ascii_digit(#[trigger] s[k])
}

/// The value of a run of decimal digits.
pub open spec fn digits_value(s: Seq<char>) -> nat
    decreases s.len(),
{
    if s.len() == 0 {
        0
    } else {
        digits_value(s.drop_last()) * 10 + ((s.last() as nat) - 48) as nat
    }
}

/// `str::parse` for an unsigned integer, before the range check: an optional
/// `+`, then one or more ASCII digits.
pub open spec fn parse_uint(s: Seq<char>) -> Option<nat> {
    let t = if s.len() > 0 && s[0] == '+' {
        s.skip(1)
    } else {
        s
    };
    if t.len() > 0 && all_digits(t) {
        Some(digits_value(t))
    } else {
        None
    }
}

pub proof fn lemma_digits_value_prefix(s: Seq<char>, i: int)
    requires
        0 <= i <= s.len(),
        all_digits(s),
    ensures
        digits_value(s.take(i)) <= digits_value(s),
    decreases s.len() - i,
{
    if i == s.len() {
        assert(s.take(i) == s);
    } else {
        lemma_digits_value_prefix(s, i + 1);
        assert(s.take(i + 1).drop_last() == s.take(i));
        assert(s.take(i + 1).last() == s[i]);
        assert(is_ascii_digit(s[i]));
        assert(digits_value(s.take(i + 1)) == digits_value(s.take(i)) * 10 + ((s[i] as nat)
            - 48) as nat);
    }
}

/// `u64::from_str`: `None` for anything that is not a number or is too big.
pub fn parse_u64(v: &[char]) -> (r: Option<u64>)
    ensures
        match parse_uint(v@) {
            Some(n) => if n <= u64::MAX {
                r == Some(n as u64)
            } else {
                r is None
            },
            None => r is None,
        },
{
    let start: usize = if v.len() > 0 && v[0] == '+' {
        1
    } else {
        0
    };
    let ghost t = if v@.len() > 0 && v@[0] == '+' {
        v@.skip(1)
    } else {
        v@
    };
    assert(t == v@.skip(start as int));
    assert(parse_uint(v@) == (if t.len() > 0 && all_digits(t) {
        Some(digits_value(t))
    } else {
        None
    }));
    if start >= v.len() {
        return None;
    }
    let mut acc: u64 = 0;
    let mut i: usize = start;
    while i < v.len()
        invariant
            start <= i <= v@.len(),
            t == v@.skip(start as int),
            parse_uint(v@) == (if t.len() > 0 && all_digits(t) {
                Some(digits_value(t))
            } else {
                None
            }),
            forall|k: int| start <= k < i ==> is_ascii_digit(#[trigger] v@[k]),
            acc == digits_value(t.take(i - start)),
        decreases v@.len() - i,
    {
        let c = v[i];
        if !('0' <= c && c <= '9') {
            assert(t[i - start] == c);
            assert(!all_digits(t));
            assert(parse_uint(v@) is None);
            return None;
        }
        let d: u64 = ((c as u32) - 48) as u64;
        assert(t.take(i - start + 1).drop_last() == t.take(i - start));
        assert(t.take(i - start + 1).last() == c);
        if acc > (u64::MAX - d) / 10 {
            // Whether the rest are digits decides between "not a number" and
            // "too big"; either way there is no value.
            let mut j: usize = i + 1;
            while j < v.len()
                invariant
                    i < j <= v@.len(),
                    start <= i,
                    t == v@.skip(start as int),
                    parse_uint(v@) == (if t.len() > 0 && all_digits(t) {
                        Some(digits_value(t))
                    } else {
                        None
                    }),
                    forall|k: int| start <= k < j ==> is_ascii_digit(#[trigger] v@[k]),
                decreases v@.len() - j,
            {
                let e = v[j];
                if !('0' <= e && e <= '9') {
                    assert(t[j - start] == e);
                    assert(!all_digits(t));
                    assert(parse_uint(v@) is None);
                    return None;
                }
                j = j + 1;
            }
            proof {
                assert(all_digits(t)) by {
                    assert forall|k: int| 0 <= k < t.len() implies is_ascii_digit(#[trigger] t[k]) by {
                        assert(t[k] == v@[start + k]);
                    }
                }
                lemma_digits_value_prefix(t, i - start + 1);
                assert(digits_value(t.take(i - start + 1)) == acc * 10 + d);
                assert(acc * 10 + d > u64::MAX) by (nonlinear_arith)
                    requires
                        acc > (u64::MAX - d) / 10,
                        d <= 9,
                ;
                assert(t.take(t.len() as int) == t);
            }
            return None;
        }
        acc = acc * 10 + d;
        i = i + 1;
    }
    assert(t.take(i - start) == t);
    Some(acc)
}


// ---------------------------------------------------------------------------
// Ordering of strings

/// `<` on strings, as `str`'s `Ord` has it: by characters in turn, a proper
/// prefix first. (Comparing UTF-8 bytes gives the same order.)
pub open spec fn lex_lt(a: Seq<char>, b: Seq<char>) -> bool
    decreases a.len(),
{
    if a.len() == 0 {
        b.len() > 0
    } else if b.len() == 0 {
        false
    } else if a[0] != b[0] {
        a[0] < b[0]
    } else {
        lex_lt(a.skip(1), b.skip(1))
    }
}

pub proof fn lemma_lex_irreflexive(a: Seq<char>)
    ensures
        !lex_lt(a, a),
    decreases a.len(),
{
    if a.len() > 0 {
        lemma_lex_irreflexive(a.skip(1));
    }
}

pub proof fn lemma_lex_trichotomy(a: Seq<char>, b: Seq<char>)
    ensures
        lex_lt(a, b) || lex_lt(b, a) || a == b,
        !(lex_lt(a, b) && lex_lt(b, a)),
    decreases a.len(),
{
    if a.len() > 0 && b.len() > 0 {
        if a[0] == b[0] {
            lemma_lex_trichotomy(a.skip(1), b.skip(1));
            if a.skip(1) == b.skip(1) {
                assert(a =~= seq![a[0]] + a.skip(1));
                assert(b =~= seq![b[0]] + b.skip(1));
            }
        }
    } else if a.len() == 0 && b.len() == 0 {
        assert(a =~= b);
    }
}

pub proof fn lemma_lex_transitive(a: Seq<char>, b: Seq<char>, c: Seq<char>)
    requires
        lex_lt(a, b),
        lex_lt(b, c),
    ensures
        lex_lt(a, c),
    decreases a.len(),
{
    if a.len() > 0 && b.len() > 0 && c.len() > 0 {
        if a[0] == b[0] && b[0] == c[0] {
            lemma_lex_transitive(a.skip(1), b.skip(1), c.skip(1));
        }
    }
}

/// Whether every name comes strictly before the next: sorted, nothing twice.
pub open spec fn strictly_sorted(s: Seq<Seq<char>>) -> bool {
    forall|i: int, j: int| 0 <= i < j < s.len() ==> lex_lt(#[trigger] s[i], #[trigger] s[j])
}

pub fn lex_less(a: &[char], b: &[char]) -> (r: bool)
    ensures
        r == lex_lt(a@, b@),
{
    let mut i: usize = 0;
    assert(a@.skip(0) == a@);
    assert(b@.skip(0) == b@);
    while i < a.len() && i < b.len() && a[i] == b[i]
        invariant
            i <= a@.len(),
            i <= b@.len(),
            lex_lt(a@, b@) == lex_lt(a@.skip(i as int), b@.skip(i as int)),
        decreases a@.len() - i,
    {
        assert(a@.skip(i as int).skip(1) == a@.skip(i + 1));
        assert(b@.skip(i as int).skip(1) == b@.skip(i + 1));
        i = i + 1;
    }
    if i == a.len() {
        i < b.len()
    } else if i == b.len() {
        false
    } else {
        a[i] < b[i]
    }
}

/// Where `k` stands among `names`, which are strictly sorted: the first slot
/// whose name is not before `k`, and whether that name is `k` itself.
pub fn find_slot(names: &Vec<String>, k: &[char]) -> (r: (usize, bool))
    requires
        strictly_sorted(names@.map_values(|s: String| s@)),
    ensures
        r.0 <= names@.len(),
        forall|i: int| 0 <= i < r.0 ==> lex_lt(#[trigger] names@[i]@, k@),
        r.1 ==> r.0 < names@.len() && names@[r.0 as int]@ == k@,
        !r.1 ==> forall|i: int| r.0 <= i < names@.len() ==> lex_lt(k@, #[trigger] names@[i]@),
{
    let ghost sv = names@.map_values(|s: String| s@);
    let mut p: usize = 0;
    while p < names.len()
        invariant
            p <= names@.len(),
            sv == names@.map_values(|s: String| s@),
            strictly_sorted(sv),
            forall|i: int| 0 <= i < p ==> lex_lt(#[trigger] names@[i]@, k@),
        decreases names@.len() - p,
    {
        let v = chars_of(names[p].as_str());
        if !lex_less(v.as_slice(), k) {
            proof {
                lemma_lex_trichotomy(k@, names@[p as int]@);
            }
            if !lex_less(k, v.as_slice()) {
                return (p, true);
            }
            proof {
                assert forall|i: int| p <= i < names@.len() implies lex_lt(
                    k@,
                    #[trigger] names@[i]@,
                ) by {
                    if i > p {
                        assert(sv[p as int] == names@[p as int]@);
                        assert(sv[i] == names@[i]@);
                        assert(lex_lt(sv[p as int], sv[i]));
                        lemma_lex_transitive(k@, names@[p as int]@, names@[i]@);
                    }
                }
            }
            return (p, false);
        }
        p = p + 1;
    }
    (p, false)
}


// ---------------------------------------------------------------------------
// What a file is, by its name

/// A name's extension: what follows its last `.`, ASCII lower case; empty
/// for a name with no `.` or only a leading one.
pub open spec fn ext_spec(name: Seq<char>) -> Seq<char> {
    match last_index(name, '.') {
        Some(i) => if i > 0 {
            lower(name.skip(i + 1))
        } else {
            Seq::empty()
        },
        None => Seq::empty(),
    }
}

pub fn ext_of(name: &str) -> (r: String)
    ensures
        r@ == ext_spec(name@),
{
    let v = chars_of(name);
    let vl = v.len();
    match rfind_char(v.as_slice(), '.') {
        Some(i) => {
            proof {
                lemma_last_index(v@, '.');
            }
            if i > 0 {
                let tail = slice_vec(v.as_slice(), i + 1, vl);
                assert(tail@ == v@.skip(i + 1));
                string_of(ascii_lower(tail.as_slice()).as_slice())
            } else {
                String::new()
            }
        },
        None => String::new(),
    }
}

/// Whether `e` is one of `list`.
pub open spec fn one_of(e: Seq<char>, list: Seq<Seq<char>>) -> bool {
    list.contains(e)
}

fn in_list(e: &str, list: &Vec<&'static str>) -> (r: bool)
    ensures
        r == list@.map_values(|s: &'static str| s@).contains(e@),
{
    let ghost l = list@.map_values(|s: &'static str| s@);
    let mut i: usize = 0;
    while i < list.len()
        invariant
            i <= list@.len(),
            l == list@.map_values(|s: &'static str| s@),
            forall|j: int| 0 <= j < i ==> l[j] != e@,
        decreases list@.len() - i,
    {
        if str_eq(list[i], e) {
            assert(l[i as int] == e@);
            return true;
        }
        i = i + 1;
    }
    false
}

/// Pictures a page shows as a picture.
pub open spec fn image_exts() -> Seq<Seq<char>> {
    seq!["png"@, "jpg"@, "jpeg"@, "gif"@, "webp"@, "svg"@, "bmp"@, "ico"@, "avif"@]
}

/// Films a page plays.
pub open spec fn video_exts() -> Seq<Seq<char>> {
    seq!["mp4"@, "webm"@, "mov"@, "m4v"@, "ogv"@]
}

/// Sound a page plays.
pub open spec fn audio_exts() -> Seq<Seq<char>> {
    seq!["mp3"@, "wav"@, "ogg"@, "oga"@, "flac"@, "m4a"@, "aac"@, "opus"@]
}

/// Markdown, rendered.
pub open spec fn markdown_exts() -> Seq<Seq<char>> {
    seq!["md"@, "markdown"@, "mdown"@, "mkd"@]
}

/// Mermaid sources, drawn.
pub open spec fn mermaid_exts() -> Seq<Seq<char>> {
    seq!["mmd"@, "mermaid"@]
}

pub fn is_image_ext(e: &str) -> (r: bool)
    ensures
        r == one_of(e@, image_exts()),
{
    let v: Vec<&'static str> = vec!["png", "jpg", "jpeg", "gif", "webp", "svg", "bmp", "ico", "avif"];
    assert(v@.map_values(|s: &'static str| s@) =~= image_exts());
    in_list(e, &v)
}

pub fn is_video_ext(e: &str) -> (r: bool)
    ensures
        r == one_of(e@, video_exts()),
{
    let v: Vec<&'static str> = vec!["mp4", "webm", "mov", "m4v", "ogv"];
    assert(v@.map_values(|s: &'static str| s@) =~= video_exts());
    in_list(e, &v)
}

pub fn is_audio_ext(e: &str) -> (r: bool)
    ensures
        r == one_of(e@, audio_exts()),
{
    let v: Vec<&'static str> = vec!["mp3", "wav", "ogg", "oga", "flac", "m4a", "aac", "opus"];
    assert(v@.map_values(|s: &'static str| s@) =~= audio_exts());
    in_list(e, &v)
}

pub fn is_markdown_ext(e: &str) -> (r: bool)
    ensures
        r == one_of(e@, markdown_exts()),
{
    let v: Vec<&'static str> = vec!["md", "markdown", "mdown", "mkd"];
    assert(v@.map_values(|s: &'static str| s@) =~= markdown_exts());
    in_list(e, &v)
}

pub fn is_mermaid_ext(e: &str) -> (r: bool)
    ensures
        r == one_of(e@, mermaid_exts()),
{
    let v: Vec<&'static str> = vec!["mmd", "mermaid"];
    assert(v@.map_values(|s: &'static str| s@) =~= mermaid_exts());
    in_list(e, &v)
}

/// The media type a file is served as, by its extension.
pub open spec fn mime_spec(e: Seq<char>) -> Seq<char> {
    if e == "html"@ || e == "htm"@ {
        "text/html; charset=utf-8"@
    } else if e == "css"@ {
        "text/css; charset=utf-8"@
    } else if e == "js"@ || e == "mjs"@ {
        "text/javascript; charset=utf-8"@
    } else if e == "json"@ {
        "application/json"@
    } else if e == "png"@ {
        "image/png"@
    } else if e == "jpg"@ || e == "jpeg"@ {
        "image/jpeg"@
    } else if e == "gif"@ {
        "image/gif"@
    } else if e == "webp"@ {
        "image/webp"@
    } else if e == "svg"@ {
        "image/svg+xml"@
    } else if e == "bmp"@ {
        "image/bmp"@
    } else if e == "ico"@ {
        "image/x-icon"@
    } else if e == "avif"@ {
        "image/avif"@
    } else if e == "pdf"@ {
        "application/pdf"@
    } else if e == "mp4"@ || e == "m4v"@ {
        "video/mp4"@
    } else if e == "webm"@ {
        "video/webm"@
    } else if e == "mov"@ {
        "video/quicktime"@
    } else if e == "ogv"@ {
        "video/ogg"@
    } else if e == "mp3"@ {
        "audio/mpeg"@
    } else if e == "wav"@ {
        "audio/wav"@
    } else if e == "ogg"@ || e == "oga"@ || e == "opus"@ {
        "audio/ogg"@
    } else if e == "flac"@ {
        "audio/flac"@
    } else if e == "m4a"@ || e == "aac"@ {
        "audio/mp4"@
    } else if e == "txt"@ || e == "md"@ || e == "markdown"@ || e == "rs"@ || e == "toml"@ || e
        == "log"@ {
        "text/plain; charset=utf-8"@
    } else {
        "application/octet-stream"@
    }
}

pub fn mime_for_ext(e: &str) -> (r: &'static str)
    ensures
        r@ == mime_spec(e@),
{
    if str_eq(e, "html") || str_eq(e, "htm") {
        "text/html; charset=utf-8"
    } else if str_eq(e, "css") {
        "text/css; charset=utf-8"
    } else if str_eq(e, "js") || str_eq(e, "mjs") {
        "text/javascript; charset=utf-8"
    } else if str_eq(e, "json") {
        "application/json"
    } else if str_eq(e, "png") {
        "image/png"
    } else if str_eq(e, "jpg") || str_eq(e, "jpeg") {
        "image/jpeg"
    } else if str_eq(e, "gif") {
        "image/gif"
    } else if str_eq(e, "webp") {
        "image/webp"
    } else if str_eq(e, "svg") {
        "image/svg+xml"
    } else if str_eq(e, "bmp") {
        "image/bmp"
    } else if str_eq(e, "ico") {
        "image/x-icon"
    } else if str_eq(e, "avif") {
        "image/avif"
    } else if str_eq(e, "pdf") {
        "application/pdf"
    } else if str_eq(e, "mp4") || str_eq(e, "m4v") {
        "video/mp4"
    } else if str_eq(e, "webm") {
        "video/webm"
    } else if str_eq(e, "mov") {
        "video/quicktime"
    } else if str_eq(e, "ogv") {
        "video/ogg"
    } else if str_eq(e, "mp3") {
        "audio/mpeg"
    } else if str_eq(e, "wav") {
        "audio/wav"
    } else if str_eq(e, "ogg") || str_eq(e, "oga") || str_eq(e, "opus") {
        "audio/ogg"
    } else if str_eq(e, "flac") {
        "audio/flac"
    } else if str_eq(e, "m4a") || str_eq(e, "aac") {
        "audio/mp4"
    } else if str_eq(e, "txt") || str_eq(e, "md") || str_eq(e, "markdown") || str_eq(e, "rs")
        || str_eq(e, "toml") || str_eq(e, "log") {
        "text/plain; charset=utf-8"
    } else {
        "application/octet-stream"
    }
}

/// The most of a text file a page highlights or renders; past this it offers
/// the raw file instead.
pub const MAX_HIGHLIGHT_BYTES: u64 = 2097152;

/// How much of a file's start is looked at to tell text from binary.
pub const SNIFF_BYTES: usize = 8192;

/// Whether bytes look like a binary file rather than text: a NUL among them.
pub open spec fn binary_spec(b: Seq<u8>) -> bool {
    b.contains(0u8)
}

pub fn looks_binary(b: &[u8]) -> (r: bool)
    ensures
        r == binary_spec(b@),
{
    let mut i: usize = 0;
    while i < b.len()
        invariant
            i <= b@.len(),
            forall|j: int| 0 <= j < i ==> b@[j] != 0u8,
        decreases b@.len() - i,
    {
        if b[i] == 0u8 {
            assert(b@.contains(0u8));
            return true;
        }
        i = i + 1;
    }
    false
}

/// A byte count for people: bytes below a kibibyte, otherwise the largest
/// unit that keeps the number at least one, with one decimal, rounded down.
pub open spec fn human_spec(n: nat) -> Seq<char> {
    if n < 1024 {
        dec(n) + " B"@
    } else if n < 1048576 {
        dec(n / 1024) + seq!['.'] + dec((n % 1024) * 10 / 1024) + " KB"@
    } else if n < 1073741824 {
        dec(n / 1048576) + seq!['.'] + dec((n % 1048576) * 10 / 1048576) + " MB"@
    } else {
        dec(n / 1073741824) + seq!['.'] + dec((n % 1073741824) * 10 / 1073741824) + " GB"@
    }
}

pub fn human_size(n: u64) -> (r: String)
    ensures
        r@ == human_spec(n as nat),
{
    let mut out = String::new();
    if n < 1024 {
        push_dec(&mut out, n);
        push_str(&mut out, " B");
    } else {
        let (unit, word) = if n < 1048576 {
            (1024u64, " KB")
        } else if n < 1073741824 {
            (1048576u64, " MB")
        } else {
            (1073741824u64, " GB")
        };
        push_dec(&mut out, n / unit);
        push_char(&mut out, '.');
        assert((n % unit) * 10 < unit * 10) by (nonlinear_arith)
            requires
                n % unit < unit,
        ;
        push_dec(&mut out, (n % unit) * 10 / unit);
        push_str(&mut out, word);
    }
    out
}


// ---------------------------------------------------------------------------
// Glob patterns

/// Where a bracket class that opens a pattern starts its members: after a
/// `!` or `^` that negates it, and a `]` straight after that is a member.
pub open spec fn class_start(p: Seq<char>) -> int {
    let s0: int = if p.len() > 1 && (p[1] == '!' || p[1] == '^') { 2 } else { 1 };
    if p.len() > s0 && p[s0] == ']' { s0 + 1 } else { s0 }
}

/// The index of the `]` that closes a bracket class opening `p`, if one does.
pub open spec fn class_end(p: Seq<char>) -> Option<int> {
    let from = class_start(p);
    if from > p.len() {
        None
    } else {
        match first_index(p.skip(from), ']') {
            Some(j) => Some(from + j),
            None => None,
        }
    }
}

pub proof fn lemma_class_end(p: Seq<char>)
    ensures
        class_end(p) matches Some(k) ==> 1 <= k < p.len() && p[k] == ']',
{
    let from = class_start(p);
    if from <= p.len() {
        lemma_first_index(p.skip(from), ']');
        match first_index(p.skip(from), ']') {
            Some(j) => {
                assert(p.skip(from)[j] == p[from + j]);
            },
            None => {},
        }
    }
}

/// Whether the members of a class (what stands between its brackets, a
/// leading `!` or `^` included) admit `c`: a member is one character or a
/// range `a-z`, and a leading `!` or `^` admits what the members do not.
pub open spec fn class_has(body: Seq<char>, c: char) -> bool {
    let neg = body.len() > 0 && (body[0] == '!' || body[0] == '^');
    let items = if neg { body.skip(1) } else { body };
    members_have(items, c) != neg
}

pub open spec fn members_have(items: Seq<char>, c: char) -> bool
    decreases items.len(),
{
    if items.len() == 0 {
        false
    } else if items.len() >= 3 && items[1] == '-' {
        (items[0] <= c && c <= items[2]) || members_have(items.skip(3), c)
    } else {
        items[0] == c || members_have(items.skip(1), c)
    }
}

/// Whether a glob pattern matches a whole string: `*` any run of characters,
/// `?` any one character, `[…]` one character of a class, anything else
/// itself. A `[` that nothing closes is itself.
pub open spec fn glob(p: Seq<char>, s: Seq<char>) -> bool
    decreases p.len(), s.len(),
{
    if p.len() == 0 {
        s.len() == 0
    } else if p[0] == '*' {
        glob(p.skip(1), s) || (s.len() > 0 && glob(p, s.skip(1)))
    } else if s.len() == 0 {
        false
    } else if p[0] == '[' && class_end(p) is Some {
        proof {
            lemma_class_end(p);
        }
        let k = class_end(p).unwrap();
        class_has(p.subrange(1, k), s[0]) && glob(p.skip(k + 1), s.skip(1))
    } else if p[0] == '?' || p[0] == s[0] {
        glob(p.skip(1), s.skip(1))
    } else {
        false
    }
}

/// A range in a bracket class holds both its ends and everything between:
/// where `a <= c <= b`, the members `a-b`, whatever follows them, admit `c`.
pub proof fn law_class_range_is_inclusive(a: char, b: char, rest: Seq<char>, c: char)
    requires
        a <= c <= b,
    ensures
        members_have(seq![a, '-', b] + rest, c),
{
    let items = seq![a, '-', b] + rest;
    assert(items.len() >= 3 && items[0] == a && items[1] == '-' && items[2] == b);
}

/// A one-character name is matched by a class holding one range exactly
/// when the character lies between the range's ends, both ends included: `c`
/// by `[a-b]` where `a <= c <= b`, and by `[!a-b]` where it does not.
pub proof fn law_class_range_matches_between_its_ends(a: char, b: char, c: char)
    requires
        a != '!' && a != '^' && a != ']',
        b != ']',
    ensures
        glob(seq!['[', a, '-', b, ']'], seq![c]) <==> a <= c <= b,
        glob(seq!['[', '!', a, '-', b, ']'], seq![c]) <==> !(a <= c <= b),
{
    let p = seq!['[', a, '-', b, ']'];
    let t = p.skip(1);
    assert(t =~= seq![a, '-', b, ']']);
    assert(t.skip(1) =~= seq!['-', b, ']']);
    assert(t.skip(1).skip(1) =~= seq![b, ']']);
    assert(t.skip(1).skip(1).skip(1) =~= seq![']']);
    assert(first_index(seq![']'], ']') == Some(0int));
    assert(first_index(seq![b, ']'], ']') == Some(1int));
    assert(first_index(seq!['-', b, ']'], ']') == Some(2int));
    assert(first_index(t, ']') == Some(3int));
    assert(class_start(p) == 1);
    assert(class_end(p) == Some(4int));
    assert(p.subrange(1, 4) =~= seq![a, '-', b]);
    let m = seq![a, '-', b];
    assert(m.len() == 3 && m[0] == a && m[1] == '-' && m[2] == b);
    assert(m.skip(3) =~= Seq::<char>::empty());
    assert(!members_have(m.skip(3), c));
    assert(members_have(m, c) == (a <= c <= b));
    assert(p.skip(5) =~= Seq::<char>::empty());
    assert(seq![c].skip(1) =~= Seq::<char>::empty());
    assert(glob(p.skip(5), seq![c].skip(1)));
    assert(class_has(p.subrange(1, 4), c) == (a <= c <= b));

    let n = seq!['[', '!', a, '-', b, ']'];
    let u = n.skip(2);
    assert(u =~= seq![a, '-', b, ']']);
    assert(u.skip(1) =~= seq!['-', b, ']']);
    assert(u.skip(1).skip(1) =~= seq![b, ']']);
    assert(u.skip(1).skip(1).skip(1) =~= seq![']']);
    assert(first_index(u, ']') == Some(3int));
    assert(class_start(n) == 2);
    assert(class_end(n) == Some(5int));
    assert(n.subrange(1, 5) =~= seq!['!', a, '-', b]);
    assert(seq!['!', a, '-', b].skip(1) =~= m);
    assert(n.skip(6) =~= Seq::<char>::empty());
    assert(glob(n.skip(6), seq![c].skip(1)));
    assert(class_has(n.subrange(1, 5), c) == !(a <= c <= b));
}

/// A pattern with none of `*`, `?` and `[` in it matches one name: itself.
pub proof fn law_a_plain_pattern_matches_only_itself(p: Seq<char>, s: Seq<char>)
    requires
        !p.contains('*'),
        !p.contains('?'),
        !p.contains('['),
    ensures
        glob(p, s) <==> p == s,
    decreases p.len(),
{
    if p.len() > 0 {
        assert(p[0] != '*' && p[0] != '?' && p[0] != '[') by {
            assert(p.contains(p[0]));
        }
        let rest = p.skip(1);
        assert(!rest.contains('*') && !rest.contains('?') && !rest.contains('[')) by {
            if rest.contains('*') {
                assert(p.contains(rest[rest.index_of('*')]) && p[rest.index_of('*') + 1] == '*');
            }
            if rest.contains('?') {
                assert(p[rest.index_of('?') + 1] == '?');
            }
            if rest.contains('[') {
                assert(p[rest.index_of('[') + 1] == '[');
            }
        }
        if s.len() > 0 {
            law_a_plain_pattern_matches_only_itself(rest, s.skip(1));
            if p == s {
                assert(rest == s.skip(1));
            }
            if rest == s.skip(1) && p[0] == s[0] {
                assert(p.len() == s.len());
                assert forall|i: int| 0 <= i < p.len() implies p[i] == s[i] by {
                    if i > 0 {
                        assert(p[i] == rest[i - 1]);
                        assert(s[i] == s.skip(1)[i - 1]);
                    }
                }
                assert(p =~= s);
            }
        }
    } else if s.len() > 0 {
        assert(p != s);
    } else {
        assert(p =~= s);
    }
}

fn members_match(items: &[char], c: char) -> (r: bool)
    ensures
        r == members_have(items@, c),
{
    let mut i: usize = 0;
    assert(items@.skip(0) =~= items@);
    while i < items.len()
        invariant
            i <= items@.len(),
            members_have(items@, c) == members_have(items@.skip(i as int), c),
        decreases items@.len() - i,
    {
        let ghost rest = items@.skip(i as int);
        assert(rest[0] == items@[i as int]);
        if items.len() - i > 2 && items[i + 1] == '-' {
            assert(rest[1] == items@[i + 1] && rest[2] == items@[i + 2]);
            if items[i] <= c && c <= items[i + 2] {
                return true;
            }
            assert(rest.skip(3) =~= items@.skip(i + 3));
            i = i + 3;
        } else {
            proof {
                if rest.len() >= 3 {
                    assert(rest[1] == items@[i + 1]);
                }
            }
            if items[i] == c {
                return true;
            }
            assert(rest.skip(1) =~= items@.skip(i + 1));
            i = i + 1;
        }
    }
    false
}

/// Whether a class's members, between its brackets, admit a character.
pub fn class_match(body: &[char], c: char) -> (r: bool)
    ensures
        r == class_has(body@, c),
{
    let neg = body.len() > 0 && (body[0] == '!' || body[0] == '^');
    if neg {
        let items = slice_vec(body, 1, body.len());
        assert(body@.subrange(1, body@.len() as int) =~= body@.skip(1));
        members_match(items.as_slice(), c) != neg
    } else {
        members_match(body, c) != neg
    }
}

/// The closing `]` of a class opening at `i`, as an index into `p`.
fn class_close(p: &[char], i: usize) -> (r: Option<usize>)
    requires
        i < p@.len(),
    ensures
        match class_end(p@.skip(i as int)) {
            Some(k) => r == Some((i + k) as usize),
            None => r is None,
        },
{
    let ghost q = p@.skip(i as int);
    let s0: usize = if p.len() - i > 1 && (p[i + 1] == '!' || p[i + 1] == '^') { 2 } else { 1 };
    proof {
        if q.len() > 1 {
            assert(q[1] == p@[i + 1]);
        }
    }
    let from: usize = if p.len() - i > s0 && p[i + s0] == ']' { s0 + 1 } else { s0 };
    proof {
        if q.len() > s0 {
            assert(q[s0 as int] == p@[i + s0]);
        }
    }
    assert(from as int == class_start(q));
    if from > p.len() - i {
        return None;
    }
    let mut j: usize = i + from;
    assert(q.skip(from as int) =~= p@.skip(j as int));
    proof {
        lemma_first_index(q.skip(from as int), ']');
    }
    assert(q.len() == p@.len() - i);
    while j < p.len()
        invariant
            i + from <= j <= p@.len(),
            q == p@.skip(i as int),
            from as int == class_start(q),
            q.len() == p@.len() - i,
            forall|x: int| i + from <= x < j ==> p@[x] != ']',
        decreases p@.len() - j,
    {
        if p[j] == ']' {
            proof {
                let qs = q.skip(from as int);
                assert(qs[j - i - from] == p@[j as int]);
                assert forall|x: int| 0 <= x < j - i - from implies qs[x] != ']' by {
                    assert(qs[x] == p@[i + from + x]);
                }
                lemma_first_index_unique(qs, ']', j - i - from);
                assert(first_index(qs, ']') == Some(j - i - from));
                assert(q.len() == p@.len() - i);
                assert(class_start(q) == from as int);
                assert(class_end(q) == Some(j - i));
            }
            return Some(j);
        }
        j = j + 1;
    }
    proof {
        let qs = q.skip(from as int);
        assert forall|x: int| 0 <= x < qs.len() implies qs[x] != ']' by {
            assert(qs[x] == p@[i + from + x]);
        }
        lemma_first_index_none(qs, ']');
    }
    None
}

/// Glob matching, by a table filled from the ends of both strings: one row
/// for every place in the pattern, each saying from which places in the
/// text the rest of the pattern matches the rest of the text.
pub fn fnmatch(pat: &str, s: &str) -> (r: bool)
    ensures
        r == glob(pat@, s@),
{
    let p = chars_of(pat);
    let t = chars_of(s);
    let n = t.len();
    let m = p.len();
    // `rows[r][y]` is whether the pattern from `m - r` matches the text from
    // `y`; `ends[r]` the same at the end of the text.
    let mut rows: Vec<Vec<bool>> = Vec::new();
    let mut ends: Vec<bool> = Vec::new();
    let mut last: Vec<bool> = Vec::new();
    let mut x: usize = 0;
    assert(p@.skip(m as int).len() == 0);
    while x < n
        invariant
            x <= n,
            n == t@.len(),
            m == p@.len(),
            last@.len() == x,
            forall|y: int| 0 <= y < x ==> #[trigger] last@[y] == glob(p@.skip(m as int), t@.skip(y)),
        decreases n - x,
    {
        last.push(false);
        x = x + 1;
    }
    rows.push(last);
    ends.push(true);
    let mut i: usize = m;
    while i > 0
        invariant
            i <= m,
            n == t@.len(),
            m == p@.len(),
            rows@.len() == m - i + 1,
            ends@.len() == m - i + 1,
            forall|r: int| 0 <= r < rows@.len() ==> (#[trigger] rows@[r])@.len() == n,
            forall|r: int, y: int| 0 <= r < rows@.len() && 0 <= y < n ==> #[trigger] rows@[r]@[y] == glob(
                p@.skip(m - r),
                t@.skip(y),
            ),
            forall|r: int| 0 <= r < ends@.len() ==> #[trigger] ends@[r] == glob(p@.skip(m - r), t@.skip(n as int)),
        decreases i,
    {
        let pi = i - 1;
        let c = p[pi];
        let ghost q = p@.skip(pi as int);
        assert(q[0] == c);
        assert(q.skip(1) =~= p@.skip(pi + 1));
        assert(t@.skip(n as int).len() == 0);
        let close = if c == '[' {
            class_close(p.as_slice(), pi)
        } else {
            None
        };
        proof {
            lemma_class_end(q);
        }
        let body = match close {
            Some(e) => slice_vec(p.as_slice(), pi + 1, e),
            None => Vec::new(),
        };
        proof {
            if let Some(e) = close {
                assert(q.subrange(1, e - pi) =~= p@.subrange(pi + 1, e as int));
                assert(q.skip(e - pi + 1) =~= p@.skip(e + 1));
            }
        }
        let next = &rows[m - i];
        let next_end = ends[m - i];
        let end = if c == '*' {
            next_end
        } else {
            false
        };
        // Filled from the end, so held reversed until it is done.
        let mut rev: Vec<bool> = Vec::new();
        let mut k: usize = n;
        while k > 0
            invariant
                k <= n,
                n == t@.len(),
                m == p@.len(),
                pi < m,
                q == p@.skip(pi as int),
                q[0] == c,
                q.skip(1) == p@.skip(pi + 1),
                rows@.len() == m - pi,
                forall|r: int| 0 <= r < rows@.len() ==> (#[trigger] rows@[r])@.len() == n,
                forall|r: int, y: int| 0 <= r < rows@.len() && 0 <= y < n ==> #[trigger] rows@[r]@[y] == glob(
                    p@.skip(m - r),
                    t@.skip(y),
                ),
                forall|r: int| 0 <= r < ends@.len() ==> #[trigger] ends@[r] == glob(p@.skip(m - r), t@.skip(n as int)),
                ends@.len() == m - pi,
                next@ == rows@[m - i]@,
                next_end == ends@[m - i],
                m - i == m - pi - 1,
                end == glob(q, t@.skip(n as int)),
                c == '[' ==> (match class_end(q) {
                    Some(e) => close == Some((pi + e) as usize),
                    None => close is None,
                }),
                c != '[' ==> close is None,
                close matches Some(e) ==> (pi < e < m && body@ == q.subrange(1, e - pi) && q.skip(e - pi + 1) == p@.skip(e + 1)),
                rev@.len() == n - k,
                forall|y: int| k <= y < n ==> #[trigger] rev@[n - 1 - y] == glob(q, t@.skip(y)),
            decreases k,
        {
            let y = k - 1;
            let ghost ts = t@.skip(y as int);
            assert(ts[0] == t@[y as int]);
            assert(ts.skip(1) =~= t@.skip(y + 1));
            let here_on = if y + 1 < n {
                next[y + 1]
            } else {
                next_end
            };
            let v = if c == '*' {
                let later = if y + 1 < n {
                    rev[n - 1 - (y + 1)]
                } else {
                    end
                };
                next[y] || later
            } else {
                match close {
                    Some(e) => {
                        let r = m - (e + 1);
                        let after = if y + 1 < n {
                            rows[r][y + 1]
                        } else {
                            ends[r]
                        };
                        class_match(body.as_slice(), t[y]) && after
                    },
                    None => (c == '?' || c == t[y]) && here_on,
                }
            };
            proof {
                assert(ts.len() > 0);
                assert(q.len() > 0);
                let r0 = (m - i) as int;
                assert(m - r0 == pi + 1);
                if y + 1 < n {
                    assert(next@[y + 1] == rows@[r0]@[y + 1]);
                    assert(here_on == glob(p@.skip(pi + 1), t@.skip(y + 1)));
                } else {
                    assert(t@.skip(y + 1).len() == 0);
                    assert(t@.skip(y + 1) =~= t@.skip(n as int));
                    assert(here_on == glob(p@.skip(pi + 1), t@.skip(y + 1)));
                }
                if c == '*' {
                    assert(next@[y as int] == rows@[r0]@[y as int]);
                    assert(glob(q, ts) == (glob(q.skip(1), ts) || glob(q, ts.skip(1))));
                    if y + 1 >= n {
                        assert(t@.skip(y + 1) =~= t@.skip(n as int));
                    }
                } else {
                    match close {
                        Some(e) => {
                            let rr = m - (e + 1);
                            assert(m - rr == e + 1);
                            lemma_class_end(q);
                            assert(q.len() == m - pi);
                            assert(c == '[');
                            match class_end(q) {
                                Some(e2) => {
                                    assert(e2 == e - pi);
                                },
                                None => {},
                            }
                            assert(class_end(q) == Some(e - pi));
                            if y + 1 < n {
                                assert(rows@[rr]@[y + 1] == glob(p@.skip(e + 1), t@.skip(y + 1)));
                            } else {
                                assert(ends@[rr] == glob(p@.skip(e + 1), t@.skip(n as int)));
                                assert(t@.skip(y + 1) =~= t@.skip(n as int));
                            }
                            assert(glob(q, ts) == (class_has(q.subrange(1, e - pi), ts[0]) && glob(q.skip(e - pi + 1), ts.skip(1))));
                        },
                        None => {
                            assert(!(q[0] == '[' && class_end(q) is Some));
                            assert(glob(q, ts) == ((q[0] == '?' || q[0] == ts[0]) && glob(q.skip(1), ts.skip(1))));
                        },
                    }
                }
                assert(v == glob(q, ts));
            }
            rev.push(v);
            k = k - 1;
        }
        let mut row: Vec<bool> = Vec::new();
        let mut z: usize = 0;
        while z < n
            invariant
                z <= n,
                rev@.len() == n,
                row@.len() == z,
                forall|y: int| 0 <= y < z ==> #[trigger] row@[y] == rev@[n - 1 - y],
            decreases n - z,
        {
            row.push(rev[n - 1 - z]);
            z = z + 1;
        }
        rows.push(row);
        ends.push(end);
        i = pi;
    }
    assert(p@.skip(0) =~= p@);
    assert(t@.skip(0) =~= t@);
    if n == 0 {
        ends[m]
    } else {
        rows[m][0]
    }
}


// ---------------------------------------------------------------------------
// Calendar dates

/// Division rounding toward zero, as `/` on a machine integer does.
pub open spec fn tdiv(a: int, b: int) -> int {
    if a >= 0 {
        a / b
    } else {
        -((-a) / b)
    }
}

/// The proleptic Gregorian date `days` days after 1970-01-01, as (year,
/// month, day), by Howard Hinnant's civil-from-days arithmetic.
pub open spec fn civil(days: int) -> (int, int, int) {
    let z = days + 719468;
    let era = z / 146097;
    let doe = z - era * 146097;
    let yoe = tdiv(doe - doe / 1460 + doe / 36524 - doe / 146096, 365);
    let doy = doe - (365 * yoe + tdiv(yoe, 4) - tdiv(yoe, 100));
    let mp = tdiv(5 * doy + 2, 153);
    let d = doy - tdiv(153 * mp + 2, 5) + 1;
    let m = if mp < 10 {
        mp + 3
    } else {
        mp - 9
    };
    let y = yoe + era * 400 + (if m <= 2 {
        1int
    } else {
        0int
    });
    (y, m, d)
}

pub fn civil_from_days(days: u64) -> (r: (i64, i64, i64))
    requires
        days <= 1_000_000_000_000_000,
    ensures
        (r.0 as int, r.1 as int, r.2 as int) == civil(days as int),
        r.0 >= 0,
        -1_000_000 < r.1 < 1_000_000,
        -1_000_000 < r.2 < 1_000_000,
{
    let z: i64 = days as i64 + 719468;
    let era: i64 = z / 146097;
    let doe: i64 = z - era * 146097;
    assert(0 <= doe < 146097) by (nonlinear_arith)
        requires
            z >= 0,
            era == z / 146097,
            doe == z - era * 146097,
    ;
    let t: i64 = doe - doe / 1460 + doe / 36524 - doe / 146096;
    let yoe: i64 = t / 365;
    assert(yoe == tdiv(t as int, 365));
    let q4: i64 = yoe / 4;
    let q100: i64 = yoe / 100;
    assert(q4 == tdiv(yoe as int, 4));
    assert(q100 == tdiv(yoe as int, 100));
    let doy: i64 = doe - (365 * yoe + q4 - q100);
    let mp: i64 = (5 * doy + 2) / 153;
    assert(mp == tdiv(5 * doy + 2, 153));
    let q5: i64 = (153 * mp + 2) / 5;
    assert(q5 == tdiv(153 * mp + 2, 5));
    let d: i64 = doy - q5 + 1;
    let m: i64 = if mp < 10 {
        mp + 3
    } else {
        mp - 9
    };
    let y: i64 = yoe + era * 400 + if m <= 2 {
        1
    } else {
        0
    };
    (y, m, d)
}

/// A number written at least `w` digits wide with leading zeros; a negative
/// one takes its `-` out of the width, as `{:0w}` does.
pub open spec fn zpad(n: int, w: nat) -> Seq<char> {
    if n < 0 {
        seq!['-'] + zeros_to(dec((-n) as nat), if w >= 1 { (w - 1) as nat } else { 0 })
    } else {
        zeros_to(dec(n as nat), w)
    }
}

/// `s` with zeros in front up to `w` characters.
pub open spec fn zeros_to(s: Seq<char>, w: nat) -> Seq<char> {
    if s.len() >= w {
        s
    } else {
        Seq::new((w - s.len()) as nat, |i: int| '0') + s
    }
}

pub fn push_zpad(out: &mut String, n: i64, w: usize)
    requires
        w <= 8,
        n > i64::MIN,
    ensures
        final(out)@ == old(out)@ + zpad(n as int, w as nat),
{
    let neg = n < 0;
    let mag: u64 = if neg {
        (-n) as u64
    } else {
        n as u64
    };
    let width: usize = if neg {
        if w >= 1 {
            w - 1
        } else {
            0
        }
    } else {
        w
    };
    if neg {
        push_char(out, '-');
    }
    let digits = dec_string(mag);
    let len = chars_of(digits.as_str()).len();
    let ghost before = out@;
    let mut k: usize = len;
    while k < width
        invariant
            len <= k,
            k <= width || k == len,
            out@ == before + Seq::new((k - len) as nat, |i: int| '0'),
        decreases width - k,
    {
        push_char(out, '0');
        assert(Seq::new((k + 1 - len) as nat, |i: int| '0') =~= Seq::new((k - len) as nat, |i: int| '0').push('0'));
        k = k + 1;
    }
    push_str(out, digits.as_str());
    proof {
        if len >= width {
            assert(Seq::new((k - len) as nat, |i: int| '0') =~= Seq::<char>::empty());
        }
    }
}

/// A moment as a page prints it: `YYYY-MM-DD HH:MM`, in UTC, for a time
/// `secs` seconds after the Unix epoch.
pub open spec fn time_spec(secs: nat) -> Seq<char> {
    let days = secs / 86400;
    let rest = secs % 86400;
    let (y, m, d) = civil(days as int);
    zpad(y, 4) + seq!['-'] + zpad(m, 2) + seq!['-'] + zpad(d, 2) + seq![' '] + zpad((rest / 3600) as int, 2)
        + seq![':'] + zpad(((rest % 3600) / 60) as int, 2)
}

pub fn fmt_time(secs: u64) -> (r: String)
    ensures
        r@ == time_spec(secs as nat),
{
    let days = secs / 86400;
    let rest = secs % 86400;
    let (y, m, d) = civil_from_days(days);
    let mut out = String::new();
    push_zpad(&mut out, y, 4);
    push_char(&mut out, '-');
    push_zpad(&mut out, m, 2);
    push_char(&mut out, '-');
    push_zpad(&mut out, d, 2);
    push_char(&mut out, ' ');
    push_zpad(&mut out, (rest / 3600) as i64, 2);
    push_char(&mut out, ':');
    push_zpad(&mut out, ((rest % 3600) / 60) as i64, 2);
    out
}


// ---------------------------------------------------------------------------
// Case

/// What `str::to_lowercase` makes of a string: Unicode's lower case of each
/// character, the same wherever it runs.
pub uninterp spec fn lowercase(s: Seq<char>) -> Seq<char>;

/// A string in lower case. `str::to_lowercase`.
#[verifier::external_body]
pub(crate) fn to_lowercase(s: &str) -> (r: String)
    ensures
        r@ == lowercase(s@),
{
    s.to_lowercase()
}

} // verus!
