//! Markdown's supporting logic: the link and URL gates, the LaTeX delimiter
//! rewrite, and what a diagram or a formula is drawn as.

use pulldown_latex::{Parser, RenderConfig, Storage, push_mathml};
use pulldown_latex::config::DisplayMode;
use vstd::prelude::*;
use crate::util::{
    chars_of, is_ascii_alpha, is_ascii_alnum, lower, lower_char, to_lower_char, ascii_lower,
    trim, trimmed, string_of, slice_vec, occurs_at, starts_at, contains_seq, contains_chars,
    html_escaped, html_escape, push_str, push_char, is_ws, char_is_ws, first_index, find_from,
    find_chars_from, lemma_find_from, has_char,
};
use crate::vfs::Vfs;
use vstd::string::StringSliceAdditionalSpecFns;

verus! {

broadcast use vstd::string::group_string_axioms;

/// Whether a document's own raw HTML is drawn as markup, or shown as the text
/// it is.
///
/// Decided by where the document came from, never by what is in it: a local
/// README renders as its author meant; one a remote machine served shows its
/// markup, because the policy that stops its scripts does not stop it painting
/// something that looks like this app asking for a password.
#[derive(Clone, Copy, PartialEq, Eq, Debug, Structural)]
pub enum RawHtml {
    /// Draw it. The document is from this device.
    Draw,
    /// Show it as text. The document came from somewhere else.
    Show,
}

/// Drawn for a document from this device, shown as text otherwise.
pub open spec fn raw_html_for(on_this_device: bool) -> RawHtml {
    if on_this_device {
        RawHtml::Draw
    } else {
        RawHtml::Show
    }
}

impl RawHtml {
    /// The answer for a document served out of `vfs`, given what the backend
    /// says of itself.
    pub fn of<V: Vfs>(vfs: &V) -> (r: RawHtml)
        ensures
            r == raw_html_for(vfs.is_on_this_device()),
    {
        RawHtml::from_device(vfs.on_this_device())
    }

    /// The answer for a document that is, or is not, from this device.
    pub fn from_device(on_this_device: bool) -> (r: RawHtml)
        ensures
            r == raw_html_for(on_this_device),
    {
        if on_this_device {
            RawHtml::Draw
        } else {
            RawHtml::Show
        }
    }
}

// ---------------------------------------------------------------------------
// Links that leave the tree

/// The URL scheme grammar: a letter, then letters, digits, `+`, `-` or `.`.
pub open spec fn scheme_shaped(t: Seq<char>) -> bool {
    &&& t.len() > 0
    &&& is_ascii_alpha(t[0])
    &&& forall|k: int|
        0 < k < t.len() ==> is_ascii_alnum(#[trigger] t[k]) || t[k] == '+' || t[k] == '-'
            || t[k] == '.'
}

/// Whether `c` ends a URL's scheme or starts its path, query or fragment.
pub open spec fn url_stop(c: char) -> bool {
    c == ':' || c == '/' || c == '?' || c == '#'
}

/// The first `:`, `/`, `?` or `#`.
pub open spec fn first_stop(s: Seq<char>) -> Option<int>
    decreases s.len(),
{
    if s.len() == 0 {
        None
    } else if url_stop(s[0]) {
        Some(0)
    } else {
        match first_stop(s.skip(1)) {
            Some(i) => Some(i + 1),
            None => None,
        }
    }
}

/// A link that leaves the tree: anything carrying a scheme, and anything
/// carrying a host. `//example.com/x` borrows the page's scheme; a scheme
/// ends at the first `:`, which has to come before any `/`, `?` or `#`.
pub open spec fn leaves_spec(url: Seq<char>) -> bool {
    if url.len() >= 2 && url[0] == '/' && url[1] == '/' {
        url.len() > 2
    } else {
        match first_stop(url) {
            Some(i) => url[i] == ':' && scheme_shaped(url.take(i)),
            None => false,
        }
    }
}

fn find_stop(v: &[char]) -> (r: Option<usize>)
    ensures
        match r {
            Some(x) => first_stop(v@) == Some(x as int) && x < v@.len() && url_stop(v@[x as int])
                && forall|j: int| 0 <= j < x ==> !url_stop(#[trigger] v@[j]),
            None => first_stop(v@) is None && forall|j: int|
                0 <= j < v@.len() ==> !url_stop(#[trigger] v@[j]),
        },
{
    let mut i: usize = 0;
    let ghost s = v@;
    assert(s.skip(0) == s);
    while i < v.len()
        invariant
            i <= s.len(),
            s == v@,
            forall|j: int| 0 <= j < i ==> !url_stop(#[trigger] s[j]),
            first_stop(s) == (match first_stop(s.skip(i as int)) {
                Some(k) => Some(k + i),
                None => None,
            }),
        decreases s.len() - i,
    {
        let c = v[i];
        if c == ':' || c == '/' || c == '?' || c == '#' {
            return Some(i);
        }
        assert(s.skip(i as int).skip(1) == s.skip(i + 1));
        i = i + 1;
    }
    None
}

pub fn leaves_the_tree(url: &str) -> (r: bool)
    ensures
        r == leaves_spec(url@),
{
    let v = chars_of(url);
    if v.len() >= 2 && v[0] == '/' && v[1] == '/' {
        return v.len() > 2;
    }
    match find_stop(v.as_slice()) {
        Some(i) => {
            if v[i] != ':' || i == 0 {
                return false;
            }
            let c0 = v[0];
            if !(('a' <= c0 && c0 <= 'z') || ('A' <= c0 && c0 <= 'Z')) {
                return false;
            }
            let mut k: usize = 1;
            while k < i
                invariant
                    1 <= k <= i < v@.len(),
                    v@ == url@,
                    !(v@.len() >= 2 && v@[0] == '/' && v@[1] == '/'),
                    first_stop(v@) == Some(i as int),
                    v@[i as int] == ':',
                    forall|j: int|
                        0 < j < k ==> is_ascii_alnum(#[trigger] v@[j]) || v@[j] == '+' || v@[j]
                            == '-' || v@[j] == '.',
                decreases i - k,
            {
                let c = v[k];
                if !(('a' <= c && c <= 'z') || ('A' <= c && c <= 'Z') || ('0' <= c && c <= '9')
                    || c == '+' || c == '-' || c == '.') {
                    assert(v@.take(i as int)[k as int] == c);
                    return false;
                }
                k = k + 1;
            }
            assert forall|j: int| 0 < j < i implies {
                let t = #[trigger] v@.take(i as int)[j];
                is_ascii_alnum(t) || t == '+' || t == '-' || t == '.'
            } by {
                assert(v@.take(i as int)[j] == v@[j]);
            }
            true
        },
        None => false,
    }
}

// ---------------------------------------------------------------------------
// URLs nobody should follow

/// Whether `s` starts with `p`, ASCII case aside. `p` is lower case.
pub open spec fn starts_ci(s: Seq<char>, p: Seq<char>) -> bool {
    s.len() >= p.len() && lower(s.take(p.len() as int)) == p
}

/// What comrak refuses as a URL: a `javascript:`, `vbscript:`, `file:` or
/// `data:` scheme, any case — except a `data:` URL of a PNG, GIF, JPEG or WebP
/// image.
pub open spec fn dangerous_spec(s: Seq<char>) -> bool {
    &&& (starts_ci(s, "javascript:"@) || starts_ci(s, "vbscript:"@) || starts_ci(s, "file:"@)
        || starts_ci(s, "data:"@))
    &&& !(starts_ci(s, "data:image/png"@) || starts_ci(s, "data:image/gif"@) || starts_ci(
        s,
        "data:image/jpeg"@,
    ) || starts_ci(s, "data:image/webp"@))
}

/// `comrak::html::dangerous_url`. Its scanner matches, case-insensitively and
/// at the start of the string, `javascript:`, `vbscript:`, `file:` and `data:`,
/// and lets the longer `data:image/png`, `…/gif`, `…/jpeg` and `…/webp` win over
/// `data:`; the contract says exactly that.
#[verifier::external_body]
fn dangerous_url(url: &str) -> (r: bool)
    ensures
        r == dangerous_spec(url@),
{
    comrak::html::dangerous_url(url)
}


// ---------------------------------------------------------------------------
// SVG that can be dropped into a page

/// Whether position `i` is inside a tag: the last `<` or `>` before it is `<`.
pub open spec fn in_tag_at(s: Seq<char>, i: int) -> bool
    decreases i,
{
    if i <= 0 || i > s.len() {
        false
    } else if s[i - 1] == '<' {
        true
    } else if s[i - 1] == '>' {
        false
    } else {
        in_tag_at(s, i - 1)
    }
}

/// `u8::is_ascii_whitespace`, on a character.
pub open spec fn is_ascii_space(c: char) -> bool {
    c == ' ' || c == '\t' || c == '\n' || c == '\u{c}' || c == '\r'
}

/// Where the run of ASCII letters from `j` ends.
pub open spec fn letters_end(s: Seq<char>, j: int) -> int
    decreases s.len() - j,
{
    if 0 <= j < s.len() && is_ascii_alpha(s[j]) {
        letters_end(s, j + 1)
    } else {
        j
    }
}

/// Where the run of ASCII white space from `j` ends.
pub open spec fn spaces_end(s: Seq<char>, j: int) -> int
    decreases s.len() - j,
{
    if 0 <= j < s.len() && is_ascii_space(s[j]) {
        spaces_end(s, j + 1)
    } else {
        j
    }
}

/// An event-handler attribute starts at `i`: inside a tag, after a space or a
/// `/`, `on` and a letter, then letters, optional white space and `=`.
pub open spec fn handler_at(s: Seq<char>, i: int) -> bool {
    &&& 0 <= i && i + 3 < s.len()
    &&& in_tag_at(s, i)
    &&& (s[i] == ' ' || s[i] == '\t' || s[i] == '\n' || s[i] == '\r' || s[i] == '/')
    &&& s[i + 1] == 'o' && s[i + 2] == 'n' && is_ascii_alpha(s[i + 3])
    &&& spaces_end(s, letters_end(s, i + 3)) < s.len()
    &&& s[spaces_end(s, letters_end(s, i + 3))] == '='
}

fn run_end_letters(v: &[char], from: usize) -> (r: usize)
    requires
        from <= v@.len(),
    ensures
        r == letters_end(v@, from as int),
        from <= r <= v@.len(),
{
    let mut j = from;
    while j < v.len() && (('a' <= v[j] && v[j] <= 'z') || ('A' <= v[j] && v[j] <= 'Z'))
        invariant
            from <= j <= v@.len(),
            letters_end(v@, from as int) == letters_end(v@, j as int),
        decreases v@.len() - j,
    {
        j = j + 1;
    }
    j
}

fn run_end_spaces(v: &[char], from: usize) -> (r: usize)
    requires
        from <= v@.len(),
    ensures
        r == spaces_end(v@, from as int),
        from <= r <= v@.len(),
{
    let mut j = from;
    while j < v.len() && (v[j] == ' ' || v[j] == '\t' || v[j] == '\n' || v[j] == '\u{c}' || v[j]
        == '\r')
        invariant
            from <= j <= v@.len(),
            spaces_end(v@, from as int) == spaces_end(v@, j as int),
        decreases v@.len() - j,
    {
        j = j + 1;
    }
    j
}

/// Whether lower-cased SVG carries an event-handler attribute anywhere.
pub fn svg_has_on_handler(lower: &str) -> (r: bool)
    ensures
        r == exists|i: int| handler_at(lower@, i),
{
    let v = chars_of(lower);
    let mut in_tag = false;
    let mut i: usize = 0;
    while i < v.len()
        invariant
            v@ == lower@,
            i <= v@.len(),
            in_tag == in_tag_at(v@, i as int),
            forall|j: int| 0 <= j < i ==> !handler_at(v@, j),
        decreases v@.len() - i,
    {
        let c = v[i];
        if c == '<' {
            in_tag = true;
        } else if c == '>' {
            in_tag = false;
        } else if (c == ' ' || c == '\t' || c == '\n' || c == '\r' || c == '/') && in_tag && v.len()
            - i > 3 && v[i + 1] == 'o' && v[i + 2] == 'n' && (('a' <= v[i + 3] && v[i + 3]
            <= 'z') || ('A' <= v[i + 3] && v[i + 3] <= 'Z')) {
            let j = run_end_letters(v.as_slice(), i + 3);
            let k = run_end_spaces(v.as_slice(), j);
            if k < v.len() && v[k] == '=' {
                assert(handler_at(v@, i as int));
                return true;
            }
        }
        i = i + 1;
    }
    false
}

/// What SVG from the renderer is let into a page as: trimmed, and only when it
/// is an `<svg>` with no script, no `javascript:` and no event handler in it.
pub open spec fn inline_svg_spec(svg: Seq<char>) -> Result<Seq<char>, Seq<char>> {
    let t = trim(svg);
    if !(t.len() >= 4 && t.take(4) == "<svg"@) {
        Err("renderer did not produce SVG"@)
    } else {
        let l = lower(t);
        if contains_seq(l, "<script"@) || contains_seq(l, "javascript:"@) || (exists|i: int|
            handler_at(l, i)) {
            Err("renderer produced unsafe SVG"@)
        } else {
            Ok(t)
        }
    }
}

/// Keep only SVG we can drop into HTML: no XML prologue, no script, no
/// event-handler attributes. The renderer emits its own markup from an IR, so
/// this is defense in depth against a label that slipped through unescaped.
pub fn inline_svg(svg: &str) -> (r: Result<String, String>)
    ensures
        match inline_svg_spec(svg@) {
            Ok(t) => r matches Ok(x) && x@ == t,
            Err(e) => r matches Err(x) && x@ == e,
        },
{
    let t = trimmed(chars_of(svg).as_slice());
    let head = chars_of("<svg");
    proof {
        reveal_strlit("<svg");
    }
    if t.len() < 4 || !starts_at(t.as_slice(), 0, head.as_slice()) {
        proof {
            if t@.len() >= 4 {
                assert(t@.subrange(0, 4) == t@.take(4));
            }
        }
        return Err("renderer did not produce SVG".to_owned());
    }
    assert(t@.subrange(0, 4) == t@.take(4));
    let l = ascii_lower(t.as_slice());
    let script = chars_of("<script");
    let js = chars_of("javascript:");
    let ls = string_of(l.as_slice());
    if contains_chars(l.as_slice(), script.as_slice()) || contains_chars(
        l.as_slice(),
        js.as_slice(),
    ) || svg_has_on_handler(ls.as_str()) {
        return Err("renderer produced unsafe SVG".to_owned());
    }
    Ok(string_of(t.as_slice()))
}


// ---------------------------------------------------------------------------
// LaTeX delimiters

/// Length of the run of `c` starting at `i`.
pub open spec fn run_len(s: Seq<char>, i: int, c: char) -> int
    decreases s.len() - i,
{
    if 0 <= i < s.len() && s[i] == c {
        1 + run_len(s, i + 1, c)
    } else {
        0
    }
}

pub proof fn lemma_run_len_bounds(s: Seq<char>, i: int, c: char)
    requires
        0 <= i <= s.len(),
    ensures
        0 <= run_len(s, i, c) <= s.len() - i,
        i < s.len() && s[i] == c ==> run_len(s, i, c) >= 1,
    decreases s.len() - i,
{
    if i < s.len() && s[i] == c {
        lemma_run_len_bounds(s, i + 1, c);
    }
}

fn run_len_exec(v: &[char], i: usize, c: char) -> (r: usize)
    requires
        i <= v@.len(),
    ensures
        r == run_len(v@, i as int, c),
        i + r <= v@.len(),
{
    proof {
        lemma_run_len_bounds(v@, i as int, c);
    }
    let mut j = i;
    while j < v.len() && v[j] == c
        invariant
            i <= j <= v@.len(),
            run_len(v@, i as int, c) == (j - i) + run_len(v@, j as int, c),
        decreases v@.len() - j,
    {
        j = j + 1;
    }
    j - i
}

/// Start of the next run of exactly `n` copies of `c`, at or after `i`.
pub open spec fn find_run(s: Seq<char>, i: int, c: char, n: int) -> Option<int>
    decreases s.len() - i,
{
    if i < 0 || i >= s.len() {
        None
    } else if s[i] == c {
        let l = run_len(s, i, c);
        if l == n {
            Some(i)
        } else {
            proof {
                lemma_run_len_bounds(s, i, c);
            }
            find_run(s, i + l, c, n)
        }
    } else {
        find_run(s, i + 1, c, n)
    }
}

pub proof fn lemma_find_run_bounds(s: Seq<char>, i: int, c: char, n: int)
    requires
        0 <= i,
    ensures
        find_run(s, i, c, n) matches Some(k) ==> i <= k && k + n <= s.len(),
    decreases s.len() - i,
{
    if i < s.len() {
        lemma_run_len_bounds(s, i, c);
        if s[i] == c {
            if run_len(s, i, c) != n {
                lemma_find_run_bounds(s, i + run_len(s, i, c), c, n);
            }
        } else {
            lemma_find_run_bounds(s, i + 1, c, n);
        }
    }
}

fn find_run_exec(v: &[char], from: usize, c: char, n: usize) -> (r: Option<usize>)
    requires
        from <= v@.len(),
    ensures
        match find_run(v@, from as int, c, n as int) {
            Some(k) => r == Some(k as usize),
            None => r is None,
        },
{
    proof {
        lemma_find_run_bounds(v@, from as int, c, n as int);
    }
    let mut i = from;
    while i < v.len()
        invariant
            from <= i <= v@.len(),
            find_run(v@, from as int, c, n as int) == find_run(v@, i as int, c, n as int),
        decreases v@.len() - i,
    {
        if v[i] == c {
            let len = run_len_exec(v, i, c);
            proof {
                lemma_run_len_bounds(v@, i as int, c);
            }
            if len == n {
                return Some(i);
            }
            i = i + len;
        } else {
            i = i + 1;
        }
    }
    None
}

/// Just past the end of the line holding `from`: after its `\n`, or the end.
pub open spec fn line_end(s: Seq<char>, from: int) -> int
    decreases s.len() - from,
{
    if from < 0 || from >= s.len() {
        s.len() as int
    } else if s[from] == '\n' {
        from + 1
    } else {
        line_end(s, from + 1)
    }
}

pub proof fn lemma_line_end_bounds(s: Seq<char>, from: int)
    requires
        0 <= from < s.len(),
    ensures
        from < line_end(s, from) <= s.len(),
    decreases s.len() - from,
{
    if s[from] != '\n' {
        if from + 1 < s.len() {
            lemma_line_end_bounds(s, from + 1);
        } else {
            assert(line_end(s, from + 1) == s.len());
        }
    }
}

fn line_end_exec(v: &[char], from: usize) -> (r: usize)
    requires
        from < v@.len(),
    ensures
        r == line_end(v@, from as int),
        from < r <= v@.len(),
{
    proof {
        lemma_line_end_bounds(v@, from as int);
    }
    let mut i = from;
    while i < v.len()
        invariant
            from <= i <= v@.len(),
            line_end(v@, from as int) == line_end(v@, i as int),
        decreases v@.len() - i,
    {
        if v[i] == '\n' {
            return i + 1;
        }
        i = i + 1;
    }
    v.len()
}

/// How many of up to three leading spaces stand at `i`.
pub open spec fn indent_end(s: Seq<char>, i: int) -> int {
    if i < s.len() && s[i] == ' ' {
        if i + 1 < s.len() && s[i + 1] == ' ' {
            if i + 2 < s.len() && s[i + 2] == ' ' {
                i + 3
            } else {
                i + 2
            }
        } else {
            i + 1
        }
    } else {
        i
    }
}

/// A code fence marker on the line starting at `i`, as (character, length,
/// index just past the run): three or more backticks or tildes after at most
/// three spaces.
pub open spec fn fence_marker(s: Seq<char>, i: int) -> Option<(char, int, int)> {
    let p = indent_end(s, i);
    if p < s.len() && (s[p] == '`' || s[p] == '~') && run_len(s, p, s[p]) >= 3 {
        Some((s[p], run_len(s, p, s[p]), p + run_len(s, p, s[p])))
    } else {
        None
    }
}

fn fence_marker_exec(v: &[char], i: usize) -> (r: Option<(char, usize, usize)>)
    requires
        i <= v@.len(),
    ensures
        match r {
            Some((c, l, after)) => fence_marker(v@, i as int) == Some((c, l as int, after as int))
                && after <= v@.len(),
            None => fence_marker(v@, i as int) is None,
        },
{
    let mut p = i;
    while p < v.len() && p - i < 3 && v[p] == ' '
        invariant
            i <= p <= v@.len(),
            p - i <= 3,
            forall|j: int| i <= j < p ==> v@[j] == ' ',
        decreases v@.len() - p,
    {
        p = p + 1;
    }
    assert(p == indent_end(v@, i as int));
    if p < v.len() && (v[p] == '`' || v[p] == '~') {
        let len = run_len_exec(v, p, v[p]);
        if len >= 3 {
            return Some((v[p], len, p + len));
        }
    }
    None
}

/// Nothing but spaces and tabs from `from` to the end of the line.
pub open spec fn rest_blank(s: Seq<char>, from: int) -> bool
    decreases s.len() - from,
{
    if from < 0 || from >= s.len() || s[from] == '\n' {
        true
    } else if s[from] == ' ' || s[from] == '\t' {
        rest_blank(s, from + 1)
    } else {
        false
    }
}

fn rest_blank_exec(v: &[char], from: usize) -> (r: bool)
    requires
        from <= v@.len(),
    ensures
        r == rest_blank(v@, from as int),
{
    let mut i = from;
    while i < v.len() && v[i] != '\n'
        invariant
            from <= i <= v@.len(),
            rest_blank(v@, from as int) == rest_blank(v@, i as int),
        decreases v@.len() - i,
    {
        if v[i] != ' ' && v[i] != '\t' {
            return false;
        }
        i = i + 1;
    }
    true
}

/// The inside of a math span starting at `from`, and the index just past its
/// closing delimiter. The search stops at a blank line, skips escapes, and
/// refuses a span that is empty or holds a `$`.
pub open spec fn tex_span(s: Seq<char>, from: int, i: int, close: Seq<char>) -> Option<(Seq<char>, int)>
    decreases s.len() - i,
{
    if i < from || i >= s.len() {
        None
    } else if occurs_at(s, i, close) {
        let inner = s.subrange(from, i);
        if trim(inner).len() == 0 || inner.contains('$') {
            None
        } else {
            Some((inner, i + close.len()))
        }
    } else if occurs_at(s, i, seq!['\n', '\n']) {
        None
    } else if s[i] == '\\' && i + 1 < s.len() {
        tex_span(s, from, i + 2, close)
    } else {
        tex_span(s, from, i + 1, close)
    }
}

pub proof fn lemma_tex_span_bounds(s: Seq<char>, from: int, i: int, close: Seq<char>)
    requires
        0 <= from <= i,
        close.len() == 2,
    ensures
        tex_span(s, from, i, close) matches Some((inner, end)) ==> i + 2 <= end <= s.len()
            && inner == s.subrange(from, end - 2),
    decreases s.len() - i,
{
    if i < s.len() && !occurs_at(s, i, close) && !occurs_at(s, i, seq!['\n', '\n']) {
        if s[i] == '\\' && i + 1 < s.len() {
            lemma_tex_span_bounds(s, from, i + 2, close);
        } else {
            lemma_tex_span_bounds(s, from, i + 1, close);
        }
    }
}

fn tex_span_exec(v: &[char], from: usize, close: &[char]) -> (r: Option<(Vec<char>, usize)>)
    requires
        from <= v@.len(),
        close@.len() == 2,
    ensures
        match tex_span(v@, from as int, from as int, close@) {
            Some((inner, end)) => r matches Some((x, e)) && x@ == inner && e == end && end
                <= v@.len(),
            None => r is None,
        },
{
    let nl = chars_of("\n\n");
    proof {
        reveal_strlit("\n\n");
        assert(nl@ == seq!['\n', '\n']);
        lemma_tex_span_bounds(v@, from as int, from as int, close@);
    }
    let mut i = from;
    while i < v.len()
        invariant
            from <= i <= v@.len(),
            close@.len() == 2,
            nl@ == seq!['\n', '\n'],
            tex_span(v@, from as int, from as int, close@) == tex_span(
                v@,
                from as int,
                i as int,
                close@,
            ),
        decreases v@.len() - i,
    {
        if starts_at(v, i, close) {
            let inner = slice_vec(v, from, i);
            let t = trimmed(inner.as_slice());
            if t.len() == 0 || has_char(inner.as_slice(), '$') {
                return None;
            }
            return Some((inner, i + 2));
        }
        if starts_at(v, i, nl.as_slice()) {
            return None;
        }
        if v[i] == '\\' && v.len() - i > 1 {
            i = i + 2;
        } else {
            i = i + 1;
        }
    }
    None
}


/// Whether the line at `i` is code, given the fence that is open, and if so
/// the fence open after it: a marker opens one, a long enough marker of the
/// same character with nothing after it closes it.
pub open spec fn code_line(s: Seq<char>, i: int, fence: Option<(char, int)>) -> Option<
    Option<(char, int)>,
> {
    match (fence, fence_marker(s, i)) {
        (Some((oc, ol)), Some((c, l, after))) => Some(
            if c == oc && l >= ol && rest_blank(s, after) {
                None
            } else {
                fence
            },
        ),
        (Some(_), None) => Some(fence),
        (None, Some((c, l, _))) => Some(Some((c, l))),
        (None, None) => None,
    }
}

/// The rewrite from `i` on, where a line starts at `i` or not and `fence` is
/// the open code fence. Fenced lines, code spans and `$$…$$` are copied as
/// they are; `\(x\)` becomes `$x$` and `\[x\]` becomes `$$x$$` where the
/// partner is found; any other escape passes through as a unit.
pub open spec fn expand_from(s: Seq<char>, i: int, line_start: bool, fence: Option<(char, int)>) -> Seq<
    char,
>
    decreases s.len() - i,
{
    if i < 0 || i >= s.len() {
        Seq::empty()
    } else if line_start && code_line(s, i, fence) is Some {
        proof {
            lemma_line_end_bounds(s, i);
        }
        s.subrange(i, line_end(s, i)) + expand_from(
            s,
            line_end(s, i),
            true,
            code_line(s, i, fence).unwrap(),
        )
    } else if s[i] == '\n' {
        seq!['\n'] + expand_from(s, i + 1, true, fence)
    } else if s[i] == '`' {
        proof {
            lemma_run_len_bounds(s, i, '`');
            lemma_find_run_bounds(s, i + run_len(s, i, '`'), '`', run_len(s, i, '`'));
        }
        let n = run_len(s, i, '`');
        let end = match find_run(s, i + n, '`', n) {
            Some(close) => close + n,
            None => i + n,
        };
        s.subrange(i, end) + expand_from(s, end, false, fence)
    } else if s[i] == '$' && i + 1 < s.len() && s[i + 1] == '$' {
        proof {
            lemma_find_from(s, seq!['$', '$'], i + 2);
        }
        let end = match find_from(s, seq!['$', '$'], i + 2) {
            Some(close) => close + 2,
            None => i + 2,
        };
        s.subrange(i, end) + expand_from(s, end, false, fence)
    } else if s[i] == '\\' && i + 1 < s.len() && s[i + 1] == '(' {
        proof {
            lemma_tex_span_bounds(s, i + 2, i + 2, seq!['\\', ')']);
        }
        match tex_span(s, i + 2, i + 2, seq!['\\', ')']) {
            Some((inner, end)) => seq!['$'] + trim(inner) + seq!['$'] + expand_from(
                s,
                end,
                false,
                fence,
            ),
            None => s.subrange(i, i + 2) + expand_from(s, i + 2, false, fence),
        }
    } else if s[i] == '\\' && i + 1 < s.len() && s[i + 1] == '[' {
        proof {
            lemma_tex_span_bounds(s, i + 2, i + 2, seq!['\\', ']']);
        }
        match tex_span(s, i + 2, i + 2, seq!['\\', ']']) {
            Some((inner, end)) => seq!['$', '$'] + inner + seq!['$', '$'] + expand_from(
                s,
                end,
                false,
                fence,
            ),
            None => s.subrange(i, i + 2) + expand_from(s, i + 2, false, fence),
        }
    } else if s[i] == '\\' && i + 1 < s.len() {
        s.subrange(i, i + 2) + expand_from(s, i + 2, false, fence)
    } else {
        seq![s[i]] + expand_from(s, i + 1, false, fence)
    }
}

/// What `expand_tex_delimiters` makes of a document: the document itself where
/// it has no `\(` and no `\[`, the rewrite otherwise.
pub open spec fn tex_expanded(s: Seq<char>) -> Seq<char> {
    if !contains_seq(s, seq!['\\', '(']) && !contains_seq(s, seq!['\\', '[']) {
        s
    } else {
        expand_from(s, 0, true, None)
    }
}

pub open spec fn fence_view(f: Option<(char, usize)>) -> Option<(char, int)> {
    match f {
        Some((c, l)) => Some((c, l as int)),
        None => None,
    }
}

fn push_range(out: &mut Vec<char>, v: &[char], a: usize, b: usize)
    requires
        a <= b <= v@.len(),
    ensures
        final(out)@ == old(out)@ + v@.subrange(a as int, b as int),
{
    let ghost start = out@;
    let mut k = a;
    while k < b
        invariant
            a <= k <= b <= v@.len(),
            out@ == start + v@.subrange(a as int, k as int),
        decreases b - k,
    {
        out.push(v[k]);
        assert(v@.subrange(a as int, k + 1) == v@.subrange(a as int, k as int).push(v@[k as int]));
        k = k + 1;
    }
}

/// One fenced line, copied through, where the line at `i` is code.
fn code_step(v: &[char], i: usize, fence: Option<(char, usize)>, out: &mut Vec<char>) -> (r: Option<
    (usize, Option<(char, usize)>),
>)
    requires
        i < v@.len(),
    ensures
        match r {
            Some((j, f)) => i < j <= v@.len() && final(out)@ + expand_from(v@, j as int, true, fence_view(f))
                == old(out)@ + expand_from(v@, i as int, true, fence_view(fence)),
            None => code_line(v@, i as int, fence_view(fence)) is None && final(out)@ == old(out)@,
        },
{
    let marker = fence_marker_exec(v, i);
    let mut in_code = false;
    let mut next: Option<(char, usize)> = fence;
    match (fence, marker) {
        (Some((oc, ol)), Some((c, len, after))) => {
            if c == oc && len >= ol && rest_blank_exec(v, after) {
                next = None;
            }
            in_code = true;
        },
        (Some(_), None) => {
            in_code = true;
        },
        (None, Some((c, len, _))) => {
            next = Some((c, len));
            in_code = true;
        },
        (None, None) => {},
    }
    if !in_code {
        return None;
    }
    assert(code_line(v@, i as int, fence_view(fence)).unwrap() == fence_view(next));
    let end = line_end_exec(v, i);
    push_range(out, v, i, end);
    Some((end, next))
}

/// One step outside fenced code: a newline, a code span, display math, an
/// escape or a delimiter pair, or one plain character.
#[verifier::spinoff_prover]
#[verifier::rlimit(50)]
fn char_step(
    v: &[char],
    i: usize,
    fence: Option<(char, usize)>,
    out: &mut Vec<char>,
    close_paren: &[char],
    close_bracket: &[char],
    dd: &[char],
    line_start: bool,
) -> (r: (usize, bool))
    requires
        i < v@.len(),
        close_paren@ == seq!['\\', ')'],
        close_bracket@ == seq!['\\', ']'],
        dd@ == seq!['$', '$'],
        line_start ==> code_line(v@, i as int, fence_view(fence)) is None,
    ensures
        i < r.0 <= v@.len(),
        final(out)@ + expand_from(v@, r.0 as int, r.1, fence_view(fence)) == old(out)@ + expand_from(
            v@,
            i as int,
            line_start,
            fence_view(fence),
        ),
{
    let ghost s = v@;
    let c = v[i];
    if c == '\n' {
        out.push('\n');
        (i + 1, true)
    } else if c == '`' {
        let n = run_len_exec(v, i, '`');
        proof {
            lemma_run_len_bounds(s, i as int, '`');
            lemma_find_run_bounds(s, i + n, '`', n as int);
        }
        let end = match find_run_exec(v, i + n, '`', n) {
            Some(close) => close + n,
            None => i + n,
        };
        push_range(out, v, i, end);
        (end, false)
    } else if c == '$' && v.len() - i > 1 && v[i + 1] == '$' {
        proof {
            lemma_find_from(s, seq!['$', '$'], i + 2);
        }
        let end = match find_chars_from(v, dd, i + 2) {
            Some(close) => close + 2,
            None => i + 2,
        };
        push_range(out, v, i, end);
        (end, false)
    } else if c == '\\' && v.len() - i > 1 && v[i + 1] == '(' {
        match tex_span_exec(v, i + 2, close_paren) {
            Some((inner, end)) => {
                proof {
                    lemma_tex_span_bounds(s, i + 2, i + 2, seq!['\\', ')']);
                }
                out.push('$');
                let t = trimmed(inner.as_slice());
                push_range(out, t.as_slice(), 0, t.len());
                assert(t@.subrange(0, t@.len() as int) == t@);
                out.push('$');
                (end, false)
            },
            None => {
                push_range(out, v, i, i + 2);
                (i + 2, false)
            },
        }
    } else if c == '\\' && v.len() - i > 1 && v[i + 1] == '[' {
        match tex_span_exec(v, i + 2, close_bracket) {
            Some((inner, end)) => {
                proof {
                    lemma_tex_span_bounds(s, i + 2, i + 2, seq!['\\', ']']);
                }
                out.push('$');
                out.push('$');
                push_range(out, inner.as_slice(), 0, inner.len());
                assert(inner@.subrange(0, inner@.len() as int) == inner@);
                out.push('$');
                out.push('$');
                (end, false)
            },
            None => {
                push_range(out, v, i, i + 2);
                (i + 2, false)
            },
        }
    } else if c == '\\' && v.len() - i > 1 {
        push_range(out, v, i, i + 2);
        (i + 2, false)
    } else {
        out.push(c);
        (i + 1, false)
    }
}

/// Rewrites the LaTeX-native delimiters — `\(x\)` and `\[x\]` — into the
/// dollar forms the Markdown parser understands.
///
/// This has to happen before parsing: to CommonMark, `\(` is just an escaped
/// parenthesis. Content inside code spans and fenced code blocks is left
/// untouched, and a delimiter is only rewritten when its partner is found, so
/// stray `\[` escapes in prose keep their meaning. Indentation-only code
/// blocks are not tracked: telling four-space code from an indented paragraph
/// inside a list needs block structure there is not yet.
pub fn expand_tex_delimiters(src: &str) -> (r: String)
    ensures
        r@ == tex_expanded(src@),
{
    let v = chars_of(src);
    let open_paren = chars_of("\\(");
    let open_bracket = chars_of("\\[");
    let close_paren = chars_of("\\)");
    let close_bracket = chars_of("\\]");
    let dd = chars_of("$$");
    proof {
        reveal_strlit("\\(");
        reveal_strlit("\\[");
        reveal_strlit("\\)");
        reveal_strlit("\\]");
        reveal_strlit("$$");
        assert(open_paren@ == seq!['\\', '(']);
        assert(open_bracket@ == seq!['\\', '[']);
        assert(close_paren@ == seq!['\\', ')']);
        assert(close_bracket@ == seq!['\\', ']']);
        assert(dd@ == seq!['$', '$']);
    }
    if !contains_chars(v.as_slice(), open_paren.as_slice()) && !contains_chars(
        v.as_slice(),
        open_bracket.as_slice(),
    ) {
        return src.to_owned();
    }
    let ghost s = v@;
    let mut out: Vec<char> = Vec::new();
    let mut i: usize = 0;
    let mut line_start = true;
    let mut fence: Option<(char, usize)> = None;
    while i < v.len()
        invariant
            s == v@,
            i <= s.len(),
            close_paren@ == seq!['\\', ')'],
            close_bracket@ == seq!['\\', ']'],
            dd@ == seq!['$', '$'],
            out@ + expand_from(s, i as int, line_start, fence_view(fence)) == expand_from(
                s,
                0,
                true,
                None,
            ),
        decreases s.len() - i,
    {
        if line_start {
            match code_step(v.as_slice(), i, fence, &mut out) {
                Some((j, f)) => {
                    i = j;
                    fence = f;
                    continue;
                },
                None => {},
            }
        }
        let (j, ls) = char_step(
            v.as_slice(),
            i,
            fence,
            &mut out,
            close_paren.as_slice(),
            close_bracket.as_slice(),
            dd.as_slice(),
            line_start,
        );
        i = j;
        line_start = ls;
    }
    string_of(out.as_slice())
}


// ---------------------------------------------------------------------------
// Raw HTML: URLs nobody should follow

/// Where the attribute value after an `=` at `i` lies, as (start, end): past
/// any white space, inside the quotes when it is quoted (empty when the quote
/// is never closed), up to white space or `>` when it is bare.
pub open spec fn attr_value(s: Seq<char>, i: int) -> (int, int) {
    let v0 = spaces_end(s, i + 1);
    if v0 < s.len() && (s[v0] == '"' || s[v0] == '\'') {
        let value = v0 + 1;
        match first_index(s.skip(value), s[v0]) {
            Some(k) => (value, value + k),
            None => (value, value),
        }
    } else {
        (v0, value_end(s, v0))
    }
}

/// The end of a bare attribute value starting at `j`: the first white space or
/// `>`, or the end of the text.
pub open spec fn value_end(s: Seq<char>, j: int) -> int
    decreases s.len() - j,
{
    if j < 0 || j >= s.len() || is_ascii_space(s[j]) || s[j] == '>' {
        if j < 0 {
            0
        } else if j > s.len() {
            s.len() as int
        } else {
            j
        }
    } else {
        value_end(s, j + 1)
    }
}

pub proof fn lemma_value_end(s: Seq<char>, j: int)
    requires
        0 <= j <= s.len(),
    ensures
        j <= value_end(s, j) <= s.len(),
    decreases s.len() - j,
{
    if j < s.len() && !is_ascii_space(s[j]) && s[j] != '>' {
        lemma_value_end(s, j + 1);
    }
}

pub proof fn lemma_spaces_end(s: Seq<char>, j: int)
    requires
        0 <= j <= s.len(),
    ensures
        j <= spaces_end(s, j) <= s.len(),
    decreases s.len() - j,
{
    if j < s.len() && is_ascii_space(s[j]) {
        lemma_spaces_end(s, j + 1);
    }
}

pub proof fn lemma_attr_value(s: Seq<char>, i: int)
    requires
        0 <= i < s.len(),
    ensures
        i < attr_value(s, i).0 <= attr_value(s, i).1 <= s.len(),
{
    lemma_spaces_end(s, i + 1);
    let v0 = spaces_end(s, i + 1);
    if v0 < s.len() && (s[v0] == '"' || s[v0] == '\'') {
        crate::util::lemma_first_index(s.skip(v0 + 1), s[v0]);
    } else {
        lemma_value_end(s, v0);
    }
}

/// The value spans a scan from `i` refuses, in order. Outside a tag, a tag
/// opens at `<` followed by a letter or `/`; inside one, `>` closes it and an
/// `=` starts a value, which is refused when comrak would refuse it as a URL
/// (asked, as a browser reads it, about the value trimmed).
pub open spec fn refused_from(s: Seq<char>, i: int, in_tag: bool) -> Seq<(int, int)>
    decreases s.len() - i,
{
    if i < 0 || i >= s.len() {
        Seq::empty()
    } else if !in_tag {
        refused_from(
            s,
            i + 1,
            s[i] == '<' && i + 1 < s.len() && (is_ascii_alpha(s[i + 1]) || s[i + 1] == '/'),
        )
    } else if s[i] == '>' {
        refused_from(s, i + 1, false)
    } else if s[i] != '=' {
        refused_from(s, i + 1, true)
    } else {
        proof {
            lemma_attr_value(s, i);
        }
        let (value, end) = attr_value(s, i);
        let rest = refused_from(s, end, true);
        if end > value && dangerous_spec(trim(s.subrange(value, end))) {
            seq![(value, end)] + rest
        } else {
            rest
        }
    }
}

/// `s` from `copied` on, with the spans taken out.
pub open spec fn cut_spans(s: Seq<char>, spans: Seq<(int, int)>, copied: int) -> Seq<char>
    decreases spans.len(),
{
    if spans.len() == 0 {
        s.subrange(copied, s.len() as int)
    } else {
        s.subrange(copied, spans[0].0) + cut_spans(s, spans.skip(1), spans[0].1)
    }
}

/// What `without_dangerous_attrs` makes of raw HTML: `None` where nothing is
/// refused, the text with every refused value emptied otherwise.
pub open spec fn scrubbed(s: Seq<char>) -> Option<Seq<char>> {
    let spans = refused_from(s, 0, false);
    if spans.len() == 0 {
        None
    } else {
        Some(cut_spans(s, spans, 0))
    }
}

/// Every span lies in the text, in order, after `lo`.
pub open spec fn spans_ordered(spans: Seq<(int, int)>, lo: int, n: int) -> bool {
    &&& forall|k: int| 0 <= k < spans.len() ==> lo <= #[trigger] spans[k].0 <= spans[k].1 <= n
    &&& forall|a: int, b: int| 0 <= a < b < spans.len() ==> #[trigger] spans[a].1 <= #[trigger] spans[b].0
}

pub proof fn lemma_refused_ordered(s: Seq<char>, i: int, in_tag: bool)
    requires
        0 <= i,
    ensures
        spans_ordered(refused_from(s, i, in_tag), i, s.len() as int),
    decreases s.len() - i,
{
    if i < s.len() {
        if !in_tag {
            lemma_refused_ordered(
                s,
                i + 1,
                s[i] == '<' && i + 1 < s.len() && (is_ascii_alpha(s[i + 1]) || s[i + 1] == '/'),
            );
        } else if s[i] == '>' {
            lemma_refused_ordered(s, i + 1, false);
        } else if s[i] != '=' {
            lemma_refused_ordered(s, i + 1, true);
        } else {
            lemma_attr_value(s, i);
            let (value, end) = attr_value(s, i);
            lemma_refused_ordered(s, end, true);
            let rest = refused_from(s, end, true);
            if end > value && dangerous_spec(trim(s.subrange(value, end))) {
                let all = seq![(value, end)] + rest;
                assert forall|a: int, b: int| 0 <= a < b < all.len() implies #[trigger] all[a].1
                    <= #[trigger] all[b].0 by {
                    if a == 0 {
                        assert(all[b] == rest[b - 1]);
                    } else {
                        assert(all[a] == rest[a - 1]);
                        assert(all[b] == rest[b - 1]);
                    }
                }
                assert forall|k: int| 0 <= k < all.len() implies i <= #[trigger] all[k].0
                    <= all[k].1 <= s.len() by {
                    if k > 0 {
                        assert(all[k] == rest[k - 1]);
                    }
                }
            }
        }
    }
}

/// The refused spans from `i` on, collected.
fn refused_spans(v: &[char]) -> (r: Vec<(usize, usize)>)
    ensures
        r@.map_values(|p: (usize, usize)| (p.0 as int, p.1 as int)) == refused_from(v@, 0, false),
{
    let ghost s = v@;
    let mut out: Vec<(usize, usize)> = Vec::new();
    let mut i: usize = 0;
    let mut in_tag = false;
    while i < v.len()
        invariant
            s == v@,
            i <= s.len(),
            out@.map_values(|p: (usize, usize)| (p.0 as int, p.1 as int)) + refused_from(
                s,
                i as int,
                in_tag,
            ) == refused_from(s, 0, false),
        decreases s.len() - i,
    {
        let ghost before = out@.map_values(|p: (usize, usize)| (p.0 as int, p.1 as int));
        let ghost i0 = i as int;
        let ghost t0 = in_tag;
        if !in_tag {
            in_tag = v[i] == '<' && v.len() - i > 1 && (('a' <= v[i + 1] && v[i + 1] <= 'z') || (
            'A' <= v[i + 1] && v[i + 1] <= 'Z') || v[i + 1] == '/');
            i = i + 1;
        } else if v[i] == '>' {
            in_tag = false;
            i = i + 1;
        } else if v[i] != '=' {
            i = i + 1;
        } else {
            proof {
                lemma_attr_value(s, i as int);
            }
            let v0 = run_end_spaces(v, i + 1);
            let mut value = v0;
            let end;
            if v0 < v.len() && (v[v0] == '"' || v[v0] == '\'') {
                let q = v[v0];
                value = v0 + 1;
                let tail = slice_vec(v, value, v.len());
                assert(tail@ == s.skip(value as int));
                end = match crate::util::find_char(tail.as_slice(), q) {
                    Some(k) => value + k,
                    None => value,
                };
            } else {
                let mut j = v0;
                while j < v.len() && !(v[j] == ' ' || v[j] == '\t' || v[j] == '\n' || v[j]
                    == '\u{c}' || v[j] == '\r' || v[j] == '>')
                    invariant
                        v0 <= j <= s.len(),
                        s == v@,
                        value_end(s, v0 as int) == value_end(s, j as int),
                    decreases s.len() - j,
                {
                    j = j + 1;
                }
                end = j;
            }
            assert((value as int, end as int) == attr_value(s, i as int));
            if end > value {
                let piece = string_of(trimmed(slice_vec(v, value, end).as_slice()).as_slice());
                if dangerous_url(piece.as_str()) {
                    out.push((value, end));
                    assert(out@.map_values(|p: (usize, usize)| (p.0 as int, p.1 as int)) =~= before.push(
                        (value as int, end as int),
                    ));
                }
            }
            i = end;
        }
        proof {
            let now = out@.map_values(|p: (usize, usize)| (p.0 as int, p.1 as int));
            assert(now + refused_from(s, i as int, in_tag) =~= before + refused_from(s, i0, t0));
        }
    }
    out
}

/// The rewrite, or `None` when there was nothing to rewrite.
///
/// A scan and not a parse: inside a tag, an attribute value is whatever follows
/// `=` — quoted or bare — and a value is emptied when comrak's URL gate says
/// so. Anchored at the start of the value, which is where a scheme has to be,
/// so `title="mind javascript: urls"` is prose and stays prose. Not an HTML
/// sanitizer: what keeps the rest inert is the pages' Content-Security-Policy.
pub fn without_dangerous_attrs(raw: &str) -> (r: Option<String>)
    ensures
        match scrubbed(raw@) {
            Some(t) => r matches Some(x) && x@ == t,
            None => r is None,
        },
{
    let v = chars_of(raw);
    let spans = refused_spans(v.as_slice());
    let ghost sp = spans@.map_values(|p: (usize, usize)| (p.0 as int, p.1 as int));
    proof {
        lemma_refused_ordered(v@, 0, false);
    }
    if spans.len() == 0 {
        return None;
    }
    let mut out: Vec<char> = Vec::new();
    let mut copied: usize = 0;
    let mut k: usize = 0;
    assert(sp.skip(0) =~= sp);
    while k < spans.len()
        invariant
            k <= spans@.len(),
            sp == spans@.map_values(|p: (usize, usize)| (p.0 as int, p.1 as int)),
            sp == refused_from(v@, 0, false),
            spans_ordered(sp, 0, v@.len() as int),
            k == 0 ==> copied == 0,
            k > 0 ==> copied == sp[k - 1].1,
            copied <= v@.len(),
            out@ + cut_spans(v@, sp.skip(k as int), copied as int) == cut_spans(v@, sp, 0),
        decreases spans@.len() - k,
    {
        let (from, to) = spans[k];
        assert(sp[k as int] == (from as int, to as int));
        if k > 0 {
            assert(sp[k - 1].1 <= sp[k as int].0);
        }
        let ghost before = out@;
        push_range(&mut out, v.as_slice(), copied, from);
        proof {
            assert(sp.skip(k as int)[0] == sp[k as int]);
            assert(sp.skip(k as int).skip(1) =~= sp.skip(k + 1));
        }
        copied = to;
        k = k + 1;
    }
    push_range(&mut out, v.as_slice(), copied, v.len());
    proof {
        assert(sp.skip(spans@.len() as int) =~= Seq::<(int, int)>::empty());
    }
    Some(string_of(out.as_slice()))
}


// ---------------------------------------------------------------------------
// Code fences

/// The characters up to the first white space.
pub open spec fn first_word(s: Seq<char>) -> Seq<char>
    decreases s.len(),
{
    if s.len() == 0 || is_ws(s[0]) {
        Seq::empty()
    } else {
        seq![s[0]] + first_word(s.skip(1))
    }
}

/// First token of a code fence info string, as the Markdown parser splits it:
/// white-space separated, empty when there is none.
pub fn info_lang(info: &str) -> (r: String)
    ensures
        r@ == first_word(crate::util::trim_start(info@)),
{
    let v = chars_of(info);
    let mut a: usize = 0;
    assert(v@.skip(0) == v@);
    while a < v.len() && char_is_ws(v[a])
        invariant
            a <= v@.len(),
            crate::util::trim_start(v@) == crate::util::trim_start(v@.skip(a as int)),
        decreases v@.len() - a,
    {
        assert(v@.skip(a as int).skip(1) == v@.skip(a + 1));
        a = a + 1;
    }
    let mut b = a;
    while b < v.len() && !char_is_ws(v[b])
        invariant
            a <= b <= v@.len(),
            first_word(v@.skip(a as int)) == v@.subrange(a as int, b as int) + first_word(
                v@.skip(b as int),
            ),
        decreases v@.len() - b,
    {
        assert(v@.skip(b as int).skip(1) == v@.skip(b + 1));
        assert(v@.subrange(a as int, b + 1) == v@.subrange(a as int, b as int) + seq![v@[b as int]]);
        b = b + 1;
    }
    string_of(slice_vec(v.as_slice(), a, b).as_slice())
}

// ---------------------------------------------------------------------------
// Formulas

/// What `pulldown_latex` reports first about a formula that does not parse,
/// spelled out in full.
pub uninterp spec fn latex_first_error(latex: Seq<char>) -> Option<Seq<char>>;

/// The MathML `pulldown_latex` writes for a formula, in display or inline
/// mode, with or without its source as an annotation and with errors drawn
/// in the given colour; or its write error.
pub uninterp spec fn latex_render(
    latex: Seq<char>,
    display: bool,
    annotated: bool,
    error_color: (u8, u8, u8),
) -> Result<Seq<char>, Seq<char>>;

/// Formulas keep their source as an annotation, and errors inside them are
/// drawn in mid red.
pub const MATH_ANNOTATED: bool = true;
pub const MATH_ERROR_RED: u8 = 229;
pub const MATH_ERROR_GREEN: u8 = 83;
pub const MATH_ERROR_BLUE: u8 = 75;

/// The first parse error of a formula, if it has one: runs `pulldown_latex`'s
/// parser over it and turns the first error event into its message.
#[verifier::external_body]
fn latex_parse_error(latex: &str) -> (r: Option<String>)
    ensures
        match latex_first_error(latex@) {
            Some(e) => r matches Some(x) && x@ == e,
            None => r is None,
        },
{
    let storage = Storage::new();
    Parser::new(latex, &storage).find_map(|ev| ev.err()).map(|e| e.to_string())
}

/// `pulldown_latex::push_mathml` into an empty string, in display or inline
/// mode, with the source as an annotation where asked and errors drawn in
/// the given colour; its error comes back as its message.
#[verifier::external_body]
fn latex_mathml(latex: &str, display: bool, annotated: bool, error_color: (u8, u8, u8)) -> (r: Result<String, String>)
    ensures
        match latex_render(latex@, display, annotated, error_color) {
            Ok(m) => r matches Ok(x) && x@ == m,
            Err(e) => r matches Err(x) && x@ == e,
        },
{
    let storage = Storage::new();
    let mode = if display { DisplayMode::Block } else { DisplayMode::Inline };
    let config = RenderConfig { display_mode: mode, annotation: annotated.then_some(latex), error_color, ..RenderConfig::default() };
    let mut out = String::new();
    match push_mathml(&mut out, Parser::new(latex, &storage), config) {
        Ok(()) => Ok(out),
        Err(e) => Err(e.to_string()),
    }
}

/// The first line of a message, as `str::lines` gives it (the `\r` of a
/// `\r\n` dropped), or `fallback` for a message with no lines at all.
pub open spec fn first_line_or(msg: Seq<char>, fallback: Seq<char>) -> Seq<char> {
    if msg.len() == 0 {
        fallback
    } else {
        match first_index(msg, '\n') {
            Some(i) => if i > 0 && msg[i - 1] == '\r' {
                msg.take(i - 1)
            } else {
                msg.take(i)
            },
            None => msg,
        }
    }
}

pub fn first_line(msg: &str, fallback: &str) -> (r: String)
    ensures
        r@ == first_line_or(msg@, fallback@),
{
    let v = chars_of(msg);
    if v.len() == 0 {
        return fallback.to_owned();
    }
    match crate::util::find_char(v.as_slice(), '\n') {
        Some(i) => {
            proof {
                crate::util::lemma_first_index(v@, '\n');
            }
            if i > 0 && v[i - 1] == '\r' {
                string_of(slice_vec(v.as_slice(), 0, i - 1).as_slice())
            } else {
                string_of(slice_vec(v.as_slice(), 0, i).as_slice())
            }
        },
        None => {
            assert(v@.subrange(0, v@.len() as int) == v@);
            string_of(slice_vec(v.as_slice(), 0, v.len()).as_slice())
        },
    }
}

/// Broken math as the page shows it: the source in red, with the parser's
/// message as its tooltip.
pub open spec fn math_error_spec(latex: Seq<char>, msg: Seq<char>) -> Seq<char> {
    "<code class=\"math-error\" title=\""@ + html_escaped(msg) + "\">"@ + html_escaped(trim(latex))
        + "</code>"@
}

pub fn math_error_markup(latex: &str, msg: &str) -> (r: String)
    ensures
        r@ == math_error_spec(latex@, msg@),
{
    let mut out = String::new();
    push_str(&mut out, "<code class=\"math-error\" title=\"");
    push_str(&mut out, html_escape(msg).as_str());
    push_str(&mut out, "\">");
    let t = string_of(trimmed(chars_of(latex).as_slice()).as_slice());
    push_str(&mut out, html_escape(t.as_str()).as_str());
    push_str(&mut out, "</code>");
    out
}

/// What a formula becomes: its MathML, or the red source where it does not
/// parse or cannot be written.
pub open spec fn mathml_spec(latex: Seq<char>, display: bool) -> Seq<char> {
    match latex_first_error(latex) {
        Some(e) => math_error_spec(latex, first_line_or(e, "invalid LaTeX"@)),
        None => match latex_render(latex, display, MATH_ANNOTATED, (MATH_ERROR_RED, MATH_ERROR_GREEN, MATH_ERROR_BLUE)) {
            Ok(m) => m,
            Err(e) => math_error_spec(latex, e),
        },
    }
}

/// LaTeX → MathML, server-side. Broken math is not fatal: the source is shown
/// in red with the parser message as its tooltip, which keeps the rest of the
/// document readable.
pub fn latex_to_mathml(latex: &str, display: bool) -> (r: String)
    ensures
        r@ == mathml_spec(latex@, display),
{
    match latex_parse_error(latex) {
        Some(err) => {
            let line = first_line(err.as_str(), "invalid LaTeX");
            math_error_markup(latex, line.as_str())
        },
        None => match latex_mathml(latex, display, MATH_ANNOTATED, (MATH_ERROR_RED, MATH_ERROR_GREEN, MATH_ERROR_BLUE)) {
            Ok(m) => m,
            Err(e) => math_error_markup(latex, e.as_str()),
        },
    }
}

// ---------------------------------------------------------------------------
// Diagrams

/// A mermaid source larger than this, in bytes, is shown as source rather
/// than laid out.
pub const MAX_MERMAID_BYTES: usize = 65536;

/// `mermaid_rs_renderer::render_with_options` with the modern options, or
/// with the dark theme over them; an error comes back as its message.
/// Nothing is promised of the SVG: the renderer lays out through hash maps,
/// and what it writes is not stated here. No return is promised either, for
/// any source: the renderer's layout code indexes and unwraps in many
/// places, so a call may panic instead of answering, and this contract
/// rules out no input on that account.
#[verifier::external_body]
fn mermaid_render(src: &str, dark: bool) -> (r: Result<String, String>) {
    let options = if dark {
        mermaid_rs_renderer::RenderOptions {
            theme: mermaid_rs_renderer::Theme::dark(),
            ..mermaid_rs_renderer::RenderOptions::modern()
        }
    } else {
        mermaid_rs_renderer::RenderOptions::modern()
    };
    match mermaid_rs_renderer::render_with_options(src, options) {
        Ok(svg) => Ok(svg),
        Err(e) => Err(e.to_string()),
    }
}

/// Whether a diagram is refused before the renderer sees it, and why.
pub open spec fn mermaid_refusal(src: Seq<char>) -> Option<Seq<char>> {
    if vstd::utf8::encode_utf8(src).len() > MAX_MERMAID_BYTES {
        Some("diagram too large to render"@)
    } else if trim(src).len() == 0 {
        Some("empty diagram"@)
    } else {
        None
    }
}

/// What rendering a diagram may give: an error message, or two SVGs that
/// each passed [`inline_svg`].
pub open spec fn svgs_passed(res: Result<(Seq<char>, Seq<char>), Seq<char>>) -> bool {
    res matches Ok((a, b)) ==> (exists|x: Seq<char>| inline_svg_spec(x) == Ok::<Seq<char>, Seq<char>>(a))
        && (exists|x: Seq<char>| inline_svg_spec(x) == Ok::<Seq<char>, Seq<char>>(b))
}

/// Light and dark SVG for a diagram. A source that is too large or empty is
/// refused first; after that, whatever the renderer answers, what comes back
/// is either an error message or two SVGs that passed [`inline_svg`].
pub fn mermaid_svgs(src: &str) -> (r: Result<(String, String), String>)
    ensures
        match mermaid_refusal(src@) {
            Some(why) => r matches Err(e) && e@ == why,
            None => svgs_passed(match r {
                Ok((a, b)) => Ok((a@, b@)),
                Err(e) => Err(e@),
            }),
        },
{
    if src.as_bytes().len() > MAX_MERMAID_BYTES {
        return Err("diagram too large to render".to_owned());
    }
    let t = trimmed(chars_of(src).as_slice());
    if t.len() == 0 {
        return Err("empty diagram".to_owned());
    }
    let light = match mermaid_render(src, false) {
        Ok(svg) => svg,
        Err(e) => {
            return Err(first_line(e.as_str(), "invalid mermaid"));
        },
    };
    let dark = match mermaid_render(src, true) {
        Ok(svg) => svg,
        Err(e) => {
            return Err(first_line(e.as_str(), "invalid mermaid"));
        },
    };
    let a = match inline_svg(light.as_str()) {
        Ok(x) => x,
        Err(e) => {
            return Err(e);
        },
    };
    let b = match inline_svg(dark.as_str()) {
        Ok(x) => x,
        Err(e) => {
            return Err(e);
        },
    };
    Ok((a, b))
}

/// The figure for a diagram, given what rendering it gave: both SVGs, one for
/// each theme, or the source with the message as its tooltip.
pub open spec fn mermaid_figure_spec(src: Seq<char>, svgs: Result<(Seq<char>, Seq<char>), Seq<char>>) -> Seq<
    char,
> {
    match svgs {
        Ok((light, dark)) => "<figure class=\"mermaid\"><div class=\"mermaid-light\">"@ + light
            + "</div><div class=\"mermaid-dark\">"@ + dark + "</div></figure>"@,
        Err(err) => "<pre class=\"mermaid-error\" title=\""@ + html_escaped(err) + "\">"@
            + html_escaped(trim(src)) + "</pre>"@,
    }
}

pub fn mermaid_figure(src: &str, svgs: Result<(String, String), String>) -> (r: String)
    ensures
        r@ == mermaid_figure_spec(
            src@,
            match svgs {
                Ok((a, b)) => Ok((a@, b@)),
                Err(e) => Err(e@),
            },
        ),
{
    let mut out = String::new();
    match svgs {
        Ok((light, dark)) => {
            push_str(&mut out, "<figure class=\"mermaid\"><div class=\"mermaid-light\">");
            push_str(&mut out, light.as_str());
            push_str(&mut out, "</div><div class=\"mermaid-dark\">");
            push_str(&mut out, dark.as_str());
            push_str(&mut out, "</div></figure>");
        },
        Err(err) => {
            push_str(&mut out, "<pre class=\"mermaid-error\" title=\"");
            push_str(&mut out, html_escape(err.as_str()).as_str());
            push_str(&mut out, "\">");
            let t = string_of(trimmed(chars_of(src).as_slice()).as_slice());
            push_str(&mut out, html_escape(t.as_str()).as_str());
            push_str(&mut out, "</pre>");
        },
    }
    out
}

/// Light and dark SVG for a standalone mermaid source (a `.mmd` file, or the
/// body of a fence). Failure is not fatal: the source is shown with the
/// renderer's message as a tooltip.
pub fn render_mermaid_figure(src: &str) -> (r: String)
    ensures
        mermaid_refusal(src@) matches Some(why) ==> r@ == mermaid_figure_spec(src@, Err(why)),
        mermaid_refusal(src@) is None ==> exists|res: Result<(Seq<char>, Seq<char>), Seq<char>>|
            svgs_passed(res) && r@ == #[trigger] mermaid_figure_spec(src@, res),
{
    let svgs = mermaid_svgs(src);
    let ghost res = match &svgs {
        Ok((a, b)) => Ok((a@, b@)),
        Err(e) => Err(e@),
    };
    let r = mermaid_figure(src, svgs);
    assert(r@ == mermaid_figure_spec(src@, res));
    r
}

} // verus!
