//! Server-rendered file/code tree browser.
//!
//! Everything a page is decided from lives here: which root is served, how a
//! URL path resolves inside it, which preferences a request carries, and what
//! the reply to a request is. A caller holding a [`Req`] asks [`handle`] and
//! gets a [`Reply`] back; writing it down a socket or into a webview is the
//! caller's business.

pub mod util;
pub mod vfs;
pub mod embed;
pub mod stamp;
pub mod shell;
pub mod page;
pub mod md;
pub mod view;
pub mod hl;
pub mod markdown;

use std::hash::BuildHasher;
use vstd::prelude::*;
use crate::util::{
    chars_of, find_char, first_index, is_ascii_alnum, is_ascii_alpha, last_index,
    lemma_first_index, slice_vec, lower, lower_char, to_lower_char,
    view_pairs, push_str, push_char, owned, pct_encoded, percent_encode, percent_decode,
    pct_decode_text, trim, trim_bounds, split, split_chars, views, lookup, query_get,
    parse_cookies, parsed_cookies, string_of, str_eq, lemma_split_nonempty, parse_uint,
    parse_u64, split_once, split_once_chars, hex, push_hex, trimmed, contains_chars, strictly_sorted,
    contains_seq, ascii_lower, dec, push_dec, ext_spec, ext_of, mime_spec, mime_for_ext,
    parse_query, parsed_query, is_ws, law_encoded_is_unreserved, law_percent_round_trip, pct_decoded,
};
use crate::page::{ThemeMode, theme_named, Prefs};
use crate::md::RawHtml;
use vstd::utf8::{encode_utf8, decode_utf8};
use crate::vfs::{Meta, Mtime, Refusal, ResolveError, Vfs, VfsPath};
use crate::embed::{file_into, names_of, table, lemma_table_at};

verus! {

broadcast use vstd::string::group_string_axioms;

// ---------------------------------------------------------------------------
// Root ids

/// What one of the pane's shortcuts turned out to be, once something looked.
///
/// `Unknown` is where every one of them starts, and it is not a failure to know:
/// an entry says nothing about itself until there is something true to say.
#[derive(Clone, Copy, PartialEq, Eq, Debug, Structural)]
pub enum RootStatus {
    Unknown,
    /// It answered, and it is a folder.
    Present,
    /// It answered, and there is nothing there any more.
    Missing,
    /// It did not answer: a drive that is not ready, a share whose host has gone,
    /// a folder we are not allowed to look into.
    Unreachable,
}

pub open spec fn status_note(s: RootStatus) -> Option<Seq<char>> {
    match s {
        RootStatus::Unknown | RootStatus::Present => None,
        RootStatus::Missing => Some(seq!['m', 'i', 's', 's', 'i', 'n', 'g']),
        RootStatus::Unreachable => Some(
            seq!['n', 'o', 't', ' ', 'a', 'v', 'a', 'i', 'l', 'a', 'b', 'l', 'e'],
        ),
    }
}

impl RootStatus {
    /// What to put next to the entry, or `None` while there is nothing to say.
    pub fn note(self) -> (r: Option<&'static str>)
        ensures
            match status_note(self) {
                Some(n) => r matches Some(s) && s@ == n,
                None => r is None,
            },
    {
        match self {
            RootStatus::Unknown | RootStatus::Present => None,
            RootStatus::Missing => {
                proof {
                    reveal_strlit("missing");
                }
                Some("missing")
            },
            RootStatus::Unreachable => {
                proof {
                    reveal_strlit("not available");
                }
                Some("not available")
            },
        }
    }
}

/// Whether `c` separates the components of a RootId: `/`, and `\` too where
/// ids are Windows paths.
pub open spec fn is_sep(c: char, windows_like: bool) -> bool {
    c == '/' || (windows_like && c == '\\')
}

/// Where the last separator in `s` stands.
pub open spec fn last_sep(s: Seq<char>, windows_like: bool) -> Option<int>
    decreases s.len(),
{
    if s.len() == 0 {
        None
    } else if is_sep(s.last(), windows_like) {
        Some(s.len() - 1)
    } else {
        last_sep(s.drop_last(), windows_like)
    }
}

/// How many separators `s` holds.
pub open spec fn sep_count(s: Seq<char>, windows_like: bool) -> nat
    decreases s.len(),
{
    if s.len() == 0 {
        0
    } else {
        (if is_sep(s[0], windows_like) {
            1nat
        } else {
            0nat
        }) + sep_count(s.skip(1), windows_like)
    }
}

/// The last component of an id: `None` for an empty id, for one that ends in
/// a separator (a filesystem root), and, among Windows paths, for a share
/// root (`\\server\share`), which has separators but no component below the
/// root.
pub open spec fn leaf(s: Seq<char>, windows_like: bool) -> Option<Seq<char>> {
    if windows_like && s.len() >= 2 && s[0] == '\\' && s[1] == '\\' && sep_count(s.skip(2), true) <= 1 {
        None
    } else {
        match last_sep(s, windows_like) {
            Some(i) => if i + 1 < s.len() {
                Some(s.skip(i + 1))
            } else {
                None
            },
            None => if s.len() == 0 {
                None
            } else {
                Some(s)
            },
        }
    }
}

fn count_seps(v: &[char], from: usize, windows_like: bool) -> (r: usize)
    requires
        from <= v@.len(),
    ensures
        r as nat == sep_count(v@.skip(from as int), windows_like),
{
    let mut n: usize = 0;
    let mut i: usize = from;
    while i < v.len()
        invariant
            from <= i <= v@.len(),
            n <= i - from,
            sep_count(v@.skip(from as int), windows_like) == n + sep_count(v@.skip(i as int), windows_like),
        decreases v@.len() - i,
    {
        assert(v@.skip(i as int).skip(1) =~= v@.skip(i + 1));
        assert(v@.skip(i as int)[0] == v@[i as int]);
        let c = v[i];
        if c == '/' || (windows_like && c == '\\') {
            n = n + 1;
        }
        i = i + 1;
    }
    assert(v@.skip(i as int) =~= Seq::<char>::empty());
    n
}

fn last_sep_index(v: &[char], windows_like: bool) -> (r: Option<usize>)
    ensures
        match last_sep(v@, windows_like) {
            Some(i) => r == Some(i as usize) && 0 <= i < v@.len(),
            None => r is None,
        },
{
    let mut i: usize = v.len();
    assert(v@.take(i as int) =~= v@);
    while i > 0
        invariant
            i <= v@.len(),
            last_sep(v@, windows_like) == last_sep(v@.take(i as int), windows_like),
        decreases i,
    {
        let c = v[i - 1];
        let ghost t = v@.take(i as int);
        assert(t.last() == c);
        if c == '/' || (windows_like && c == '\\') {
            return Some(i - 1);
        }
        assert(t.drop_last() =~= v@.take(i - 1));
        i = i - 1;
    }
    assert(v@.take(0) =~= Seq::<char>::empty());
    None
}

/// Last path component of a RootId, `None` when there is none to take — a
/// filesystem root, a bare drive, a share root or an empty id. Separators
/// are the host's: `windows_like` says whether `\` is one, as it is where
/// ids are Windows paths (a Unix file may carry `\` in its name). Answers
/// for remote ids too (`ssh:x:/var/www` → `www`). Public so an embedder
/// titles its window by the same rule a page titles itself.
pub fn leaf_of(id: &str, windows_like: bool) -> (r: Option<&str>)
    ensures
        match leaf(id@, windows_like) {
            Some(l) => r matches Some(x) && x@ == l,
            None => r is None,
        },
{
    let v = chars_of(id);
    if windows_like && v.len() >= 2 && v[0] == '\\' && v[1] == '\\' {
        if count_seps(v.as_slice(), 2, true) <= 1 {
            return None;
        }
    }
    match last_sep_index(v.as_slice(), windows_like) {
        Some(i) => {
            if i < v.len() - 1 {
                Some(id.substring_char(i + 1, v.len()))
            } else {
                None
            }
        },
        None => {
            if v.len() == 0 {
                None
            } else {
                Some(id)
            }
        },
    }
}

/// The URI scheme grammar: a letter, then letters, digits, `+`, `.` or `-`.
pub open spec fn is_scheme(t: Seq<char>) -> bool {
    &&& t.len() > 0
    &&& is_ascii_alpha(t[0])
    &&& forall|k: int|
        0 <= k < t.len() ==> is_ascii_alnum(#[trigger] t[k]) || t[k] == '+' || t[k] == '.'
            || t[k] == '-'
}

/// A RootId is remote when what stands before its first `:` is a scheme of at
/// least two characters; a single letter there is a Windows drive.
pub open spec fn id_is_local(s: Seq<char>) -> bool {
    match first_index(s, ':') {
        Some(i) => !(i >= 2 && is_scheme(s.take(i))),
        None => true,
    }
}

fn scheme_ok(v: &[char], n: usize) -> (r: bool)
    requires
        n <= v@.len(),
    ensures
        r == is_scheme(v@.take(n as int)),
{
    if n == 0 {
        return false;
    }
    let c0 = v[0];
    if !(('a' <= c0 && c0 <= 'z') || ('A' <= c0 && c0 <= 'Z')) {
        return false;
    }
    let mut k: usize = 0;
    while k < n
        invariant
            n <= v@.len(),
            k <= n,
            forall|j: int|
                0 <= j < k ==> is_ascii_alnum(#[trigger] v@[j]) || v@[j] == '+' || v@[j] == '.'
                    || v@[j] == '-',
        decreases n - k,
    {
        let c = v[k];
        if !(('a' <= c && c <= 'z') || ('A' <= c && c <= 'Z') || ('0' <= c && c <= '9') || c
            == '+' || c == '.' || c == '-') {
            assert(v@.take(n as int)[k as int] == c);
            return false;
        }
        k = k + 1;
    }
    assert forall|j: int| 0 <= j < n implies {
        let t = #[trigger] v@.take(n as int)[j];
        is_ascii_alnum(t) || t == '+' || t == '.' || t == '-'
    } by {
        assert(v@.take(n as int)[j] == v@[j]);
    }
    true
}

/// Whether a RootId names a local path — something a filesystem can be
/// pointed at. A scheme prefix marks a remote id: at least two characters,
/// leading letter, then letters, digits, `+`, `.` or `-` (the URI scheme
/// grammar, so `s3:` counts). A single letter before `:` is a Windows drive.
pub fn root_id_is_local(id: &str) -> (r: bool)
    ensures
        r == id_is_local(id@),
{
    let v = chars_of(id);
    match find_char(v.as_slice(), ':') {
        Some(i) => {
            proof {
                lemma_first_index(v@, ':');
            }
            !(i >= 2 && scheme_ok(v.as_slice(), i))
        },
        None => true,
    }
}

/// The middle field of a remote RootId — `ssh:iota:/home/x` → `iota`.
pub open spec fn bookmark(s: Seq<char>) -> Option<Seq<char>> {
    if id_is_local(s) {
        None
    } else {
        match first_index(s, ':') {
            Some(i) => {
                let rest = s.skip(i + 1);
                match first_index(rest, ':') {
                    Some(e) => if e > 0 {
                        Some(rest.take(e))
                    } else {
                        None
                    },
                    None => None,
                }
            },
            None => None,
        }
    }
}

/// The middle field of a remote RootId — `ssh:iota:/home/x` → `iota`.
///
/// The header draws it beside the path so a listing says which machine it is
/// from, which is the one thing a remote path cannot say itself.
pub fn root_id_bookmark(id: &str) -> (r: Option<&str>)
    ensures
        match bookmark(id@) {
            Some(b) => r matches Some(x) && x@ == b,
            None => r is None,
        },
{
    if root_id_is_local(id) {
        return None;
    }
    let v = chars_of(id);
    let vl = v.len();
    match find_char(v.as_slice(), ':') {
        Some(i) => {
            proof {
                lemma_first_index(v@, ':');
            }
            let rest = slice_vec(v.as_slice(), i + 1, vl);
            assert(rest@ == v@.skip(i + 1));
            match find_char(rest.as_slice(), ':') {
                Some(e) => {
                    proof {
                        lemma_first_index(rest@, ':');
                    }
                    if e > 0 {
                        assert(v@.subrange(i + 1, i + 1 + e) == rest@.take(e as int));
                        Some(id.substring_char(i + 1, i + 1 + e))
                    } else {
                        None
                    }
                },
                None => None,
            }
        },
        None => None,
    }
}

// ---------------------------------------------------------------------------
// Requests and replies

/// Two header names are the same name: ASCII case does not count.
pub open spec fn same_name(a: Seq<char>, b: Seq<char>) -> bool {
    lower(a) == lower(b)
}

/// The values of every header called `name`, in the order they came.
pub open spec fn named_values(hs: Seq<(Seq<char>, Seq<char>)>, name: Seq<char>) -> Seq<Seq<char>>
    decreases hs.len(),
{
    if hs.len() == 0 {
        Seq::empty()
    } else {
        let rest = named_values(hs.drop_last(), name);
        if same_name(hs.last().0, name) {
            rest.push(hs.last().1)
        } else {
            rest
        }
    }
}

pub proof fn lemma_named_values_append(
    a: Seq<(Seq<char>, Seq<char>)>,
    b: Seq<(Seq<char>, Seq<char>)>,
    name: Seq<char>,
)
    ensures
        named_values(a + b, name) == named_values(a, name) + named_values(b, name),
    decreases b.len(),
{
    if b.len() == 0 {
        assert(a + b =~= a);
        assert(named_values(b, name) =~= Seq::<Seq<char>>::empty());
    } else {
        assert((a + b).drop_last() =~= a + b.drop_last());
        lemma_named_values_append(a, b.drop_last(), name);
    }
}

/// `str::eq_ignore_ascii_case`.
pub fn eq_ignore_case(a: &str, b: &str) -> (r: bool)
    ensures
        r == same_name(a@, b@),
{
    let x = chars_of(a);
    let y = chars_of(b);
    if x.len() != y.len() {
        assert(lower(x@).len() != lower(y@).len());
        return false;
    }
    let mut i: usize = 0;
    while i < x.len()
        invariant
            x@ == a@,
            y@ == b@,
            x@.len() == y@.len(),
            i <= x@.len(),
            forall|j: int| 0 <= j < i ==> lower_char(#[trigger] x@[j]) == lower_char(y@[j]),
        decreases x@.len() - i,
    {
        if to_lower_char(x[i]) != to_lower_char(y[i]) {
            assert(lower(x@)[i as int] != lower(y@)[i as int]);
            return false;
        }
        i = i + 1;
    }
    assert(lower(x@) =~= lower(y@));
    true
}

/// A request, as the part of this that decides what to answer sees it.
///
/// Owns its strings rather than borrowing them: a socket lends them from a
/// buffer it is still holding, and a webview's protocol handler has no socket
/// and no lifetime to lend from.
pub struct Req {
    pub url: String,
    pub headers: Vec<(String, String)>,
    pub is_get: bool,
}

impl Req {
    /// First header with this name, matched case-insensitively as HTTP means it.
    pub fn header(&self, name: &str) -> (r: Option<&str>)
        ensures
            match r {
                Some(v) => named_values(view_pairs(self.headers@), name@).len() > 0 && v@
                    == named_values(view_pairs(self.headers@), name@)[0],
                None => named_values(view_pairs(self.headers@), name@).len() == 0,
            },
    {
        let ghost hs = view_pairs(self.headers@);
        let mut i: usize = 0;
        while i < self.headers.len()
            invariant
                i <= self.headers@.len(),
                hs == view_pairs(self.headers@),
                named_values(hs.take(i as int), name@).len() == 0,
            decreases self.headers@.len() - i,
        {
            let (k, v) = &self.headers[i];
            assert(hs.take(i + 1).drop_last() =~= hs.take(i as int));
            if eq_ignore_case(k.as_str(), name) {
                proof {
                    lemma_named_values_append(hs.take(i + 1), hs.skip(i + 1), name@);
                    assert(hs.take(i + 1) + hs.skip(i + 1) =~= hs);
                }
                return Some(v.as_str());
            }
            i = i + 1;
        }
        assert(hs.take(self.headers@.len() as int) =~= hs);
        None
    }

    /// Every header with this name. `Cookie` may legitimately arrive more than
    /// once, and taking only the first would silently drop preferences.
    pub fn named(&self, name: &str) -> (r: Vec<&str>)
        ensures
            r@.map_values(|s: &str| s@) == named_values(view_pairs(self.headers@), name@),
    {
        let ghost hs = view_pairs(self.headers@);
        let mut out: Vec<&str> = Vec::new();
        let mut i: usize = 0;
        while i < self.headers.len()
            invariant
                i <= self.headers@.len(),
                hs == view_pairs(self.headers@),
                out@.map_values(|s: &str| s@) == named_values(hs.take(i as int), name@),
            decreases self.headers@.len() - i,
        {
            let (k, v) = &self.headers[i];
            assert(hs.take(i + 1).drop_last() =~= hs.take(i as int));
            if eq_ignore_case(k.as_str(), name) {
                out.push(v.as_str());
                assert(out@.map_values(|s: &str| s@) =~= named_values(hs.take(i as int), name@).push(
                    v@,
                ));
            }
            i = i + 1;
        }
        assert(hs.take(self.headers@.len() as int) =~= hs);
        out
    }
}

/// What a reply carries. `Stream` is a stretch of a file the caller pumps
/// rather than a buffer filled here: a film is served without being read.
pub enum Body {
    Empty,
    Text(String),
    /// `len` bytes of the file at `path`, from byte `start` on.
    Stream { path: VfsPath, start: u64, len: u64 },
}

/// An answer, decided but not yet written. Whoever asked decides how it goes
/// out — down a socket, or back through a webview.
pub struct Reply {
    pub status: u16,
    pub headers: Vec<(String, String)>,
    pub body: Body,
}

/// A header as a pair of owned strings.
pub fn hdr(k: &str, v: &str) -> (r: (String, String))
    ensures
        r.0@ == k@,
        r.1@ == v@,
{
    (k.to_owned(), v.to_owned())
}

impl Reply {
    pub fn empty(status: u16) -> (r: Reply)
        ensures
            r.status == status,
            r.headers@.len() == 0,
            r.body is Empty,
    {
        Reply { status, headers: Vec::new(), body: Body::Empty }
    }

    pub fn text(status: u16, ctype: &str, body: String) -> (r: Reply)
        ensures
            r.status == status,
            view_pairs(r.headers@) == seq![("Content-Type"@, ctype@)],
            r.body matches Body::Text(t) && t@ == body@,
    {
        let mut headers: Vec<(String, String)> = Vec::new();
        headers.push(hdr("Content-Type", ctype));
        assert(view_pairs(headers@) =~= seq![("Content-Type"@, ctype@)]);
        Reply { status, headers, body: Body::Text(body) }
    }

    pub fn plain(status: u16, body: &str) -> (r: Reply)
        ensures
            r.status == status,
            view_pairs(r.headers@) == seq![("Content-Type"@, "text/plain; charset=utf-8"@)],
            r.body matches Body::Text(t) && t@ == body@,
    {
        Reply::text(status, "text/plain; charset=utf-8", body.to_owned())
    }

    pub fn with(self, k: &str, v: &str) -> (r: Reply)
        ensures
            r.status == self.status,
            view_pairs(r.headers@) == view_pairs(self.headers@).push((k@, v@)),
            r.body == self.body,
    {
        let mut me = self;
        let ghost before = view_pairs(me.headers@);
        me.headers.push(hdr(k, v));
        assert(view_pairs(me.headers@) =~= before.push((k@, v@)));
        me
    }
}

/// The headers every page goes out with, after its type.
pub open spec fn page_headers() -> Seq<(Seq<char>, Seq<char>)> {
    seq![
        ("Content-Type"@, "text/html; charset=utf-8"@),
        ("X-Content-Type-Options"@, "nosniff"@),
        ("Cache-Control"@, "no-store"@),
        ("Content-Security-Policy"@, PAGE_POLICY@),
    ]
}

/// What a page may load and run: no script at all, so raw HTML in a rendered
/// document cannot script whichever backend served it; styles from this
/// server and inline, which is what lets a page carry its theme.
pub const PAGE_POLICY: &'static str = "script-src 'none'; style-src 'self' 'unsafe-inline'";

/// A page. Every page is a snapshot of a directory taken when it was asked
/// for, and none of it is worth keeping: `no-store`, so a Refresh never hands
/// back the page it was pressed on. Every page carries [`PAGE_POLICY`].
pub fn html_reply(status: u16, body: String) -> (r: Reply)
    ensures
        r.status == status,
        view_pairs(r.headers@) == page_headers(),
        r.body matches Body::Text(t) && t@ == body@,
{
    let r = Reply::text(status, "text/html; charset=utf-8", body).with(
        "X-Content-Type-Options",
        "nosniff",
    ).with("Cache-Control", "no-store").with("Content-Security-Policy", PAGE_POLICY);
    assert(view_pairs(r.headers@) =~= page_headers());
    r
}


// ---------------------------------------------------------------------------
// Cookies and the set of open directories

/// How many directories the pane will hold open at once. Every one of them is
/// a directory listing on every render, so this is a budget, not a limit
/// anybody should reach.
pub const OPEN_MAX: usize = 24;

/// How many bytes of cookie the open set may cost. Paths are long, cookies are
/// a few KB, and a cookie a browser quietly drops is a pane that forgets
/// everything.
pub const OPEN_COOKIE_MAX: usize = 3000;

/// The `Set-Cookie` value that stores `v` under `k` for a year.
pub open spec fn cookie_line(k: Seq<char>, v: Seq<char>) -> Seq<char> {
    k + seq!['='] + v + "; Path=/; Max-Age=31536000; SameSite=Lax"@
}

pub fn cookie_header(k: &str, v: &str) -> (r: (String, String))
    ensures
        r.0@ == "Set-Cookie"@,
        r.1@ == cookie_line(k@, v@),
{
    let mut line = String::new();
    push_str(&mut line, k);
    push_char(&mut line, '=');
    push_str(&mut line, v);
    push_str(&mut line, "; Path=/; Max-Age=31536000; SameSite=Lax");
    ("Set-Cookie".to_owned(), line)
}

/// Where `?back=` sends the reader: a local path, never another host, and the
/// root when there is none.
pub open spec fn back_spec(q: Seq<(Seq<char>, Seq<char>)>) -> Seq<char> {
    match lookup(q, "back"@) {
        Some(b) => if b.len() > 0 && b[0] == '/' && !(b.len() > 1 && b[1] == '/') {
            b
        } else {
            "/"@
        },
        None => "/"@,
    }
}

/// Local redirect target from `?back=`, defaulting to the root.
pub fn back_target(query: &[(String, String)]) -> (r: String)
    ensures
        r@ == back_spec(view_pairs(query@)),
{
    match query_get(query, "back") {
        Some(b) => {
            let v = chars_of(b);
            if v.len() > 0 && v[0] == '/' && !(v.len() > 1 && v[1] == '/') {
                b.to_owned()
            } else {
                "/".to_owned()
            }
        },
        None => "/".to_owned(),
    }
}

/// `s` without `/` at either end, as `trim_matches('/')`.
pub open spec fn trim_slashes(s: Seq<char>) -> Seq<char>
    decreases s.len(),
{
    if s.len() > 0 && s[0] == '/' {
        trim_slashes(s.skip(1))
    } else if s.len() > 0 && s.last() == '/' {
        trim_slashes(s.drop_last())
    } else {
        s
    }
}

/// A path the pane may walk: something there, no NUL, and no empty, `.` or
/// `..` segment.
pub open spec fn sane_path(p: Seq<char>) -> bool {
    &&& p.len() > 0
    &&& !p.contains('\0')
    &&& forall|i: int| #![trigger split(p, '/')[i]] 0 <= i < split(p, '/').len() ==> {
        let seg = split(p, '/')[i];
        seg.len() > 0 && seg != "."@ && seg != ".."@
    }
}

/// One entry, as the tree keys them: percent-decoded, no leading or trailing
/// slash, and nothing that could climb out of the root.
pub open spec fn open_path_spec(raw: Seq<char>) -> Option<Seq<char>> {
    let p = trim_slashes(pct_decode_text(trim(raw)));
    if sane_path(p) {
        Some(p)
    } else {
        None
    }
}

fn trim_slashes_vec(v: &[char]) -> (r: Vec<char>)
    ensures
        r@ == trim_slashes(v@),
{
    let mut a: usize = 0;
    let mut b: usize = v.len();
    assert(v@.subrange(0, v@.len() as int) == v@);
    while a < b && (v[a] == '/' || v[b - 1] == '/')
        invariant
            a <= b <= v@.len(),
            trim_slashes(v@) == trim_slashes(v@.subrange(a as int, b as int)),
        decreases b - a,
    {
        if v[a] == '/' {
            assert(v@.subrange(a as int, b as int).skip(1) == v@.subrange(a + 1, b as int));
            a = a + 1;
        } else {
            assert(v@.subrange(a as int, b as int).drop_last() == v@.subrange(a as int, b - 1));
            b = b - 1;
        }
    }
    slice_vec(v, a, b)
}

fn is_dot_seg(v: &[char]) -> (r: bool)
    ensures
        r == (v@ == "."@ || v@ == ".."@),
{
    let s = string_of(v);
    str_eq(s.as_str(), ".") || str_eq(s.as_str(), "..")
}

/// One entry of the open set, as the tree keys them. `resolve_in_root`
/// guards what gets *served*; this guards what gets walked to draw the pane.
pub fn open_path(raw: &str) -> (r: Option<String>)
    ensures
        match open_path_spec(raw@) {
            Some(p) => r matches Some(s) && s@ == p,
            None => r is None,
        },
{
    let rv = chars_of(raw);
    let (a, b) = trim_bounds(rv.as_slice());
    let t = string_of(slice_vec(rv.as_slice(), a, b).as_slice());
    let d = percent_decode(t.as_str());
    let dv = chars_of(d.as_str());
    let p = trim_slashes_vec(dv.as_slice());
    if p.len() == 0 {
        return None;
    }
    let mut k: usize = 0;
    while k < p.len()
        invariant
            k <= p@.len(),
            p@ == trim_slashes(pct_decode_text(trim(raw@))),
            forall|j: int| 0 <= j < k ==> p@[j] != '\0',
        decreases p@.len() - k,
    {
        if p[k] == '\0' {
            assert(p@.contains('\0'));
            return None;
        }
        k = k + 1;
    }
    let segs = split_chars(p.as_slice(), '/');
    let mut i: usize = 0;
    while i < segs.len()
        invariant
            views(segs@) == split(p@, '/'),
            p@ == trim_slashes(pct_decode_text(trim(raw@))),
            i <= segs@.len(),
            forall|j: int| #![trigger split(p@, '/')[j]] 0 <= j < i ==> {
                let seg = split(p@, '/')[j];
                seg.len() > 0 && seg != "."@ && seg != ".."@
            },
        decreases segs@.len() - i,
    {
        assert(views(segs@)[i as int] == segs@[i as int]@);
        assert(split(p@, '/')[i as int] == segs@[i as int]@);
        if segs[i].len() == 0 || is_dot_seg(segs[i].as_slice()) {
            return None;
        }
        i = i + 1;
    }
    Some(string_of(p.as_slice()))
}

/// A path as the cookie stores it.
pub open spec fn encoded(s: Seq<char>) -> Seq<char> {
    pct_encoded(encode_utf8(s))
}

/// Items joined with `|`.
pub open spec fn bar_joined(items: Seq<Seq<char>>) -> Seq<char>
    decreases items.len(),
{
    if items.len() == 0 {
        Seq::empty()
    } else if items.len() == 1 {
        items[0]
    } else {
        bar_joined(items.drop_last()).push('|') + items.last()
    }
}

/// The cookie value for a list of paths: each percent-encoded, `|`-joined.
/// `|` needs no meaning of its own — percent-encoding leaves only unreserved
/// characters alone, so a path can never contain the separator.
pub open spec fn cookie_value(open: Seq<Seq<char>>) -> Seq<char> {
    bar_joined(open.map_values(|p: Seq<char>| encoded(p)))
}

/// The cookie value with the oldest entries, from `from` on, dropped until it
/// fits; the last entry always stays.
pub open spec fn open_cookie_from(open: Seq<Seq<char>>, from: int) -> Seq<char>
    decreases open.len() - from,
{
    let v = cookie_value(open.skip(from));
    if from < 0 || v.len() <= OPEN_COOKIE_MAX || from + 1 >= open.len() {
        v
    } else {
        open_cookie_from(open, from + 1)
    }
}

fn joined_from(open: &[String], from: usize) -> (r: String)
    requires
        from <= open@.len(),
    ensures
        r@ == cookie_value(open@.map_values(|s: String| s@).skip(from as int)),
{
    let ghost items = open@.map_values(|s: String| s@).skip(from as int);
    let mut out = String::new();
    let mut i: usize = from;
    assert(items.take(0).map_values(|p: Seq<char>| encoded(p)) =~= Seq::<Seq<char>>::empty());
    while i < open.len()
        invariant
            from <= i <= open@.len(),
            items == open@.map_values(|s: String| s@).skip(from as int),
            out@ == bar_joined(items.take(i - from).map_values(|p: Seq<char>| encoded(p))),
        decreases open@.len() - i,
    {
        let ghost before = items.take(i - from).map_values(|p: Seq<char>| encoded(p));
        if i > from {
            push_char(&mut out, '|');
        }
        let e = percent_encode(open[i].as_str());
        push_str(&mut out, e.as_str());
        proof {
            let after = items.take(i + 1 - from).map_values(|p: Seq<char>| encoded(p));
            assert(after.drop_last() =~= before);
            assert(items[i - from] == open@[i as int]@);
            assert(after.last() == encoded(open@[i as int]@));
            if i == from {
                assert(before.len() == 0);
                assert(out@ =~= after[0]);
            }
        }
        i = i + 1;
    }
    assert(items.take(open@.len() - from) =~= items);
    out
}

/// The cookie value, oldest entries dropped until it fits. Newest last, so
/// what goes is what was opened longest ago. (The value is ASCII, so its
/// characters and its bytes count alike.)
pub fn open_cookie(open: &[String]) -> (r: String)
    ensures
        r@ == open_cookie_from(open@.map_values(|s: String| s@), 0),
{
    let ghost items = open@.map_values(|s: String| s@);
    let mut from: usize = 0;
    loop
        invariant
            from <= open@.len() || (from == 0 && open@.len() == 0),
            items == open@.map_values(|s: String| s@),
            open_cookie_from(items, 0) == open_cookie_from(items, from as int),
        decreases open@.len() - from,
    {
        let value = joined_from(open, from);
        let n = chars_of(value.as_str()).len();
        if n <= OPEN_COOKIE_MAX || open.len() - from <= 1 {
            return value;
        }
        from = from + 1;
    }
}

/// Every cookie pair of every `Cookie` header, in the order they came.
pub open spec fn cookie_pairs_of(values: Seq<Seq<char>>) -> Seq<(Seq<char>, Seq<char>)>
    decreases values.len(),
{
    if values.len() == 0 {
        Seq::empty()
    } else {
        cookie_pairs_of(values.drop_last()) + parsed_cookies(values.last())
    }
}

/// The entries of a `ts_open` value that are safe to walk, in order.
pub open spec fn open_entries(pieces: Seq<Seq<char>>) -> Seq<Seq<char>>
    decreases pieces.len(),
{
    if pieces.len() == 0 {
        Seq::empty()
    } else {
        match open_path_spec(pieces.last()) {
            Some(p) => open_entries(pieces.drop_last()).push(p),
            None => open_entries(pieces.drop_last()),
        }
    }
}

/// At most the first `OPEN_MAX` of them.
pub open spec fn capped(s: Seq<Seq<char>>) -> Seq<Seq<char>> {
    if s.len() > OPEN_MAX {
        s.take(OPEN_MAX as int)
    } else {
        s
    }
}

/// The open set a request's `Cookie` headers carry.
pub open spec fn open_set_of(cookies: Seq<Seq<char>>) -> Seq<Seq<char>> {
    match lookup(cookie_pairs_of(cookies), "ts_open"@) {
        Some(v) => capped(open_entries(split(v, '|'))),
        None => Seq::empty(),
    }
}

/// The paths a `ts_open` value lists, each checked, at most `OPEN_MAX`.
fn open_list(value: &str) -> (r: Vec<String>)
    ensures
        r@.map_values(|s: String| s@) == capped(open_entries(split(value@, '|'))),
{
    let v = chars_of(value);
    let pieces = split_chars(v.as_slice(), '|');
    let mut out: Vec<String> = Vec::new();
    let mut i: usize = 0;
    while i < pieces.len()
        invariant
            views(pieces@) == split(value@, '|'),
            i <= pieces@.len(),
            out@.map_values(|s: String| s@) == open_entries(views(pieces@).take(i as int)),
        decreases pieces@.len() - i,
    {
        let piece = string_of(pieces[i].as_slice());
        assert(views(pieces@).take(i + 1).drop_last() =~= views(pieces@).take(i as int));
        assert(views(pieces@)[i as int] == pieces@[i as int]@);
        match open_path(piece.as_str()) {
            Some(p) => {
                out.push(p);
                assert(out@.map_values(|s: String| s@) =~= open_entries(
                    views(pieces@).take(i as int),
                ).push(p@));
            },
            None => {},
        }
        i = i + 1;
    }
    assert(views(pieces@).take(pieces@.len() as int) =~= views(pieces@));
    if out.len() > OPEN_MAX {
        let mut capped_out: Vec<String> = Vec::new();
        let mut j: usize = 0;
        while j < OPEN_MAX
            invariant
                j <= OPEN_MAX < out@.len(),
                capped_out@.map_values(|s: String| s@) == out@.map_values(|s: String| s@).take(
                    j as int,
                ),
            decreases OPEN_MAX - j,
        {
            capped_out.push(out[j].clone());
            assert(out@.map_values(|s: String| s@).take(j + 1) =~= out@.map_values(
                |s: String| s@,
            ).take(j as int).push(out@[j as int]@));
            assert(capped_out@.map_values(|s: String| s@) =~= out@.map_values(|s: String| s@).take(
                j as int,
            ).push(out@[j as int]@));
            j = j + 1;
        }
        capped_out
    } else {
        out
    }
}

/// Characters a cookie value can carry bare: none is a separator, an `=`, or
/// white space.
pub open spec fn plain_char(c: char) -> bool {
    c != '|' && c != ';' && c != '=' && c != '/' && !is_ws(c)
}

proof fn lemma_encoded_plain(p: Seq<char>)
    ensures
        forall|i: int| 0 <= i < encoded(p).len() ==> plain_char(#[trigger] encoded(p)[i]),
{
    let b = encode_utf8(p);
    assert forall|i: int| 0 <= i < encoded(p).len() implies plain_char(#[trigger] encoded(p)[i]) by {
        law_encoded_is_unreserved(b, i);
    }
}

/// A string whose ends are not white space is its own trim.
proof fn lemma_trim_plain(x: Seq<char>)
    requires
        x.len() > 0 ==> !is_ws(x[0]) && !is_ws(x.last()),
    ensures
        trim(x) == x,
{
    assert(crate::util::trim_start(x) == x);
    assert(crate::util::trim_end(x) == x);
}

/// What `trim_matches('/')` leaves neither starts nor ends with `/`.
proof fn lemma_trim_slashes_ends(s: Seq<char>)
    ensures
        trim_slashes(s).len() > 0 ==> trim_slashes(s)[0] != '/' && trim_slashes(s).last() != '/',
    decreases s.len(),
{
    if s.len() > 0 && s[0] == '/' {
        lemma_trim_slashes_ends(s.skip(1));
    } else if s.len() > 0 && s.last() == '/' {
        lemma_trim_slashes_ends(s.drop_last());
    }
}

/// An entry the tree keys is read back from its own encoding.
proof fn lemma_open_path_of_encoded(p: Seq<char>, raw: Seq<char>)
    requires
        open_path_spec(raw) == Some(p),
    ensures
        open_path_spec(encoded(p)) == Some(p),
{
    let e = encoded(p);
    lemma_encoded_plain(p);
    if e.len() > 0 {
        assert(plain_char(e[0]));
        assert(plain_char(e[e.len() - 1]));
    }
    lemma_trim_plain(e);
    law_percent_round_trip(p);
    assert(pct_decode_text(e) == p);
    lemma_trim_slashes_ends(pct_decode_text(trim(raw)));
    assert(trim_slashes(p) == p);
}

/// `|`-joined items that hold no `|` split back into themselves.
proof fn lemma_split_bar_joined(xs: Seq<Seq<char>>)
    requires
        xs.len() >= 1,
        forall|i: int| 0 <= i < xs.len() ==> !(#[trigger] xs[i]).contains('|'),
    ensures
        split(bar_joined(xs), '|') == xs,
    decreases xs.len(),
{
    if xs.len() == 1 {
        crate::util::lemma_split_plain(xs[0], '|');
        assert(seq![xs[0]] =~= xs);
    } else {
        let init = xs.drop_last();
        assert forall|i: int| 0 <= i < init.len() implies !(#[trigger] init[i]).contains('|') by {
            assert(init[i] == xs[i]);
        }
        lemma_split_bar_joined(init);
        let a = bar_joined(init).push('|');
        assert(a.drop_last() =~= bar_joined(init));
        assert(split(a, '|') == split(bar_joined(init), '|').push(Seq::empty()));
        assert(!xs.last().contains('|')) by {
            assert(xs[xs.len() - 1] == xs.last());
        }
        crate::util::lemma_split_runs_on(a, xs.last(), '|');
        assert(Seq::<char>::empty() + xs.last() =~= xs.last());
        assert(init.push(Seq::empty()).update(init.len() as int, xs.last()) =~= xs);
    }
}

/// The entries of the encodings of entries the tree keys are those entries.
proof fn lemma_open_entries_encoded(open: Seq<Seq<char>>)
    requires
        forall|i: int| 0 <= i < open.len() ==> open_path_spec(encoded(#[trigger] open[i])) == Some(open[i]),
    ensures
        open_entries(open.map_values(|p: Seq<char>| encoded(p))) == open,
    decreases open.len(),
{
    if open.len() > 0 {
        let init = open.drop_last();
        assert forall|i: int| 0 <= i < init.len() implies open_path_spec(encoded(#[trigger] init[i])) == Some(init[i]) by {
            assert(init[i] == open[i]);
        }
        lemma_open_entries_encoded(init);
        let m = open.map_values(|p: Seq<char>| encoded(p));
        assert(m.drop_last() =~= init.map_values(|p: Seq<char>| encoded(p)));
        assert(m.last() == encoded(open.last()));
        assert(open_path_spec(encoded(open[open.len() - 1])) == Some(open[open.len() - 1]));
        assert(init.push(open.last()) =~= open);
    }
}

/// The one cookie `ts_open=v`, for a value that needs no quoting.
proof fn lemma_open_cookie_parses(v: Seq<char>)
    requires
        forall|i: int| 0 <= i < v.len() ==> cookie_safe(#[trigger] v[i]),
    ensures
        parsed_cookies("ts_open="@ + v) == seq![("ts_open"@, v)],
{
    reveal_strlit("ts_open=");
    reveal_strlit("ts_open");
    let w = "ts_open="@ + v;
    assert(w.len() == 8 + v.len());
    assert(!w.contains(';')) by {
        if w.contains(';') {
            let k = w.index_of(';');
            if k >= 8 {
                assert(w[k] == v[k - 8]);
            }
        }
    }
    crate::util::lemma_split_plain(w, ';');
    assert(w[0] == 't');
    if v.len() > 0 {
        assert(w.last() == v[v.len() - 1]);
    } else {
        assert(w.last() == '=');
    }
    lemma_trim_plain(w);
    assert(w[7] == '=');
    crate::util::lemma_first_index_unique(w, '=', 7);
    assert(w.take(7) =~= "ts_open"@);
    assert(w.skip(8) =~= v);
    lemma_trim_plain("ts_open"@);
    if v.len() > 0 {
        assert(cookie_safe(v[0]));
        assert(cookie_safe(v[v.len() - 1]));
    }
    lemma_trim_plain(v);
    assert(split(w, ';') == seq![w]);
    assert(seq![w].drop_last() =~= Seq::<Seq<char>>::empty());
    assert(seq![w].last() == w);
    assert(crate::util::split_once(w, '=') == Some((w.take(7), w.skip(8))));
    assert(crate::util::cookie_piece(w) == Some(("ts_open"@, v)));
    assert(crate::util::cookie_pairs(Seq::<Seq<char>>::empty()) =~= Seq::<(Seq<char>, Seq<char>)>::empty());
    assert(crate::util::cookie_pairs(seq![w].drop_last()) =~= Seq::<(Seq<char>, Seq<char>)>::empty());
    assert(crate::util::cookie_pairs(seq![w]) =~= seq![("ts_open"@, v)]);
}

/// The open set survives the cookie: the `ts_open` value written for a set
/// of directories the tree keys, read back from a request that carries it,
/// is the same set — so long as it fits, in number and in bytes.
pub proof fn law_open_set_survives_the_cookie(open: Seq<Seq<char>>)
    requires
        open.len() <= OPEN_MAX,
        cookie_value(open).len() <= OPEN_COOKIE_MAX,
        forall|i: int| 0 <= i < open.len() ==> exists|raw: Seq<char>| open_path_spec(raw) == Some(#[trigger] open[i]),
    ensures
        open_set_of(seq!["ts_open="@ + open_cookie_from(open, 0)]) == open,
{
    assert(open.skip(0) =~= open);
    assert(open_cookie_from(open, 0) == cookie_value(open));
    lemma_value_reads_back(open);
}

/// A `ts_open` value, whatever its length, reads back as the set it was
/// written for.
proof fn lemma_value_reads_back(open: Seq<Seq<char>>)
    requires
        open.len() <= OPEN_MAX,
        forall|i: int| 0 <= i < open.len() ==> exists|raw: Seq<char>| open_path_spec(raw) == Some(#[trigger] open[i]),
    ensures
        open_set_of(seq!["ts_open="@ + cookie_value(open)]) == open,
{
    let v = cookie_value(open);
    let encs = open.map_values(|p: Seq<char>| encoded(p));
    assert forall|i: int| 0 <= i < open.len() implies open_path_spec(encoded(#[trigger] open[i])) == Some(open[i]) by {
        let raw = choose|raw: Seq<char>| open_path_spec(raw) == Some(open[i]);
        lemma_open_path_of_encoded(open[i], raw);
    }
    assert forall|i: int, j: int| 0 <= i < encs.len() && 0 <= j < encs[i].len() implies cookie_safe(#[trigger] encs[i][j]) by {
        lemma_encoded_plain(open[i]);
        assert(encs[i] == encoded(open[i]));
        assert(plain_char(encoded(open[i])[j]));
    }
    lemma_bar_joined_safe(encs);
    lemma_open_cookie_parses(v);
    let cookies = seq!["ts_open="@ + v];
    assert(cookies.drop_last() =~= Seq::<Seq<char>>::empty());
    assert(cookies.last() == "ts_open="@ + v);
    assert(cookie_pairs_of(cookies.drop_last()) =~= Seq::<(Seq<char>, Seq<char>)>::empty());
    assert(cookie_pairs_of(cookies) =~= seq![("ts_open"@, v)]);
    assert(lookup(cookie_pairs_of(cookies), "ts_open"@) == Some(v));
    if open.len() == 0 {
        assert(v =~= Seq::<char>::empty());
        assert(split(v, '|') == seq![Seq::<char>::empty()]);
        assert(trim(Seq::<char>::empty()) =~= Seq::<char>::empty()) by {
            lemma_trim_plain(Seq::<char>::empty());
        }
        assert(encode_utf8(Seq::<char>::empty()) =~= Seq::<u8>::empty());
        assert(pct_decoded(Seq::<u8>::empty()) =~= Seq::<u8>::empty());
        assert(decode_utf8(Seq::<u8>::empty()) =~= Seq::<char>::empty());
        assert(open_path_spec(Seq::<char>::empty()) is None);
        assert(seq![Seq::<char>::empty()].drop_last() =~= Seq::<Seq<char>>::empty());
        assert(open_entries(Seq::<Seq<char>>::empty()) =~= Seq::<Seq<char>>::empty());
        assert(open_entries(seq![Seq::<char>::empty()].drop_last()) =~= Seq::<Seq<char>>::empty());
        assert(open_entries(seq![Seq::<char>::empty()]) =~= Seq::<Seq<char>>::empty());
        assert(open =~= Seq::<Seq<char>>::empty());
        assert(open_set_of(cookies) =~= Seq::<Seq<char>>::empty());
    } else {
        assert forall|i: int| 0 <= i < encs.len() implies !(#[trigger] encs[i]).contains('|') by {
            lemma_encoded_plain(open[i]);
            if encs[i].contains('|') {
                let k = encs[i].index_of('|');
                assert(plain_char(encoded(open[i])[k]));
            }
        }
        lemma_split_bar_joined(encs);
        lemma_open_entries_encoded(open);
        assert(v == bar_joined(encs));
        assert(split(v, '|') == encs);
        assert(open_entries(split(v, '|')) == open);
        assert(capped(open) == open);
        assert(open_set_of(cookies) == open);
    }
}

/// Characters a cookie value carries as they are: no `;`, no `=`, no white
/// space.
pub open spec fn cookie_safe(c: char) -> bool {
    c != ';' && c != '=' && !is_ws(c)
}

/// `|`-joined items a cookie carries as they are can be carried as they are.
proof fn lemma_bar_joined_safe(xs: Seq<Seq<char>>)
    requires
        forall|i: int, j: int| 0 <= i < xs.len() && 0 <= j < xs[i].len() ==> cookie_safe(#[trigger] xs[i][j]),
    ensures
        forall|k: int| 0 <= k < bar_joined(xs).len() ==> cookie_safe(#[trigger] bar_joined(xs)[k]),
    decreases xs.len(),
{
    if xs.len() == 1 {
        assert forall|k: int| 0 <= k < bar_joined(xs).len() implies cookie_safe(#[trigger] bar_joined(xs)[k]) by {
            assert(bar_joined(xs)[k] == xs[0][k]);
        }
    } else if xs.len() > 1 {
        let init = xs.drop_last();
        assert forall|i: int, j: int| 0 <= i < init.len() && 0 <= j < init[i].len() implies cookie_safe(#[trigger] init[i][j]) by {
            assert(init[i] == xs[i]);
        }
        lemma_bar_joined_safe(init);
        let a = bar_joined(init);
        let last = xs.last();
        assert(bar_joined(xs) == a.push('|') + last);
        assert forall|k: int| 0 <= k < bar_joined(xs).len() implies cookie_safe(#[trigger] bar_joined(xs)[k]) by {
            if k < a.len() {
                assert(bar_joined(xs)[k] == a[k]);
            } else if k == a.len() {
                assert(bar_joined(xs)[k] == '|');
            } else {
                assert(bar_joined(xs)[k] == last[k - a.len() - 1]);
                assert(xs[xs.len() - 1] == last);
            }
        }
    }
}

/// Every cookie pair a request carries, header after header.
pub fn cookie_pairs(req: &Req) -> (r: Vec<(String, String)>)
    ensures
        view_pairs(r@) == cookie_pairs_of(named_values(view_pairs(req.headers@), "Cookie"@)),
{
    let values = req.named("Cookie");
    let ghost vs = values@.map_values(|s: &str| s@);
    let mut all: Vec<(String, String)> = Vec::new();
    let mut i: usize = 0;
    assert(vs.take(0) =~= Seq::<Seq<char>>::empty());
    while i < values.len()
        invariant
            i <= values@.len(),
            vs == values@.map_values(|s: &str| s@),
            view_pairs(all@) == cookie_pairs_of(vs.take(i as int)),
        decreases values@.len() - i,
    {
        let pairs = parse_cookies(values[i]);
        let ghost before = view_pairs(all@);
        let mut j: usize = 0;
        while j < pairs.len()
            invariant
                j <= pairs@.len(),
                view_pairs(all@) == before + view_pairs(pairs@).take(j as int),
            decreases pairs@.len() - j,
        {
            let (k, v) = &pairs[j];
            let ghost mid = view_pairs(all@);
            let kc = k.clone();
            let vc = v.clone();
            all.push((kc, vc));
            assert(view_pairs(all@) =~= mid.push((k@, v@)));
            assert(view_pairs(pairs@).take(j + 1) =~= view_pairs(pairs@).take(j as int).push(
                (k@, v@),
            ));
            assert(view_pairs(all@) =~= before + view_pairs(pairs@).take(j + 1));
            j = j + 1;
        }
        assert(view_pairs(pairs@).take(pairs@.len() as int) =~= view_pairs(pairs@));
        assert(vs.take(i + 1).drop_last() =~= vs.take(i as int));
        assert(vs[i as int] == values@[i as int]@);
        i = i + 1;
    }
    assert(vs.take(values@.len() as int) =~= vs);
    all
}

/// The `ts_open` cookie: relative paths, percent-encoded, `|`-joined. The
/// first `ts_open` pair wins, across every `Cookie` header.
pub fn open_from(req: &Req) -> (r: Vec<String>)
    ensures
        r@.map_values(|s: String| s@) == open_set_of(
            named_values(view_pairs(req.headers@), "Cookie"@),
        ),
{
    let all = cookie_pairs(req);
    match query_get(all.as_slice(), "ts_open") {
        Some(v) => open_list(v),
        None => Vec::new(),
    }
}


/// `s` with every copy of `p` taken out.
pub open spec fn without(s: Seq<Seq<char>>, p: Seq<char>) -> Seq<Seq<char>>
    decreases s.len(),
{
    if s.len() == 0 {
        Seq::empty()
    } else if s.last() == p {
        without(s.drop_last(), p)
    } else {
        without(s.drop_last(), p).push(s.last())
    }
}

/// The open set after a link's `shut=`.
pub open spec fn shut_in(open: Seq<Seq<char>>, q: Seq<(Seq<char>, Seq<char>)>) -> Seq<Seq<char>> {
    match lookup(q, "shut"@) {
        Some(x) => match open_path_spec(x) {
            Some(p) => without(open, p),
            None => open,
        },
        None => open,
    }
}

/// The open set after a link's `open=`: the path goes on the end unless it is
/// there already, and the oldest makes room when the set is full.
pub open spec fn opened_in(open: Seq<Seq<char>>, q: Seq<(Seq<char>, Seq<char>)>) -> Seq<Seq<char>> {
    match lookup(q, "open"@) {
        Some(x) => match open_path_spec(x) {
            Some(p) => if open.contains(p) {
                open
            } else if open.len() >= OPEN_MAX {
                open.skip(1).push(p)
            } else {
                open.push(p)
            },
            None => open,
        },
        None => open,
    }
}

/// What one trip through `/.ts/tree` does to the open set.
pub open spec fn toggled(open: Seq<Seq<char>>, q: Seq<(Seq<char>, Seq<char>)>) -> Seq<Seq<char>> {
    opened_in(shut_in(open, q), q)
}

/// What `without` keeps: every entry but `p`, and no more of them.
proof fn lemma_without(s: Seq<Seq<char>>, p: Seq<char>)
    ensures
        without(s, p).len() <= s.len(),
        !without(s, p).contains(p),
        forall|x: Seq<char>| #[trigger] without(s, p).contains(x) ==> s.contains(x),
    decreases s.len(),
{
    if s.len() > 0 {
        let init = s.drop_last();
        lemma_without(init, p);
        let w = without(init, p);
        assert forall|x: Seq<char>| #[trigger] without(s, p).contains(x) implies s.contains(x) by {
            if s.last() == p {
                assert(w.contains(x));
                let k = init.index_of(x);
                assert(s[k] == init[k]);
            } else {
                let k = without(s, p).index_of(x);
                if k < w.len() {
                    assert(without(s, p)[k] == w[k]);
                    assert(w.contains(x));
                    let j = init.index_of(x);
                    assert(s[j] == init[j]);
                } else {
                    assert(s[s.len() - 1] == x);
                }
            }
        }
        if s.last() != p {
            assert(!without(s, p).contains(p)) by {
                if without(s, p).contains(p) {
                    let k = without(s, p).index_of(p);
                    if k < w.len() {
                        assert(without(s, p)[k] == w[k]);
                        assert(w.contains(p));
                    }
                }
            }
        }
    }
}

/// One trip through `/.ts/tree`: the set never grows past `OPEN_MAX`, a
/// directory it was asked to open is open after it, and one it was asked to
/// shut — and not to open again — is not.
pub proof fn law_tree_trip(open: Seq<Seq<char>>, q: Seq<(Seq<char>, Seq<char>)>)
    ensures
        open.len() <= OPEN_MAX ==> toggled(open, q).len() <= OPEN_MAX,
        (lookup(q, "open"@) matches Some(x) && open_path_spec(x) is Some) ==> toggled(open, q).contains(
            open_path_spec(lookup(q, "open"@)->0)->0,
        ),
        (lookup(q, "shut"@) matches Some(x) && open_path_spec(x) is Some && !(lookup(q, "open"@) matches Some(y)
            && open_path_spec(y) == open_path_spec(x))) ==> !toggled(open, q).contains(
            open_path_spec(lookup(q, "shut"@)->0)->0,
        ),
{
    let s = shut_in(open, q);
    match lookup(q, "shut"@) {
        Some(x) => match open_path_spec(x) {
            Some(p) => lemma_without(open, p),
            None => {},
        },
        None => {},
    }
    assert(s.len() <= open.len());
    match lookup(q, "open"@) {
        Some(y) => match open_path_spec(y) {
            Some(p) => {
                if !s.contains(p) {
                    if s.len() >= OPEN_MAX {
                        let t = s.skip(1).push(p);
                        assert(t[t.len() - 1] == p);
                        assert forall|z: Seq<char>| #[trigger] t.contains(z) && z != p implies s.contains(z) by {
                            let k = t.index_of(z);
                            assert(k < t.len() - 1);
                            assert(t[k] == s[k + 1]);
                        }
                    } else {
                        let t = s.push(p);
                        assert(t[t.len() - 1] == p);
                        assert forall|z: Seq<char>| #[trigger] t.contains(z) && z != p implies s.contains(z) by {
                            let k = t.index_of(z);
                            assert(k < t.len() - 1);
                            assert(t[k] == s[k]);
                        }
                    }
                }
            },
            None => {},
        },
        None => {},
    }
}

/// Whether every path in a set is one a `ts_open` entry can name.
pub open spec fn walkable(s: Seq<Seq<char>>) -> bool {
    forall|x: Seq<char>| #[trigger] s.contains(x) ==> exists|raw: Seq<char>| open_path_spec(raw) == Some(x)
}

proof fn lemma_open_entries_walkable(pieces: Seq<Seq<char>>)
    ensures
        walkable(open_entries(pieces)),
    decreases pieces.len(),
{
    if pieces.len() > 0 {
        lemma_open_entries_walkable(pieces.drop_last());
        let prev = open_entries(pieces.drop_last());
        match open_path_spec(pieces.last()) {
            Some(p) => {
                let e = prev.push(p);
                assert forall|x: Seq<char>| #[trigger] e.contains(x) implies exists|raw: Seq<char>| open_path_spec(raw) == Some(x) by {
                    let k = e.index_of(x);
                    if k < prev.len() {
                        assert(prev[k] == x);
                        assert(prev.contains(x));
                    } else {
                        assert(open_path_spec(pieces.last()) == Some(x));
                    }
                }
            },
            None => {},
        }
    }
}

/// The open set a request carries is walkable, and no larger than
/// `OPEN_MAX`.
proof fn lemma_open_set_walkable(cookies: Seq<Seq<char>>)
    ensures
        walkable(open_set_of(cookies)),
        open_set_of(cookies).len() <= OPEN_MAX,
{
    match lookup(cookie_pairs_of(cookies), "ts_open"@) {
        Some(v) => {
            let e = open_entries(split(v, '|'));
            lemma_open_entries_walkable(split(v, '|'));
            if e.len() > OPEN_MAX {
                let c = e.take(OPEN_MAX as int);
                assert forall|x: Seq<char>| #[trigger] c.contains(x) implies exists|raw: Seq<char>| open_path_spec(raw) == Some(x) by {
                    let k = c.index_of(x);
                    assert(e[k] == x);
                    assert(e.contains(x));
                }
            }
        },
        None => {},
    }
}

/// The path a link's `open=` names, where it names one.
pub open spec fn open_asked(q: Seq<(Seq<char>, Seq<char>)>) -> Option<Seq<char>> {
    match lookup(q, "open"@) {
        Some(y) => open_path_spec(y),
        None => None,
    }
}

/// The path a link's `shut=` names, where it names one.
pub open spec fn shut_asked(q: Seq<(Seq<char>, Seq<char>)>) -> Option<Seq<char>> {
    match lookup(q, "shut"@) {
        Some(x) => open_path_spec(x),
        None => None,
    }
}

/// What `opened_in` holds: what was there, and the path asked to be opened.
proof fn lemma_opened_in_from(s: Seq<Seq<char>>, q: Seq<(Seq<char>, Seq<char>)>)
    ensures
        forall|z: Seq<char>| #[trigger] opened_in(s, q).contains(z) ==> s.contains(z) || open_asked(q) == Some(z),
{
    match open_asked(q) {
        Some(p) => {
            if !s.contains(p) {
                let t = if s.len() >= OPEN_MAX {
                    s.skip(1).push(p)
                } else {
                    s.push(p)
                };
                assert(opened_in(s, q) == t);
                assert forall|z: Seq<char>| #[trigger] t.contains(z) implies s.contains(z) || open_asked(q) == Some(z) by {
                    let k = t.index_of(z);
                    if k < t.len() - 1 {
                        if s.len() >= OPEN_MAX {
                            assert(t[k] == s[k + 1]);
                        } else {
                            assert(t[k] == s[k]);
                        }
                    }
                }
            }
        },
        None => {},
    }
}

/// `without` leaves a set that lacks the path as it is.
proof fn lemma_without_absent(s: Seq<Seq<char>>, p: Seq<char>)
    requires
        !s.contains(p),
    ensures
        without(s, p) == s,
    decreases s.len(),
{
    if s.len() > 0 {
        let init = s.drop_last();
        assert(!init.contains(p)) by {
            if init.contains(p) {
                let k = init.index_of(p);
                assert(s[k] == p);
            }
        }
        lemma_without_absent(init, p);
        assert(s[s.len() - 1] == s.last());
        assert(init.push(s.last()) =~= s);
    }
}

/// A trip through `/.ts/tree` keeps the open set walkable.
proof fn lemma_toggled_walkable(o: Seq<Seq<char>>, q: Seq<(Seq<char>, Seq<char>)>)
    requires
        walkable(o),
    ensures
        walkable(toggled(o, q)),
{
    let s = shut_in(o, q);
    match shut_asked(q) {
        Some(p) => lemma_without(o, p),
        None => {},
    }
    assert(forall|z: Seq<char>| #[trigger] s.contains(z) ==> o.contains(z));
    lemma_opened_in_from(s, q);
    let t = toggled(o, q);
    assert forall|x: Seq<char>| #[trigger] t.contains(x) implies exists|raw: Seq<char>| open_path_spec(raw) == Some(x) by {
        if s.contains(x) {
            assert(o.contains(x));
        } else {
            assert(open_asked(q) == Some(x));
            let y = lookup(q, "open"@)->0;
            assert(open_path_spec(y) == Some(x));
        }
    }
}

/// Where the entries a `ts_open` value written for `open` keeps begin, from
/// `from` on: the oldest are dropped until the value fits, and the last
/// always stays.
pub open spec fn open_cut_from(open: Seq<Seq<char>>, from: int) -> int
    decreases open.len() - from,
{
    if from < 0 || cookie_value(open.skip(from)).len() <= OPEN_COOKIE_MAX || from + 1 >= open.len() {
        from
    } else {
        open_cut_from(open, from + 1)
    }
}

/// The entries a `ts_open` value written for `open` keeps.
pub open spec fn open_kept(open: Seq<Seq<char>>) -> Seq<Seq<char>> {
    open.skip(open_cut_from(open, 0))
}

/// The value written for a set is the value of what it keeps, and what it
/// keeps either fits or is one entry at most.
proof fn lemma_open_cut(open: Seq<Seq<char>>, from: int)
    requires
        0 <= from,
    ensures
        from <= open_cut_from(open, from),
        open.len() > from ==> open_cut_from(open, from) < open.len(),
        open.len() <= from ==> open_cut_from(open, from) == from,
        open_cookie_from(open, from) == cookie_value(open.skip(open_cut_from(open, from))),
        cookie_value(open.skip(open_cut_from(open, from))).len() <= OPEN_COOKIE_MAX || open_cut_from(open, from) + 1
            >= open.len(),
    decreases open.len() - from,
{
    if !(cookie_value(open.skip(from)).len() <= OPEN_COOKIE_MAX || from + 1 >= open.len()) {
        lemma_open_cut(open, from + 1);
    }
}

/// Following the same open or shut link twice lands in the same place: the
/// second trip, made with the cookie the first one set, sets the very same
/// `ts_open` value (and, by `toggle_open`, sends the reader to the same
/// `back`) — so long as the directory the link opens is among the entries
/// that value kept (the oldest are dropped to fit, and it may be one of
/// them).
pub proof fn law_tree_link_twice(cookies: Seq<Seq<char>>, q: Seq<(Seq<char>, Seq<char>)>)
    requires
        open_asked(q) matches Some(p) ==> open_kept(toggled(open_set_of(cookies), q)).contains(p),
    ensures
        open_cookie_from(toggled(open_set_of(seq!["ts_open="@ + open_cookie_from(toggled(open_set_of(cookies), q), 0)]), q), 0)
            == open_cookie_from(toggled(open_set_of(cookies), q), 0),
{
    let o = open_set_of(cookies);
    lemma_open_set_walkable(cookies);
    law_tree_trip(o, q);
    let t = toggled(o, q);
    lemma_toggled_walkable(o, q);
    lemma_open_cut(t, 0);
    let c = open_cut_from(t, 0);
    let kept = open_kept(t);
    assert(kept == t.skip(c));
    assert forall|i: int| 0 <= i < kept.len() implies exists|raw: Seq<char>| open_path_spec(raw) == Some(#[trigger] kept[i]) by {
        assert(kept[i] == t[c + i]);
        assert(t.contains(t[c + i]));
    }
    lemma_value_reads_back(kept);
    assert(open_set_of(seq!["ts_open="@ + open_cookie_from(t, 0)]) == kept);
    lemma_kept_toggled(o, q, c);
    assert(toggled(kept, q) == kept);
    assert(kept.skip(0) =~= kept);
    assert(open_cookie_from(kept, 0) == cookie_value(kept));
}

/// A trip leaves what the first trip's value kept as it was, where the
/// directory it opens was kept.
proof fn lemma_kept_toggled(o: Seq<Seq<char>>, q: Seq<(Seq<char>, Seq<char>)>, c: int)
    requires
        o.len() <= OPEN_MAX,
        0 <= c <= toggled(o, q).len(),
        open_asked(q) matches Some(p) ==> toggled(o, q).skip(c).contains(p),
    ensures
        toggled(toggled(o, q).skip(c), q) == toggled(o, q).skip(c),
{
    let s = shut_in(o, q);
    let t = toggled(o, q);
    let kept = t.skip(c);
    law_tree_trip(o, q);
    assert forall|z: Seq<char>| #[trigger] kept.contains(z) implies t.contains(z) by {
        let k = kept.index_of(z);
        assert(0 <= k < kept.len());
        assert(kept[k] == t[c + k]);
    }
    match shut_asked(q) {
        Some(p) => {
            lemma_without(o, p);
            assert(!s.contains(p));
            if open_asked(q) == Some(p) {
                let base = if s.len() >= OPEN_MAX {
                    s.skip(1)
                } else {
                    s
                };
                assert(!base.contains(p)) by {
                    if base.contains(p) {
                        let k = base.index_of(p);
                        if s.len() >= OPEN_MAX {
                            assert(s[k + 1] == p);
                        }
                        assert(s.contains(p));
                    }
                }
                assert(t == base.push(p));
                let rest = base.skip(c);
                assert(kept =~= rest.push(p));
                assert(!rest.contains(p)) by {
                    if rest.contains(p) {
                        let k = rest.index_of(p);
                        assert(base[c + k] == p);
                        assert(base.contains(p));
                    }
                }
                assert(kept.drop_last() =~= rest);
                lemma_without_absent(rest, p);
                assert(without(kept, p) == rest);
                assert(shut_in(kept, q) == rest);
                assert(base.len() < OPEN_MAX);
                assert(rest.len() < OPEN_MAX);
                assert(opened_in(rest, q) == rest.push(p));
            } else {
                lemma_opened_in_from(s, q);
                assert(!t.contains(p));
                assert(!kept.contains(p));
                lemma_without_absent(kept, p);
                assert(shut_in(kept, q) == kept);
                match open_asked(q) {
                    Some(p2) => {
                        assert(kept.contains(p2));
                    },
                    None => {},
                }
                assert(opened_in(kept, q) == kept);
            }
        },
        None => {
            assert(shut_in(kept, q) == kept);
            match open_asked(q) {
                Some(p2) => {
                    assert(kept.contains(p2));
                },
                None => {},
            }
            assert(opened_in(kept, q) == kept);
        },
    }
}

fn remove_all(open: Vec<String>, p: &str) -> (r: Vec<String>)
    ensures
        r@.map_values(|s: String| s@) == without(open@.map_values(|s: String| s@), p@),
{
    let ghost items = open@.map_values(|s: String| s@);
    let mut out: Vec<String> = Vec::new();
    let mut i: usize = 0;
    while i < open.len()
        invariant
            i <= open@.len(),
            items == open@.map_values(|s: String| s@),
            out@.map_values(|s: String| s@) == without(items.take(i as int), p@),
        decreases open@.len() - i,
    {
        assert(items.take(i + 1).drop_last() =~= items.take(i as int));
        assert(items[i as int] == open@[i as int]@);
        if !str_eq(open[i].as_str(), p) {
            out.push(open[i].clone());
            assert(out@.map_values(|s: String| s@) =~= without(items.take(i as int), p@).push(
                open@[i as int]@,
            ));
        }
        i = i + 1;
    }
    assert(items.take(open@.len() as int) =~= items);
    out
}

fn contains_string(v: &Vec<String>, p: &str) -> (r: bool)
    ensures
        r == v@.map_values(|s: String| s@).contains(p@),
{
    let mut i: usize = 0;
    while i < v.len()
        invariant
            i <= v@.len(),
            forall|j: int| 0 <= j < i ==> v@[j]@ != p@,
        decreases v@.len() - i,
    {
        if str_eq(v[i].as_str(), p) {
            assert(v@.map_values(|s: String| s@)[i as int] == p@);
            return true;
        }
        i = i + 1;
    }
    proof {
        if v@.map_values(|s: String| s@).contains(p@) {
            let vs = v@.map_values(|s: String| s@);
            let j = choose|j: int| 0 <= j < vs.len() && #[trigger] vs[j] == p@;
            assert(v@[j]@ == p@);
        }
    }
    false
}

/// `/.ts/tree?open=src/bin&back=/src/` — and `shut=` for the same trip the
/// other way. Read the set, change one entry, write it back: the direction is
/// in the link because a plain toggle is wrong the second time it is followed,
/// which is exactly what a double click and a reload both do.
pub fn toggle_open(req: &Req, query: &[(String, String)]) -> (r: Reply)
    ensures
        r.status == 303,
        r.body is Empty,
        view_pairs(r.headers@) == seq![
            (
                "Set-Cookie"@,
                cookie_line(
                    "ts_open"@,
                    open_cookie_from(
                        toggled(
                            open_set_of(named_values(view_pairs(req.headers@), "Cookie"@)),
                            view_pairs(query@),
                        ),
                        0,
                    ),
                ),
            ),
            ("Location"@, back_spec(view_pairs(query@))),
        ],
{
    let mut open = open_from(req);
    match query_get(query, "shut") {
        Some(x) => match open_path(x) {
            Some(p) => {
                open = remove_all(open, p.as_str());
            },
            None => {},
        },
        None => {},
    }
    let ghost mid = open@.map_values(|s: String| s@);
    match query_get(query, "open") {
        Some(x) => match open_path(x) {
            Some(p) => {
                if !contains_string(&open, p.as_str()) {
                    if open.len() >= OPEN_MAX {
                        open.remove(0);
                        assert(open@.map_values(|s: String| s@) =~= mid.skip(1));
                    }
                    let ghost before = open@.map_values(|s: String| s@);
                    open.push(p);
                    assert(open@.map_values(|s: String| s@) =~= before.push(p@));
                }
            },
            None => {},
        },
        None => {},
    }
    let value = open_cookie(open.as_slice());
    let mut reply = Reply::empty(303);
    reply.headers.push(cookie_header("ts_open", value.as_str()));
    let back = back_target(query);
    let r = reply.with("Location", back.as_str());
    assert(view_pairs(r.headers@) =~= seq![
        ("Set-Cookie"@, cookie_line("ts_open"@, value@)),
        ("Location"@, back@),
    ]);
    r
}

/// Whether `/.ts/set` stores `k=v`: a theme it knows, or `0`/`1` for the line
/// numbers and the pane.
pub open spec fn pref_ok(k: Seq<char>, v: Seq<char>) -> bool {
    ||| k == "theme"@ && theme_named(v) is Some
    ||| (k == "ln"@ || k == "sidebar"@) && (v == "0"@ || v == "1"@)
}

/// The cookies a `/.ts/set` query stores, in the order it asked.
pub open spec fn pref_cookies(q: Seq<(Seq<char>, Seq<char>)>) -> Seq<(Seq<char>, Seq<char>)>
    decreases q.len(),
{
    if q.len() == 0 {
        Seq::empty()
    } else {
        let rest = pref_cookies(q.drop_last());
        let (k, v) = q.last();
        if pref_ok(k, v) {
            rest.push(("Set-Cookie"@, cookie_line("ts_"@ + k, v)))
        } else {
            rest
        }
    }
}

/// `/.ts/set` stores each preference it is handed a value it knows for — a
/// theme word it knows, `0` or `1` for the line numbers and for the pane —
/// as `ts_` and the key holding that value, after what it stored for the
/// pairs before; a key that is none of the three stores nothing.
pub proof fn law_valid_prefs_are_stored(q: Seq<(Seq<char>, Seq<char>)>, k: Seq<char>, v: Seq<char>)
    ensures
        ((k == "theme"@ && crate::page::theme_named(v) is Some) || ((k == "ln"@ || k == "sidebar"@) && (v == "0"@
            || v == "1"@))) ==> pref_cookies(q.push((k, v))) == pref_cookies(q).push(
            ("Set-Cookie"@, cookie_line("ts_"@ + k, v)),
        ),
        (k != "theme"@ && k != "ln"@ && k != "sidebar"@) ==> pref_cookies(q.push((k, v))) == pref_cookies(q),
{
    assert(q.push((k, v)).drop_last() =~= q);
    assert(q.push((k, v)).last() == (k, v));
}

fn is_bit(v: &str) -> (r: bool)
    ensures
        r == (v@ == "0"@ || v@ == "1"@),
{
    str_eq(v, "0") || str_eq(v, "1")
}

/// `/.ts/set?theme=dark&ln=1&sidebar=0&back=/some/where` — store prefs in
/// cookies and bounce back. Option switching with no script.
pub fn set_prefs(query: &[(String, String)]) -> (r: Reply)
    ensures
        r.status == 303,
        r.body is Empty,
        view_pairs(r.headers@) == pref_cookies(view_pairs(query@)).push(
            ("Location"@, back_spec(view_pairs(query@))),
        ),
{
    let ghost q = view_pairs(query@);
    let mut reply = Reply::empty(303);
    let mut i: usize = 0;
    assert(q.take(0) =~= Seq::<(Seq<char>, Seq<char>)>::empty());
    while i < query.len()
        invariant
            i <= query@.len(),
            q == view_pairs(query@),
            reply.status == 303,
            reply.body is Empty,
            view_pairs(reply.headers@) == pref_cookies(q.take(i as int)),
        decreases query@.len() - i,
    {
        let (k, v) = &query[i];
        assert(q.take(i + 1).drop_last() =~= q.take(i as int));
        assert(q.take(i + 1).last() == (k@, v@));
        let ok = (str_eq(k.as_str(), "theme") && ThemeMode::from_str(v.as_str()).is_some()) || ((
        str_eq(k.as_str(), "ln") || str_eq(k.as_str(), "sidebar")) && is_bit(v.as_str()));
        if ok {
            let mut name = String::new();
            push_str(&mut name, "ts_");
            push_str(&mut name, k.as_str());
            let ghost before = view_pairs(reply.headers@);
            reply.headers.push(cookie_header(name.as_str(), v.as_str()));
            assert(view_pairs(reply.headers@) =~= before.push(
                ("Set-Cookie"@, cookie_line("ts_"@ + k@, v@)),
            ));
        }
        i = i + 1;
    }
    assert(q.take(query@.len() as int) =~= q);
    let back = back_target(query);
    reply.with("Location", back.as_str())
}

/// A decimal number that fits in a `u64`, as `str::parse::<u64>` reads it.
pub open spec fn u64_of(s: Seq<char>) -> Option<u64> {
    match parse_uint(s) {
        Some(n) => if n <= u64::MAX {
            Some(n as u64)
        } else {
            None
        },
        None => None,
    }
}

/// What a `Range` header asks of a file of `size` bytes: `bytes=a-b`,
/// `bytes=a-` or `bytes=-n`. Several ranges at once are not answered (the
/// whole file is served instead, which HTTP allows), and nothing is asked of
/// an empty file.
pub open spec fn range_spec(value: Seq<char>, size: u64) -> Option<(u64, u64)> {
    if !(value.len() >= 6 && value.take(6) == "bytes="@) {
        None
    } else {
        let spec = trim(value.skip(6));
        if spec.contains(',') || size == 0 {
            None
        } else {
            match split_once(spec, '-') {
                None => None,
                Some((a, b)) => {
                    let end = (size - 1) as u64;
                    if a.len() > 0 && b.len() == 0 {
                        match u64_of(a) {
                            Some(s) => Some((s, end)),
                            None => None,
                        }
                    } else if a.len() > 0 && b.len() > 0 {
                        match (u64_of(a), u64_of(b)) {
                            (Some(s), Some(e)) => Some((s, if e < end { e } else { end })),
                            _ => None,
                        }
                    } else if a.len() == 0 && b.len() > 0 {
                        match u64_of(b) {
                            Some(n) => Some((if n >= size { 0u64 } else { (size - n) as u64 }, end)),
                            None => None,
                        }
                    } else {
                        None
                    }
                },
            }
        }
    }
}

pub fn parse_range(value: &str, size: u64) -> (r: Option<(u64, u64)>)
    ensures
        r == range_spec(value@, size),
{
    let v = chars_of(value);
    let prefix = chars_of("bytes=");
    if v.len() < 6 || !crate::util::starts_at(v.as_slice(), 0, prefix.as_slice()) {
        proof {
            reveal_strlit("bytes=");
            if v@.len() >= 6 {
                assert(v@.subrange(0, 6) == v@.take(6));
            }
        }
        return None;
    }
    proof {
        reveal_strlit("bytes=");
        assert(v@.subrange(0, 6) == v@.take(6));
    }
    let spec = trimmed(slice_vec(v.as_slice(), 6, v.len()).as_slice());
    if crate::util::has_char(spec.as_slice(), ',') {
        return None;
    }
    if size == 0 {
        return None;
    }
    let (a, b) = match split_once_chars(spec.as_slice(), '-') {
        Some(p) => p,
        None => {
            return None;
        },
    };
    let end = size - 1;
    if a.len() > 0 && b.len() == 0 {
        match parse_u64(a.as_slice()) {
            Some(s) => Some((s, end)),
            None => None,
        }
    } else if a.len() > 0 && b.len() > 0 {
        match (parse_u64(a.as_slice()), parse_u64(b.as_slice())) {
            (Some(s), Some(e)) => Some((s, if e < end { e } else { end })),
            _ => None,
        }
    } else if a.len() == 0 && b.len() > 0 {
        match parse_u64(b.as_slice()) {
            Some(n) => Some((size.saturating_sub(n), end)),
            None => None,
        }
    } else {
        None
    }
}


/// The tag a file goes out with: its modification time and its length, hex,
/// quoted. Modification time and length rather than a hash of the contents:
/// reading the whole file to decide whether to send the whole file costs what
/// sending it costs. The nanoseconds are in there because two writes inside
/// one second would otherwise share a tag.
pub open spec fn etag_spec(meta: Meta) -> Option<Seq<char>> {
    match meta.mtime {
        Some(t) => Some(
            seq!['"'] + hex(t.secs as nat) + seq!['-'] + hex(t.nanos as nat) + seq!['-'] + hex(
                meta.len as nat,
            ) + seq!['"'],
        ),
        None => None,
    }
}

pub fn etag_for(meta: &Meta) -> (r: Option<String>)
    ensures
        match etag_spec(*meta) {
            Some(t) => r matches Some(s) && s@ == t,
            None => r is None,
        },
{
    match meta.mtime {
        Some(t) => {
            let mut s = String::new();
            push_char(&mut s, '"');
            push_hex(&mut s, t.secs);
            push_char(&mut s, '-');
            push_hex(&mut s, t.nanos as u64);
            push_char(&mut s, '-');
            push_hex(&mut s, meta.len);
            push_char(&mut s, '"');
            Some(s)
        },
        None => None,
    }
}

/// A tag with its weakness mark, `W/`, taken off.
pub open spec fn unweak(t: Seq<char>) -> Seq<char> {
    if t.len() >= 2 && t[0] == 'W' && t[1] == '/' {
        t.skip(2)
    } else {
        t
    }
}

/// Whether an `If-None-Match` header names `tag`. It may hold a list, each
/// entry may be marked weak, and `*` means "anything you have".
pub open spec fn etag_listed(given: Seq<char>, tag: Seq<char>) -> bool {
    let g = trim(given);
    ||| g == "*"@
    ||| exists|i: int|
        0 <= i < split(g, ',').len() && #[trigger] unweak(trim(split(g, ',')[i])) == tag
}

pub fn etag_matches(given: &str, tag: &str) -> (r: bool)
    ensures
        r == etag_listed(given@, tag@),
{
    let g = trimmed(chars_of(given).as_slice());
    let gs = string_of(g.as_slice());
    if str_eq(gs.as_str(), "*") {
        return true;
    }
    let pieces = split_chars(g.as_slice(), ',');
    let mut i: usize = 0;
    while i < pieces.len()
        invariant
            views(pieces@) == split(g@, ','),
            g@ == trim(given@),
            i <= pieces@.len(),
            forall|j: int| 0 <= j < i ==> #[trigger] unweak(trim(split(g@, ',')[j])) != tag@,
        decreases pieces@.len() - i,
    {
        assert(views(pieces@)[i as int] == pieces@[i as int]@);
        let t = trimmed(pieces[i].as_slice());
        let u = if t.len() >= 2 && t[0] == 'W' && t[1] == '/' {
            slice_vec(t.as_slice(), 2, t.len())
        } else {
            t
        };
        let us = string_of(u.as_slice());
        if str_eq(us.as_str(), tag) {
            assert(unweak(trim(split(g@, ',')[i as int])) == tag@);
            return true;
        }
        i = i + 1;
    }
    false
}

/// The hash of a text that `BuildHasher::hash_one` gives with the standard
/// library's `DefaultHasher`.
pub uninterp spec fn text_hash(s: Seq<char>) -> u64;

/// A hash of a stylesheet's text: `BuildHasher::hash_one` with
/// `BuildHasherDefault<DefaultHasher>`. That hasher starts from fixed keys
/// (it is not seeded per process), so the hash is a function of the text,
/// named `text_hash`; which number it is, the standard library leaves open
/// and may change between releases.
#[verifier::external_body]
fn str_hash(body: &str) -> (r: u64)
    ensures
        r == text_hash(body@),
{
    std::hash::BuildHasherDefault::<std::collections::hash_map::DefaultHasher>::default().hash_one(body)
}

/// A tag for a stylesheet held in memory: what it says, not when it was
/// written — a hash of the text, hex, quoted.
pub fn text_etag(body: &str) -> (r: String)
    ensures
        r@ == quoted_hex(text_hash(body@)),
{
    let h = str_hash(body);
    let mut s = String::new();
    push_char(&mut s, '"');
    push_hex(&mut s, h);
    push_char(&mut s, '"');
    assert(s@ =~= quoted_hex(text_hash(body@)));
    s
}

/// A stylesheet's reply, given the request's headers, the text and the tag
/// it goes by: `304`, empty, where the first `If-None-Match` lists the tag;
/// else `200` with the text. Both carry the tag and `no-cache`.
pub open spec fn css_answer(hs: Seq<(Seq<char>, Seq<char>)>, body: Seq<char>, tag: Seq<char>, r: Reply) -> bool {
    let inm = named_values(hs, "If-None-Match"@);
    if inm.len() > 0 && etag_listed(inm[0], tag) {
        &&& r.status == 304
        &&& r.body is Empty
        &&& view_pairs(r.headers@) == seq![("ETag"@, tag), ("Cache-Control"@, "no-cache"@)]
    } else {
        &&& r.status == 200
        &&& r.body matches Body::Text(t) && t@ == body
        &&& view_pairs(r.headers@) == seq![
            ("Content-Type"@, "text/css; charset=utf-8"@),
            ("Cache-Control"@, "no-cache"@),
            ("ETag"@, tag),
        ]
    }
}

/// The tag a stylesheet held in memory goes by, from a hash of its text.
pub open spec fn quoted_hex(h: u64) -> Seq<char> {
    seq!['"'] + hex(h as nat) + seq!['"']
}

/// The reply to a stylesheet request, given the tag the stylesheet goes by:
/// `304` where the browser already holds that version, the text otherwise.
/// `no-cache` is "ask first", not "keep nothing": the copy stays where it is,
/// and a load spends one small conditional request finding out whether it is
/// still the right one.
pub fn css_reply_tagged(req: &Req, body: &str, tag: &str) -> (r: Reply)
    ensures
        css_answer(view_pairs(req.headers@), body@, tag@, r),
{
    let hit = match req.header("If-None-Match") {
        Some(given) => etag_matches(given, tag),
        None => false,
    };
    if hit {
        let r = Reply::empty(304).with("ETag", tag).with("Cache-Control", "no-cache");
        assert(view_pairs(r.headers@) =~= seq![("ETag"@, tag@), ("Cache-Control"@, "no-cache"@)]);
        return r;
    }
    let r = Reply::text(200, "text/css; charset=utf-8", body.to_owned()).with(
        "Cache-Control",
        "no-cache",
    ).with("ETag", tag);
    assert(view_pairs(r.headers@) =~= seq![
        ("Content-Type"@, "text/css; charset=utf-8"@),
        ("Cache-Control"@, "no-cache"@),
        ("ETag"@, tag@),
    ]);
    r
}

/// A stylesheet, tagged with which stylesheet it is.
pub fn css_reply(req: &Req, body: &str) -> (r: Reply)
    ensures
        css_answer(view_pairs(req.headers@), body@, quoted_hex(text_hash(body@)), r),
        named_values(view_pairs(req.headers@), "If-None-Match"@).len() == 0 ==> r.status == 200 && (r.body matches Body::Text(
            t,
        ) && t@ == body@),
{
    let tag = text_etag(body);
    css_reply_tagged(req, body, tag.as_str())
}


// ---------------------------------------------------------------------------
// The served root and its configuration

/// A root the reader pinned: the RootId, and a name for it when the id is not
/// one. Where Recent collects what was opened, this list is only ever added
/// to on purpose.
#[derive(Clone, Debug)]
pub struct Pin {
    pub id: String,
    /// What to call it. `None` draws the id as a path, the way a Recent row is
    /// drawn; a root whose id is not readable — a scheme, a hash, a grant —
    /// carries the name it was pinned under instead.
    pub label: Option<String>,
}

/// The served root: a RootId naming it, and the backend that answers for it.
///
/// A local root's id is the bare display-form host path, and a remote
/// backend's id carries a scheme prefix (`ssh:<bookmark>:/path`). A
/// single-letter prefix is a Windows drive letter, not a scheme.
pub struct Root<V> {
    pub id: String,
    pub vfs: V,
}

/// One extra section in the side pane, rendered between Places and Recent.
/// Everything in it is inert markup: links a shell intercepts. A section with
/// no entries renders nothing.
#[derive(Clone, Debug)]
pub struct PaneSection {
    /// CSS hook on the `<section>`, alongside the built-in `places` and
    /// `recent`.
    pub class: String,
    pub heading: String,
    /// Controls on the heading bar: where each goes, the mark it draws, and
    /// what it says. The marks are the embedder's because the actions are.
    pub heading_acts: Vec<(String, String, String)>,
    pub entries: Vec<PaneEntry>,
}

/// One row of a [`PaneSection`].
#[derive(Clone, Debug)]
pub struct PaneEntry {
    /// What to call it. `None` draws the id as a path, the way Recent does.
    pub label: Option<String>,
    /// The RootId this row names.
    pub id: String,
    /// Where the row goes: `{action}?path={id}` percent-encoded.
    pub action: String,
    /// Smaller links on the row, shown on hover: (href, svg icon paths, title).
    pub aside: Vec<(String, String, String)>,
}

/// What each looked-at shortcut turned out to be: ids strictly sorted, with
/// the status of each.
pub struct StatusBook {
    ids: Vec<String>,
    vals: Vec<RootStatus>,
}

impl View for StatusBook {
    type V = Map<Seq<char>, RootStatus>;

    closed spec fn view(&self) -> Map<Seq<char>, RootStatus> {
        table(names_of(self.ids@), self.vals@)
    }
}

impl StatusBook {
    #[verifier::type_invariant]
    closed spec fn wf(self) -> bool {
        &&& self.ids@.len() == self.vals@.len()
        &&& strictly_sorted(names_of(self.ids@))
    }

    pub fn new() -> (r: StatusBook)
        ensures
            r@ == Map::<Seq<char>, RootStatus>::empty(),
    {
        let r = StatusBook { ids: Vec::new(), vals: Vec::new() };
        assert(r@ =~= Map::<Seq<char>, RootStatus>::empty());
        r
    }

    /// What a shortcut turned out to be. `Unknown` for anything nobody has
    /// looked at.
    pub fn get(&self, id: &str) -> (r: RootStatus)
        ensures
            r == (if self@.contains_key(id@) {
                self@[id@]
            } else {
                RootStatus::Unknown
            }),
    {
        proof {
            use_type_invariant(self);
        }
        let k = chars_of(id);
        let (p, found) = crate::util::find_slot(&self.ids, k.as_slice());
        proof {
            let names = names_of(self.ids@);
            if found {
                lemma_table_at(names, self.vals@, p as int);
            } else if names.contains(id@) {
                let j = names.index_of(id@);
                crate::util::lemma_lex_irreflexive(id@);
                assert(names[j] == self.ids@[j]@);
                assert(false);
            }
        }
        if found {
            self.vals[p]
        } else {
            RootStatus::Unknown
        }
    }

    /// Records what a shortcut turned out to be.
    pub fn set(&mut self, id: &str, status: RootStatus)
        ensures
            final(self)@ == old(self)@.insert(id@, status),
    {
        proof {
            use_type_invariant(&*self);
        }
        let k = chars_of(id);
        let mut ids = crate::vfs::clone_strings(&self.ids);
        let mut vals: Vec<RootStatus> = Vec::new();
        let mut i: usize = 0;
        while i < self.vals.len()
            invariant
                i <= self.vals@.len(),
                vals@ == self.vals@.take(i as int),
            decreases self.vals@.len() - i,
        {
            vals.push(self.vals[i]);
            assert(self.vals@.take(i + 1) == self.vals@.take(i as int).push(self.vals@[i as int]));
            i = i + 1;
        }
        assert(self.vals@.take(self.vals@.len() as int) == self.vals@);
        file_into(&mut ids, &mut vals, k.as_slice(), status);
        *self = StatusBook { ids, vals };
    }
}

/// What the server is configured with. Mutated through `&mut self`; an
/// embedder that re-roots a running server holds it behind a lock of its own.
pub struct Config<V> {
    /// The served root: its identity and the backend that answers for it.
    pub root: Option<Root<V>>,
    /// Site title. `None` means "name of the served directory", which follows
    /// the root when it changes.
    pub title: Option<String>,
    pub theme: ThemeMode,
    pub ln: bool,
    pub sidebar: bool,
    pub show_hidden: bool,
    /// The syntax colour themes, by name, for light and dark.
    pub syn_light: String,
    pub syn_dark: String,
    /// Renders the controls that only make sense inside the desktop shell.
    /// They are links the shell intercepts; this server has no route that
    /// would act on them.
    pub app_ui: bool,
    /// Whether this platform can be asked for a folder.
    pub picker: bool,
    /// Whether RootIds are Windows paths, where `\` separates components
    /// as `/` does.
    pub windows_like: bool,
    /// What the product is called, for the one page that has no folder to be
    /// named after.
    pub app_name: Option<String>,
    /// The version to print beside [`Config::app_name`].
    pub app_version: Option<String>,
    /// What the start page says this program is. Plain text, escaped by the
    /// page.
    pub intro: Option<String>,
    /// Fixed shortcuts for the Places list — (label, RootId) pairs.
    pub places: Vec<(String, String)>,
    /// Recently served roots as RootIds, newest first.
    pub recent: Vec<String>,
    /// Roots the reader pinned, in the order they were pinned.
    pub pinned: Vec<Pin>,
    /// What to call the current root in a title.
    pub root_name: Option<String>,
    /// Extra pane sections from whoever embedded this server.
    pub sections: Vec<PaneSection>,
    /// What the Places and Recent paths turned out to be.
    pub status: StatusBook,
}

/// The product's own name, for a title with no folder and no embedder name.
pub open spec fn pkg_name() -> Seq<char> {
    "treeserve"@
}

/// The product's own version.
pub open spec fn pkg_version() -> Seq<char> {
    "0.1.0"@
}

/// What an optional string says, or `d`.
pub open spec fn or_default(o: Option<String>, d: Seq<char>) -> Seq<char> {
    match o {
        Some(s) => s@,
        None => d,
    }
}

impl<V> Config<V> {
    /// A server with nothing open yet, with the library's defaults.
    pub fn rootless() -> (r: Config<V>)
        ensures
            r.root is None,
            r.title is None,
            r.theme == ThemeMode::Auto,
            r.ln,
            r.sidebar,
            !r.show_hidden,
            r.syn_light@ == "InspiredGitHub"@,
            r.syn_dark@ == "base16-ocean.dark"@,
            !r.app_ui,
            !r.picker,
            !r.windows_like,
            r.app_name is None,
            r.app_version is None,
            r.intro is None,
            r.places@.len() == 0,
            r.recent@.len() == 0,
            r.pinned@.len() == 0,
            r.root_name is None,
            r.sections@.len() == 0,
            r.status@ == Map::<Seq<char>, RootStatus>::empty(),
    {
        Config {
            root: None,
            title: None,
            theme: ThemeMode::Auto,
            ln: true,
            sidebar: true,
            show_hidden: false,
            syn_light: "InspiredGitHub".to_owned(),
            syn_dark: "base16-ocean.dark".to_owned(),
            app_ui: false,
            picker: false,
            windows_like: false,
            app_name: None,
            app_version: None,
            intro: None,
            places: Vec::new(),
            recent: Vec::new(),
            pinned: Vec::new(),
            root_name: None,
            sections: Vec::new(),
            status: StatusBook::new(),
        }
    }

    /// The root being served, if one is. `None` is a state, not a failure: it
    /// is what a window looks like before anybody has chosen a folder.
    pub fn root(&self) -> (r: Option<&Root<V>>)
        ensures
            match r {
                Some(x) => self.root matches Some(y) && *x == y,
                None => self.root is None,
            },
    {
        match &self.root {
            Some(r) => Some(r),
            None => None,
        }
    }

    /// Re-roots onto any backend. Id and backend travel together. The root's
    /// name goes with the root it named.
    pub fn set_root_vfs(&mut self, root: Root<V>)
        ensures
            final(self).root == Some(root),
            final(self).root_name is None,
            final(self).title == old(self).title,
            final(self).recent == old(self).recent,
            final(self).pinned == old(self).pinned,
            final(self).sections == old(self).sections,
            final(self).places == old(self).places,
            final(self).status@ == old(self).status@,
    {
        self.root_name = None;
        self.root = Some(root);
    }

    /// Back to nothing open — the state the shell starts in. The root's name
    /// goes with the root.
    pub fn close_root(&mut self)
        ensures
            final(self).root is None,
            final(self).root_name is None,
            final(self).title == old(self).title,
            final(self).recent == old(self).recent,
            final(self).pinned == old(self).pinned,
            final(self).sections == old(self).sections,
            final(self).places == old(self).places,
            final(self).status@ == old(self).status@,
    {
        self.root_name = None;
        self.root = None;
    }

    pub fn recent(&self) -> (r: &Vec<String>)
        ensures
            r == &self.recent,
    {
        &self.recent
    }

    /// Replaces the Recent list, newest first.
    pub fn set_recent(&mut self, recent: Vec<String>)
        ensures
            final(self).recent == recent,
            final(self).root == old(self).root,
            final(self).pinned == old(self).pinned,
            final(self).status@ == old(self).status@,
    {
        self.recent = recent;
    }

    pub fn pinned(&self) -> (r: &Vec<Pin>)
        ensures
            r == &self.pinned,
    {
        &self.pinned
    }

    /// Replaces the pinned list.
    pub fn set_pinned(&mut self, pinned: Vec<Pin>)
        ensures
            final(self).pinned == pinned,
            final(self).root == old(self).root,
            final(self).recent == old(self).recent,
            final(self).status@ == old(self).status@,
    {
        self.pinned = pinned;
    }

    /// Whether `id` is pinned — what the header's own control reads to know
    /// which way round it is.
    pub fn is_pinned(&self, id: &str) -> (r: bool)
        ensures
            r == exists|i: int| 0 <= i < self.pinned@.len() && #[trigger] self.pinned@[i].id@ == id@,
    {
        let mut i: usize = 0;
        while i < self.pinned.len()
            invariant
                i <= self.pinned@.len(),
                forall|j: int| 0 <= j < i ==> #[trigger] self.pinned@[j].id@ != id@,
            decreases self.pinned@.len() - i,
        {
            if str_eq(self.pinned[i].id.as_str(), id) {
                return true;
            }
            i = i + 1;
        }
        false
    }

    pub fn sections(&self) -> (r: &Vec<PaneSection>)
        ensures
            r == &self.sections,
    {
        &self.sections
    }

    /// Replaces the extra pane sections.
    pub fn set_sections(&mut self, sections: Vec<PaneSection>)
        ensures
            final(self).sections == sections,
            final(self).root == old(self).root,
            final(self).status@ == old(self).status@,
    {
        self.sections = sections;
    }

    /// What a shortcut turned out to be. `Unknown` for anything nobody has
    /// looked at, which a page renders as an ordinary entry.
    pub fn root_status(&self, id: &str) -> (r: RootStatus)
        ensures
            r == (if self.status@.contains_key(id@) {
                self.status@[id@]
            } else {
                RootStatus::Unknown
            }),
    {
        self.status.get(id)
    }

    /// Records what a shortcut turned out to be. Every page rendered after
    /// this shows it.
    pub fn set_root_status(&mut self, id: String, status: RootStatus)
        ensures
            final(self).status@ == old(self).status@.insert(id@, status),
            final(self).root == old(self).root,
            final(self).recent == old(self).recent,
            final(self).pinned == old(self).pinned,
    {
        self.status.set(id.as_str(), status);
    }

    /// Records what each of a run of shortcuts turned out to be, in order:
    /// what a shell learns when it probes its Recent and pinned lists.
    pub fn set_root_statuses(&mut self, writes: Vec<(String, RootStatus)>)
        ensures
            final(self).status@ == statuses_after(
                old(self).status@,
                writes@.map_values(|w: (String, RootStatus)| (w.0@, w.1)),
            ),
            final(self).root == old(self).root,
            final(self).recent == old(self).recent,
            final(self).pinned == old(self).pinned,
    {
        let ghost ws = writes@.map_values(|w: (String, RootStatus)| (w.0@, w.1));
        let ghost start = self.status@;
        let ghost root0 = self.root;
        let ghost recent0 = self.recent;
        let ghost pinned0 = self.pinned;
        let mut i: usize = 0;
        assert(ws.take(0) =~= Seq::<(Seq<char>, RootStatus)>::empty());
        while i < writes.len()
            invariant
                i <= writes@.len(),
                ws == writes@.map_values(|w: (String, RootStatus)| (w.0@, w.1)),
                self.status@ == statuses_after(start, ws.take(i as int)),
                self.root == root0,
                self.recent == recent0,
                self.pinned == pinned0,
            decreases writes@.len() - i,
        {
            let id = writes[i].0.clone();
            self.set_root_status(id, writes[i].1);
            assert(ws.take(i + 1).drop_last() =~= ws.take(i as int));
            assert(ws[i as int] == (writes@[i as int].0@, writes@[i as int].1));
            i = i + 1;
        }
        assert(ws.take(writes@.len() as int) =~= ws);
    }

    /// `name vX.Y.Z` for the status line, from whatever this program is
    /// rather than from this crate.
    pub fn app_label(&self) -> (r: String)
        ensures
            r@ == or_default(self.app_name, pkg_name()) + seq![' ', 'v'] + or_default(
                self.app_version,
                pkg_version(),
            ),
    {
        let mut out = String::new();
        match &self.app_name {
            Some(n) => push_str(&mut out, n.as_str()),
            None => push_str(&mut out, "treeserve"),
        }
        push_char(&mut out, ' ');
        push_char(&mut out, 'v');
        match &self.app_version {
            Some(v) => push_str(&mut out, v.as_str()),
            None => push_str(&mut out, "0.1.0"),
        }
        out
    }

    /// The site title for a root the caller already holds — so one request
    /// renders one root everywhere.
    pub fn title_for(&self, root: &Root<V>) -> (r: String)
        ensures
            r@ == title_for_spec(self.title, root.id@, self.windows_like),
    {
        match &self.title {
            Some(t) => t.clone(),
            None => match leaf_of(root.id.as_str(), self.windows_like) {
                Some(n) => n.to_owned(),
                None => root.id.clone(),
            },
        }
    }

    /// The site title as of now. Rootless, that is the product's own name.
    pub fn title(&self) -> (r: String)
        ensures
            r@ == match self.root {
                Some(root) => title_for_spec(self.title, root.id@, self.windows_like),
                None => match self.title {
                    Some(t) => t@,
                    None => or_default(self.app_name, pkg_name()),
                },
            },
    {
        match &self.root {
            Some(root) => self.title_for(root),
            None => match &self.title {
                Some(t) => t.clone(),
                None => match &self.app_name {
                    Some(n) => n.clone(),
                    None => "treeserve".to_owned(),
                },
            },
        }
    }

    pub fn set_title(&mut self, title: Option<String>)
        ensures
            final(self).title == title,
            final(self).root == old(self).root,
            final(self).root_name == old(self).root_name,
            final(self).status@ == old(self).status@,
    {
        self.title = title;
    }

    /// What to *call* the root, where a name is wanted rather than a path.
    pub fn root_name(&self) -> (r: Option<String>)
        ensures
            r == self.root_name,
    {
        match &self.root_name {
            Some(n) => Some(n.clone()),
            None => None,
        }
    }

    pub fn set_root_name(&mut self, name: Option<String>)
        ensures
            final(self).root_name == name,
            final(self).root == old(self).root,
            final(self).title == old(self).title,
            final(self).status@ == old(self).status@,
    {
        self.root_name = name;
    }
}

/// A title for a root: the configured one, else the id's last component, else
/// the whole id (a drive, a share or `/` has no last component to show).
pub open spec fn title_for_spec(title: Option<String>, id: Seq<char>, windows_like: bool) -> Seq<char> {
    match title {
        Some(t) => t@,
        None => match leaf(id, windows_like) {
            Some(n) => n,
            None => id,
        },
    }
}



/// Everything a request is answered from: the configuration and the two
/// stylesheets every page links. (Code is coloured by classes, whose colours
/// the stylesheets carry, so no highlighter is kept here.)
pub struct State<V> {
    pub cfg: Config<V>,
    pub app_css: String,
    pub math_css: String,
}


// ---------------------------------------------------------------------------
// Where a URL path points

/// The non-empty pieces of a sequence of pieces, in order.
pub open spec fn nonempty(pieces: Seq<Seq<char>>) -> Seq<Seq<char>>
    decreases pieces.len(),
{
    if pieces.len() == 0 {
        Seq::empty()
    } else if pieces.last().len() == 0 {
        nonempty(pieces.drop_last())
    } else {
        nonempty(pieces.drop_last()).push(pieces.last())
    }
}

/// The segments a URL path names: percent-decoded, split at `/`, empty ones
/// dropped — or nothing, where the path holds a NUL or a `.` or `..`
/// segment, which is a path that traverses.
pub open spec fn url_segments_spec(url: Seq<char>) -> Option<Seq<Seq<char>>> {
    let d = pct_decode_text(url);
    let rel = nonempty(split(d, '/'));
    if d.contains('\0') || rel.contains("."@) || rel.contains(".."@) {
        None
    } else {
        Some(rel)
    }
}

/// Where a URL path points inside the served root.
pub struct Resolved {
    /// Percent-decoded path segments, for breadcrumbs and file names.
    pub rel: Vec<String>,
    /// Canonical path inside the root's backend: symlinks resolved,
    /// confinement checked.
    pub path: VfsPath,
}

/// Why a URL path does not name something servable. The segments are
/// carried along where they are safe to echo back in a page.
pub enum PathError {
    /// Malformed or traversing path; nothing safe to show.
    Bad,
    Missing(Vec<String>),
    Outside(Vec<String>),
}

/// The segments of a URL path, or `None` for one that is malformed or
/// traverses.
pub fn url_segments(url_path: &str) -> (r: Option<Vec<String>>)
    ensures
        match url_segments_spec(url_path@) {
            Some(rel) => r matches Some(v) && v@.map_values(|s: String| s@) == rel,
            None => r is None,
        },
{
    let decoded = percent_decode(url_path);
    let dv = chars_of(decoded.as_str());
    let pieces = split_chars(dv.as_slice(), '/');
    let mut rel: Vec<String> = Vec::new();
    let mut bad = crate::util::has_char(dv.as_slice(), '\0');
    let mut i: usize = 0;
    while i < pieces.len()
        invariant
            i <= pieces@.len(),
            views(pieces@) == split(dv@, '/'),
            rel@.map_values(|s: String| s@) == nonempty(views(pieces@).take(i as int)),
            bad == (dv@.contains('\0') || nonempty(views(pieces@).take(i as int)).contains("."@)
                || nonempty(views(pieces@).take(i as int)).contains(".."@)),
        decreases pieces@.len() - i,
    {
        let ghost before = rel@.map_values(|s: String| s@);
        assert(views(pieces@).take(i + 1).drop_last() =~= views(pieces@).take(i as int));
        assert(views(pieces@).take(i + 1).last() == pieces@[i as int]@);
        if pieces[i].len() > 0 {
            let seg = string_of(pieces[i].as_slice());
            let dot = is_dot_seg(pieces[i].as_slice());
            bad = bad || dot;
            rel.push(seg);
            proof {
                let now = rel@.map_values(|s: String| s@);
                assert(now =~= before.push(pieces@[i as int]@));
                if now.contains("."@) && !before.contains("."@) {
                    let j = choose|j: int| 0 <= j < now.len() && now[j] == "."@;
                    assert(j == now.len() - 1);
                }
                if now.contains(".."@) && !before.contains(".."@) {
                    let j = choose|j: int| 0 <= j < now.len() && now[j] == ".."@;
                    assert(j == now.len() - 1);
                }
                if before.contains("."@) {
                    let j = choose|j: int| 0 <= j < before.len() && before[j] == "."@;
                    assert(now[j] == "."@);
                }
                if before.contains(".."@) {
                    let j = choose|j: int| 0 <= j < before.len() && before[j] == ".."@;
                    assert(now[j] == ".."@);
                }
                if dot {
                    assert(now[now.len() - 1] == pieces@[i as int]@);
                }
            }
        }
        i = i + 1;
    }
    assert(views(pieces@).take(pieces@.len() as int) =~= views(pieces@));
    if bad {
        None
    } else {
        Some(rel)
    }
}

/// The answer to a path, given the segments it names and what the backend
/// said when asked to resolve them.
pub fn resolved_from(rel: Vec<String>, answer: Result<VfsPath, ResolveError>) -> (r: Result<Resolved, PathError>)
    ensures
        match answer {
            Ok(p) => r matches Ok(res) && res.rel == rel && res.path == p,
            Err(ResolveError::Missing) => r matches Err(PathError::Missing(x)) && x == rel,
            Err(ResolveError::Outside) => r matches Err(PathError::Outside(x)) && x == rel,
        },
{
    match answer {
        Ok(path) => Ok(Resolved { rel, path }),
        Err(ResolveError::Missing) => Err(PathError::Missing(rel)),
        Err(ResolveError::Outside) => Err(PathError::Outside(rel)),
    }
}

/// Resolves a URL path against the served root. The traversal check is made
/// here, before the backend is asked anything; the symlink-escape check is
/// the backend's, in `resolve`. Whatever the backend answers, the segments
/// that come back are the ones the path named.
pub fn resolve_in_root<V: Vfs>(vfs: &V, url_path: &str) -> (r: Result<Resolved, PathError>)
    ensures
        match url_segments_spec(url_path@) {
            None => r is Err && r matches Err(PathError::Bad),
            Some(rel) => match r {
                Ok(res) => res.rel@.map_values(|s: String| s@) == rel,
                Err(PathError::Missing(x)) => x@.map_values(|s: String| s@) == rel,
                Err(PathError::Outside(x)) => x@.map_values(|s: String| s@) == rel,
                Err(PathError::Bad) => false,
            },
        },
{
    match url_segments(url_path) {
        None => Err(PathError::Bad),
        Some(rel) => {
            let path = VfsPath::new(crate::vfs::clone_strings(&rel));
            let answer = vfs.resolve(&path);
            resolved_from(rel, answer)
        },
    }
}

// ---------------------------------------------------------------------------
// What a request asks for

/// The theme the cookies ask for: the last `ts_theme` pair naming a theme,
/// or the configured one.
pub open spec fn cookie_theme(pairs: Seq<(Seq<char>, Seq<char>)>, d: ThemeMode) -> ThemeMode
    decreases pairs.len(),
{
    if pairs.len() == 0 {
        d
    } else {
        let p = pairs.last();
        if p.0 == "ts_theme"@ && theme_named(p.1) is Some {
            theme_named(p.1)->0
        } else {
            cookie_theme(pairs.drop_last(), d)
        }
    }
}

/// A switch the cookies set: the last pair named `key` says `1` or not; the
/// configured value where there is none.
pub open spec fn cookie_bit(pairs: Seq<(Seq<char>, Seq<char>)>, key: Seq<char>, d: bool) -> bool
    decreases pairs.len(),
{
    if pairs.len() == 0 {
        d
    } else {
        let p = pairs.last();
        if p.0 == key {
            p.1 == "1"@
        } else {
            cookie_bit(pairs.drop_last(), key, d)
        }
    }
}

/// What a request asked for: the settings its cookies carry, falling back to
/// the configured ones, and the directories it has open.
pub fn prefs_from<'a, V>(state: &State<V>, req: &Req, open: &'a [String]) -> (r: Prefs<'a>)
    ensures
        ({
            let pairs = cookie_pairs_of(named_values(view_pairs(req.headers@), "Cookie"@));
            &&& r.theme == cookie_theme(pairs, state.cfg.theme)
            &&& r.ln == cookie_bit(pairs, "ts_ln"@, state.cfg.ln)
            &&& r.sidebar == cookie_bit(pairs, "ts_sidebar"@, state.cfg.sidebar)
            &&& r.open == open
        }),
{
    let all = cookie_pairs(req);
    let ghost ps = view_pairs(all@);
    let mut theme = state.cfg.theme;
    let mut ln = state.cfg.ln;
    let mut sidebar = state.cfg.sidebar;
    let mut i: usize = 0;
    assert(ps.take(0) =~= Seq::<(Seq<char>, Seq<char>)>::empty());
    while i < all.len()
        invariant
            i <= all@.len(),
            ps == view_pairs(all@),
            theme == cookie_theme(ps.take(i as int), state.cfg.theme),
            ln == cookie_bit(ps.take(i as int), "ts_ln"@, state.cfg.ln),
            sidebar == cookie_bit(ps.take(i as int), "ts_sidebar"@, state.cfg.sidebar),
        decreases all@.len() - i,
    {
        let (k, v) = &all[i];
        proof {
            assert(ps.take(i + 1).drop_last() =~= ps.take(i as int));
            assert(ps.take(i + 1).last() == (k@, v@));
            reveal_strlit("ts_theme");
            reveal_strlit("ts_ln");
            reveal_strlit("ts_sidebar");
            assert("ts_theme"@.len() == 8);
            assert("ts_ln"@.len() == 5);
            assert("ts_sidebar"@.len() == 10);
        }
        if str_eq(k.as_str(), "ts_theme") {
            match ThemeMode::from_str(v.as_str()) {
                Some(t) => {
                    theme = t;
                },
                None => {},
            }
        } else if str_eq(k.as_str(), "ts_ln") {
            ln = str_eq(v.as_str(), "1");
        } else if str_eq(k.as_str(), "ts_sidebar") {
            sidebar = str_eq(v.as_str(), "1");
        }
        i = i + 1;
    }
    assert(ps.take(all@.len() as int) =~= ps);
    Prefs { theme, ln, sidebar, open }
}

/// Whether a request asked for HTML: its first `Accept` header names
/// `text/html`, in any case.
pub open spec fn accepts_html(hs: Seq<(Seq<char>, Seq<char>)>) -> bool {
    let a = named_values(hs, "Accept"@);
    a.len() > 0 && contains_seq(lower(a[0]), "text/html"@)
}

pub fn wants_html(req: &Req) -> (r: bool)
    ensures
        r == accepts_html(view_pairs(req.headers@)),
{
    match req.header("Accept") {
        Some(a) => {
            let low = ascii_lower(chars_of(a).as_slice());
            let pat = chars_of("text/html");
            contains_chars(low.as_slice(), pat.as_slice())
        },
        None => false,
    }
}

/// The kinds of load that want the bytes whatever they say they accept: an
/// element on a page fetching what it shows.
pub open spec fn media_dests() -> Seq<Seq<char>> {
    seq!["image"@, "video"@, "audio"@, "embed"@, "object"@, "font"@]
}

/// Whether a request is a subresource load, by its first `Sec-Fetch-Dest`.
pub open spec fn fetches_media(hs: Seq<(Seq<char>, Seq<char>)>) -> bool {
    let d = named_values(hs, "Sec-Fetch-Dest"@);
    d.len() > 0 && media_dests().contains(d[0])
}

pub fn is_subresource(req: &Req) -> (r: bool)
    ensures
        r == fetches_media(view_pairs(req.headers@)),
{
    match req.header("Sec-Fetch-Dest") {
        Some(d) => {
            proof {
                reveal_strlit("image");
                reveal_strlit("video");
                reveal_strlit("audio");
                reveal_strlit("embed");
                reveal_strlit("object");
                reveal_strlit("font");
            }
            let hit = str_eq(d, "image") || str_eq(d, "video") || str_eq(d, "audio") || str_eq(d, "embed")
                || str_eq(d, "object") || str_eq(d, "font");
            proof {
                let m = media_dests();
                if m.contains(d@) {
                    let k = m.index_of(d@);
                    assert(0 <= k < 6);
                }
                if hit {
                    if d@ == "image"@ { assert(m[0] == d@); }
                    else if d@ == "video"@ { assert(m[1] == d@); }
                    else if d@ == "audio"@ { assert(m[2] == d@); }
                    else if d@ == "embed"@ { assert(m[3] == d@); }
                    else if d@ == "object"@ { assert(m[4] == d@); }
                    else { assert(m[5] == d@); }
                }
            }
            hit
        },
        None => false,
    }
}


// ---------------------------------------------------------------------------
// Serving a file as itself

/// The tag a file goes by: from what the backend says of it, where that is
/// the length of what was opened.
pub open spec fn raw_etag(meta: Option<Meta>, size: u64) -> Option<Seq<char>> {
    match meta {
        Some(m) => if m.len == size {
            etag_spec(m)
        } else {
            None
        },
        None => None,
    }
}

/// The headers a file goes out with: its type, that it takes ranges, no
/// sniffing, and `no-cache` with a tag to check against — `no-store` without.
pub open spec fn raw_headers(name: Seq<char>, tag: Option<Seq<char>>) -> Seq<(Seq<char>, Seq<char>)> {
    seq![
        ("Content-Type"@, mime_spec(ext_spec(name))),
        ("Accept-Ranges"@, "bytes"@),
        ("X-Content-Type-Options"@, "nosniff"@),
        ("Cache-Control"@, if tag is Some { "no-cache"@ } else { "no-store"@ }),
    ] + match tag {
        Some(t) => seq![("ETag"@, t)],
        None => Seq::empty(),
    }
}

/// An optional string by its view.
pub open spec fn opt_str(o: Option<String>) -> Option<Seq<char>> {
    match o {
        Some(s) => Some(s@),
        None => None,
    }
}

/// A name as a download may carry it: no quote and no backslash.
pub open spec fn safe_name(name: Seq<char>) -> Seq<char>
    decreases name.len(),
{
    if name.len() == 0 {
        Seq::empty()
    } else {
        let c = name.last();
        safe_name(name.drop_last()) + (if c == '"' || c == '\\' {
            Seq::empty()
        } else {
            seq![c]
        })
    }
}

/// Where a copy is asked for, the name to save it under.
pub open spec fn disposition(name: Seq<char>, attachment: bool) -> Seq<(Seq<char>, Seq<char>)> {
    if attachment {
        seq![("Content-Disposition"@, "attachment; filename=\""@ + safe_name(name) + seq!['"'])]
    } else {
        Seq::empty()
    }
}

/// What answering a file as itself gives, from what was opened (`size`) and
/// what the backend said of the path: `304` where the browser holds this
/// version and is not part-way through it, a stretch of it for a range that
/// fits, `416` for one that does not, the whole file otherwise.
pub open spec fn raw_reply_ok(
    r: Reply,
    hs: Seq<(Seq<char>, Seq<char>)>,
    path: Seq<Seq<char>>,
    size: u64,
    meta: Option<Meta>,
    name: Seq<char>,
    attachment: bool,
) -> bool {
    let tag = raw_etag(meta, size);
    let ranges = named_values(hs, "Range"@);
    let inm = named_values(hs, "If-None-Match"@);
    if tag is Some && ranges.len() == 0 && inm.len() > 0 && etag_listed(inm[0], tag->0) {
        &&& r.status == 304
        &&& r.body is Empty
        &&& view_pairs(r.headers@) == seq![("ETag"@, tag->0), ("Cache-Control"@, "no-cache"@)]
    } else {
        let base = raw_headers(name, tag) + disposition(name, attachment);
        let range = if ranges.len() > 0 {
            range_spec(ranges[0], size)
        } else {
            None
        };
        match range {
            Some((s, e)) => if s < size && s <= e {
                &&& r.status == 206
                &&& view_pairs(r.headers@) == base.push(
                    ("Content-Range"@, "bytes "@ + dec(s as nat) + seq!['-'] + dec(e as nat) + seq!['/'] + dec(size as nat)),
                )
                &&& r.body matches Body::Stream { path: p, start, len } && p@ == path && start == s && len == e - s + 1
            } else {
                &&& r.status == 416
                &&& view_pairs(r.headers@) == seq![
                    ("Content-Type"@, "text/plain; charset=utf-8"@),
                    ("Content-Range"@, "bytes */"@ + dec(size as nat)),
                ]
                &&& r.body matches Body::Text(t) && t@ == "range not satisfiable"@
            },
            None => {
                &&& r.status == 200
                &&& view_pairs(r.headers@) == base
                &&& r.body matches Body::Stream { path: p, start, len } && p@ == path && start == 0 && len == size
            },
        }
    }
}

fn safe_name_of(name: &str) -> (r: String)
    ensures
        r@ == safe_name(name@),
{
    let v = chars_of(name);
    let mut out = String::new();
    let mut i: usize = 0;
    assert(v@.take(0) =~= Seq::<char>::empty());
    while i < v.len()
        invariant
            i <= v@.len(),
            out@ == safe_name(v@.take(i as int)),
        decreases v@.len() - i,
    {
        let c = v[i];
        if c != '"' && c != '\\' {
            push_char(&mut out, c);
        }
        assert(v@.take(i + 1).drop_last() =~= v@.take(i as int));
        i = i + 1;
    }
    assert(v@.take(v@.len() as int) =~= v@);
    out
}

fn raw_header_vec(name: &str, tag: &Option<String>, attachment: bool) -> (r: Vec<(String, String)>)
    ensures
        view_pairs(r@) == raw_headers(name@, opt_str(*tag)) + disposition(name@, attachment),
{
    let ext = ext_of(name);
    let mut hs: Vec<(String, String)> = Vec::new();
    hs.push(hdr("Content-Type", mime_for_ext(ext.as_str())));
    hs.push(hdr("Accept-Ranges", "bytes"));
    hs.push(hdr("X-Content-Type-Options", "nosniff"));
    match tag {
        Some(t) => {
            hs.push(hdr("Cache-Control", "no-cache"));
            hs.push(hdr("ETag", t.as_str()));
        },
        None => {
            hs.push(hdr("Cache-Control", "no-store"));
        },
    }
    assert(view_pairs(hs@) =~= raw_headers(name@, opt_str(*tag)));
    let ghost before = view_pairs(hs@);
    if attachment {
        let mut v = owned("attachment; filename=\"");
        push_str(&mut v, safe_name_of(name).as_str());
        push_char(&mut v, '"');
        hs.push(hdr("Content-Disposition", v.as_str()));
        assert(v@ == "attachment; filename=\""@ + safe_name(name@) + seq!['"']);
        assert(view_pairs(hs@) =~= before.push(("Content-Disposition"@, v@)));
        assert(disposition(name@, true) =~= seq![("Content-Disposition"@, v@)]);
        assert(view_pairs(hs@) =~= before + disposition(name@, attachment));
    } else {
        assert(view_pairs(hs@) =~= before + disposition(name@, attachment));
    }
    hs
}

/// The answer for a file served as itself, from the length of what was
/// opened and what the backend said of the path. `path` is what the caller
/// pumps the bytes from.
#[verifier::spinoff_prover]
pub fn raw_reply(req: &Req, path: VfsPath, size: u64, meta: Option<Meta>, name: &str, attachment: bool) -> (r: Reply)
    ensures
        raw_reply_ok(r, view_pairs(req.headers@), path@, size, meta, name@, attachment),
{
    let ghost pv = path@;
    let tag: Option<String> = match meta {
        Some(m) => if m.len == size {
            etag_for(&m)
        } else {
            None
        },
        None => None,
    };
    assert(opt_str(tag) == raw_etag(meta, size));
    let range_hdr = req.header("Range");
    match &tag {
        Some(t) => {
            if range_hdr.is_none() {
                let hit = match req.header("If-None-Match") {
                    Some(given) => etag_matches(given, t.as_str()),
                    None => false,
                };
                if hit {
                    let r = Reply::empty(304).with("ETag", t.as_str()).with("Cache-Control", "no-cache");
                    assert(view_pairs(r.headers@) =~= seq![("ETag"@, t@), ("Cache-Control"@, "no-cache"@)]);
                    return r;
                }
            }
        },
        None => {},
    }
    let headers = raw_header_vec(name, &tag, attachment);
    let range = match range_hdr {
        Some(v) => parse_range(v, size),
        None => None,
    };
    match range {
        Some((start, end)) => {
            if start < size && start <= end {
                let len = end - start + 1;
                let mut cr = owned("bytes ");
                push_dec(&mut cr, start);
                push_char(&mut cr, '-');
                push_dec(&mut cr, end);
                push_char(&mut cr, '/');
                push_dec(&mut cr, size);
                let mut headers = headers;
                let ghost before = view_pairs(headers@);
                assert(before == raw_headers(name@, raw_etag(meta, size)) + disposition(name@, attachment));
                assert(cr@ == "bytes "@ + dec(start as nat) + seq!['-'] + dec(end as nat) + seq!['/'] + dec(size as nat));
                headers.push(hdr("Content-Range", cr.as_str()));
                assert(view_pairs(headers@) =~= before.push(("Content-Range"@, cr@)));
                let r = Reply { status: 206, headers, body: Body::Stream { path, start, len } };
                proof {
                    let hs = view_pairs(req.headers@);
                    let ranges = named_values(hs, "Range"@);
                    assert(ranges.len() > 0);
                    assert(range_spec(ranges[0], size) == Some((start, end)));
                    assert(view_pairs(r.headers@) == (raw_headers(name@, raw_etag(meta, size)) + disposition(name@, attachment)).push(
                        ("Content-Range"@, "bytes "@ + dec(start as nat) + seq!['-'] + dec(end as nat) + seq!['/'] + dec(size as nat)),
                    ));
                }
                r
            } else {
                let mut cr = owned("bytes */");
                push_dec(&mut cr, size);
                let r = Reply::plain(416, "range not satisfiable").with("Content-Range", cr.as_str());
                assert(view_pairs(r.headers@) =~= seq![
                    ("Content-Type"@, "text/plain; charset=utf-8"@),
                    ("Content-Range"@, "bytes */"@ + dec(size as nat)),
                ]);
                r
            }
        },
        None => Reply { status: 200, headers, body: Body::Stream { path, start: 0, len: size } },
    }
}

/// A file served as itself: `404` where the backend cannot open it, else
/// what `raw_reply` makes of the length of what it opened and of what it
/// says of the path.
pub fn serve_raw<V: Vfs>(req: &Req, vfs: &V, path: &VfsPath, name: &str, attachment: bool) -> (r: Reply)
    ensures
        (r.status == 404 && (r.body matches Body::Text(t) && t@ == "not found"@)) || exists|size: u64, meta: Option<Meta>|
            #[trigger] raw_reply_ok(r, view_pairs(req.headers@), path@, size, meta, name@, attachment),
{
    let size = match vfs.open(path) {
        Ok(n) => n,
        Err(_) => return Reply::plain(404, "not found"),
    };
    let meta = match vfs.metadata(path) {
        Ok(m) => Some(m),
        Err(_) => None,
    };
    raw_reply(req, path.duplicate(), size, meta, name, attachment)
}

// ---------------------------------------------------------------------------
// Answering a request

/// A request's URL as its path and its query: split at the first `?`.
pub open spec fn url_parts(url: Seq<char>) -> (Seq<char>, Seq<char>) {
    match split_once(url, '?') {
        Some((p, q)) => (p, q),
        None => (url, Seq::empty()),
    }
}

fn split_url(url: &str) -> (r: (String, String))
    ensures
        (r.0@, r.1@) == url_parts(url@),
{
    let v = chars_of(url);
    match split_once_chars(v.as_slice(), '?') {
        Some((p, q)) => (string_of(p.as_slice()), string_of(q.as_slice())),
        None => (owned(url), String::new()),
    }
}

/// The settings a request's cookies ask for, over the configured ones.
pub open spec fn prefs_asked<V>(cfg: Config<V>, hs: Seq<(Seq<char>, Seq<char>)>) -> (ThemeMode, bool, bool) {
    let pairs = cookie_pairs_of(named_values(hs, "Cookie"@));
    (cookie_theme(pairs, cfg.theme), cookie_bit(pairs, "ts_ln"@, cfg.ln), cookie_bit(pairs, "ts_sidebar"@, cfg.sidebar))
}

/// What a path inside the served root is answered with, once it has been
/// resolved and the backend has said whether it is a directory.
#[derive(Clone, Copy, Debug, PartialEq, Eq, Structural)]
pub enum InRoot {
    /// A directory asked for without its trailing `/`: sent to the path with
    /// one, so that relative links in its listing resolve inside it.
    Redirect,
    /// A directory's listing, as a page.
    ListingPage,
    /// A directory's listing, as plain text.
    ListingText,
    /// A file's raw view, framed in a page.
    RawPage,
    /// A file's bytes, as an attachment where the link asked for a download.
    Bytes { attachment: bool },
    /// A file's page.
    FilePage,
}

/// Whether a query gives `key` the value `1`.
pub open spec fn flag_on(q: Seq<(Seq<char>, Seq<char>)>, key: Seq<char>) -> bool {
    lookup(q, key) == Some("1"@)
}

/// The answer for a path inside the root: a directory without its slash is
/// redirected, one with it listed as a page or as text; a file asked for
/// raw (and neither for a download nor bare) from a browser's own
/// navigation gets the framed raw view; asked raw, for a download, by
/// something that does not want HTML, or as a subresource, its bytes; else
/// its page. In a tree whose files are not worth copying, a download asked
/// for is not one: the link is read as if it did not ask.
pub open spec fn in_root_spec(
    is_dir: bool,
    path: Seq<char>,
    q: Seq<(Seq<char>, Seq<char>)>,
    html: bool,
    sub: bool,
    downloadable: bool,
) -> InRoot {
    if is_dir {
        if path.len() == 0 || path.last() != '/' {
            InRoot::Redirect
        } else if html {
            InRoot::ListingPage
        } else {
            InRoot::ListingText
        }
    } else {
        let raw = flag_on(q, "raw"@);
        let dl = flag_on(q, "dl"@) && downloadable;
        let bare = flag_on(q, "bare"@);
        if raw && !dl && !bare && html && !sub {
            InRoot::RawPage
        } else if raw || dl || !html || sub {
            InRoot::Bytes { attachment: dl }
        } else {
            InRoot::FilePage
        }
    }
}

/// Decides what a path inside the root is answered with.
pub fn in_root_route(
    is_dir: bool,
    path: &str,
    query: &[(String, String)],
    html: bool,
    sub: bool,
    downloadable: bool,
) -> (r: InRoot)
    ensures
        r == in_root_spec(is_dir, path@, view_pairs(query@), html, sub, downloadable),
{
    if is_dir {
        let pv = chars_of(path);
        let pl = pv.len();
        if pl == 0 || pv[pl - 1] != '/' {
            return InRoot::Redirect;
        }
        return if html {
            InRoot::ListingPage
        } else {
            InRoot::ListingText
        };
    }
    let raw = is_one(query_get(query, "raw"));
    let dl = is_one(query_get(query, "dl")) && downloadable;
    let bare = is_one(query_get(query, "bare"));
    if raw && !dl && !bare && html && !sub {
        InRoot::RawPage
    } else if raw || dl || !html || sub {
        InRoot::Bytes { attachment: dl }
    } else {
        InRoot::FilePage
    }
}

/// Where a directory asked for without its slash is sent: the same path
/// with a `/`, and the query after a `?` where there was one.
pub open spec fn slash_location_spec(path: Seq<char>, query_raw: Seq<char>) -> Seq<char> {
    if query_raw.len() > 0 {
        path + "/?"@ + query_raw
    } else {
        path.push('/')
    }
}

pub fn slash_location(path: &str, query_raw: &str) -> (r: String)
    ensures
        r@ == slash_location_spec(path@, query_raw@),
{
    let mut loc = owned(path);
    push_char(&mut loc, '/');
    if chars_of(query_raw).len() > 0 {
        push_char(&mut loc, '?');
        push_str(&mut loc, query_raw);
        proof {
            reveal_strlit("/?");
            assert(path@.push('/').push('?') + query_raw@ =~= path@ + "/?"@ + query_raw@);
        }
    }
    loc
}

/// The status a client asking for text gets where the backend would not
/// list a directory: gone is `404`, not readable `403`, no answer `502`.
pub open spec fn refusal_status(k: Refusal) -> u16 {
    match k {
        Refusal::Gone => 404,
        Refusal::Denied => 403,
        Refusal::NoAnswer => 502,
    }
}

/// A refusal to list, as a plain-text reply.
pub fn refusal_reply(k: Refusal) -> (r: Reply)
    ensures
        r.status == refusal_status(k),
        r.body matches Body::Text(t) && t@ == crate::vfs::refusal_words(k),
{
    let status: u16 = match k {
        Refusal::Gone => 404,
        Refusal::Denied => 403,
        Refusal::NoAnswer => 502,
    };
    Reply::plain(status, k.words())
}

/// How a page is drawn for a request: its theme, whether source has line
/// numbers, whether the pane is shown, and the directories the reader opened
/// in the pane.
pub type Look = (ThemeMode, bool, bool, Seq<Seq<char>>);

/// The look a request's preferences ask for.
pub open spec fn look_of(p: Prefs) -> Look {
    (p.theme, p.ln, p.sidebar, crate::vfs::string_views(p.open@))
}

/// An HTML reply with `status` whose page is `page`.
pub open spec fn html_page(r: Reply, status: u16, page: spec_fn(Seq<char>) -> bool) -> bool {
    &&& r.status == status
    &&& view_pairs(r.headers@) == page_headers()
    &&& r.body matches Body::Text(t) && page(t@)
}

/// The error page for `code`, under the header for `rel`.
pub open spec fn error_page_is<V>(
    cfg: Config<V>,
    id: Seq<char>,
    look: Look,
    rel: Seq<Seq<char>>,
    url_now: Seq<char>,
    code: u32,
    msg: Seq<char>,
    t: Seq<char>,
) -> bool {
    crate::page::is_layout(
        t,
        cfg,
        id,
        look.0,
        look.1,
        look.2,
        look.3,
        rel,
        url_now,
        Seq::empty(),
        false,
        crate::page::error_content(code, msg),
    )
}

/// A directory's page: the filter form and, under it, the listing or what a
/// search found.
pub open spec fn listing_page_is<V>(
    cfg: Config<V>,
    id: Seq<char>,
    look: Look,
    rel: Seq<Seq<char>>,
    q: Seq<(Seq<char>, Seq<char>)>,
    url_now: Seq<char>,
    here: bool,
    t: Seq<char>,
) -> bool {
    let (pat, recursive) = crate::page::filter_of(q);
    exists|body: Seq<char>|
        #![trigger crate::page::listing_body(cfg, crate::md::raw_html_for(here), body, pat, recursive, rel)]
        crate::page::listing_body(cfg, crate::md::raw_html_for(here), body, pat, recursive, rel) && crate::page::is_layout(
            t,
            cfg,
            id,
            look.0,
            look.1,
            look.2,
            look.3,
            rel,
            url_now,
            Seq::empty(),
            false,
            crate::page::filter_form(pat, recursive, rel) + body,
        )
}

/// A file's page, over what the backend said of the file and what was drawn
/// of its text.
pub open spec fn file_page_is<V>(
    cfg: Config<V>,
    id: Seq<char>,
    look: Look,
    rel: Seq<Seq<char>>,
    q: Seq<(Seq<char>, Seq<char>)>,
    url_now: Seq<char>,
    limit: Option<u64>,
    dl: bool,
    here: bool,
    t: Seq<char>,
) -> bool {
    let src = crate::view::wants_source(q);
    exists|facts: crate::view::FileFacts, drawn: crate::view::Drawn|
        #![trigger crate::view::file_view_spec(cfg.app_ui, look.1, rel, src, facts, drawn)]
        facts.2 == limit && facts.3 == dl && crate::view::file_drawn_fits(
            rel,
            src,
            !cfg.app_ui,
            crate::md::raw_html_for(here),
            facts,
            drawn,
        ) && ({
            let v = crate::view::file_view_spec(cfg.app_ui, look.1, rel, src, facts, drawn);
            crate::page::is_layout(t, cfg, id, look.0, look.1, look.2, look.3, rel, url_now, v.0, v.1, v.2)
        })
}

/// What a request for a path inside the root is answered with, given how
/// the path resolved, whether the backend called it a directory and whether
/// its tree's files are worth copying.
/// - A malformed path is `400`, a missing one `404`, one leading outside the
///   root `403`, each with its error page.
/// - Past that, what [`in_root_spec`] picks: a directory named without its
///   trailing `/` sent with `301` to the same URL with one; the directory's
///   page, the file's raw view or the file's page, each a `200` page; a plain
///   listing as text, or the refusal's status and words where the backend
///   would not list it; the bytes, as `raw_reply` sends the resolved path
///   under its last segment's name, or `404` where they cannot be opened.
pub open spec fn in_root_answer<V>(
    cfg: Config<V>,
    id: Seq<char>,
    look: Look,
    url_now: Seq<char>,
    res: Result<Resolved, PathError>,
    is_dir: bool,
    downloadable: bool,
    limit: Option<u64>,
    here: bool,
    path: Seq<char>,
    qs: Seq<char>,
    q: Seq<(Seq<char>, Seq<char>)>,
    hs: Seq<(Seq<char>, Seq<char>)>,
    r: Reply,
) -> bool {
    match res {
        Err(PathError::Bad) => html_page(
            r,
            400,
            |t: Seq<char>| error_page_is(cfg, id, look, Seq::empty(), url_now, 400, "bad path"@, t),
        ),
        Err(PathError::Missing(x)) => html_page(
            r,
            404,
            |t: Seq<char>| error_page_is(cfg, id, look, crate::vfs::string_views(x@), url_now, 404, "not found"@, t),
        ),
        Err(PathError::Outside(x)) => html_page(
            r,
            403,
            |t: Seq<char>| error_page_is(cfg, id, look, crate::vfs::string_views(x@), url_now, 403, "forbidden"@, t),
        ),
        Ok(x) => {
            let rel = crate::vfs::string_views(x.rel@);
            match in_root_spec(is_dir, path, q, accepts_html(hs), fetches_media(hs), downloadable) {
                InRoot::Redirect => {
                    &&& r.status == 301
                    &&& r.body is Empty
                    &&& view_pairs(r.headers@) == seq![("Location"@, slash_location_spec(path, qs))]
                },
                InRoot::ListingPage => html_page(r, 200, |t: Seq<char>| listing_page_is(cfg, id, look, rel, q, url_now, here, t)),
                InRoot::RawPage => html_page(
                    r,
                    200,
                    |t: Seq<char>|
                        t == crate::page::bare_layout_spec(
                            cfg,
                            id,
                            look.0,
                            look.1,
                            look.2,
                            rel,
                            url_now,
                            crate::view::raw_controls_spec(rel, downloadable),
                            crate::view::raw_content_spec(rel),
                        ),
                ),
                InRoot::FilePage => html_page(r, 200, |t: Seq<char>| file_page_is(cfg, id, look, rel, q, url_now, limit, downloadable, here, t)),
                InRoot::ListingText => {
                    ||| (r.status == 200 && (r.body matches Body::Text(t) && exists|found: Seq<crate::vfs::Entry>|
                        t@ == #[trigger] crate::page::text_lines(crate::page::listed(crate::page::shown(found, cfg.show_hidden)))))
                    ||| exists|k: Refusal|
                        r.status == #[trigger] refusal_status(k) && (r.body matches Body::Text(t) && t@
                            == crate::vfs::refusal_words(k))
                },
                InRoot::Bytes { attachment } => (r.status == 404 && (r.body matches Body::Text(t) && t@ == "not found"@))
                    || exists|size: u64, meta: Option<Meta>|
                    #[trigger] raw_reply_ok(r, hs, x.path@, size, meta, crate::view::name_of(rel), attachment),
            }
        },
    }
}

/// Whether `res` is an answer `resolve_in_root` can give for `url_path`.
pub open spec fn resolve_fits(res: Result<Resolved, PathError>, url_path: Seq<char>) -> bool {
    match url_segments_spec(url_path) {
        None => res matches Err(PathError::Bad),
        Some(rel) => match res {
            Ok(x) => x.rel@.map_values(|s: String| s@) == rel,
            Err(PathError::Missing(x)) => x@.map_values(|s: String| s@) == rel,
            Err(PathError::Outside(x)) => x@.map_values(|s: String| s@) == rel,
            Err(PathError::Bad) => false,
        },
    }
}

/// The answer for a path inside the root, given how it resolved and
/// whether the backend says it is a directory.
#[verifier::spinoff_prover]
#[verifier::rlimit(60)]
pub fn answer_in_root<V: Vfs>(
    state: &State<V>,
    root: &Root<V>,
    req: &Req,
    prefs: Prefs,
    path_raw: &str,
    query_raw: &str,
    query: &[(String, String)],
    url_now: &str,
    res: Result<Resolved, PathError>,
    is_dir: bool,
) -> (r: Reply)
    ensures
        in_root_answer(
            state.cfg,
            root.id@,
            look_of(prefs),
            url_now@,
            res,
            is_dir,
            root.vfs.copies_offered(),
            root.vfs.piece_limit(),
            root.vfs.is_on_this_device(),
            path_raw@,
            query_raw@,
            view_pairs(query@),
            view_pairs(req.headers@),
            r,
        ),
{
    let vfs = crate::page::vfs_of(root);
    let (rel, canon) = match res {
        Ok(x) => (x.rel, x.path),
        Err(PathError::Bad) => {
            let none: Vec<String> = Vec::new();
            let page = crate::page::error_page(state, root, prefs, none.as_slice(), url_now, 400, "bad path");
            proof {
                assert(none@.map_values(|s: String| s@) =~= Seq::<Seq<char>>::empty());
                assert(error_page_is(state.cfg, root.id@, look_of(prefs), Seq::empty(), url_now@, 400, "bad path"@, page@));
            }
            return html_reply(400, page);
        },
        Err(PathError::Missing(rel)) => {
            return html_reply(404, crate::page::error_page(state, root, prefs, rel.as_slice(), url_now, 404, "not found"));
        },
        Err(PathError::Outside(rel)) => {
            return html_reply(403, crate::page::error_page(state, root, prefs, rel.as_slice(), url_now, 403, "forbidden"));
        },
    };
    let ghost hs = view_pairs(req.headers@);
    assert(res is Ok);
    let downloadable = vfs.downloadable();
    let html = wants_html(req);
    let sub = is_subresource(req);
    let route = in_root_route(is_dir, path_raw, query, html, sub, downloadable);
    match route {
        InRoot::Redirect => {
            let loc = slash_location(path_raw, query_raw);
            let r = Reply::empty(301).with("Location", loc.as_str());
            proof {
                reveal_strlit("Location");
                assert(view_pairs(r.headers@) =~= seq![("Location"@, slash_location_spec(path_raw@, query_raw@))]);
            }
            r
        },
        InRoot::ListingPage => {
            let page = crate::page::listing_page(state, root, prefs, rel.as_slice(), &canon, query, url_now);
            assert(listing_page_is(
                state.cfg,
                root.id@,
                look_of(prefs),
                crate::vfs::string_views(rel@),
                view_pairs(query@),
                url_now@,
                root.vfs.is_on_this_device(),
                page@,
            ));
            html_reply(200, page)
        },
        InRoot::ListingText => match crate::page::listing_text(state, vfs, &canon) {
            Ok(t) => Reply::plain(200, t.as_str()),
            Err(k) => {
                let r = refusal_reply(k);
                assert(r.status == 404 || r.status == 403 || r.status == 502);
                r
            },
        },
        InRoot::RawPage => html_reply(200, crate::view::raw_page_with(state, root, prefs, rel.as_slice(), url_now, downloadable)),
        InRoot::Bytes { attachment } => {
            let rl = rel.len();
            let name: &str = if rl > 0 {
                rel[rl - 1].as_str()
            } else {
                ""
            };
            proof {
                reveal_strlit("");
                assert(name@ == crate::view::name_of(crate::vfs::string_views(rel@)));
            }
            serve_raw(req, vfs, &canon, name, attachment)
        },
        InRoot::FilePage => {
            let page = crate::view::file_page(state, root, prefs, rel.as_slice(), &canon, query, url_now);
            proof {
                let src = crate::view::wants_source(view_pairs(query@));
                let rv = crate::vfs::string_views(rel@);
                let raw = crate::md::raw_html_for(root.vfs.is_on_this_device());
                let (facts, drawn) = choose|facts: crate::view::FileFacts, drawn: crate::view::Drawn|
                    crate::view::is_file_page(page@, state.cfg, root.id@, prefs, rv, url_now@, src, facts, drawn)
                        && crate::view::file_drawn_fits(rv, src, !state.cfg.app_ui, raw, facts, drawn)
                        && facts.2 == root.vfs.piece_limit() && facts.3 == root.vfs.copies_offered();
                let v = crate::view::file_view_spec(state.cfg.app_ui, prefs.ln, rv, src, facts, drawn);
                assert(crate::page::is_layout(page@, state.cfg, root.id@, prefs.theme, prefs.ln, prefs.sidebar,
                    crate::vfs::string_views(prefs.open@), rv, url_now@, v.0, v.1, v.2));
                assert(crate::view::file_drawn_fits(rv, src, !state.cfg.app_ui, raw, facts, drawn));
                let look = look_of(prefs);
                assert(look.1 == prefs.ln && look.0 == prefs.theme && look.2 == prefs.sidebar);
                assert(look.3 == crate::vfs::string_views(prefs.open@));
                assert(downloadable == root.vfs.copies_offered());
                assert(file_page_is(
                    state.cfg,
                    root.id@,
                    look,
                    rv,
                    view_pairs(query@),
                    url_now@,
                    root.vfs.piece_limit(),
                    downloadable,
                    root.vfs.is_on_this_device(),
                    page@,
                ));
            }
            html_reply(200, page)
        },
    }
}

/// What is asked of a path inside the served root, once the internal routes
/// and the rootless case are out of the way: the path is resolved, the
/// backend asked whether it is a directory, and [`answer_in_root`] answers.
#[verifier::spinoff_prover]
fn serve_in_root<V: Vfs>(
    state: &State<V>,
    root: &Root<V>,
    req: &Req,
    prefs: Prefs,
    path_raw: &str,
    query_raw: &str,
    query: &[(String, String)],
    url_now: &str,
) -> (r: Reply)
    ensures
        exists|res: Result<Resolved, PathError>, is_dir: bool|
            resolve_fits(res, path_raw@) && #[trigger] in_root_answer(
                state.cfg,
                root.id@,
                look_of(prefs),
                url_now@,
                res,
                is_dir,
                root.vfs.copies_offered(),
                root.vfs.piece_limit(),
                root.vfs.is_on_this_device(),
                path_raw@,
                query_raw@,
                view_pairs(query@),
                view_pairs(req.headers@),
                r,
            ),
{
    let vfs = crate::page::vfs_of(root);
    let res = resolve_in_root(vfs, path_raw);
    let is_dir = match &res {
        Ok(x) => match vfs.metadata(&x.path) {
            Ok(m) => m.is_dir,
            Err(_) => false,
        },
        Err(_) => false,
    };
    let ghost g = res;
    let r = answer_in_root(state, root, req, prefs, path_raw, query_raw, query, url_now, res, is_dir);
    assert(resolve_fits(g, path_raw@));
    assert(in_root_answer(
        state.cfg,
        root.id@,
        look_of(prefs),
        url_now@,
        g,
        is_dir,
        root.vfs.copies_offered(),
        root.vfs.piece_limit(),
        root.vfs.is_on_this_device(),
        path_raw@,
        query_raw@,
        view_pairs(query@),
        view_pairs(req.headers@),
        r,
    ));
    r
}

/// Whether a query value is there and is `1`.
fn is_one(v: Option<&str>) -> (r: bool)
    ensures
        r == (v matches Some(x) && x@ == "1"@),
{
    match v {
        Some(x) => str_eq(x, "1"),
        None => false,
    }
}

/// Decides the answer to one request, touching no socket and no webview:
/// the internal routes, the start page while nothing is open, and inside the
/// served root the listing, the file page, the raw view or the bytes.
#[verifier::spinoff_prover]
#[verifier::rlimit(40)]
pub fn handle<V: Vfs>(state: &State<V>, req: &Req) -> (r: Reply)
    ensures
        !req.is_get ==> r.status == 405 && (r.body matches Body::Text(t) && t@ == "method not allowed"@),
        req.is_get ==> ({
            let (path, qs) = url_parts(req.url@);
            let q = parsed_query(qs);
            let hs = view_pairs(req.headers@);
            let asked = prefs_asked(state.cfg, hs);
            &&& path == "/.ts/app.css"@ ==> css_answer(hs, state.app_css@, quoted_hex(text_hash(state.app_css@)), r)
            &&& path == "/.ts/math.css"@ ==> css_answer(hs, state.math_css@, quoted_hex(text_hash(state.math_css@)), r)
            &&& path == "/.ts/syntax-light.css"@ ==> ({
                let css = crate::hl::stylesheet_spec(state.cfg.syn_light@);
                css_answer(hs, css, quoted_hex(text_hash(css)), r)
            })
            &&& path == "/.ts/syntax-dark.css"@ ==> ({
                let css = crate::hl::stylesheet_spec(state.cfg.syn_dark@);
                css_answer(hs, css, quoted_hex(text_hash(css)), r)
            })
            &&& path == "/.ts/set"@ ==> r.status == 303 && r.body is Empty && view_pairs(r.headers@) == pref_cookies(q).push(("Location"@, back_spec(q)))
            &&& path == "/.ts/tree"@ ==> r.status == 303 && r.body is Empty && view_pairs(r.headers@) == seq![
                ("Set-Cookie"@, cookie_line("ts_open"@, open_cookie_from(toggled(open_set_of(named_values(hs, "Cookie"@)), q), 0))),
                ("Location"@, back_spec(q)),
            ]
            &&& (path == "/.ts/wait"@ && state.cfg.app_ui) ==> r.status == 200 && view_pairs(r.headers@) == page_headers()
            &&& !internal_path(path, state.cfg.app_ui) && state.cfg.root is None ==> (if path == "/"@ {
                &&& r.status == 200
                &&& view_pairs(r.headers@) == page_headers()
                &&& r.body matches Body::Text(t) && t@ == crate::page::start_spec(state.cfg, asked.0, req.url@)
            } else {
                &&& r.status == 302
                &&& r.body is Empty
                &&& view_pairs(r.headers@) == seq![("Location"@, "/"@)]
            })
            &&& !internal_path(path, state.cfg.app_ui) && state.cfg.root is Some && url_segments_spec(path) is None ==> r.status == 400
            &&& !internal_path(path, state.cfg.app_ui) && state.cfg.root is Some ==> exists|
                res: Result<Resolved, PathError>,
                is_dir: bool,
            | resolve_fits(res, path) && #[trigger] in_root_answer(
                state.cfg,
                state.cfg.root->0.id@,
                (asked.0, asked.1, asked.2, open_set_of(named_values(hs, "Cookie"@))),
                req.url@,
                res,
                is_dir,
                state.cfg.root->0.vfs.copies_offered(),
                state.cfg.root->0.vfs.piece_limit(),
                state.cfg.root->0.vfs.is_on_this_device(),
                path,
                qs,
                q,
                hs,
                r,
            )
        }),
{
    if !req.is_get {
        return Reply::plain(405, "method not allowed");
    }
    let url_now = req.url.as_str();
    let (path_raw, query_raw) = split_url(url_now);
    let query = parse_query(query_raw.as_str());
    let open = open_from(req);
    let prefs = prefs_from(state, req, open.as_slice());
    let p = path_raw.as_str();
    proof {
        reveal_strlit("/.ts/app.css");
        reveal_strlit("/.ts/math.css");
        reveal_strlit("/.ts/syntax-light.css");
        reveal_strlit("/.ts/syntax-dark.css");
        reveal_strlit("/.ts/set");
        reveal_strlit("/.ts/tree");
        reveal_strlit("/.ts/wait");
        reveal_strlit("/");
        assert("/.ts/tree"@[5] == 't' && "/.ts/wait"@[5] == 'w');
        assert("/.ts/tree"@ != "/.ts/wait"@);
    }
    if str_eq(p, "/.ts/app.css") {
        return css_reply(req, state.app_css.as_str());
    }
    if str_eq(p, "/.ts/math.css") {
        return css_reply(req, state.math_css.as_str());
    }
    if str_eq(p, "/.ts/syntax-light.css") {
        return css_reply(req, crate::hl::stylesheet(state.cfg.syn_light.as_str()).as_str());
    }
    if str_eq(p, "/.ts/syntax-dark.css") {
        return css_reply(req, crate::hl::stylesheet(state.cfg.syn_dark.as_str()).as_str());
    }
    if str_eq(p, "/.ts/set") {
        return set_prefs(query.as_slice());
    }
    if str_eq(p, "/.ts/tree") {
        return toggle_open(req, query.as_slice());
    }
    if str_eq(p, "/.ts/wait") && state.cfg.app_ui {
        let path = match query_get(query.as_slice(), "path") {
            Some(v) => v,
            None => "",
        };
        let page = crate::page::wait_page(state, state.cfg.root(), prefs, url_now, path);
        let r = html_reply(200, page);
        assert(r.status == 200);
        return r;
    }
    assert(!internal_path(path_raw@, state.cfg.app_ui));
    match state.cfg.root() {
        None => {
            if str_eq(p, "/") {
                html_reply(200, crate::page::start_page(state, prefs, url_now))
            } else {
                Reply::empty(302).with("Location", "/")
            }
        },
        Some(root) => serve_in_root(state, root, req, prefs, p, query_raw.as_str(), query.as_slice(), url_now),
    }
}

/// The paths this server answers itself, whatever is served.
pub open spec fn internal_path(path: Seq<char>, app_ui: bool) -> bool {
    ||| path == "/.ts/app.css"@
    ||| path == "/.ts/math.css"@
    ||| path == "/.ts/syntax-light.css"@
    ||| path == "/.ts/syntax-dark.css"@
    ||| path == "/.ts/set"@
    ||| path == "/.ts/tree"@
    ||| (path == "/.ts/wait"@ && app_ui)
}

// ---------------------------------------------------------------------------
// Laws

/// The book after a run of writes, each an id and what it turned out to be,
/// made in order.
pub open spec fn statuses_after(
    m: Map<Seq<char>, RootStatus>,
    writes: Seq<(Seq<char>, RootStatus)>,
) -> Map<Seq<char>, RootStatus>
    decreases writes.len(),
{
    if writes.len() == 0 {
        m
    } else {
        statuses_after(m, writes.drop_last()).insert(writes.last().0, writes.last().1)
    }
}

/// The last of a run of writes that names `id`, if any does.
pub open spec fn last_write(writes: Seq<(Seq<char>, RootStatus)>, id: Seq<char>) -> Option<RootStatus>
    decreases writes.len(),
{
    if writes.len() == 0 {
        None
    } else if writes.last().0 == id {
        Some(writes.last().1)
    } else {
        last_write(writes.drop_last(), id)
    }
}

/// What a lookup of `id` in a book reads: what was recorded, else `Unknown`.
pub open spec fn status_read(m: Map<Seq<char>, RootStatus>, id: Seq<char>) -> RootStatus {
    if m.contains_key(id) {
        m[id]
    } else {
        RootStatus::Unknown
    }
}

/// A status reads back as the last one written for its id, over any run of
/// writes: ids written later, or never, leave it alone. On a fresh
/// configuration, whose book is empty, an id never written reads `Unknown`.
pub proof fn law_status_reads_back(
    m: Map<Seq<char>, RootStatus>,
    writes: Seq<(Seq<char>, RootStatus)>,
    id: Seq<char>,
)
    ensures
        status_read(statuses_after(m, writes), id) == match last_write(writes, id) {
            Some(st) => st,
            None => status_read(m, id),
        },
        status_read(statuses_after(Map::empty(), writes), id) == match last_write(writes, id) {
            Some(st) => st,
            None => RootStatus::Unknown,
        },
    decreases writes.len(),
{
    if writes.len() > 0 {
        law_status_reads_back(m, writes.drop_last(), id);
        law_status_reads_back(Map::empty(), writes.drop_last(), id);
    }
}

/// Only a remote RootId carries a bookmark.
pub proof fn law_a_bookmark_is_remote(s: Seq<char>)
    ensures
        bookmark(s) is Some ==> !id_is_local(s),
{
}

/// A range a request may be served ends inside the file.
pub proof fn law_range_ends_inside(value: Seq<char>, size: u64)
    ensures
        range_spec(value, size) matches Some((a, b)) ==> b < size,
{
}

/// A tag quoted back as it was sent, or marked weak, or `*`, matches.
pub proof fn law_a_tag_matches_itself(t: Seq<char>)
    requires
        t.len() > 0,
        !is_ws(t[0]) && !is_ws(t.last()),
        !t.contains(','),
        !(t.len() >= 2 && t[0] == 'W' && t[1] == '/'),
    ensures
        etag_listed(t, t),
        etag_listed("W/"@ + t, t),
        etag_listed("*"@, t),
{
    reveal_strlit("W/");
    reveal_strlit("*");
    lemma_trim_plain(t);
    crate::util::lemma_split_plain(t, ',');
    assert(split(t, ',')[0] == t);
    assert(unweak(trim(split(t, ',')[0])) == t);
    let w = "W/"@ + t;
    assert(w[0] == 'W');
    assert(w.last() == t.last());
    lemma_trim_plain(w);
    assert(!w.contains(',')) by {
        if w.contains(',') {
            let k = w.index_of(',');
            if k >= 2 {
                assert(w[k] == t[k - 2]);
            }
        }
    }
    crate::util::lemma_split_plain(w, ',');
    assert(split(w, ',')[0] == w);
    assert(w.skip(2) =~= t);
    assert(unweak(trim(split(w, ',')[0])) == t);
    lemma_trim_plain("*"@);
}

/// Nothing a URL path names climbs out of the root: every segment is a name
/// — not empty, not `.` or `..`, with no `/` in it.
pub proof fn law_url_segments_stay_inside(url: Seq<char>)
    ensures
        url_segments_spec(url) matches Some(rel) ==> forall|i: int| 0 <= i < rel.len() ==> {
            let seg = #[trigger] rel[i];
            seg.len() > 0 && seg != "."@ && seg != ".."@ && !seg.contains('/')
        },
{
    let d = pct_decode_text(url);
    crate::util::lemma_split_pieces(d, '/');
    lemma_nonempty_pieces(split(d, '/'));
    if url_segments_spec(url) is Some {
        let rel = nonempty(split(d, '/'));
        assert forall|i: int| 0 <= i < rel.len() implies {
            let seg = #[trigger] rel[i];
            seg.len() > 0 && seg != "."@ && seg != ".."@ && !seg.contains('/')
        } by {
            assert(!rel.contains("."@));
            assert(!rel.contains(".."@));
            if rel[i] == "."@ {
                assert(rel.contains("."@));
            }
            if rel[i] == ".."@ {
                assert(rel.contains(".."@));
            }
        }
    }
}

/// What `nonempty` keeps is some of the pieces, none of them empty.
proof fn lemma_nonempty_pieces(pieces: Seq<Seq<char>>)
    ensures
        forall|i: int| 0 <= i < nonempty(pieces).len() ==> (#[trigger] nonempty(pieces)[i]).len() > 0
            && pieces.contains(nonempty(pieces)[i]),
    decreases pieces.len(),
{
    if pieces.len() > 0 {
        let init = pieces.drop_last();
        lemma_nonempty_pieces(init);
        let n = nonempty(init);
        assert forall|i: int| 0 <= i < nonempty(pieces).len() implies (#[trigger] nonempty(pieces)[i]).len() > 0
            && pieces.contains(nonempty(pieces)[i]) by {
            if i < n.len() {
                assert(nonempty(pieces)[i] == n[i]);
                let k = init.index_of(n[i]);
                assert(pieces[k] == init[k]);
            } else {
                assert(nonempty(pieces)[i] == pieces.last());
                assert(pieces[pieces.len() - 1] == pieces.last());
            }
        }
    }
}

} // verus!
