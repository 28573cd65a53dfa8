//! What a built binary says it is: its version, the commit it was cut from,
//! and when it was compiled.
//!
//! A build script asks git and the environment and hands the values to rustc;
//! [`BuildInfo`] reads them back and gives the program something to print.
//! **Nothing here may fail over a label**: an empty value is normal, and it
//! prints as `unknown`.

use vstd::prelude::*;
use vstd::utf8::*;
use vstd::string::StringSliceAdditionalSpecFns;
use crate::util::{
    chars_of, dec, find_chars_from, find_from, find_seq, is_ws, lemma_find_from, parse_u64,
    parse_uint, push_char, push_dec, push_str, string_of, trim_start, trim_bounds, trim,
    first_index, find_char, lemma_first_index, slice_vec, occurs_at, trim_end, civil,
    civil_from_days, zpad, push_zpad,
};

verus! {

broadcast use vstd::string::group_string_axioms;

/// The identity of one built artifact.
///
/// Every field is `&'static str` because every field comes from the build, and
/// **an empty field is normal**: it means nothing could answer, not that
/// something went wrong.
#[derive(Debug, Clone, Copy, PartialEq, Eq)]
pub struct BuildInfo {
    /// The product's name.
    pub name: &'static str,
    /// The version that ships.
    pub version: &'static str,
    /// Eight hex characters, or empty where git could not say.
    pub commit: &'static str,
    /// When that commit joined this history, RFC 3339.
    pub commit_time: &'static str,
    /// The branch it was built from; `HEAD` when detached.
    pub branch: &'static str,
    /// Tracked files differing from HEAD at build time, as a decimal count.
    /// Empty where it was not asked, `0` for a clean tree.
    pub dirty: &'static str,
    /// A checkout this build carries a copy of. Empty in a build that vendors
    /// nothing.
    pub vendored: &'static str,
    /// That checkout's own commit, eight hex characters.
    pub vendored_commit: &'static str,
    /// When this binary was compiled, RFC 3339 in UTC.
    pub build_time: &'static str,
}

pub open spec fn unknown_word() -> Seq<char> {
    "unknown"@
}

/// What an empty field prints as.
pub open spec fn or_unknown_spec(s: Seq<char>) -> Seq<char> {
    if s.len() == 0 {
        unknown_word()
    } else {
        s
    }
}

fn push_or_unknown(out: &mut String, s: &str)
    ensures
        final(out)@ == old(out)@ + or_unknown_spec(s@),
{
    if s.is_empty() {
        push_str(out, "unknown");
    } else {
        push_str(out, s);
    }
}

/// The value of a decimal count field, the way `u32::from_str` reads it.
pub open spec fn count_of(s: Seq<char>) -> Option<nat> {
    match parse_uint(s) {
        Some(n) => if n <= u32::MAX {
            Some(n)
        } else {
            None
        },
        None => None,
    }
}

fn parse_count(s: &str) -> (r: Option<u32>)
    ensures
        match count_of(s@) {
            Some(n) => r == Some(n as u32),
            None => r is None,
        },
{
    let v = chars_of(s);
    match parse_u64(v.as_slice()) {
        Some(n) => if n <= 0xffff_ffff {
            Some(n as u32)
        } else {
            None
        },
        None => None,
    }
}

/// `a1b2c3d4`, or `a1b2c3d4+2` where two tracked files differed from it.
pub open spec fn commit_mark_spec(commit: Seq<char>, dirty: Seq<char>) -> Seq<char> {
    if commit.len() == 0 {
        unknown_word()
    } else {
        match count_of(dirty) {
            Some(n) => if n > 0 {
                commit.push('+') + dec(n)
            } else {
                commit
            },
            None => commit,
        }
    }
}

pub open spec fn label_spec(b: BuildInfo) -> Seq<char> {
    let head = or_unknown_spec(b.name@) + seq![' ', 'v'] + or_unknown_spec(b.version@);
    if b.commit@.len() == 0 {
        head
    } else {
        head + seq![' ', '('] + commit_mark_spec(b.commit@, b.dirty@) + seq![')']
    }
}

/// The separator a log line puts between its parts: ` · `.
pub open spec fn dot_sep() -> Seq<char> {
    seq![' ', '\u{b7}', ' ']
}

/// The date out of an RFC 3339 stamp: its first ten bytes, where they are a
/// whole number of characters shaped `YYYY-MM-DD`'s dashes; anything else is
/// passed through whole.
pub open spec fn day_spec(s: Seq<char>) -> Seq<char> {
    let b = encode_utf8(s);
    if b.len() >= 10 && is_char_boundary(b, 10) && b[4] == 45u8 && b[7] == 45u8 {
        decode_utf8(b.take(10))
    } else {
        s
    }
}

pub open spec fn line_spec(b: BuildInfo) -> Seq<char> {
    let base = label_spec(b);
    let with_vendored = if b.vendored_commit@.len() == 0 {
        base
    } else {
        base + dot_sep() + or_unknown_spec(b.vendored@) + seq![' '] + b.vendored_commit@
    };
    if b.build_time@.len() == 0 {
        with_vendored
    } else {
        with_vendored + dot_sep() + seq!['b', 'u', 'i', 'l', 't', ' '] + day_spec(b.build_time@)
    }
}

/// `s` padded with spaces to `width` characters, as `{:<width}` does.
pub open spec fn pad_right(s: Seq<char>, width: nat) -> Seq<char> {
    if s.len() >= width {
        s
    } else {
        s + Seq::new((width - s.len()) as nat, |i: int| ' ')
    }
}

/// ` (clean)`, ` (1 file changed)` or ` (n files changed)`; nothing where the
/// count is missing or unreadable.
pub open spec fn dirty_clause(dirty: Seq<char>) -> Seq<char> {
    match count_of(dirty) {
        Some(n) => if n == 0 {
            " (clean)"@
        } else if n == 1 {
            " (1 file changed)"@
        } else {
            seq![' ', '('] + dec(n) + " files changed)"@
        },
        None => Seq::empty(),
    }
}

/// ` on main`, or nothing where the branch is unknown.
pub open spec fn branch_clause(branch: Seq<char>) -> Seq<char> {
    if branch.len() == 0 {
        Seq::empty()
    } else {
        seq![' ', 'o', 'n', ' '] + branch
    }
}

/// The vendored checkout's own line, name padded to ten columns; nothing in a
/// build that vendors nothing.
pub open spec fn vendored_lines(vendored: Seq<char>, commit: Seq<char>) -> Seq<char> {
    if vendored.len() == 0 {
        Seq::empty()
    } else {
        seq!['\n'] + pad_right(vendored, 10) + seq![' '] + or_unknown_spec(commit)
    }
}

pub open spec fn report_spec(b: BuildInfo) -> Seq<char> {
    or_unknown_spec(b.name@) + seq![' '] + or_unknown_spec(b.version@) + "\ncommit     "@
        + or_unknown_spec(b.commit@) + branch_clause(b.branch@) + dirty_clause(b.dirty@)
        + "\ncommitted  "@ + or_unknown_spec(b.commit_time@) + vendored_lines(
        b.vendored@,
        b.vendored_commit@,
    ) + "\nbuilt      "@ + or_unknown_spec(b.build_time@)
}

fn push_dirty_clause(out: &mut String, dirty: &str)
    ensures
        final(out)@ == old(out)@ + dirty_clause(dirty@),
{
    match parse_count(dirty) {
        Some(n) => if n == 0 {
            push_str(out, " (clean)");
        } else if n == 1 {
            push_str(out, " (1 file changed)");
        } else {
            push_char(out, ' ');
            push_char(out, '(');
            push_dec(out, n as u64);
            push_str(out, " files changed)");
        },
        None => {},
    }
}

fn push_branch_clause(out: &mut String, branch: &str)
    ensures
        final(out)@ == old(out)@ + branch_clause(branch@),
{
    if !branch.is_empty() {
        push_char(out, ' ');
        push_char(out, 'o');
        push_char(out, 'n');
        push_char(out, ' ');
        push_str(out, branch);
    }
}

fn push_vendored_lines(out: &mut String, vendored: &str, commit: &str)
    ensures
        final(out)@ == old(out)@ + vendored_lines(vendored@, commit@),
{
    if !vendored.is_empty() {
        let ghost start = out@;
        push_char(out, '\n');
        push_str(out, vendored);
        let n = chars_of(vendored).len();
        let mut k: usize = n;
        let ghost before = out@;
        assert(before == start + seq!['\n'] + vendored@);
        while k < 10
            invariant
                n == vendored@.len(),
                n <= k,
                k <= 10 || k == n,
                out@ == before + Seq::new((k - n) as nat, |i: int| ' '),
            decreases 10 - k,
        {
            push_char(out, ' ');
            assert(Seq::new((k + 1 - n) as nat, |i: int| ' ') == Seq::new(
                (k - n) as nat,
                |i: int| ' ',
            ).push(' '));
            k = k + 1;
        }
        proof {
            if n >= 10 {
                assert(Seq::new(0, |i: int| ' ') == Seq::<char>::empty());
                assert(out@ == before);
            } else {
                assert(k == 10);
            }
            assert(before + Seq::new((k - n) as nat, |i: int| ' ') == start + seq!['\n'] + pad_right(vendored@, 10));
        }
        push_char(out, ' ');
        push_or_unknown(out, commit);
    }
}

/// The date part of a stamp; see [`day_spec`].
fn day(stamp: &'static str) -> (r: &'static str)
    ensures
        r@ == day_spec(stamp@),
{
    let b = stamp.as_bytes();
    if b.len() >= 10 && stamp.is_char_boundary(10) && b[4] == 45u8 && b[7] == 45u8 {
        let (head, _) = stamp.split_at(10);
        proof {
            vstd::utf8::encode_utf8_decode_utf8(head@);
        }
        head
    } else {
        stamp
    }
}

impl BuildInfo {
    /// For a build nobody stamped — what a test gets for free, and what a
    /// consumer falls back to before it has been handed anything.
    pub fn unknown() -> (r: BuildInfo)
        ensures
            r.name@.len() == 0,
            r.version@.len() == 0,
            r.commit@.len() == 0,
            r.commit_time@.len() == 0,
            r.branch@.len() == 0,
            r.dirty@.len() == 0,
            r.vendored@.len() == 0,
            r.vendored_commit@.len() == 0,
            r.build_time@.len() == 0,
    {
        proof {
            reveal_strlit("");
        }
        BuildInfo {
            name: "",
            version: "",
            commit: "",
            commit_time: "",
            branch: "",
            dirty: "",
            vendored: "",
            vendored_commit: "",
            build_time: "",
        }
    }

    /// `a1b2c3d4`, or `a1b2c3d4+2` where two tracked files differed from it.
    ///
    /// The `+n` matters more than it looks: a hash alone claims the artifact is
    /// that commit, and a build from a dirty tree is not.
    pub fn commit_mark(&self) -> (r: String)
        ensures
            r@ == commit_mark_spec(self.commit@, self.dirty@),
    {
        let mut out = String::new();
        if self.commit.is_empty() {
            push_str(&mut out, "unknown");
            return out;
        }
        push_str(&mut out, self.commit);
        match parse_count(self.dirty) {
            Some(n) => if n > 0 {
                push_char(&mut out, '+');
                push_dec(&mut out, n as u64);
            },
            None => {},
        }
        out
    }

    /// `treesight v0.1.0 (a1b2c3d4+2)` — the status-line form.
    ///
    /// The parentheses are dropped rather than left empty where there is no
    /// commit to put in them.
    pub fn label(&self) -> (r: String)
        ensures
            r@ == label_spec(*self),
    {
        let mut out = String::new();
        push_or_unknown(&mut out, self.name);
        push_char(&mut out, ' ');
        push_char(&mut out, 'v');
        push_or_unknown(&mut out, self.version);
        if !self.commit.is_empty() {
            push_char(&mut out, ' ');
            push_char(&mut out, '(');
            let mark = self.commit_mark();
            push_str(&mut out, mark.as_str());
            push_char(&mut out, ')');
        }
        out
    }

    /// One line for a log: the label, what it vendors, and when it was made.
    pub fn line(&self) -> (r: String)
        ensures
            r@ == line_spec(*self),
    {
        let mut s = self.label();
        if !self.vendored_commit.is_empty() {
            push_char(&mut s, ' ');
            push_char(&mut s, '\u{b7}');
            push_char(&mut s, ' ');
            push_or_unknown(&mut s, self.vendored);
            push_char(&mut s, ' ');
            push_str(&mut s, self.vendored_commit);
        }
        if !self.build_time.is_empty() {
            push_char(&mut s, ' ');
            push_char(&mut s, '\u{b7}');
            push_char(&mut s, ' ');
            proof {
                reveal_strlit("built ");
            }
            push_str(&mut s, "built ");
            push_str(&mut s, day(self.build_time));
        }
        s
    }

    /// Several lines, for `--version`, where there is room to say all of it.
    pub fn report(&self) -> (r: String)
        ensures
            r@ == report_spec(*self),
    {
        let mut out = String::new();
        push_or_unknown(&mut out, self.name);
        push_char(&mut out, ' ');
        push_or_unknown(&mut out, self.version);
        push_str(&mut out, "\ncommit     ");
        push_or_unknown(&mut out, self.commit);
        push_branch_clause(&mut out, self.branch);
        push_dirty_clause(&mut out, self.dirty);
        push_str(&mut out, "\ncommitted  ");
        push_or_unknown(&mut out, self.commit_time);
        push_vendored_lines(&mut out, self.vendored, self.vendored_commit);
        push_str(&mut out, "\nbuilt      ");
        push_or_unknown(&mut out, self.build_time);
        out
    }
}

/// What a build script asks for, and where to look for it.
pub struct Stamp {
    pub app: String,
    pub repo: String,
    pub prefix: String,
    pub vendored: Option<(String, String)>,
}

/// The directory a path sits in, as `Path::parent` answers for a plain
/// `/`-separated path: trailing separators do not count, a bare name's parent
/// is the empty path, `/x`'s is `/`, and `/` and the empty path have none.
pub open spec fn parent_of(s: Seq<char>) -> Option<Seq<char>> {
    let t = strip_trailing_slashes(s);
    if t.len() == 0 {
        None
    } else {
        match crate::util::last_index(t, '/') {
            Some(i) => if i == 0 {
                Some(seq!['/'])
            } else {
                Some(strip_trailing_slashes(t.take(i)))
            },
            None => Some(Seq::empty()),
        }
    }
}

pub open spec fn strip_trailing_slashes(s: Seq<char>) -> Seq<char>
    decreases s.len(),
{
    if s.len() > 0 && s.last() == '/' {
        strip_trailing_slashes(s.drop_last())
    } else {
        s
    }
}

fn strip_slashes_len(v: &[char], n: usize) -> (r: usize)
    requires
        n <= v@.len(),
    ensures
        r <= n,
        v@.take(r as int) == strip_trailing_slashes(v@.take(n as int)),
{
    let mut k = n;
    while k > 0 && v[k - 1] == '/'
        invariant
            k <= n <= v@.len(),
            strip_trailing_slashes(v@.take(n as int)) == strip_trailing_slashes(
                v@.take(k as int),
            ),
        decreases k,
    {
        assert(v@.take(k as int).drop_last() == v@.take(k - 1));
        k = k - 1;
    }
    k
}

fn parent_dir(p: &str) -> (r: String)
    ensures
        r@ == match parent_of(p@) {
            Some(x) => x,
            None => p@,
        },
{
    let v = chars_of(p);
    let n = strip_slashes_len(v.as_slice(), v.len());
    assert(v@.take(v@.len() as int) == v@);
    if n == 0 {
        return string_of(v.as_slice());
    }
    let t = slice_vec(v.as_slice(), 0, n);
    assert(t@ == v@.take(n as int));
    match crate::util::rfind_char(t.as_slice(), '/') {
        Some(i) => {
            proof {
                crate::util::lemma_last_index(t@, '/');
            }
            if i == 0 {
                let mut s = String::new();
                push_char(&mut s, '/');
                s
            } else {
                let m = strip_slashes_len(t.as_slice(), i);
                string_of(slice_vec(t.as_slice(), 0, m).as_slice())
            }
        },
        None => String::new(),
    }
}

impl Stamp {
    /// `app` is the crate directory a `tauri.conf.json` sits in. Git is asked
    /// about its parent, which is the repository the app lives in rather than
    /// the crate.
    ///
    /// `prefix` starts every variable name: `"TREESIGHT_"`, trailing underscore
    /// included.
    pub fn new(app: &str, prefix: &str) -> (r: Stamp)
        ensures
            r.app@ == app@,
            r.repo@ == (match parent_of(app@) {
                Some(x) => x,
                None => app@,
            }),
            r.prefix@ == prefix@,
            r.vendored is None,
    {
        let repo = parent_dir(app);
        Stamp { app: app.to_owned(), repo, prefix: prefix.to_owned(), vendored: None }
    }

    /// Look for the repository somewhere other than the crate's parent.
    pub fn repo(self, dir: &str) -> (r: Stamp)
        ensures
            r.app == self.app,
            r.repo@ == dir@,
            r.prefix == self.prefix,
            r.vendored == self.vendored,
    {
        Stamp { repo: dir.to_owned(), ..self }
    }

    /// Also stamp a checkout this build carries a copy of, under a name to
    /// print it by.
    pub fn vendored(self, name: &str, dir: &str) -> (r: Stamp)
        ensures
            r.app == self.app,
            r.repo == self.repo,
            r.prefix == self.prefix,
            r.vendored matches Some((n, d)) && n@ == name@ && d@ == dir@,
    {
        Stamp {
            vendored: Some((name.to_owned(), dir.to_owned())),
            ..self
        }
    }
}

/// The string value of a top-level `"key": "value"` pair: the first quoted
/// occurrence of the key, then optional white space, a colon, optional white
/// space and a quoted value with no backslash in it.
pub open spec fn json_string_spec(text: Seq<char>, key: Seq<char>) -> Option<Seq<char>> {
    let quoted = seq!['"'] + key + seq!['"'];
    match find_seq(text, quoted) {
        Some(i) => {
            let rest = trim_start(text.skip(i + key.len() + 2));
            if rest.len() > 0 && rest[0] == ':' {
                let rest = trim_start(rest.skip(1));
                if rest.len() > 0 && rest[0] == '"' {
                    let rest = rest.skip(1);
                    match first_index(rest, '"') {
                        Some(e) => {
                            let value = rest.take(e);
                            if first_index(value, '\\') is None {
                                Some(value)
                            } else {
                                None
                            }
                        },
                        None => None,
                    }
                } else {
                    None
                }
            } else {
                None
            }
        },
        None => None,
    }
}

fn skip_ws(v: &[char], from: usize) -> (r: usize)
    requires
        from <= v@.len(),
    ensures
        from <= r <= v@.len(),
        v@.skip(r as int) == trim_start(v@.skip(from as int)),
{
    let mut i = from;
    while i < v.len() && crate::util::char_is_ws(v[i])
        invariant
            from <= i <= v@.len(),
            trim_start(v@.skip(from as int)) == trim_start(v@.skip(i as int)),
        decreases v@.len() - i,
    {
        assert(v@.skip(i as int).skip(1) == v@.skip(i + 1));
        i = i + 1;
    }
    i
}

/// The string value of a top-level `"key": "value"` pair. Enough for two
/// fields of a file whose shape is fixed, and honest about the rest: anything
/// it does not recognise it declines to answer for.
pub fn json_string(text: &str, key: &str) -> (r: Option<String>)
    ensures
        match json_string_spec(text@, key@) {
            Some(v) => r matches Some(s) && s@ == v,
            None => r is None,
        },
{
    let t = chars_of(text);
    let k = chars_of(key);
    let mut quoted: Vec<char> = Vec::new();
    quoted.push('"');
    let mut j: usize = 0;
    while j < k.len()
        invariant
            j <= k@.len(),
            quoted@ == seq!['"'] + k@.take(j as int),
        decreases k@.len() - j,
    {
        quoted.push(k[j]);
        j = j + 1;
        assert(k@.take(j as int) == k@.take(j - 1).push(k@[j - 1]));
    }
    assert(k@.take(k@.len() as int) == k@);
    quoted.push('"');
    assert(quoted@ == seq!['"'] + k@ + seq!['"']);
    assert(quoted@.len() == k@.len() + 2);
    let found = find_chars_from(t.as_slice(), quoted.as_slice(), 0);
    if found.is_none() {
        return None;
    }
    let i = found.unwrap();
    let tl = t.len();
    proof {
        lemma_find_from(t@, quoted@, 0);
        match find_from(t@, quoted@, 0) {
            Some(x) => assert(x == i),
            None => assert(false),
        }
    }
    assert(occurs_at(t@, i as int, quoted@));
    assert(i + k@.len() + 2 <= t@.len());
    let a = skip_ws(t.as_slice(), i + k.len() + 2);
    if a >= t.len() || t[a] != ':' {
        return None;
    }
    assert(t@.skip(a + 1) == t@.skip(a as int).skip(1));
    let b = skip_ws(t.as_slice(), a + 1);
    if b >= t.len() || t[b] != '"' {
        return None;
    }
    let rest = slice_vec(t.as_slice(), b + 1, t.len());
    assert(rest@ == t@.skip(b as int).skip(1));
    match find_char(rest.as_slice(), '"') {
        Some(e) => {
            proof {
                lemma_first_index(rest@, '"');
            }
            let value = slice_vec(rest.as_slice(), 0, e);
            match find_char(value.as_slice(), '\\') {
                Some(_) => None,
                None => Some(string_of(value.as_slice())),
            }
        },
        None => None,
    }
}


/// Seconds since the epoch as an RFC 3339 stamp in UTC:
/// `2026-08-28T09:12:31Z`.
pub open spec fn rfc3339_spec(secs: nat) -> Seq<char> {
    let days = secs / 86400;
    let rem = secs % 86400;
    let (y, m, d) = civil(days as int);
    zpad(y, 4) + seq!['-'] + zpad(m, 2) + seq!['-'] + zpad(d, 2) + seq!['T'] + zpad(
        (rem / 3600) as int,
        2,
    ) + seq![':'] + zpad(((rem % 3600) / 60) as int, 2) + seq![':'] + zpad((rem % 60) as int, 2)
        + seq!['Z']
}

/// Seconds since the epoch as `2026-08-28T09:12:31Z`. Hand-rolled rather
/// than a date crate: this is the only date either half formats, and it
/// formats it once per build.
pub fn rfc3339(secs: u64) -> (r: String)
    ensures
        r@ == rfc3339_spec(secs as nat),
{
    let days = secs / 86400;
    let rem = secs % 86400;
    let (y, m, d) = civil_from_days(days);
    let mut out = String::new();
    push_zpad(&mut out, y, 4);
    push_char(&mut out, '-');
    push_zpad(&mut out, m, 2);
    push_char(&mut out, '-');
    push_zpad(&mut out, d, 2);
    push_char(&mut out, 'T');
    push_zpad(&mut out, (rem / 3600) as i64, 2);
    push_char(&mut out, ':');
    push_zpad(&mut out, ((rem % 3600) / 60) as i64, 2);
    push_char(&mut out, ':');
    push_zpad(&mut out, (rem % 60) as i64, 2);
    push_char(&mut out, 'Z');
    out
}

/// The product's name and version: Cargo's, unless an app config says
/// otherwise — its `productName` over Cargo's name, and its `version`, which
/// must then be Cargo's too. Two numbers that differ is an error naming both,
/// config's first.
pub open spec fn identity_spec(
    cargo_name: Seq<char>,
    cargo_version: Seq<char>,
    config: Option<Seq<char>>,
) -> Result<(Seq<char>, Seq<char>), (Seq<char>, Seq<char>)> {
    match config {
        None => Ok((cargo_name, cargo_version)),
        Some(text) => {
            let name = match json_string_spec(text, "productName"@) {
                Some(n) => n,
                None => cargo_name,
            };
            match json_string_spec(text, "version"@) {
                None => Ok((name, cargo_version)),
                Some(v) => if v == cargo_version {
                    Ok((name, v))
                } else {
                    Err((v, cargo_version))
                },
            }
        },
    }
}

pub fn identity_from(cargo_name: &str, cargo_version: &str, config: Option<&str>) -> (r: Result<(String, String), (String, String)>)
    ensures
        match identity_spec(
            cargo_name@,
            cargo_version@,
            match config {
                Some(t) => Some(t@),
                None => None,
            },
        ) {
            Ok((n, v)) => r matches Ok((a, b)) && a@ == n && b@ == v,
            Err((x, y)) => r matches Err((a, b)) && a@ == x && b@ == y,
        },
{
    match config {
        None => Ok((cargo_name.to_owned(), cargo_version.to_owned())),
        Some(text) => {
            let name = match json_string(text, "productName") {
                Some(n) => n,
                None => cargo_name.to_owned(),
            };
            match json_string(text, "version") {
                None => Ok((name, cargo_version.to_owned())),
                Some(v) => if crate::util::str_eq(v.as_str(), cargo_version) {
                    Ok((name, v))
                } else {
                    Err((v, cargo_version.to_owned()))
                },
            }
        },
    }
}

/// A value as one line of a build directive: every newline and carriage
/// return turned into a space, so nothing it holds can end the directive.
pub open spec fn one_line_spec(v: Seq<char>) -> Seq<char> {
    v.map_values(|c: char| if c == '\n' || c == '\r' { ' ' } else { c })
}

pub fn one_line(v: &str) -> (r: String)
    ensures
        r@ == one_line_spec(v@),
{
    let cs = chars_of(v);
    let mut out = String::new();
    let mut i: usize = 0;
    while i < cs.len()
        invariant
            i <= cs@.len(),
            cs@ == v@,
            out@ == one_line_spec(v@).take(i as int),
        decreases cs@.len() - i,
    {
        let c = cs[i];
        push_char(&mut out, if c == '\n' || c == '\r' { ' ' } else { c });
        assert(one_line_spec(v@).take(i + 1) =~= one_line_spec(v@).take(i as int).push(one_line_spec(v@)[i as int]));
        i = i + 1;
    }
    assert(one_line_spec(v@).take(cs@.len() as int) =~= one_line_spec(v@));
    out
}

/// How many files a `git diff --name-only` listing names: its lines that are
/// not empty.
pub open spec fn named_count(ls: Seq<Seq<char>>) -> nat
    decreases ls.len(),
{
    if ls.len() == 0 {
        0
    } else {
        named_count(ls.drop_last()) + (if ls.last().len() > 0 { 1nat } else { 0nat })
    }
}

pub fn changed_count(listing: &str) -> (r: u64)
    ensures
        r as nat == named_count(crate::shell::lines_of(listing@)),
{
    let ls = crate::shell::lines(listing);
    let ghost lv = crate::util::views(ls@);
    let mut n: u64 = 0;
    let mut i: usize = 0;
    assert(lv.take(0) =~= Seq::<Seq<char>>::empty());
    while i < ls.len()
        invariant
            i <= ls@.len(),
            lv == crate::util::views(ls@),
            n as nat == named_count(lv.take(i as int)),
            n <= i,
        decreases ls@.len() - i,
    {
        assert(lv.take(i + 1).drop_last() =~= lv.take(i as int));
        assert(lv.take(i + 1).last() == ls@[i as int]@);
        if ls[i].len() > 0 {
            n = n + 1;
        }
        i = i + 1;
    }
    assert(lv.take(ls@.len() as int) =~= lv);
    n
}

} // verus!
