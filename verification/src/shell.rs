//! What the desktop shell decides: which links may leave for the operating
//! system, the cookie jar it keeps for a scheme that has none, the Recent and
//! pinned lists as their files spell them, and the built-in usage tree.

use vstd::prelude::*;
use crate::embed::{file_into, names_of, table, lemma_table_at};
use crate::util::{
    chars_of, first_index, find_char, lemma_first_index, push_char, push_str, slice_vec, split,
    split_chars, split_once, split_once_chars, str_eq, string_of, trim, trimmed, view_pairs, views,
    strictly_sorted, lex_lt,
};
use crate::page::{ThemeMode, theme_named, theme_word};
use crate::{without, eq_ignore_case, root_id_is_local, id_is_local, named_values, same_name, Pin, Reply, Config, leaf, leaf_of, or_default, pkg_name, RootStatus};

verus! {

broadcast use vstd::string::group_string_axioms;

/// The one window's label.
pub const WINDOW: &'static str = "main";

/// How many roots the Recent list keeps.
pub const RECENT_MAX: usize = 8;

/// The scheme the shell's own pages come from. A custom scheme, not a port:
/// nothing is listening on a socket, so there is no address for another
/// process on the machine to find.
pub const SCHEME: &'static str = "treesight";

/// Where the shell's own pages come from. Windows and Android hand a
/// registered scheme to the webview as `http://<scheme>.localhost`; everywhere
/// else it keeps the scheme it was registered under.
pub fn scheme_base(windows_like: bool) -> (r: &'static str)
    ensures
        r@ == (if windows_like {
            "http://treesight.localhost"@
        } else {
            "treesight://localhost"@
        }),
{
    if windows_like {
        "http://treesight.localhost"
    } else {
        "treesight://localhost"
    }
}

/// The forms a page of ours can arrive under: a URL on a non-special scheme
/// has an opaque origin, so that half is matched by scheme, which is what the
/// trailing colon means.
pub fn shell_origins(windows_like: bool) -> (r: Vec<String>)
    ensures
        r@.map_values(|s: String| s@) == seq!["treesight:"@, scheme_base_spec(windows_like)],
{
    let mut v: Vec<String> = Vec::new();
    v.push("treesight:".to_owned());
    v.push(scheme_base(windows_like).to_owned());
    assert(v@.map_values(|s: String| s@) =~= seq!["treesight:"@, scheme_base_spec(windows_like)]);
    v
}

pub open spec fn scheme_base_spec(windows_like: bool) -> Seq<char> {
    if windows_like {
        "http://treesight.localhost"@
    } else {
        "treesight://localhost"@
    }
}

/// Whether an allowlist entry admits a URL with this scheme and this
/// serialized origin: `scheme:` (no `/`) admits the whole scheme, anything
/// else must equal the origin exactly — never a prefix of it.
pub open spec fn origin_admits(entry: Seq<char>, scheme: Seq<char>, origin: Seq<char>) -> bool {
    if entry.len() > 0 && entry.last() == ':' && !entry.contains('/') {
        scheme == entry.drop_last()
    } else {
        origin == entry
    }
}

/// Whether an extension declared this URL's origin, given the URL's scheme and
/// its origin as the browser serializes it.
pub fn origin_allowed(allowed: &[String], scheme: &str, origin: &str) -> (r: bool)
    ensures
        r == exists|i: int| 0 <= i < allowed@.len() && #[trigger] origin_admits(allowed@[i]@, scheme@, origin@),
{
    let mut i: usize = 0;
    while i < allowed.len()
        invariant
            i <= allowed@.len(),
            forall|j: int| 0 <= j < i ==> !#[trigger] origin_admits(allowed@[j]@, scheme@, origin@),
        decreases allowed@.len() - i,
    {
        let a = chars_of(allowed[i].as_str());
        let ok = if a.len() > 0 && a[a.len() - 1] == ':' && !crate::util::has_char(a.as_slice(), '/') {
            let s = string_of(slice_vec(a.as_slice(), 0, a.len() - 1).as_slice());
            assert(a@.subrange(0, a@.len() - 1) == a@.drop_last());
            str_eq(s.as_str(), scheme)
        } else {
            str_eq(origin, allowed[i].as_str())
        };
        if ok {
            assert(origin_admits(allowed@[i as int]@, scheme@, origin@));
            return true;
        }
        i = i + 1;
    }
    false
}

/// The only schemes handed to the OS: a browser's and a mailer's. An
/// allowlist, not a denylist: a new dangerous scheme is refused by default.
pub open spec fn opens_externally(scheme: Seq<char>) -> bool {
    scheme == "http"@ || scheme == "https"@ || scheme == "mailto"@
}

pub fn may_open_externally(scheme: &str) -> (r: bool)
    ensures
        r == opens_externally(scheme@),
{
    str_eq(scheme, "http") || str_eq(scheme, "https") || str_eq(scheme, "mailto")
}

// ---------------------------------------------------------------------------
// The usage tree

/// The scheme in the usage tree's RootId.
pub const USAGE_SCHEME: &'static str = "usage";

/// The whole usage set is one root, and this is its id.
pub const USAGE_ROOT_ID: &'static str = "usage:/";

/// What the Places row and the window title call it.
pub const USAGE_LABEL: &'static str = "Usage";

/// Whether a RootId names the usage tree.
pub fn claims(id: &str) -> (r: bool)
    ensures
        r == (id@.len() >= 7 && id@.take(7) == "usage:/"@),
{
    let v = chars_of(id);
    let p = chars_of("usage:/");
    proof {
        reveal_strlit("usage:/");
    }
    if v.len() < 7 {
        return false;
    }
    let r = crate::util::starts_at(v.as_slice(), 0, p.as_slice());
    assert(v@.subrange(0, 7) == v@.take(7));
    r
}

/// The shell's own pages, by path. `README.md` is the front one, because a
/// listing already renders a README under it.
pub fn usage_page_paths() -> (r: Vec<&'static str>)
    ensures
        r@.len() == 6,
        r@[0]@ == "README.md"@,
{
    let mut v: Vec<&'static str> = Vec::new();
    v.push("README.md");
    v.push("keyboard.md");
    v.push("opening-folders.md");
    v.push("preferences.md");
    v.push("reading-files.md");
    v.push("tree-and-pane.md");
    v
}

// ---------------------------------------------------------------------------
// The cookie jar

/// The name and value out of a `Set-Cookie` value: everything up to the first
/// `;` is the pair, both halves trimmed, and a pair needs a name.
pub open spec fn cookie_pair_spec(value: Seq<char>) -> Option<(Seq<char>, Seq<char>)> {
    let piece = match first_index(value, ';') {
        Some(i) => value.take(i),
        None => value,
    };
    match split_once(piece, '=') {
        Some((k, v)) => if trim(k).len() > 0 {
            Some((trim(k), trim(v)))
        } else {
            None
        },
        None => None,
    }
}

pub fn cookie_pair(value: &str) -> (r: Option<(String, String)>)
    ensures
        match cookie_pair_spec(value@) {
            Some((k, v)) => r matches Some((a, b)) && a@ == k && b@ == v,
            None => r is None,
        },
{
    let v = chars_of(value);
    let piece = match find_char(v.as_slice(), ';') {
        Some(i) => slice_vec(v.as_slice(), 0, i),
        None => slice_vec(v.as_slice(), 0, v.len()),
    };
    assert(v@.subrange(0, v@.len() as int) == v@);
    match split_once_chars(piece.as_slice(), '=') {
        Some((k, val)) => {
            let kt = trimmed(k.as_slice());
            if kt.len() > 0 {
                Some((string_of(kt.as_slice()), string_of(trimmed(val.as_slice()).as_slice())))
            } else {
                None
            }
        },
        None => None,
    }
}

/// Cookies, for a scheme that has none: what the router asked to store, by
/// name, the later answer winning. Kept sorted by name, which is the order it
/// is written out in.
pub struct Jar {
    names: Vec<String>,
    values: Vec<String>,
}

impl View for Jar {
    type V = Map<Seq<char>, Seq<char>>;

    closed spec fn view(&self) -> Map<Seq<char>, Seq<char>> {
        table(names_of(self.names@), self.values@).map_values(|s: String| s@)
    }
}

/// Pairs put one after the other into a jar holding `m`.
pub open spec fn put_all(m: Map<Seq<char>, Seq<char>>, pairs: Seq<(Seq<char>, Seq<char>)>) -> Map<
    Seq<char>,
    Seq<char>,
>
    decreases pairs.len(),
{
    if pairs.len() == 0 {
        m
    } else {
        put_all(m, pairs.drop_last()).insert(pairs.last().0, pairs.last().1)
    }
}

/// The pairs a reply asks to store: its `Set-Cookie` headers, each read with
/// [`cookie_pair_spec`], in order.
pub open spec fn set_cookie_pairs(hs: Seq<(Seq<char>, Seq<char>)>) -> Seq<(Seq<char>, Seq<char>)>
    decreases hs.len(),
{
    if hs.len() == 0 {
        Seq::empty()
    } else {
        let rest = set_cookie_pairs(hs.drop_last());
        if same_name(hs.last().0, "Set-Cookie"@) {
            match cookie_pair_spec(hs.last().1) {
                Some(p) => rest.push(p),
                None => rest,
            }
        } else {
            rest
        }
    }
}

/// One `name=value` entry of a jar, as its text and its `Cookie` list write it.
pub open spec fn entry_text(k: Seq<char>, v: Seq<char>) -> Seq<char> {
    k + seq!['='] + v
}

/// The jar's entries in order, each `name=value` and a newline.
pub open spec fn jar_lines(names: Seq<Seq<char>>, values: Seq<Seq<char>>) -> Seq<char>
    decreases names.len(),
{
    if names.len() == 0 || values.len() == 0 {
        Seq::empty()
    } else {
        jar_lines(names.drop_last(), values.drop_last()) + entry_text(names.last(), values.last())
            + seq!['\n']
    }
}

/// The jar's entries in order, `; `-joined.
pub open spec fn jar_list(names: Seq<Seq<char>>, values: Seq<Seq<char>>) -> Seq<char>
    decreases names.len(),
{
    if names.len() == 0 || values.len() == 0 {
        Seq::empty()
    } else if names.len() == 1 {
        entry_text(names[0], values[0])
    } else {
        jar_list(names.drop_last(), values.drop_last()) + seq![';', ' '] + entry_text(
            names.last(),
            values.last(),
        )
    }
}

impl Jar {
    #[verifier::type_invariant]
    closed spec fn wf(self) -> bool {
        self.well_formed()
    }

    /// Names strictly sorted, a value for each.
    pub closed spec fn well_formed(&self) -> bool {
        &&& self.names@.len() == self.values@.len()
        &&& strictly_sorted(names_of(self.names@))
    }

    /// The names in order.
    pub closed spec fn names_spec(&self) -> Seq<Seq<char>> {
        names_of(self.names@)
    }

    /// The values, in the order of their names.
    pub closed spec fn values_spec(&self) -> Seq<Seq<char>> {
        self.values@.map_values(|s: String| s@)
    }

    /// The listing is the jar: its names are strictly sorted, one value each,
    /// and they hold exactly what the jar holds.
    pub proof fn lemma_listing(&self)
        requires
            self.well_formed(),
        ensures
            strictly_sorted(self.names_spec()),
            self.names_spec().len() == self.values_spec().len(),
            forall|i: int| #![trigger self.names_spec()[i]]
                0 <= i < self.names_spec().len() ==> self@.contains_key(self.names_spec()[i])
                    && self@[self.names_spec()[i]] == self.values_spec()[i],
            forall|k: Seq<char>| #[trigger] self@.contains_key(k) ==> self.names_spec().contains(k),
    {
        assert forall|i: int| #![trigger self.names_spec()[i]]
            0 <= i < self.names_spec().len() implies self@.contains_key(self.names_spec()[i])
            && self@[self.names_spec()[i]] == self.values_spec()[i] by {
            lemma_table_at(names_of(self.names@), self.values@, i);
        }
    }

    /// An empty jar.
    pub fn new() -> (r: Jar)
        ensures
            r@ == Map::<Seq<char>, Seq<char>>::empty(),
    {
        let r = Jar { names: Vec::new(), values: Vec::new() };
        assert(r@ =~= Map::<Seq<char>, Seq<char>>::empty());
        r
    }

    /// Files one pair, replacing what was stored under the name.
    fn put_one(&mut self, k: &str, v: String)
        ensures
            final(self)@ == old(self)@.insert(k@, v@),
    {
        proof {
            use_type_invariant(&*self);
        }
        let ghost before = table(names_of(self.names@), self.values@);
        let kv = chars_of(k);
        let mut names = crate::vfs::clone_strings(&self.names);
        let mut values = crate::vfs::clone_strings(&self.values);
        file_into(&mut names, &mut values, kv.as_slice(), v);
        *self = Jar { names, values };
        proof {
            assert(table(names_of(self.names@), self.values@).map_values(|s: String| s@) =~= before.map_values(
                |s: String| s@,
            ).insert(k@, v@));
        }
    }

    /// Stores pairs in order, the later winning.
    pub fn put(&mut self, pairs: Vec<(String, String)>)
        ensures
            final(self)@ == put_all(old(self)@, view_pairs(pairs@)),
    {
        let ghost start = self@;
        let ghost ps = view_pairs(pairs@);
        let mut i: usize = 0;
        assert(ps.take(0) =~= Seq::<(Seq<char>, Seq<char>)>::empty());
        while i < pairs.len()
            invariant
                i <= pairs@.len(),
                ps == view_pairs(pairs@),
                self@ == put_all(start, ps.take(i as int)),
            decreases pairs@.len() - i,
        {
            let (k, v) = &pairs[i];
            self.put_one(k.as_str(), v.clone());
            assert(ps.take(i + 1).drop_last() =~= ps.take(i as int));
            assert(ps.take(i + 1).last() == (k@, v@));
            i = i + 1;
        }
        assert(ps.take(pairs@.len() as int) =~= ps);
    }

    /// One preference, chosen somewhere other than a reply.
    pub fn set(&mut self, name: &str, value: &str)
        ensures
            final(self)@ == old(self)@.insert(name@, value@),
    {
        self.put_one(name, value.to_owned());
    }

    /// Remembers what a reply asked to store.
    pub fn store(&mut self, reply: &Reply)
        ensures
            final(self)@ == put_all(old(self)@, set_cookie_pairs(view_pairs(reply.headers@))),
    {
        let ghost hs = view_pairs(reply.headers@);
        let mut pairs: Vec<(String, String)> = Vec::new();
        let mut i: usize = 0;
        while i < reply.headers.len()
            invariant
                i <= reply.headers@.len(),
                hs == view_pairs(reply.headers@),
                view_pairs(pairs@) == set_cookie_pairs(hs.take(i as int)),
            decreases reply.headers@.len() - i,
        {
            let (k, v) = &reply.headers[i];
            assert(hs.take(i + 1).drop_last() =~= hs.take(i as int));
            assert(hs.take(i + 1).last() == (k@, v@));
            if eq_ignore_case(k.as_str(), "Set-Cookie") {
                match cookie_pair(v.as_str()) {
                    Some(p) => {
                        let ghost pv = (p.0@, p.1@);
                        pairs.push(p);
                        assert(view_pairs(pairs@) =~= set_cookie_pairs(hs.take(i as int)).push(pv));
                    },
                    None => {},
                }
            }
            i = i + 1;
        }
        assert(hs.take(reply.headers@.len() as int) =~= hs);
        self.put(pairs);
    }

    /// One `name=value` per line, in name order: a file somebody can read, and
    /// delete to go back to the defaults.
    pub fn text(&self) -> (r: String)
        ensures
            r@ == jar_lines(self.names_spec(), self.values_spec()),
    {
        proof {
            use_type_invariant(self);
        }
        let mut out = String::new();
        let mut i: usize = 0;
        let ghost ns = self.names_spec();
        let ghost vs = self.values_spec();
        assert(ns.take(0) =~= Seq::<Seq<char>>::empty());
        while i < self.names.len()
            invariant
                i <= self.names@.len(),
                self.names@.len() == self.values@.len(),
                ns == self.names_spec(),
                vs == self.values_spec(),
                out@ == jar_lines(ns.take(i as int), vs.take(i as int)),
            decreases self.names@.len() - i,
        {
            push_str(&mut out, self.names[i].as_str());
            push_char(&mut out, '=');
            push_str(&mut out, self.values[i].as_str());
            push_char(&mut out, '\n');
            assert(ns.take(i + 1).drop_last() =~= ns.take(i as int));
            assert(vs.take(i + 1).drop_last() =~= vs.take(i as int));
            i = i + 1;
        }
        assert(ns.take(ns.len() as int) =~= ns);
        assert(vs.take(vs.len() as int) =~= vs);
        out
    }

    /// `a=1; b=2` — a `Cookie` header's value, in name order.
    pub fn cookie_list(&self) -> (r: String)
        ensures
            r@ == jar_list(self.names_spec(), self.values_spec()),
    {
        proof {
            use_type_invariant(self);
        }
        let mut out = String::new();
        let mut i: usize = 0;
        let ghost ns = self.names_spec();
        let ghost vs = self.values_spec();
        assert(ns.take(0) =~= Seq::<Seq<char>>::empty());
        while i < self.names.len()
            invariant
                i <= self.names@.len(),
                self.names@.len() == self.values@.len(),
                ns == self.names_spec(),
                vs == self.values_spec(),
                out@ == jar_list(ns.take(i as int), vs.take(i as int)),
            decreases self.names@.len() - i,
        {
            if i > 0 {
                push_char(&mut out, ';');
                push_char(&mut out, ' ');
            }
            push_str(&mut out, self.names[i].as_str());
            push_char(&mut out, '=');
            push_str(&mut out, self.values[i].as_str());
            assert(ns.take(i + 1).drop_last() =~= ns.take(i as int));
            assert(vs.take(i + 1).drop_last() =~= vs.take(i as int));
            proof {
                if i == 0 {
                    assert(ns.take(1)[0] == ns[0]);
                    assert(vs.take(1)[0] == vs[0]);
                }
            }
            i = i + 1;
        }
        assert(ns.take(ns.len() as int) =~= ns);
        assert(vs.take(vs.len() as int) =~= vs);
        out
    }

    /// What the jar holds under a name.
    pub fn get(&self, name: &str) -> (r: Option<String>)
        ensures
            self@.contains_key(name@) ==> (r matches Some(v) && v@ == self@[name@]),
            !self@.contains_key(name@) ==> r is None,
    {
        proof {
            use_type_invariant(self);
        }
        let key = chars_of(name);
        let (p, found) = crate::util::find_slot(&self.names, key.as_slice());
        proof {
            let names = names_of(self.names@);
            if found {
                lemma_table_at(names, self.values@, p as int);
            } else if names.contains(name@) {
                let j = names.index_of(name@);
                crate::util::lemma_lex_irreflexive(name@);
                assert(names[j] == self.names@[j]@);
                assert(false);
            }
        }
        if found {
            Some(self.values[p].clone())
        } else {
            None
        }
    }

    /// Whether the jar holds nothing.
    pub fn is_empty(&self) -> (r: bool)
        ensures
            r == (self@.dom().len() == 0),
    {
        proof {
            use_type_invariant(self);
            self.lemma_listing();
            if self.names@.len() > 0 {
                assert(self@.contains_key(self.names_spec()[0]));
                assert(self@.dom().contains(self.names_spec()[0]));
                assert(self@.dom().finite()) by {
                    assert(self@.dom() =~= self.names_spec().to_set());
                }
            } else {
                assert(self@.dom() =~= Set::<Seq<char>>::empty());
            }
        }
        self.names.len() == 0
    }
}


/// The lines of a text as `str::lines` gives them: split at `\n`, a final
/// empty piece dropped, and a `\r` taken off each line that a `\n` ended.
pub open spec fn lines_of(s: Seq<char>) -> Seq<Seq<char>> {
    let parts = split(s, '\n');
    let ended = parts.drop_last().map_values(|l: Seq<char>| strip_cr(l));
    if parts.last().len() == 0 {
        ended
    } else {
        ended.push(parts.last())
    }
}

/// A line without its trailing `\r`.
pub open spec fn strip_cr(l: Seq<char>) -> Seq<char> {
    if l.len() > 0 && l.last() == '\r' {
        l.drop_last()
    } else {
        l
    }
}

/// `str::lines`.
pub fn lines(text: &str) -> (r: Vec<Vec<char>>)
    ensures
        views(r@) == lines_of(text@),
{
    let v = chars_of(text);
    let parts = split_chars(v.as_slice(), '\n');
    proof {
        crate::util::lemma_split_nonempty(text@, '\n');
    }
    let ghost ps = views(parts@);
    let n = parts.len() - 1;
    let mut out: Vec<Vec<char>> = Vec::new();
    let mut i: usize = 0;
    while i < n
        invariant
            n + 1 == parts@.len(),
            ps == views(parts@),
            i <= n,
            views(out@) == ps.drop_last().take(i as int).map_values(|l: Seq<char>| strip_cr(l)),
        decreases n - i,
    {
        let p = &parts[i];
        let l = if p.len() > 0 && p[p.len() - 1] == '\r' {
            slice_vec(p.as_slice(), 0, p.len() - 1)
        } else {
            slice_vec(p.as_slice(), 0, p.len())
        };
        proof {
            if p@.len() > 0 {
                assert(p@.subrange(0, p@.len() - 1) == p@.drop_last());
            }
            assert(p@.subrange(0, p@.len() as int) == p@);
            assert(ps.drop_last()[i as int] == p@);
            assert(l@ == strip_cr(p@));
        }
        let ghost mid = views(out@);
        out.push(l);
        assert(views(out@) =~= mid.push(l@));
        assert(ps.drop_last().take(i + 1) == ps.drop_last().take(i as int).push(ps.drop_last()[i as int]));
        assert(views(out@) =~= ps.drop_last().take(i + 1).map_values(|l: Seq<char>| strip_cr(l)));
        i = i + 1;
    }
    assert(ps.drop_last().take(n as int) =~= ps.drop_last());
    let last = &parts[n];
    assert(ps.last() == last@);
    if last.len() > 0 {
        let ghost mid = views(out@);
        out.push(slice_vec(last.as_slice(), 0, last.len()));
        assert(last@.subrange(0, last@.len() as int) == last@);
        assert(views(out@) =~= mid.push(last@));
    }
    out
}

/// What a jar's file holds, read back: each line trimmed and read as a
/// cookie pair, the later winning.
pub open spec fn text_pairs(ls: Seq<Seq<char>>) -> Seq<(Seq<char>, Seq<char>)>
    decreases ls.len(),
{
    if ls.len() == 0 {
        Seq::empty()
    } else {
        match cookie_pair_spec(trim(ls.last())) {
            Some(p) => text_pairs(ls.drop_last()).push(p),
            None => text_pairs(ls.drop_last()),
        }
    }
}

/// Reads a jar back from its file.
pub fn jar_from_text(text: &str) -> (r: Jar)
    ensures
        r@ == put_all(Map::empty(), text_pairs(lines_of(text@))),
{
    let ls = lines(text);
    let ghost lv = views(ls@);
    let mut pairs: Vec<(String, String)> = Vec::new();
    let mut i: usize = 0;
    while i < ls.len()
        invariant
            i <= ls@.len(),
            lv == views(ls@),
            lv == lines_of(text@),
            view_pairs(pairs@) == text_pairs(lv.take(i as int)),
        decreases ls@.len() - i,
    {
        let t = string_of(trimmed(ls[i].as_slice()).as_slice());
        assert(lv.take(i + 1).drop_last() =~= lv.take(i as int));
        assert(lv.take(i + 1).last() == ls@[i as int]@);
        match cookie_pair(t.as_str()) {
            Some(p) => {
                let ghost pv = (p.0@, p.1@);
                pairs.push(p);
                assert(view_pairs(pairs@) =~= text_pairs(lv.take(i as int)).push(pv));
            },
            None => {},
        }
        i = i + 1;
    }
    assert(lv.take(ls@.len() as int) =~= lv);
    let mut jar = Jar::new();
    jar.put(pairs);
    jar
}

/// `jar_text`: the jar's file, one `name=value` per line.
pub fn jar_text(jar: &Jar) -> (r: String)
    ensures
        r@ == jar_lines(jar.names_spec(), jar.values_spec()),
{
    jar.text()
}

/// Lines each ended by a newline: how the jar, Recent and the pinned list are
/// written to their files.
pub open spec fn joined(ls: Seq<Seq<char>>) -> Seq<char>
    decreases ls.len(),
{
    if ls.len() == 0 {
        Seq::empty()
    } else {
        joined(ls.drop_last()) + ls.last() + seq!['\n']
    }
}

/// A line a file can hold as it is: no newline in it, and no carriage return
/// at its end for the reader to take off.
pub open spec fn whole_line(l: Seq<char>) -> bool {
    !l.contains('\n') && !(l.len() > 0 && l.last() == '\r')
}

proof fn lemma_split_joined(ls: Seq<Seq<char>>)
    requires
        forall|i: int| 0 <= i < ls.len() ==> !(#[trigger] ls[i]).contains('\n'),
    ensures
        split(joined(ls), '\n') == ls.push(Seq::<char>::empty()),
    decreases ls.len(),
{
    if ls.len() == 0 {
        assert(ls.push(Seq::<char>::empty()) =~= seq![Seq::<char>::empty()]);
    } else {
        let init = ls.drop_last();
        assert forall|i: int| 0 <= i < init.len() implies !(#[trigger] init[i]).contains('\n') by {
            assert(init[i] == ls[i]);
        }
        lemma_split_joined(init);
        assert(!ls.last().contains('\n')) by {
            assert(ls[ls.len() - 1] == ls.last());
        }
        crate::util::lemma_split_runs_on(joined(init), ls.last(), '\n');
        let s = joined(init) + ls.last();
        assert(Seq::<char>::empty() + ls.last() =~= ls.last());
        assert(split(s, '\n') =~= ls);
        let t = s + seq!['\n'];
        assert(t.drop_last() =~= s);
        assert(t.last() == '\n');
        assert(joined(ls) == t);
        assert(split(t, '\n') == split(s, '\n').push(Seq::<char>::empty()));
    }
}

/// Lines written out one per line are read back as the same lines.
pub proof fn lemma_lines_of_joined(ls: Seq<Seq<char>>)
    requires
        forall|i: int| 0 <= i < ls.len() ==> whole_line(#[trigger] ls[i]),
    ensures
        lines_of(joined(ls)) == ls,
{
    lemma_split_joined(ls);
    let parts = split(joined(ls), '\n');
    assert(parts.drop_last() =~= ls);
    assert(parts.last() =~= Seq::<char>::empty());
    assert(ls.map_values(|l: Seq<char>| strip_cr(l)) =~= ls);
}

/// A name and a value the jar writes out and reads back as they are: a name
/// that is not empty, neither with white space at its ends, no `;` in either,
/// no `=` in the name, and no newline anywhere. A pair a `Set-Cookie` gives is
/// one of these wherever it holds no newline.
pub open spec fn storable(k: Seq<char>, v: Seq<char>) -> bool {
    &&& k.len() > 0
    &&& trim(k) == k
    &&& trim(v) == v
    &&& !k.contains('=')
    &&& !k.contains(';')
    &&& !v.contains(';')
    &&& !k.contains('\n')
    &&& !v.contains('\n')
}

/// The jar's entries in order, `name=value` each.
pub open spec fn jar_entries(names: Seq<Seq<char>>, values: Seq<Seq<char>>) -> Seq<Seq<char>> {
    Seq::new(names.len(), |i: int| entry_text(names[i], values[i]))
}

/// The jar's names and values, side by side.
pub open spec fn jar_zip(names: Seq<Seq<char>>, values: Seq<Seq<char>>) -> Seq<(Seq<char>, Seq<char>)> {
    Seq::new(names.len(), |i: int| (names[i], values[i]))
}

proof fn lemma_jar_lines_joined(names: Seq<Seq<char>>, values: Seq<Seq<char>>)
    requires
        names.len() == values.len(),
    ensures
        jar_lines(names, values) == joined(jar_entries(names, values)),
    decreases names.len(),
{
    if names.len() == 0 {
        assert(jar_entries(names, values) =~= Seq::<Seq<char>>::empty());
    } else {
        lemma_jar_lines_joined(names.drop_last(), values.drop_last());
        assert(jar_entries(names.drop_last(), values.drop_last()) =~= jar_entries(names, values).drop_last());
    }
}

/// One entry of a storable pair is a whole line, and the reader gives the
/// pair back from it.
proof fn lemma_entry_reads_back(k: Seq<char>, v: Seq<char>)
    requires
        storable(k, v),
    ensures
        whole_line(entry_text(k, v)),
        cookie_pair_spec(trim(entry_text(k, v))) == Some((k, v)),
{
    let e = entry_text(k, v);
    let n = k.len() as int;
    assert(e.len() == k.len() + 1 + v.len());
    assert(forall|j: int| 0 <= j < n ==> e[j] == k[j]);
    assert(e[n] == '=');
    assert(forall|j: int| n < j < e.len() ==> e[j] == v[j - n - 1]);
    crate::util::lemma_trimmed_ends(k);
    assert(!e.contains('\n')) by {
        if e.contains('\n') {
            let j = e.index_of('\n');
            if j < n {
                assert(k[j] == '\n');
            } else if j > n {
                assert(v[j - n - 1] == '\n');
            }
        }
    }
    if v.len() > 0 {
        crate::util::lemma_trimmed_ends(v);
        assert(e.last() == v.last());
    } else {
        assert(e.last() == '=');
    }
    assert(!crate::util::is_ws(e.last()));
    assert(e[0] == k[0]);
    crate::util::lemma_trim_plain(e);
    assert forall|j: int| 0 <= j < e.len() implies e[j] != ';' by {
        if j < n {
            assert(e[j] == k[j]);
            assert(!k.contains(';'));
        } else if j > n {
            assert(e[j] == v[j - n - 1]);
            assert(!v.contains(';'));
        }
    }
    crate::util::lemma_first_index_none(e, ';');
    assert forall|j: int| 0 <= j < n implies e[j] != '=' by {
        assert(e[j] == k[j]);
        assert(!k.contains('='));
    }
    crate::util::lemma_first_index_unique(e, '=', n);
    assert(e.take(n) =~= k);
    assert(e.skip(n + 1) =~= v);
}

proof fn lemma_text_pairs_entries(names: Seq<Seq<char>>, values: Seq<Seq<char>>)
    requires
        names.len() == values.len(),
        forall|i: int| 0 <= i < names.len() ==> storable(#[trigger] names[i], values[i]),
    ensures
        text_pairs(jar_entries(names, values)) == jar_zip(names, values),
    decreases names.len(),
{
    let es = jar_entries(names, values);
    if names.len() == 0 {
        assert(jar_zip(names, values) =~= Seq::<(Seq<char>, Seq<char>)>::empty());
    } else {
        let (ni, vi) = (names.drop_last(), values.drop_last());
        assert forall|i: int| 0 <= i < ni.len() implies storable(#[trigger] ni[i], vi[i]) by {
            assert(ni[i] == names[i] && vi[i] == values[i]);
        }
        lemma_text_pairs_entries(ni, vi);
        assert(jar_entries(ni, vi) =~= es.drop_last());
        let last = names.len() - 1;
        assert(storable(names[last], values[last]));
        lemma_entry_reads_back(names[last], values[last]);
        assert(es.last() == entry_text(names[last], values[last]));
        assert(jar_zip(names, values) =~= jar_zip(ni, vi).push((names[last], values[last])));
    }
}

proof fn lemma_put_all_zip(names: Seq<Seq<char>>, values: Seq<Seq<char>>)
    requires
        names.len() == values.len(),
        strictly_sorted(names),
    ensures
        forall|i: int| #![trigger names[i]]
            0 <= i < names.len() ==> put_all(Map::empty(), jar_zip(names, values)).contains_key(names[i])
                && put_all(Map::empty(), jar_zip(names, values))[names[i]] == values[i],
        forall|k: Seq<char>| #[trigger] put_all(Map::empty(), jar_zip(names, values)).contains_key(k) ==> names.contains(k),
    decreases names.len(),
{
    if names.len() > 0 {
        let (ni, vi) = (names.drop_last(), values.drop_last());
        assert(strictly_sorted(ni)) by {
            assert forall|i: int, j: int| 0 <= i < j < ni.len() implies lex_lt(#[trigger] ni[i], #[trigger] ni[j]) by {
                assert(ni[i] == names[i] && ni[j] == names[j]);
            }
        }
        lemma_put_all_zip(ni, vi);
        let z = jar_zip(names, values);
        assert(z.drop_last() =~= jar_zip(ni, vi));
        let last = names.len() - 1;
        assert(z.last() == (names[last], values[last]));
        let m = put_all(Map::empty(), z);
        assert(m == put_all(Map::empty(), jar_zip(ni, vi)).insert(names[last], values[last]));
        assert forall|i: int| #![trigger names[i]] 0 <= i < names.len() implies m.contains_key(names[i])
            && m[names[i]] == values[i] by {
            if i < last {
                assert(lex_lt(names[i], names[last]));
                crate::util::lemma_lex_irreflexive(names[i]);
                assert(names[i] != names[last]);
                assert(ni[i] == names[i] && vi[i] == values[i]);
            }
        }
        assert forall|k: Seq<char>| #[trigger] m.contains_key(k) implies names.contains(k) by {
            if k != names[last] {
                assert(put_all(Map::empty(), jar_zip(ni, vi)).contains_key(k));
                let j = ni.index_of(k);
                assert(names[j] == k);
            } else {
                assert(names[last] == k);
            }
        }
    }
}

/// The facts about one entry of a storable pair that the readers rely on:
/// it is its own trim, it holds no `;`, and its first `=` splits it into the
/// name and the value.
proof fn lemma_entry_shape(k: Seq<char>, v: Seq<char>)
    requires
        storable(k, v),
    ensures
        trim(entry_text(k, v)) == entry_text(k, v),
        !entry_text(k, v).contains(';'),
        split_once(entry_text(k, v), '=') == Some((k, v)),
        entry_text(k, v).len() > 0,
        !crate::util::is_ws(entry_text(k, v)[0]),
{
    lemma_entry_reads_back(k, v);
    let e = entry_text(k, v);
    let n = k.len() as int;
    assert(e[n] == '=');
    assert forall|j: int| 0 <= j < n implies e[j] != '=' by {
        assert(e[j] == k[j]);
        assert(!k.contains('='));
    }
    crate::util::lemma_first_index_unique(e, '=', n);
    assert(e.take(n) =~= k);
    assert(e.skip(n + 1) =~= v);
    assert(!e.contains(';')) by {
        if e.contains(';') {
            let j = e.index_of(';');
            if j < n {
                assert(e[j] == k[j]);
                assert(!k.contains(';'));
            } else if j > n {
                assert(e[j] == v[j - n - 1]);
                assert(!v.contains(';'));
            }
        }
    }
    crate::util::lemma_trimmed_ends(k);
    assert(e[0] == k[0]);
    if v.len() > 0 {
        crate::util::lemma_trimmed_ends(v);
        assert(e.last() == v.last());
    } else {
        assert(e.last() == '=');
    }
    crate::util::lemma_trim_plain(e);
}

/// The pieces a `;` split of the jar's `Cookie` list gives: the first entry,
/// then each later one behind the space that followed its `;`.
pub open spec fn list_pieces(names: Seq<Seq<char>>, values: Seq<Seq<char>>) -> Seq<Seq<char>> {
    Seq::new(names.len(), |i: int| if i == 0 {
        entry_text(names[i], values[i])
    } else {
        seq![' '] + entry_text(names[i], values[i])
    })
}

proof fn lemma_split_list(names: Seq<Seq<char>>, values: Seq<Seq<char>>)
    requires
        names.len() == values.len(),
        names.len() > 0,
        forall|i: int| 0 <= i < names.len() ==> storable(#[trigger] names[i], values[i]),
    ensures
        split(jar_list(names, values), ';') == list_pieces(names, values),
    decreases names.len(),
{
    let last = names.len() - 1;
    lemma_entry_shape(names[last], values[last]);
    let e = entry_text(names[last], values[last]);
    if names.len() == 1 {
        crate::util::lemma_split_plain(e, ';');
        assert(jar_list(names, values) == e);
        assert(list_pieces(names, values) =~= seq![e]);
    } else {
        let (ni, vi) = (names.drop_last(), values.drop_last());
        assert forall|i: int| 0 <= i < ni.len() implies storable(#[trigger] ni[i], vi[i]) by {
            assert(ni[i] == names[i] && vi[i] == values[i]);
        }
        lemma_split_list(ni, vi);
        let head = jar_list(ni, vi);
        let with_sep = head + seq![';'];
        assert(with_sep.drop_last() =~= head);
        assert(with_sep.last() == ';');
        assert(split(with_sep, ';') == split(head, ';').push(Seq::<char>::empty()));
        let b = seq![' '] + e;
        assert(!b.contains(';')) by {
            if b.contains(';') {
                let j = b.index_of(';');
                assert(j > 0);
                assert(b[j] == e[j - 1]);
            }
        }
        crate::util::lemma_split_runs_on(with_sep, b, ';');
        assert(jar_list(names, values) == head + seq![';', ' '] + e);
        assert(with_sep + b =~= head + seq![';', ' '] + e);
        assert(Seq::<char>::empty() + b =~= b);
        assert(list_pieces(ni, vi).push(b) =~= list_pieces(names, values));
    }
}

proof fn lemma_cookie_pairs_of_list(names: Seq<Seq<char>>, values: Seq<Seq<char>>, n: int)
    requires
        names.len() == values.len(),
        0 <= n <= names.len(),
        forall|i: int| 0 <= i < names.len() ==> storable(#[trigger] names[i], values[i]),
    ensures
        crate::util::cookie_pairs(list_pieces(names, values).take(n)) == jar_zip(names, values).take(n),
    decreases n,
{
    if n == 0 {
        assert(list_pieces(names, values).take(0) =~= Seq::<Seq<char>>::empty());
        assert(jar_zip(names, values).take(0) =~= Seq::<(Seq<char>, Seq<char>)>::empty());
    } else {
        lemma_cookie_pairs_of_list(names, values, n - 1);
        let ps = list_pieces(names, values);
        assert(ps.take(n).drop_last() =~= ps.take(n - 1));
        assert(jar_zip(names, values).take(n) =~= jar_zip(names, values).take(n - 1).push((names[n - 1], values[n - 1])));
        let (k, v) = (names[n - 1], values[n - 1]);
        lemma_entry_shape(k, v);
        let e = entry_text(k, v);
        let piece = ps.take(n).last();
        assert(piece == ps[n - 1]);
        if n - 1 > 0 {
            assert(piece == seq![' '] + e);
            assert((seq![' '] + e).skip(1) =~= e);
            assert(crate::util::is_ws(' '));
            assert(crate::util::trim_start(seq![' '] + e) == crate::util::trim_start(e));
        }
        assert(trim(piece) == e);
        crate::util::lemma_trimmed_ends(k);
        assert(crate::util::cookie_piece(piece) == Some((k, v)));
    }
}

/// The last pair with a name, where there is one.
proof fn lemma_unique_name_last<T>(pairs: Seq<(Seq<char>, T)>, key: Seq<char>, j: int)
    requires
        0 <= j < pairs.len(),
        pairs[j].0 == key,
        forall|i: int| 0 <= i < pairs.len() && i != j ==> (#[trigger] pairs[i]).0 != key,
    ensures
        j == pairs.len() - 1 || (pairs.last().0 != key && pairs.drop_last()[j] == pairs[j] && forall|i: int|
            0 <= i < pairs.drop_last().len() && i != j ==> (#[trigger] pairs.drop_last()[i]).0 != key),
{
    if j != pairs.len() - 1 {
        assert(pairs[pairs.len() - 1] == pairs.last());
        assert forall|i: int| 0 <= i < pairs.drop_last().len() && i != j implies (#[trigger] pairs.drop_last()[i]).0 != key by {
            assert(pairs.drop_last()[i] == pairs[i]);
        }
    }
}

proof fn lemma_cookie_theme_unique(pairs: Seq<(Seq<char>, Seq<char>)>, j: int, d: ThemeMode)
    requires
        0 <= j < pairs.len(),
        pairs[j].0 == "ts_theme"@,
        forall|i: int| 0 <= i < pairs.len() && i != j ==> (#[trigger] pairs[i]).0 != "ts_theme"@,
    ensures
        crate::cookie_theme(pairs, d) == match theme_named(pairs[j].1) {
            Some(t) => t,
            None => d,
        },
    decreases pairs.len(),
{
    lemma_unique_name_last(pairs, "ts_theme"@, j);
    if j != pairs.len() - 1 {
        lemma_cookie_theme_unique(pairs.drop_last(), j, d);
    } else {
        lemma_cookie_theme_absent(pairs.drop_last(), d);
        assert forall|i: int| 0 <= i < pairs.drop_last().len() implies (#[trigger] pairs.drop_last()[i]).0 != "ts_theme"@ by {
            assert(pairs.drop_last()[i] == pairs[i]);
        }
    }
}

proof fn lemma_cookie_theme_absent(pairs: Seq<(Seq<char>, Seq<char>)>, d: ThemeMode)
    ensures
        (forall|i: int| 0 <= i < pairs.len() ==> (#[trigger] pairs[i]).0 != "ts_theme"@) ==> crate::cookie_theme(pairs, d) == d,
    decreases pairs.len(),
{
    if pairs.len() > 0 {
        lemma_cookie_theme_absent(pairs.drop_last(), d);
        if forall|i: int| 0 <= i < pairs.len() ==> (#[trigger] pairs[i]).0 != "ts_theme"@ {
            assert(pairs[pairs.len() - 1] == pairs.last());
            assert forall|i: int| 0 <= i < pairs.drop_last().len() implies (#[trigger] pairs.drop_last()[i]).0 != "ts_theme"@ by {
                assert(pairs.drop_last()[i] == pairs[i]);
            }
        }
    }
}

proof fn lemma_cookie_bit_unique(pairs: Seq<(Seq<char>, Seq<char>)>, key: Seq<char>, j: int, d: bool)
    requires
        0 <= j < pairs.len(),
        pairs[j].0 == key,
        forall|i: int| 0 <= i < pairs.len() && i != j ==> (#[trigger] pairs[i]).0 != key,
    ensures
        crate::cookie_bit(pairs, key, d) == (pairs[j].1 == "1"@),
    decreases pairs.len(),
{
    lemma_unique_name_last(pairs, key, j);
    if j != pairs.len() - 1 {
        lemma_cookie_bit_unique(pairs.drop_last(), key, j, d);
    }
}

proof fn lemma_cookie_bit_absent(pairs: Seq<(Seq<char>, Seq<char>)>, key: Seq<char>, d: bool)
    ensures
        (forall|i: int| 0 <= i < pairs.len() ==> (#[trigger] pairs[i]).0 != key) ==> crate::cookie_bit(pairs, key, d) == d,
    decreases pairs.len(),
{
    if pairs.len() > 0 {
        lemma_cookie_bit_absent(pairs.drop_last(), key, d);
        if forall|i: int| 0 <= i < pairs.len() ==> (#[trigger] pairs[i]).0 != key {
            assert(pairs[pairs.len() - 1] == pairs.last());
            assert forall|i: int| 0 <= i < pairs.drop_last().len() implies (#[trigger] pairs.drop_last()[i]).0 != key by {
                assert(pairs.drop_last()[i] == pairs[i]);
            }
        }
    }
}

/// What a chosen setting comes back as, from a table of cookies: the
/// theme `ts_theme` names where it names one, else `d`.
pub open spec fn theme_in(m: Map<Seq<char>, Seq<char>>, d: ThemeMode) -> ThemeMode {
    if m.contains_key("ts_theme"@) {
        match theme_named(m["ts_theme"@]) {
            Some(t) => t,
            None => d,
        }
    } else {
        d
    }
}

/// A switch from a table of cookies: whether `key` says `1`, else `d`.
pub open spec fn bit_in(m: Map<Seq<char>, Seq<char>>, key: Seq<char>, d: bool) -> bool {
    if m.contains_key(key) {
        m[key] == "1"@
    } else {
        d
    }
}

/// A toggle survives the trip back to the next page: the `Cookie` header the
/// shell sends — its merged cookies listed in name order — reads back as
/// exactly those pairs, in that order, so the next page is drawn with the
/// theme and the switches the cookies hold, for cookies a `Set-Cookie` can
/// carry as they are.
pub proof fn law_a_toggle_survives_the_trip(
    names: Seq<Seq<char>>,
    values: Seq<Seq<char>>,
    theme: ThemeMode,
    ln: bool,
    sidebar: bool,
)
    requires
        strictly_sorted(names),
        names.len() == values.len(),
        names.len() > 0,
        forall|i: int| 0 <= i < names.len() ==> storable(#[trigger] names[i], values[i]),
    ensures
        crate::cookie_pairs_of(seq![jar_list(names, values)]) == jar_zip(names, values),
        crate::cookie_theme(crate::cookie_pairs_of(seq![jar_list(names, values)]), theme) == theme_in(table(names, values), theme),
        crate::cookie_bit(crate::cookie_pairs_of(seq![jar_list(names, values)]), "ts_ln"@, ln) == bit_in(table(names, values), "ts_ln"@, ln),
        crate::cookie_bit(crate::cookie_pairs_of(seq![jar_list(names, values)]), "ts_sidebar"@, sidebar) == bit_in(table(names, values), "ts_sidebar"@, sidebar),
{
    let pairs = crate::cookie_pairs_of(seq![jar_list(names, values)]);
    assert(seq![jar_list(names, values)].drop_last() =~= Seq::<Seq<char>>::empty());
    assert(crate::cookie_pairs_of(Seq::<Seq<char>>::empty()) =~= Seq::<(Seq<char>, Seq<char>)>::empty());
    assert(Seq::<(Seq<char>, Seq<char>)>::empty() + crate::util::parsed_cookies(jar_list(names, values))
        =~= crate::util::parsed_cookies(jar_list(names, values)));
    assert(pairs == crate::util::parsed_cookies(jar_list(names, values)));
    lemma_split_list(names, values);
    lemma_cookie_pairs_of_list(names, values, names.len() as int);
    assert(list_pieces(names, values).take(names.len() as int) =~= list_pieces(names, values));
    assert(jar_zip(names, values).take(names.len() as int) =~= jar_zip(names, values));
    let z = jar_zip(names, values);
    let m = table(names, values);
    assert forall|i: int, j: int| 0 <= i < z.len() && 0 <= j < z.len() && i != j implies z[i].0 != z[j].0 by {
        if i < j {
            assert(lex_lt(names[i], names[j]));
        } else {
            assert(lex_lt(names[j], names[i]));
        }
        crate::util::lemma_lex_irreflexive(names[i]);
        crate::util::lemma_lex_irreflexive(names[j]);
    }
    // The theme.
    if m.contains_key("ts_theme"@) {
        let j = names.index_of("ts_theme"@);
        lemma_table_at(names, values, j);
        assert(z[j].0 == "ts_theme"@);
        assert forall|i: int| 0 <= i < z.len() && i != j implies (#[trigger] z[i]).0 != "ts_theme"@ by {
            assert(z[i].0 != z[j].0);
        }
        lemma_cookie_theme_unique(z, j, theme);
    } else {
        assert forall|i: int| 0 <= i < z.len() implies (#[trigger] z[i]).0 != "ts_theme"@ by {
            assert(z[i].0 == names[i]);
            assert(names.contains(names[i]));
        }
        lemma_cookie_theme_absent(z, theme);
    }
    // The two switches.
    if m.contains_key("ts_ln"@) {
        let j = names.index_of("ts_ln"@);
        lemma_table_at(names, values, j);
        assert(z[j].0 == "ts_ln"@);
        assert forall|i: int| 0 <= i < z.len() && i != j implies (#[trigger] z[i]).0 != "ts_ln"@ by {
            assert(z[i].0 != z[j].0);
        }
        lemma_cookie_bit_unique(z, "ts_ln"@, j, ln);
    } else {
        assert forall|i: int| 0 <= i < z.len() implies (#[trigger] z[i]).0 != "ts_ln"@ by {
            assert(z[i].0 == names[i]);
            assert(names.contains(names[i]));
        }
        lemma_cookie_bit_absent(z, "ts_ln"@, ln);
    }
    if m.contains_key("ts_sidebar"@) {
        let j = names.index_of("ts_sidebar"@);
        lemma_table_at(names, values, j);
        assert(z[j].0 == "ts_sidebar"@);
        assert forall|i: int| 0 <= i < z.len() && i != j implies (#[trigger] z[i]).0 != "ts_sidebar"@ by {
            assert(z[i].0 != z[j].0);
        }
        lemma_cookie_bit_unique(z, "ts_sidebar"@, j, sidebar);
    } else {
        assert forall|i: int| 0 <= i < z.len() implies (#[trigger] z[i]).0 != "ts_sidebar"@ by {
            assert(z[i].0 == names[i]);
            assert(names.contains(names[i]));
        }
        lemma_cookie_bit_absent(z, "ts_sidebar"@, sidebar);
    }
}

/// A `Set-Cookie` the server writes is stored as the pair it was written
/// from, for a pair a cookie can carry as it is.
pub proof fn law_a_set_cookie_is_stored_as_written(k: Seq<char>, v: Seq<char>)
    requires
        storable(k, v),
    ensures
        cookie_pair_spec(crate::cookie_line(k, v)) == Some((k, v)),
{
    lemma_entry_shape(k, v);
    let e = entry_text(k, v);
    let line = crate::cookie_line(k, v);
    let tail = "; Path=/; Max-Age=31536000; SameSite=Lax"@;
    reveal_strlit("; Path=/; Max-Age=31536000; SameSite=Lax");
    assert(line =~= e + tail);
    let n = e.len() as int;
    assert(line[n] == ';');
    assert forall|j: int| 0 <= j < n implies line[j] != ';' by {
        assert(line[j] == e[j]);
    }
    crate::util::lemma_first_index_unique(line, ';', n);
    assert(line.take(n) =~= e);
    crate::util::lemma_trimmed_ends(k);
}

/// What the jar writes to its file it reads back as it was: its text, read
/// line by line the way the file is read when the shell starts, holds the
/// same names with the same values — for a jar whose every entry is a pair a
/// cookie can carry as it is.
pub proof fn law_the_jar_reads_back(jar: Jar)
    requires
        jar.well_formed(),
        forall|k: Seq<char>| #[trigger] jar@.contains_key(k) ==> storable(k, jar@[k]),
    ensures
        put_all(Map::empty(), text_pairs(lines_of(jar_lines(jar.names_spec(), jar.values_spec()))))
            == jar@,
{
    jar.lemma_listing();
    let (ns, vs) = (jar.names_spec(), jar.values_spec());
    assert forall|i: int| 0 <= i < ns.len() implies storable(#[trigger] ns[i], vs[i]) by {
        assert(jar@.contains_key(ns[i]));
    }
    lemma_jar_lines_joined(ns, vs);
    let es = jar_entries(ns, vs);
    assert forall|i: int| 0 <= i < es.len() implies whole_line(#[trigger] es[i]) by {
        lemma_entry_reads_back(ns[i], vs[i]);
    }
    lemma_lines_of_joined(es);
    lemma_text_pairs_entries(ns, vs);
    lemma_put_all_zip(ns, vs);
    let m = put_all(Map::empty(), jar_zip(ns, vs));
    assert forall|k: Seq<char>| m.contains_key(k) <==> jar@.contains_key(k) by {
        if m.contains_key(k) {
            let j = ns.index_of(k);
            assert(ns[j] == k);
        }
        if jar@.contains_key(k) {
            let j = ns.index_of(k);
            assert(ns[j] == k);
        }
    }
    assert forall|k: Seq<char>| #[trigger] m.contains_key(k) implies m[k] == jar@[k] by {
        let j = ns.index_of(k);
        assert(ns[j] == k);
    }
    assert(m =~= jar@);
}

/// The cookie pairs a request's own `Cookie` headers carry: every `;`-piece
/// of each, trimmed and read as a pair.
pub open spec fn header_cookie_pairs(values: Seq<Seq<char>>) -> Seq<(Seq<char>, Seq<char>)>
    decreases values.len(),
{
    if values.len() == 0 {
        Seq::empty()
    } else {
        header_cookie_pairs(values.drop_last()) + text_pairs(split(values.last(), ';'))
    }
}

/// The headers that are not `Cookie`, in order.
pub open spec fn non_cookie(hs: Seq<(Seq<char>, Seq<char>)>) -> Seq<(Seq<char>, Seq<char>)>
    decreases hs.len(),
{
    if hs.len() == 0 {
        Seq::empty()
    } else if same_name(hs.last().0, "Cookie"@) {
        non_cookie(hs.drop_last())
    } else {
        non_cookie(hs.drop_last()).push(hs.last())
    }
}

/// The request's headers with the jar's cookies folded into whatever the
/// webview brought. The jar wins where both have an answer; anything the
/// webview sends that the jar has no opinion on is kept. The result's
/// `Cookie`, where there is one, lists the merged cookies in name order.
pub fn with_jar(headers: Vec<(String, String)>, jar: &Jar) -> (r: Vec<(String, String)>)
    ensures
        ({
            let m = merged_cookies(view_pairs(headers@), jar@, jar_pairs(jar));
            if m.dom().len() == 0 {
                view_pairs(r@) == non_cookie(view_pairs(headers@))
            } else {
                exists|ns: Seq<Seq<char>>, vs: Seq<Seq<char>>|
                    #![trigger jar_list(ns, vs)]
                    strictly_sorted(ns) && ns.len() == vs.len() && table(ns, vs) == m
                        && view_pairs(r@) == non_cookie(view_pairs(headers@)).push(
                        ("Cookie"@, jar_list(ns, vs)),
                    )
            }
        }),
{
    let ghost hs = view_pairs(headers@);
    let mut rest: Vec<(String, String)> = Vec::new();
    let mut cookie_values: Vec<String> = Vec::new();
    let mut i: usize = 0;
    while i < headers.len()
        invariant
            i <= headers@.len(),
            hs == view_pairs(headers@),
            view_pairs(rest@) == non_cookie(hs.take(i as int)),
            cookie_values@.map_values(|s: String| s@) == named_values(hs.take(i as int), "Cookie"@),
        decreases headers@.len() - i,
    {
        let (k, v) = &headers[i];
        assert(hs.take(i + 1).drop_last() =~= hs.take(i as int));
        assert(hs.take(i + 1).last() == (k@, v@));
        if eq_ignore_case(k.as_str(), "Cookie") {
            cookie_values.push(v.clone());
            assert(cookie_values@.map_values(|s: String| s@) =~= named_values(
                hs.take(i as int),
                "Cookie"@,
            ).push(v@));
        } else {
            rest.push((k.clone(), v.clone()));
            assert(view_pairs(rest@) =~= non_cookie(hs.take(i as int)).push((k@, v@)));
        }
        i = i + 1;
    }
    assert(hs.take(headers@.len() as int) =~= hs);
    let ghost cv = cookie_values@.map_values(|s: String| s@);
    let mut pairs: Vec<(String, String)> = Vec::new();
    let mut j: usize = 0;
    assert(cv.take(0) =~= Seq::<Seq<char>>::empty());
    while j < cookie_values.len()
        invariant
            j <= cookie_values@.len(),
            cv == cookie_values@.map_values(|s: String| s@),
            view_pairs(pairs@) == header_cookie_pairs(cv.take(j as int)),
        decreases cookie_values@.len() - j,
    {
        let pieces = split_chars(chars_of(cookie_values[j].as_str()).as_slice(), ';');
        let ghost before = view_pairs(pairs@);
        let mut k: usize = 0;
        while k < pieces.len()
            invariant
                k <= pieces@.len(),
                views(pieces@) == split(cv[j as int], ';'),
                view_pairs(pairs@) == before + text_pairs(views(pieces@).take(k as int)),
            decreases pieces@.len() - k,
        {
            let t = string_of(trimmed(pieces[k].as_slice()).as_slice());
            assert(views(pieces@).take(k + 1).drop_last() =~= views(pieces@).take(k as int));
            assert(views(pieces@).take(k + 1).last() == pieces@[k as int]@);
            match cookie_pair(t.as_str()) {
                Some(p) => {
                    let ghost pv = (p.0@, p.1@);
                    let ghost mid = view_pairs(pairs@);
                    pairs.push(p);
                    assert(view_pairs(pairs@) =~= mid.push(pv));
                    assert(view_pairs(pairs@) =~= before + text_pairs(views(pieces@).take(k as int)).push(pv));
                },
                None => {},
            }
            k = k + 1;
        }
        assert(views(pieces@).take(pieces@.len() as int) =~= views(pieces@));
        assert(cv.take(j + 1).drop_last() =~= cv.take(j as int));
        j = j + 1;
    }
    assert(cv.take(cookie_values@.len() as int) =~= cv);
    let mut merged = Jar::new();
    merged.put(pairs);
    let theirs = jar.pairs();
    merged.put(theirs);
    proof {
        use_type_invariant(&merged);
        merged.lemma_table();
    }
    if !merged.is_empty() {
        let list = merged.cookie_list();
        let ghost before = view_pairs(rest@);
        rest.push(("Cookie".to_owned(), list));
        assert(view_pairs(rest@) =~= before.push(("Cookie"@, jar_list(merged.names_spec(), merged.values_spec()))));
    }
    rest
}

/// The cookies a request goes out with: its own `Cookie` headers' pairs, then
/// the jar's entries over them.
pub open spec fn merged_cookies(
    hs: Seq<(Seq<char>, Seq<char>)>,
    jar: Map<Seq<char>, Seq<char>>,
    jar_entries: Seq<(Seq<char>, Seq<char>)>,
) -> Map<Seq<char>, Seq<char>> {
    put_all(put_all(Map::empty(), header_cookie_pairs(named_values(hs, "Cookie"@))), jar_entries)
}

/// A jar's entries in name order.
pub open spec fn jar_pairs(jar: &Jar) -> Seq<(Seq<char>, Seq<char>)> {
    Seq::new(jar.names_spec().len(), |i: int| (jar.names_spec()[i], jar.values_spec()[i]))
}

impl Jar {
    /// The jar is the table of its listing.
    pub proof fn lemma_table(&self)
        requires
            self.well_formed(),
        ensures
            table(self.names_spec(), self.values_spec()) == self@,
            strictly_sorted(self.names_spec()),
            self.names_spec().len() == self.values_spec().len(),
    {
        assert(table(self.names_spec(), self.values_spec()) =~= self@) by {
            assert forall|k: Seq<char>| #[trigger] table(self.names_spec(), self.values_spec()).contains_key(k)
                implies table(self.names_spec(), self.values_spec())[k] == self@[k] by {
                let j = self.names_spec().index_of(k);
                lemma_table_at(self.names_spec(), self.values_spec(), j);
                lemma_table_at(names_of(self.names@), self.values@, j);
            }
        }
    }

    /// The entries, in name order.
    pub fn pairs(&self) -> (r: Vec<(String, String)>)
        ensures
            view_pairs(r@) == jar_pairs(self),
    {
        proof {
            use_type_invariant(self);
        }
        let mut out: Vec<(String, String)> = Vec::new();
        let mut i: usize = 0;
        while i < self.names.len()
            invariant
                i <= self.names@.len(),
                self.names@.len() == self.values@.len(),
                view_pairs(out@) == jar_pairs(self).take(i as int),
            decreases self.names@.len() - i,
        {
            let kc = self.names[i].clone();
            let vc = self.values[i].clone();
            let ghost mid = view_pairs(out@);
            out.push((kc, vc));
            assert(view_pairs(out@) =~= mid.push((self.names@[i as int]@, self.values@[i as int]@)));
            assert(jar_pairs(self)[i as int] == (self.names@[i as int]@, self.values@[i as int]@));
            assert(view_pairs(out@) =~= jar_pairs(self).take(i + 1));
            i = i + 1;
        }
        assert(jar_pairs(self).take(self.names@.len() as int) =~= jar_pairs(self));
        out
    }
}


// ---------------------------------------------------------------------------
// Recent and pinned

/// A path spelled the way the rest of the app spells it: a Windows verbatim
/// prefix (`\\?\C:\…`, `\\?\UNC\server\share`) taken off; anything else,
/// remote ids included, as it is.
pub open spec fn display_id(s: Seq<char>) -> Seq<char> {
    if s.len() >= 8 && s.take(8) == seq!['\\', '\\', '?', '\\', 'U', 'N', 'C', '\\'] {
        seq!['\\', '\\'] + s.skip(8)
    } else if s.len() >= 4 && s.take(4) == seq!['\\', '\\', '?', '\\'] {
        s.skip(4)
    } else {
        s
    }
}

pub fn display_path(s: &str) -> (r: String)
    ensures
        r@ == display_id(s@),
{
    let v = chars_of(s);
    if v.len() >= 8 && v[0] == '\\' && v[1] == '\\' && v[2] == '?' && v[3] == '\\' && v[4] == 'U'
        && v[5] == 'N' && v[6] == 'C' && v[7] == '\\' {
        assert(v@.take(8) =~= seq!['\\', '\\', '?', '\\', 'U', 'N', 'C', '\\']);
        let mut out = String::new();
        push_char(&mut out, '\\');
        push_char(&mut out, '\\');
        let rest = string_of(slice_vec(v.as_slice(), 8, v.len()).as_slice());
        push_str(&mut out, rest.as_str());
        return out;
    }
    proof {
        if v@.len() >= 8 && v@.take(8) == seq!['\\', '\\', '?', '\\', 'U', 'N', 'C', '\\'] {
            assert(v@.take(8)[4] == v@[4]);
            assert(v@.take(8)[0] == v@[0]);
            assert(v@.take(8)[1] == v@[1]);
            assert(v@.take(8)[2] == v@[2]);
            assert(v@.take(8)[3] == v@[3]);
            assert(v@.take(8)[5] == v@[5]);
            assert(v@.take(8)[6] == v@[6]);
            assert(v@.take(8)[7] == v@[7]);
        }
    }
    if v.len() >= 4 && v[0] == '\\' && v[1] == '\\' && v[2] == '?' && v[3] == '\\' {
        assert(v@.take(4) =~= seq!['\\', '\\', '?', '\\']);
        return string_of(slice_vec(v.as_slice(), 4, v.len()).as_slice());
    }
    proof {
        if v@.len() >= 4 && v@.take(4) == seq!['\\', '\\', '?', '\\'] {
            assert(v@.take(4)[0] == v@[0]);
            assert(v@.take(4)[1] == v@[1]);
            assert(v@.take(4)[2] == v@[2]);
            assert(v@.take(4)[3] == v@[3]);
        }
    }
    s.to_owned()
}

/// The Recent file's lines as RootIds: trimmed, blank ones skipped, each
/// spelled as [`display_id`] spells it, at most `RECENT_MAX`.
pub open spec fn recent_spec(ls: Seq<Seq<char>>) -> Seq<Seq<char>>
    decreases ls.len(),
{
    if ls.len() == 0 {
        Seq::empty()
    } else if trim(ls.last()).len() == 0 {
        recent_spec(ls.drop_last())
    } else {
        recent_spec(ls.drop_last()).push(display_id(trim(ls.last())))
    }
}

/// At most the first `RECENT_MAX` of a list.
pub open spec fn recent_capped(s: Seq<Seq<char>>) -> Seq<Seq<char>> {
    if s.len() > RECENT_MAX {
        s.take(RECENT_MAX as int)
    } else {
        s
    }
}

/// The file's lines as RootIds. A line written before ids existed holds the
/// verbatim form, which is a spelling of a local path and not an id, so every
/// line goes through the same normalization a fresh one gets.
pub fn recent_ids(text: &str) -> (r: Vec<String>)
    ensures
        r@.map_values(|s: String| s@) == recent_capped(recent_spec(lines_of(text@))),
{
    let ls = lines(text);
    let ghost lv = views(ls@);
    let mut out: Vec<String> = Vec::new();
    let mut i: usize = 0;
    while i < ls.len()
        invariant
            i <= ls@.len(),
            lv == views(ls@),
            lv == lines_of(text@),
            out@.map_values(|s: String| s@) == recent_spec(lv.take(i as int)),
        decreases ls@.len() - i,
    {
        let t = trimmed(ls[i].as_slice());
        assert(lv.take(i + 1).drop_last() =~= lv.take(i as int));
        assert(lv.take(i + 1).last() == ls@[i as int]@);
        if t.len() > 0 {
            let ts = string_of(t.as_slice());
            let d = display_path(ts.as_str());
            let ghost mid = out@.map_values(|s: String| s@);
            out.push(d);
            assert(out@.map_values(|s: String| s@) =~= mid.push(d@));
        }
        i = i + 1;
    }
    assert(lv.take(ls@.len() as int) =~= lv);
    if out.len() > RECENT_MAX {
        out.truncate(RECENT_MAX);
        assert(out@.map_values(|s: String| s@) =~= recent_capped(recent_spec(lv)));
    }
    out
}

/// The Recent list with `id` at the front: an id already in it moves rather
/// than being added again, and the list keeps at most `RECENT_MAX`.
pub open spec fn front_spec(list: Seq<Seq<char>>, id: Seq<char>) -> Seq<Seq<char>> {
    recent_capped(seq![id] + without(list, id))
}

/// What `without` keeps: every entry but `p`, and never more of them.
proof fn lemma_without_keeps(s: Seq<Seq<char>>, p: Seq<char>, x: Seq<char>)
    ensures
        without(s, p).len() <= s.len(),
        x != p ==> (without(s, p).contains(x) <==> s.contains(x)),
        !without(s, p).contains(p),
        !s.contains(p) ==> without(s, p) == s,
    decreases s.len(),
{
    if s.len() > 0 {
        let init = s.drop_last();
        lemma_without_keeps(init, p, x);
        let w = without(init, p);
        assert(s =~= init.push(s.last()));
        if init.contains(x) {
            let k = init.index_of(x);
            assert(s[k] == x);
        }
        if s.contains(x) && s.last() != x {
            let k = s.index_of(x);
            assert(k < s.len() - 1);
            assert(init[k] == x);
        }
        if s.last() != p {
            let t = w.push(s.last());
            if w.contains(x) {
                let k = w.index_of(x);
                assert(t[k] == x);
            }
            if t.contains(x) && s.last() != x {
                let k = t.index_of(x);
                assert(k < t.len() - 1);
                assert(w[k] == x);
            }
            if t.contains(p) {
                let k = t.index_of(p);
                assert(k < t.len() - 1);
                assert(w[k] == p);
            }
            assert(t.last() == s.last());
        }
        if !s.contains(p) {
            assert(!init.contains(p)) by {
                if init.contains(p) {
                    let k = init.index_of(p);
                    assert(s[k] == p);
                }
            }
            assert(s.last() != p);
        }
    }
}

/// Opening a folder puts it first in Recent and keeps every other folder
/// behind it, in the order they were in, losing only its own older place
/// and what falls past `RECENT_MAX`: a folder new to a list with room grows
/// the list by one, with the old list whole behind it.
pub proof fn law_front_keeps_the_rest(list: Seq<Seq<char>>, id: Seq<char>, x: Seq<char>)
    ensures
        front_spec(list, id).len() >= 1,
        front_spec(list, id)[0] == id,
        front_spec(list, id).len() <= RECENT_MAX,
        !list.contains(id) && list.len() < RECENT_MAX ==> front_spec(list, id) == seq![id] + list,
        list.len() < RECENT_MAX && x != id ==> (front_spec(list, id).contains(x) <==> list.contains(x)),
{
    lemma_without_keeps(list, id, x);
    let w = without(list, id);
    let full = seq![id] + w;
    assert(full[0] == id);
    if list.len() < RECENT_MAX {
        assert(full.len() <= RECENT_MAX);
        assert(front_spec(list, id) == full);
        if w.contains(x) {
            let k = w.index_of(x);
            assert(full[k + 1] == x);
        }
        if full.contains(x) && x != id {
            let k = full.index_of(x);
            assert(k > 0);
            assert(w[k - 1] == x);
        }
    }
}

pub fn with_front(list: Vec<String>, id: &str) -> (r: Vec<String>)
    ensures
        r@.map_values(|s: String| s@) == front_spec(list@.map_values(|s: String| s@), id@),
{
    let ghost items = list@.map_values(|s: String| s@);
    let mut out: Vec<String> = Vec::new();
    out.push(id.to_owned());
    let mut i: usize = 0;
    assert(items.take(0) =~= Seq::<Seq<char>>::empty());
    assert(out@.map_values(|s: String| s@) =~= seq![id@] + without(items.take(0), id@));
    while i < list.len()
        invariant
            i <= list@.len(),
            items == list@.map_values(|s: String| s@),
            out@.map_values(|s: String| s@) == seq![id@] + without(items.take(i as int), id@),
        decreases list@.len() - i,
    {
        assert(items.take(i + 1).drop_last() =~= items.take(i as int));
        assert(items[i as int] == list@[i as int]@);
        if !str_eq(list[i].as_str(), id) {
            let ghost mid = out@.map_values(|s: String| s@);
            out.push(list[i].clone());
            assert(out@.map_values(|s: String| s@) =~= mid.push(list@[i as int]@));
        }
        i = i + 1;
    }
    assert(items.take(list@.len() as int) =~= items);
    if out.len() > RECENT_MAX {
        out.truncate(RECENT_MAX);
        assert(out@.map_values(|s: String| s@) =~= front_spec(items, id@));
    }
    out
}

/// No item of a list occurs twice.
pub open spec fn distinct(s: Seq<Seq<char>>) -> bool {
    forall|i: int, j: int| 0 <= i < j < s.len() ==> #[trigger] s[i] != #[trigger] s[j]
}

proof fn lemma_without(s: Seq<Seq<char>>, p: Seq<char>)
    ensures
        !without(s, p).contains(p),
        without(s, p).len() <= s.len(),
        forall|x: Seq<char>| #[trigger] without(s, p).contains(x) ==> s.contains(x),
        distinct(s) ==> distinct(without(s, p)),
    decreases s.len(),
{
    if s.len() > 0 {
        let init = s.drop_last();
        lemma_without(init, p);
        let w = without(init, p);
        assert forall|x: Seq<char>| #[trigger] without(s, p).contains(x) implies s.contains(x) by {
            if w.contains(x) {
                let k = init.index_of(x);
                assert(s[k] == x);
            } else {
                assert(s[s.len() - 1] == s.last());
            }
        }
        if s.last() != p {
            assert(without(s, p) == w.push(s.last()));
            assert(!without(s, p).contains(p)) by {
                if without(s, p).contains(p) {
                    let k = without(s, p).index_of(p);
                    if k < w.len() {
                        assert(w[k] == p);
                    }
                }
            }
            if distinct(s) {
                assert(distinct(init)) by {
                    assert forall|i: int, j: int| 0 <= i < j < init.len() implies #[trigger] init[i] != #[trigger] init[j] by {
                        assert(init[i] == s[i] && init[j] == s[j]);
                    }
                }
                assert(!w.contains(s.last())) by {
                    if w.contains(s.last()) {
                        let k = init.index_of(s.last());
                        assert(s[k] == s[s.len() - 1]);
                    }
                }
                assert forall|i: int, j: int| 0 <= i < j < without(s, p).len() implies #[trigger] without(s, p)[i]
                    != #[trigger] without(s, p)[j] by {
                    if j == w.len() {
                        assert(w[i] == without(s, p)[i]);
                    } else {
                        assert(w[i] == without(s, p)[i] && w[j] == without(s, p)[j]);
                    }
                }
            }
        } else if distinct(s) {
            assert(distinct(init)) by {
                assert forall|i: int, j: int| 0 <= i < j < init.len() implies #[trigger] init[i] != #[trigger] init[j] by {
                    assert(init[i] == s[i] && init[j] == s[j]);
                }
            }
        }
    }
}

/// A folder opened again moves to the front of Recent rather than being
/// listed twice: it comes first, the list never passes `RECENT_MAX`, no id
/// is in it twice where none was before, and every other id in it was
/// there already.
pub proof fn law_reopened_moves_to_front(list: Seq<Seq<char>>, id: Seq<char>)
    requires
        distinct(list),
    ensures
        front_spec(list, id).len() >= 1,
        front_spec(list, id)[0] == id,
        front_spec(list, id).len() <= RECENT_MAX,
        distinct(front_spec(list, id)),
        forall|i: int| 1 <= i < front_spec(list, id).len() ==> list.contains(#[trigger] front_spec(list, id)[i]),
{
    lemma_without(list, id);
    let w = without(list, id);
    let full = seq![id] + w;
    assert(distinct(full)) by {
        assert forall|i: int, j: int| 0 <= i < j < full.len() implies #[trigger] full[i] != #[trigger] full[j] by {
            if i == 0 {
                assert(full[j] == w[j - 1]);
                assert(w.contains(w[j - 1]));
            } else {
                assert(full[i] == w[i - 1] && full[j] == w[j - 1]);
            }
        }
    }
    assert forall|i: int| 1 <= i < full.len() implies list.contains(#[trigger] full[i]) by {
        assert(full[i] == w[i - 1]);
        assert(w.contains(w[i - 1]));
    }
    let r = front_spec(list, id);
    if full.len() > RECENT_MAX {
        assert(r == full.take(RECENT_MAX as int));
        assert forall|i: int, j: int| 0 <= i < j < r.len() implies #[trigger] r[i] != #[trigger] r[j] by {
            assert(r[i] == full[i] && r[j] == full[j]);
        }
        assert forall|i: int| 1 <= i < r.len() implies list.contains(#[trigger] r[i]) by {
            assert(r[i] == full[i]);
        }
    }
}

/// One line of the pinned file: `label<TAB>id`, split at the *first* tab so
/// an id with a tab in it comes back whole, or a bare id (trimmed) with no
/// label.
pub open spec fn pin_of(line: Seq<char>) -> (Option<Seq<char>>, Seq<char>) {
    match split_once(line, '\t') {
        Some((label, id)) => (Some(label), id),
        None => (None, trim(line)),
    }
}

/// The pinned file's entries: every line that is not blank.
pub open spec fn pins_spec(ls: Seq<Seq<char>>) -> Seq<(Option<Seq<char>>, Seq<char>)>
    decreases ls.len(),
{
    if ls.len() == 0 {
        Seq::empty()
    } else if trim(ls.last()).len() == 0 {
        pins_spec(ls.drop_last())
    } else {
        pins_spec(ls.drop_last()).push(pin_of(ls.last()))
    }
}

/// A pin as plain values.
pub open spec fn pin_view(p: Pin) -> (Option<Seq<char>>, Seq<char>) {
    (
        match p.label {
            Some(l) => Some(l@),
            None => None,
        },
        p.id@,
    )
}

/// The label goes first on purpose: a RootId may legally contain a tab, and
/// splitting at the first tab hands the whole of the rest back as the id.
pub fn pinned_entries(text: &str) -> (r: Vec<Pin>)
    ensures
        r@.map_values(|p: Pin| pin_view(p)) == pins_spec(lines_of(text@)),
{
    let ls = lines(text);
    let ghost lv = views(ls@);
    let mut out: Vec<Pin> = Vec::new();
    let mut i: usize = 0;
    while i < ls.len()
        invariant
            i <= ls@.len(),
            lv == views(ls@),
            lv == lines_of(text@),
            out@.map_values(|p: Pin| pin_view(p)) == pins_spec(lv.take(i as int)),
        decreases ls@.len() - i,
    {
        let line = &ls[i];
        assert(lv.take(i + 1).drop_last() =~= lv.take(i as int));
        assert(lv.take(i + 1).last() == line@);
        let t = trimmed(line.as_slice());
        if t.len() > 0 {
            let pin = match split_once_chars(line.as_slice(), '\t') {
                Some((label, id)) => Pin {
                    id: string_of(id.as_slice()),
                    label: Some(string_of(label.as_slice())),
                },
                None => Pin { id: string_of(t.as_slice()), label: None },
            };
            let ghost pv = pin_view(pin);
            assert(pv == pin_of(line@));
            let ghost mid = out@.map_values(|p: Pin| pin_view(p));
            out.push(pin);
            assert(out@.map_values(|p: Pin| pin_view(p)) =~= mid.push(pv));
        }
        i = i + 1;
    }
    assert(lv.take(ls@.len() as int) =~= lv);
    out
}

/// One entry of the pinned file: the label, a tab and the id, or the bare id.
pub open spec fn pin_line(p: (Option<Seq<char>>, Seq<char>)) -> Seq<char> {
    match p.0 {
        Some(l) => l + seq!['\t'] + p.1,
        None => p.1,
    }
}

/// The pinned list's lines, in order.
pub open spec fn pin_lines(ps: Seq<(Option<Seq<char>>, Seq<char>)>) -> Seq<Seq<char>> {
    ps.map_values(|p: (Option<Seq<char>>, Seq<char>)| pin_line(p))
}

/// The pins of a list, as plain values.
pub open spec fn pin_views(list: Seq<Pin>) -> Seq<(Option<Seq<char>>, Seq<char>)> {
    list.map_values(|p: Pin| pin_view(p))
}

fn copy_pin(p: &Pin) -> (r: Pin)
    ensures
        pin_view(r) == pin_view(*p),
{
    Pin {
        id: p.id.clone(),
        label: match &p.label {
            Some(l) => Some(l.clone()),
            None => None,
        },
    }
}

/// The pinned file: one entry per line, in the order they were pinned.
pub fn pinned_text(list: &[Pin]) -> (r: String)
    ensures
        r@ == joined(pin_lines(pin_views(list@))),
{
    let ghost ls = pin_lines(pin_views(list@));
    let mut out = String::new();
    let mut i: usize = 0;
    assert(ls.take(0) =~= Seq::<Seq<char>>::empty());
    while i < list.len()
        invariant
            i <= list@.len(),
            ls == pin_lines(pin_views(list@)),
            out@ == joined(ls.take(i as int)),
        decreases list@.len() - i,
    {
        let p = &list[i];
        match &p.label {
            Some(l) => {
                push_str(&mut out, l.as_str());
                push_char(&mut out, '\t');
            },
            None => {},
        }
        push_str(&mut out, p.id.as_str());
        push_char(&mut out, '\n');
        assert(ls.take(i + 1).drop_last() =~= ls.take(i as int));
        assert(ls.take(i + 1).last() == pin_line(pin_view(list@[i as int])));
        i = i + 1;
    }
    assert(ls.take(list@.len() as int) =~= ls);
    out
}

/// Whether a list holds a pin of this id.
pub open spec fn pinned_id(ps: Seq<(Option<Seq<char>>, Seq<char>)>, id: Seq<char>) -> bool {
    exists|i: int| 0 <= i < ps.len() && (#[trigger] ps[i]).1 == id
}

/// A label as the pinned file can hold it: every tab a space.
pub open spec fn untabbed(l: Seq<char>) -> Seq<char> {
    l.map_values(|c: char| if c == '\t' { ' ' } else { c })
}

/// Pins a root at the end of the list, under its label with any tab made a
/// space. `None` where the list has it already: nothing to write.
pub fn with_pin(list: &[Pin], id: &str, label: Option<&str>) -> (r: Option<Vec<Pin>>)
    ensures
        pinned_id(pin_views(list@), id@) ==> r is None,
        !pinned_id(pin_views(list@), id@) ==> (r matches Some(v) && pin_views(v@) == pin_views(list@).push(
            (
                match label {
                    Some(l) => Some(untabbed(l@)),
                    None => None,
                },
                id@,
            ),
        )),
{
    let ghost ps = pin_views(list@);
    let mut out: Vec<Pin> = Vec::new();
    let mut i: usize = 0;
    while i < list.len()
        invariant
            i <= list@.len(),
            ps == pin_views(list@),
            pin_views(out@) == ps.take(i as int),
            forall|j: int| 0 <= j < i ==> (#[trigger] ps[j]).1 != id@,
        decreases list@.len() - i,
    {
        if str_eq(list[i].id.as_str(), id) {
            assert(ps[i as int].1 == id@);
            return None;
        }
        let ghost mid = pin_views(out@);
        out.push(copy_pin(&list[i]));
        assert(pin_views(out@) =~= mid.push(ps[i as int]));
        assert(ps.take(i + 1) =~= ps.take(i as int).push(ps[i as int]));
        i = i + 1;
    }
    assert(ps.take(list@.len() as int) =~= ps);
    let label = match label {
        Some(l) => {
            let cs = chars_of(l);
            let mut s = String::new();
            let mut k: usize = 0;
            while k < cs.len()
                invariant
                    k <= cs@.len(),
                    cs@ == l@,
                    s@ == untabbed(l@).take(k as int),
                decreases cs@.len() - k,
            {
                push_char(&mut s, if cs[k] == '\t' { ' ' } else { cs[k] });
                assert(untabbed(l@).take(k + 1) =~= untabbed(l@).take(k as int).push(untabbed(l@)[k as int]));
                k = k + 1;
            }
            assert(untabbed(l@).take(cs@.len() as int) =~= untabbed(l@));
            Some(s)
        },
        None => None,
    };
    let pin = Pin { id: id.to_owned(), label };
    let ghost mid = pin_views(out@);
    out.push(pin);
    assert(pin_views(out@) =~= mid.push(pin_view(pin)));
    Some(out)
}

/// The pins of a list other than those of `id`, in order.
pub open spec fn unpinned(ps: Seq<(Option<Seq<char>>, Seq<char>)>, id: Seq<char>) -> Seq<(Option<Seq<char>>, Seq<char>)>
    decreases ps.len(),
{
    if ps.len() == 0 {
        Seq::empty()
    } else if ps.last().1 == id {
        unpinned(ps.drop_last(), id)
    } else {
        unpinned(ps.drop_last(), id).push(ps.last())
    }
}

/// Drops a root from the pinned list. `None` where the list does not have
/// it: nothing to write.
pub fn without_pin(list: &[Pin], id: &str) -> (r: Option<Vec<Pin>>)
    ensures
        !pinned_id(pin_views(list@), id@) ==> r is None,
        pinned_id(pin_views(list@), id@) ==> (r matches Some(v) && pin_views(v@) == unpinned(pin_views(list@), id@)),
{
    let ghost ps = pin_views(list@);
    let mut out: Vec<Pin> = Vec::new();
    let mut found = false;
    let mut i: usize = 0;
    assert(ps.take(0) =~= Seq::<(Option<Seq<char>>, Seq<char>)>::empty());
    while i < list.len()
        invariant
            i <= list@.len(),
            ps == pin_views(list@),
            pin_views(out@) == unpinned(ps.take(i as int), id@),
            found == pinned_id(ps.take(i as int), id@),
        decreases list@.len() - i,
    {
        let ghost pre = ps.take(i as int);
        assert(ps.take(i + 1).drop_last() =~= pre);
        assert(ps.take(i + 1).last() == ps[i as int]);
        if str_eq(list[i].id.as_str(), id) {
            found = true;
            assert(ps.take(i + 1)[i as int].1 == id@);
        } else {
            let ghost mid = pin_views(out@);
            out.push(copy_pin(&list[i]));
            assert(pin_views(out@) =~= mid.push(ps[i as int]));
        }
        proof {
            if pinned_id(ps.take(i + 1), id@) && !pinned_id(pre, id@) {
                let j = choose|j: int| 0 <= j < ps.take(i + 1).len() && (#[trigger] ps.take(i + 1)[j]).1 == id@;
                if j < i {
                    assert(pre[j] == ps.take(i + 1)[j]);
                }
            }
            if pinned_id(pre, id@) {
                let j = choose|j: int| 0 <= j < pre.len() && (#[trigger] pre[j]).1 == id@;
                assert(ps.take(i + 1)[j] == pre[j]);
            }
        }
        i = i + 1;
    }
    assert(ps.take(list@.len() as int) =~= ps);
    if found {
        Some(out)
    } else {
        None
    }
}

/// A pin the file keeps as it is: its line is a whole line with something
/// besides white space on it, a label holds no tab, and a bare id no tab and
/// no white space at its ends.
pub open spec fn keepable(p: (Option<Seq<char>>, Seq<char>)) -> bool {
    &&& whole_line(pin_line(p))
    &&& trim(pin_line(p)).len() > 0
    &&& match p.0 {
        Some(l) => !l.contains('\t'),
        None => !p.1.contains('\t') && trim(p.1) == p.1,
    }
}

proof fn lemma_pins_of_lines(ps: Seq<(Option<Seq<char>>, Seq<char>)>)
    requires
        forall|i: int| 0 <= i < ps.len() ==> keepable(#[trigger] ps[i]),
    ensures
        pins_spec(pin_lines(ps)) == ps,
    decreases ps.len(),
{
    if ps.len() > 0 {
        let init = ps.drop_last();
        assert forall|i: int| 0 <= i < init.len() implies keepable(#[trigger] init[i]) by {
            assert(init[i] == ps[i]);
        }
        lemma_pins_of_lines(init);
        assert(pin_lines(ps).drop_last() =~= pin_lines(init));
        let p = ps.last();
        assert(keepable(ps[ps.len() - 1]));
        let line = pin_line(p);
        assert(pin_lines(ps).last() == line);
        match p.0 {
            Some(l) => {
                let n = l.len() as int;
                assert forall|j: int| 0 <= j < n implies line[j] != '\t' by {
                    assert(line[j] == l[j]);
                }
                crate::util::lemma_first_index_unique(line, '\t', n);
                assert(line.take(n) =~= l);
                assert(line.skip(n + 1) =~= p.1);
            },
            None => {
                assert forall|j: int| 0 <= j < line.len() implies line[j] != '\t' by {
                    assert(!p.1.contains('\t'));
                }
                crate::util::lemma_first_index_none(line, '\t');
            },
        }
        assert(pin_of(line) == p);
    }
}

/// The pinned list reads back as it was written: every pin the file can keep
/// comes back with the same label and the same id, in the same order.
pub proof fn law_pins_read_back(ps: Seq<(Option<Seq<char>>, Seq<char>)>)
    requires
        forall|i: int| 0 <= i < ps.len() ==> keepable(#[trigger] ps[i]),
    ensures
        pins_spec(lines_of(joined(pin_lines(ps)))) == ps,
{
    assert forall|i: int| 0 <= i < pin_lines(ps).len() implies whole_line(#[trigger] pin_lines(ps)[i]) by {
        assert(keepable(ps[i]));
    }
    lemma_lines_of_joined(pin_lines(ps));
    lemma_pins_of_lines(ps);
}

/// Unpinning a root just pinned gives the list back as it was.
pub proof fn law_unpin_undoes_pin(ps: Seq<(Option<Seq<char>>, Seq<char>)>, id: Seq<char>, label: Option<Seq<char>>)
    requires
        !pinned_id(ps, id),
    ensures
        unpinned(ps.push((label, id)), id) == ps,
{
    lemma_unpinned_absent(ps, id);
    assert(ps.push((label, id)).drop_last() =~= ps);
}

proof fn lemma_unpinned_absent(ps: Seq<(Option<Seq<char>>, Seq<char>)>, id: Seq<char>)
    requires
        !pinned_id(ps, id),
    ensures
        unpinned(ps, id) == ps,
    decreases ps.len(),
{
    if ps.len() > 0 {
        let init = ps.drop_last();
        assert(!pinned_id(init, id)) by {
            if pinned_id(init, id) {
                let j = choose|j: int| 0 <= j < init.len() && (#[trigger] init[j]).1 == id;
                assert(ps[j] == init[j]);
            }
        }
        lemma_unpinned_absent(init, id);
        assert(ps.last().1 != id) by {
            assert(ps[ps.len() - 1] == ps.last());
        }
        assert(init.push(ps.last()) =~= ps);
    }
}

/// The Recent file: one id per line, newest first.
pub fn recent_text(list: &[String]) -> (r: String)
    ensures
        r@ == joined(names_of(list@)),
{
    let ghost ls = names_of(list@);
    let mut out = String::new();
    let mut i: usize = 0;
    assert(ls.take(0) =~= Seq::<Seq<char>>::empty());
    while i < list.len()
        invariant
            i <= list@.len(),
            ls == names_of(list@),
            out@ == joined(ls.take(i as int)),
        decreases list@.len() - i,
    {
        push_str(&mut out, list[i].as_str());
        push_char(&mut out, '\n');
        assert(ls.take(i + 1).drop_last() =~= ls.take(i as int));
        assert(ls.take(i + 1).last() == list@[i as int]@);
        i = i + 1;
    }
    assert(ls.take(list@.len() as int) =~= ls);
    out
}

/// An id Recent keeps as it is: on a line of its own, not blank, no white
/// space at its ends, and spelled the way ids are spelled.
pub open spec fn recent_keepable(id: Seq<char>) -> bool {
    &&& !id.contains('\n')
    &&& id.len() > 0
    &&& trim(id) == id
    &&& display_id(id) == id
}

proof fn lemma_recent_of_lines(ls: Seq<Seq<char>>)
    requires
        forall|i: int| 0 <= i < ls.len() ==> recent_keepable(#[trigger] ls[i]),
    ensures
        recent_spec(ls) == ls,
    decreases ls.len(),
{
    if ls.len() > 0 {
        let init = ls.drop_last();
        assert forall|i: int| 0 <= i < init.len() implies recent_keepable(#[trigger] init[i]) by {
            assert(init[i] == ls[i]);
        }
        lemma_recent_of_lines(init);
        assert(recent_keepable(ls[ls.len() - 1]));
        assert(init.push(ls.last()) =~= ls);
    }
}

/// Recent reads back as it was written, for a list no longer than it keeps
/// and ids spelled as ids are.
pub proof fn law_recent_reads_back(ids: Seq<Seq<char>>)
    requires
        ids.len() <= RECENT_MAX,
        forall|i: int| 0 <= i < ids.len() ==> recent_keepable(#[trigger] ids[i]),
    ensures
        recent_capped(recent_spec(lines_of(joined(ids)))) == ids,
{
    assert forall|i: int| 0 <= i < ids.len() implies whole_line(#[trigger] ids[i]) by {
        assert(recent_keepable(ids[i]));
        if ids[i].last() == '\r' {
            crate::util::lemma_trimmed_ends(ids[i]);
        }
    }
    lemma_lines_of_joined(ids);
    lemma_recent_of_lines(ids);
}

/// Recent without `id`. `None` where it was not in the list: nothing to
/// write.
pub fn forgotten(list: &[String], id: &str) -> (r: Option<Vec<String>>)
    ensures
        !names_of(list@).contains(id@) ==> r is None,
        names_of(list@).contains(id@) ==> (r matches Some(v) && names_of(v@) == without(names_of(list@), id@)),
{
    let ghost ls = names_of(list@);
    let mut out: Vec<String> = Vec::new();
    let mut found = false;
    let mut i: usize = 0;
    assert(ls.take(0) =~= Seq::<Seq<char>>::empty());
    while i < list.len()
        invariant
            i <= list@.len(),
            ls == names_of(list@),
            names_of(out@) == without(ls.take(i as int), id@),
            found == ls.take(i as int).contains(id@),
        decreases list@.len() - i,
    {
        let ghost pre = ls.take(i as int);
        assert(ls.take(i + 1).drop_last() =~= pre);
        assert(ls.take(i + 1).last() == list@[i as int]@);
        if str_eq(list[i].as_str(), id) {
            found = true;
            assert(ls.take(i + 1)[i as int] == id@);
        } else {
            let ghost mid = names_of(out@);
            out.push(list[i].clone());
            assert(names_of(out@) =~= mid.push(list@[i as int]@));
        }
        proof {
            if ls.take(i + 1).contains(id@) && !pre.contains(id@) {
                let j = ls.take(i + 1).index_of(id@);
                if j < i {
                    assert(pre[j] == ls.take(i + 1)[j]);
                }
            }
            if pre.contains(id@) {
                let j = pre.index_of(id@);
                assert(ls.take(i + 1)[j] == pre[j]);
            }
        }
        i = i + 1;
    }
    assert(ls.take(list@.len() as int) =~= ls);
    if found {
        Some(out)
    } else {
        None
    }
}

/// The first header of a reply with this name, ASCII case aside.
pub fn reply_header(reply: &Reply, name: &str) -> (r: Option<String>)
    ensures
        match r {
            Some(v) => named_values(view_pairs(reply.headers@), name@).len() > 0 && v@
                == named_values(view_pairs(reply.headers@), name@)[0],
            None => named_values(view_pairs(reply.headers@), name@).len() == 0,
        },
{
    let ghost hs = view_pairs(reply.headers@);
    let mut i: usize = 0;
    while i < reply.headers.len()
        invariant
            i <= reply.headers@.len(),
            hs == view_pairs(reply.headers@),
            named_values(hs.take(i as int), name@).len() == 0,
        decreases reply.headers@.len() - i,
    {
        let (k, v) = &reply.headers[i];
        assert(hs.take(i + 1).drop_last() =~= hs.take(i as int));
        if eq_ignore_case(k.as_str(), name) {
            proof {
                crate::lemma_named_values_append(hs.take(i + 1), hs.skip(i + 1), name@);
                assert(hs.take(i + 1) + hs.skip(i + 1) =~= hs);
            }
            return Some(v.clone());
        }
        i = i + 1;
    }
    assert(hs.take(reply.headers@.len() as int) =~= hs);
    None
}

/// Why a folder did not open, in the words the pane uses for the same thing.
pub open spec fn cannot_open_spec(path: Seq<char>, status: RootStatus) -> Seq<char> {
    match status {
        RootStatus::Unreachable => path + " is not available.\n\nThe drive or share did not answer."@,
        _ => path + " is no longer there."@,
    }
}

pub fn cannot_open(path: &str, status: RootStatus) -> (r: String)
    ensures
        r@ == cannot_open_spec(path@, status),
{
    let mut out = path.to_owned();
    match status {
        RootStatus::Unreachable => push_str(
            &mut out,
            " is not available.\n\nThe drive or share did not answer.",
        ),
        _ => push_str(&mut out, " is no longer there."),
    }
    out
}

/// The window's title: the root's name, or its last component, or the whole
/// id, then the program's name; the program's name alone with nothing open.
pub open spec fn window_title_spec(
    app_name: Option<String>,
    root_id: Option<Seq<char>>,
    root_name: Option<String>,
    windows_like: bool,
) -> Seq<char> {
    let app = or_default(app_name, pkg_name());
    match root_id {
        None => app,
        Some(id) => match root_name {
            Some(n) => n@ + " \u{2014} "@ + app,
            None => match leaf(id, windows_like) {
                Some(n) => n + " \u{2014} "@ + app,
                None => id + " \u{2014} "@ + app,
            },
        },
    }
}

pub fn window_title<V>(cfg: &Config<V>) -> (r: String)
    ensures
        r@ == window_title_spec(
            cfg.app_name,
            match cfg.root {
                Some(root) => Some(root.id@),
                None => None,
            },
            cfg.root_name,
            cfg.windows_like,
        ),
{
    let app = match &cfg.app_name {
        Some(n) => n.clone(),
        None => "treeserve".to_owned(),
    };
    let root = match cfg.root() {
        Some(root) => root,
        None => {
            return app;
        },
    };
    let mut out = match cfg.root_name() {
        Some(n) => n,
        None => match leaf_of(root.id.as_str(), cfg.windows_like) {
            Some(n) => n.to_owned(),
            None => root.id.clone(),
        },
    };
    push_str(&mut out, " \u{2014} ");
    push_str(&mut out, app.as_str());
    out
}


// ---------------------------------------------------------------------------
// The shell's own routes

/// What the shell does with a link to one of its own routes. Every one of
/// them is a link this server has no route for; the shell intercepts it.
#[derive(Debug, PartialEq, Eq)]
pub enum ShellAction {
    /// Ask the platform for a folder.
    AskForFolder,
    /// Back to the start page.
    CloseFolder,
    /// Run a line of script in the window.
    Eval(&'static str),
    /// A preference or a tree toggle: the router answers, the shell reloads.
    SetPref,
    /// Pin whatever is open, then reload.
    PinOpen,
    /// Unpin the named root, or whatever is open when none is named.
    Unpin(Option<String>),
    /// Forget a Recent row.
    Forget(String),
    /// Open the built-in usage pages.
    OpenUsage,
    /// Open a local folder, remembering it in Recent or not.
    OpenRoot { dir: String, remember: bool },
    /// Say why nothing happened.
    Fail(String),
    /// Not one of the shell's routes: the navigation goes ahead.
    NotOurs,
}

/// The action for a route, given the URL's path and its first `path` query
/// value, decoded.
pub open spec fn action_spec(path: Seq<char>, param: Option<Seq<char>>) -> ShellAction {
    if path == "/.ts/open"@ {
        ShellAction::AskForFolder
    } else if path == "/.ts/close"@ {
        ShellAction::CloseFolder
    } else if path == "/.ts/back"@ {
        ShellAction::Eval("history.back()")
    } else if path == "/.ts/reload"@ {
        ShellAction::Eval("location.reload()")
    } else if path == "/.ts/print"@ {
        ShellAction::Eval("window.print()")
    } else if path == "/.ts/set"@ || path == "/.ts/tree"@ {
        ShellAction::SetPref
    } else if path == "/.ts/pin"@ {
        ShellAction::PinOpen
    } else {
        ShellAction::NotOurs
    }
}

/// Where a route goes, decided. Opening a folder that is really the usage
/// tree opens the usage tree; a remote id that reaches here means no
/// extension claimed it, and is refused in words rather than coerced into a
/// local path.
pub fn shell_route(path: &str, param: Option<&str>) -> (r: ShellAction)
    ensures
        path@ == "/.ts/unpin"@ ==> (r matches ShellAction::Unpin(x) && (match (x, param) {
            (Some(a), Some(p)) => a@ == trim(p@),
            (None, None) => true,
            _ => false,
        })),
        path@ == "/.ts/forget"@ ==> match param {
            Some(p) => r matches ShellAction::Forget(x) && x@ == trim(p@),
            None => r matches ShellAction::Fail(m) && m@ == "No folder in that link."@,
        },
        (path@ == "/.ts/root"@ || path@ == "/.ts/place"@) ==> match param {
            Some(p) => {
                let t = trim(p@);
                if t.len() >= 7 && t.take(7) == "usage:/"@ {
                    r == ShellAction::OpenUsage
                } else if !id_is_local(t) {
                    r matches ShellAction::Fail(m) && m@ == "Nothing here can open "@ + t + "."@
                } else {
                    r matches ShellAction::OpenRoot { dir, remember } && dir@ == t && remember == (
                    path@ == "/.ts/root"@)
                }
            },
            None => r matches ShellAction::Fail(m) && m@ == "No folder in that link."@,
        },
        !(path@ == "/.ts/unpin"@ || path@ == "/.ts/forget"@ || path@ == "/.ts/root"@ || path@
            == "/.ts/place"@) ==> r == action_spec(path@, None),
{
    proof {
        reveal_strlit("/.ts/open");
        reveal_strlit("/.ts/close");
        reveal_strlit("/.ts/back");
        reveal_strlit("/.ts/reload");
        reveal_strlit("/.ts/print");
        reveal_strlit("/.ts/set");
        reveal_strlit("/.ts/tree");
        reveal_strlit("/.ts/pin");
        reveal_strlit("/.ts/unpin");
        reveal_strlit("/.ts/forget");
        reveal_strlit("/.ts/root");
        reveal_strlit("/.ts/place");
        assert("/.ts/open"@.len() == 9 && "/.ts/open"@[5] == 'o' && "/.ts/open"@[6] == 'p');
        assert("/.ts/close"@.len() == 10 && "/.ts/close"@[5] == 'c' && "/.ts/close"@[6] == 'l');
        assert("/.ts/back"@.len() == 9 && "/.ts/back"@[5] == 'b' && "/.ts/back"@[6] == 'a');
        assert("/.ts/reload"@.len() == 11 && "/.ts/reload"@[5] == 'r' && "/.ts/reload"@[6] == 'e');
        assert("/.ts/print"@.len() == 10 && "/.ts/print"@[5] == 'p' && "/.ts/print"@[6] == 'r');
        assert("/.ts/set"@.len() == 8 && "/.ts/set"@[5] == 's' && "/.ts/set"@[6] == 'e');
        assert("/.ts/tree"@.len() == 9 && "/.ts/tree"@[5] == 't' && "/.ts/tree"@[6] == 'r');
        assert("/.ts/pin"@.len() == 8 && "/.ts/pin"@[5] == 'p' && "/.ts/pin"@[6] == 'i');
        assert("/.ts/unpin"@.len() == 10 && "/.ts/unpin"@[5] == 'u' && "/.ts/unpin"@[6] == 'n');
        assert("/.ts/forget"@.len() == 11 && "/.ts/forget"@[5] == 'f' && "/.ts/forget"@[6] == 'o');
        assert("/.ts/root"@.len() == 9 && "/.ts/root"@[5] == 'r' && "/.ts/root"@[6] == 'o');
        assert("/.ts/place"@.len() == 10 && "/.ts/place"@[5] == 'p' && "/.ts/place"@[6] == 'l');
    }
    if str_eq(path, "/.ts/open") {
        ShellAction::AskForFolder
    } else if str_eq(path, "/.ts/close") {
        ShellAction::CloseFolder
    } else if str_eq(path, "/.ts/back") {
        ShellAction::Eval("history.back()")
    } else if str_eq(path, "/.ts/reload") {
        ShellAction::Eval("location.reload()")
    } else if str_eq(path, "/.ts/print") {
        ShellAction::Eval("window.print()")
    } else if str_eq(path, "/.ts/set") || str_eq(path, "/.ts/tree") {
        ShellAction::SetPref
    } else if str_eq(path, "/.ts/pin") {
        ShellAction::PinOpen
    } else if str_eq(path, "/.ts/unpin") {
        match param {
            Some(p) => ShellAction::Unpin(Some(string_of(trimmed(chars_of(p).as_slice()).as_slice()))),
            None => ShellAction::Unpin(None),
        }
    } else if str_eq(path, "/.ts/forget") {
        match param {
            Some(p) => ShellAction::Forget(string_of(trimmed(chars_of(p).as_slice()).as_slice())),
            None => ShellAction::Fail("No folder in that link.".to_owned()),
        }
    } else if str_eq(path, "/.ts/root") || str_eq(path, "/.ts/place") {
        match param {
            Some(p) => {
                let t = string_of(trimmed(chars_of(p).as_slice()).as_slice());
                if claims(t.as_str()) {
                    ShellAction::OpenUsage
                } else if !root_id_is_local(t.as_str()) {
                    let mut m = String::new();
                    push_str(&mut m, "Nothing here can open ");
                    push_str(&mut m, t.as_str());
                    push_char(&mut m, '.');
                    proof {
                        reveal_strlit(".");
                    }
                    ShellAction::Fail(m)
                } else {
                    ShellAction::OpenRoot { dir: t, remember: str_eq(path, "/.ts/root") }
                }
            },
            None => ShellAction::Fail("No folder in that link.".to_owned()),
        }
    } else {
        ShellAction::NotOurs
    }
}

// ---------------------------------------------------------------------------
// What a failed look at a shortcut means

/// OS error codes that mean the thing is there but did not answer: on
/// Windows not ready, a bad or deleted network path, a network that is down
/// or unreachable; elsewhere no device, a network down or unreachable, a
/// timeout, a host down or unreachable, a stale mount.
pub open spec fn unreachable_code_spec(code: i32, windows: bool) -> bool {
    if windows {
        code == 21 || code == 53 || code == 55 || code == 59 || code == 64 || code == 67
            || code == 1222 || code == 1231
    } else {
        code == 19 || code == 100 || code == 101 || code == 110 || code == 112 || code == 113
            || code == 116
    }
}

/// What a failed look at a shortcut says of it, from the error's OS code and
/// whether its kind is "not found": gone where nothing is there, unreachable
/// where something did not answer — by code first, since a network path
/// nobody answers for is reported as not found too.
pub open spec fn classify_spec(code: Option<i32>, not_found: bool, windows: bool) -> RootStatus {
    if code matches Some(c) && unreachable_code_spec(c, windows) {
        RootStatus::Unreachable
    } else if not_found {
        RootStatus::Missing
    } else {
        RootStatus::Unreachable
    }
}

pub fn classify_error(code: Option<i32>, not_found: bool, windows: bool) -> (r: RootStatus)
    ensures
        r == classify_spec(code, not_found, windows),
{
    let unreachable = match code {
        Some(c) => if windows {
            c == 21 || c == 53 || c == 55 || c == 59 || c == 64 || c == 67 || c == 1222 || c == 1231
        } else {
            c == 19 || c == 100 || c == 101 || c == 110 || c == 112 || c == 113 || c == 116
        },
        None => false,
    };
    if unreachable {
        RootStatus::Unreachable
    } else if not_found {
        RootStatus::Missing
    } else {
        RootStatus::Unreachable
    }
}

// ---------------------------------------------------------------------------
// Downloads

/// The name a saved file is offered under: the last segment of its path,
/// nothing for the root.
pub open spec fn last_segment(rel: Seq<Seq<char>>) -> Seq<char> {
    if rel.len() > 0 {
        rel.last()
    } else {
        Seq::<char>::empty()
    }
}

/// What a "Download" link saves, given how its path resolved and whether the
/// backend calls what it resolved to a file: the resolved path and the name
/// of its last segment where it resolved to a file, nothing otherwise.
pub fn save_choice(resolved: Result<crate::Resolved, crate::PathError>, is_file: bool) -> (r: Option<(crate::vfs::VfsPath, String)>)
    ensures
        match resolved {
            Ok(res) => if is_file {
                r matches Some((p, name)) && p@ == res.path@ && name@ == last_segment(res.rel@.map_values(|s: String| s@))
            } else {
                r is None
            },
            Err(_) => r is None,
        },
{
    let res = match resolved {
        Ok(res) => res,
        Err(_) => return None,
    };
    if !is_file {
        return None;
    }
    let n = res.rel.len();
    let name = if n > 0 {
        res.rel[n - 1].clone()
    } else {
        String::new()
    };
    Some((res.path, name))
}

/// What a "Download" link saves: the file its path resolves to inside the
/// root, through the same checks a page gets, and the name to offer for it,
/// the path's last segment. `None` where the path does not resolve, or
/// resolves to something that is not a file: the navigation then goes ahead.
/// Which paths resolve, and to what, is the backend's answer; what is made
/// of the answer is [`save_choice`].
pub fn save_target<V: crate::vfs::Vfs>(vfs: &V, url_path: &str) -> (r: Option<(crate::vfs::VfsPath, String)>)
    ensures
        crate::url_segments_spec(url_path@) is None ==> r is None,
        r matches Some((p, name)) ==> (crate::url_segments_spec(url_path@) matches Some(rel) && name@ == last_segment(rel)),
{
    let resolved = crate::resolve_in_root(vfs, url_path);
    let is_file = match &resolved {
        Ok(res) => match vfs.metadata(&res.path) {
            Ok(m) => m.is_file,
            Err(_) => false,
        },
        Err(_) => false,
    };
    save_choice(resolved, is_file)
}

/// Whether a link's query asks for a copy: a `dl=1` pair, percent-decoded.
pub open spec fn asks_download(q: Seq<(Seq<char>, Seq<char>)>) -> bool {
    exists|i: int| 0 <= i < q.len() && #[trigger] q[i] == ("dl"@, "1"@)
}

pub fn is_download_query(query: &[(String, String)]) -> (r: bool)
    ensures
        r == asks_download(view_pairs(query@)),
{
    let ghost q = view_pairs(query@);
    let mut i: usize = 0;
    while i < query.len()
        invariant
            i <= query@.len(),
            q == view_pairs(query@),
            forall|j: int| 0 <= j < i ==> q[j] != ("dl"@, "1"@),
        decreases query@.len() - i,
    {
        let (k, v) = &query[i];
        if str_eq(k.as_str(), "dl") && str_eq(v.as_str(), "1") {
            assert(q[i as int] == ("dl"@, "1"@));
            return true;
        }
        assert(q[i as int] == (k@, v@));
        i = i + 1;
    }
    false
}

/// The name a saved copy is offered under: the link's last path segment,
/// percent-decoded, or `download` where there is none.
pub open spec fn download_name_spec(last: Option<Seq<char>>) -> Seq<char> {
    match last {
        Some(s) => if s.len() > 0 {
            crate::util::pct_decode_text(s)
        } else {
            "download"@
        },
        None => "download"@,
    }
}

pub fn download_name(last: Option<&str>) -> (r: String)
    ensures
        r@ == download_name_spec(
            match last {
                Some(s) => Some(s@),
                None => None,
            },
        ),
{
    match last {
        Some(s) => if chars_of(s).len() > 0 {
            crate::util::percent_decode(s)
        } else {
            "download".to_owned()
        },
        None => "download".to_owned(),
    }
}

// ---------------------------------------------------------------------------
// Pruning Recent

/// The Recent file without the ids that are gone: each line trimmed, blank
/// ones dropped, and a line kept unless its id — spelled as [`display_id`]
/// spells it — is one of `gone`; each kept line ends in a newline.
pub open spec fn kept_lines(ls: Seq<Seq<char>>, gone: Seq<Seq<char>>) -> Seq<char>
    decreases ls.len(),
{
    if ls.len() == 0 {
        Seq::empty()
    } else {
        let l = trim(ls.last());
        kept_lines(ls.drop_last(), gone) + (if l.len() > 0 && !gone.contains(display_id(l)) {
            l.push('\n')
        } else {
            Seq::empty()
        })
    }
}

fn holds_string(v: &[String], s: &str) -> (r: bool)
    ensures
        r == v@.map_values(|x: String| x@).contains(s@),
{
    let ghost vv = v@.map_values(|x: String| x@);
    let mut i: usize = 0;
    while i < v.len()
        invariant
            i <= v@.len(),
            vv == v@.map_values(|x: String| x@),
            forall|j: int| 0 <= j < i ==> vv[j] != s@,
        decreases v@.len() - i,
    {
        if str_eq(v[i].as_str(), s) {
            assert(vv[i as int] == s@);
            return true;
        }
        i = i + 1;
    }
    false
}

/// What the Recent file holds once the ids in `gone` are dropped from it.
pub fn pruned_recent(text: &str, gone: &[String]) -> (r: String)
    ensures
        r@ == kept_lines(lines_of(text@), gone@.map_values(|x: String| x@)),
{
    let ls = lines(text);
    let ghost lv = views(ls@);
    let ghost gv = gone@.map_values(|x: String| x@);
    let mut out = String::new();
    let mut i: usize = 0;
    assert(lv.take(0) =~= Seq::<Seq<char>>::empty());
    while i < ls.len()
        invariant
            i <= ls@.len(),
            lv == views(ls@),
            lv == lines_of(text@),
            gv == gone@.map_values(|x: String| x@),
            out@ == kept_lines(lv.take(i as int), gv),
        decreases ls@.len() - i,
    {
        let t = trimmed(ls[i].as_slice());
        assert(lv.take(i + 1).drop_last() =~= lv.take(i as int));
        assert(lv.take(i + 1).last() == ls@[i as int]@);
        if t.len() > 0 {
            let ts = string_of(t.as_slice());
            let d = display_path(ts.as_str());
            if !holds_string(gone, d.as_str()) {
                push_str(&mut out, ts.as_str());
                push_char(&mut out, '\n');
            }
        }
        i = i + 1;
    }
    assert(lv.take(ls@.len() as int) =~= lv);
    out
}


// ---------------------------------------------------------------------------
// Where a navigation goes

/// The paths the shell answers itself rather than letting the window load.
pub open spec fn shell_path(path: Seq<char>) -> bool {
    action_spec(path, None) != ShellAction::NotOurs || path == "/.ts/unpin"@ || path == "/.ts/forget"@
        || path == "/.ts/root"@ || path == "/.ts/place"@
}

/// What becomes of a navigation the window was about to make.
#[derive(Debug, PartialEq, Eq, Structural)]
pub enum Navigation {
    /// One of the shell's own controls: cancelled, and [`shell_route`] says
    /// what to do instead.
    Shell,
    /// A "Download" link: cancelled where the link names a file the shell can
    /// save, and loaded otherwise.
    Download,
    /// A page of ours or of an origin an extension declared: loaded.
    Load,
    /// Anywhere else: cancelled, and handed to the user's browser.
    Browser,
}

/// The decision, from whether the shell's origins admit the URL, whether an
/// extension's do, the URL's path and whether its query asks for a copy.
pub open spec fn navigation_spec(shell: bool, extension: bool, path: Seq<char>, download: bool) -> Navigation {
    if shell {
        if shell_path(path) {
            Navigation::Shell
        } else if download {
            Navigation::Download
        } else {
            Navigation::Load
        }
    } else if extension {
        Navigation::Load
    } else {
        Navigation::Browser
    }
}

/// Where a navigation goes: the page's own controls to the shell, a
/// download to a Save dialog, a page of ours or of a declared origin into the
/// window, and everything else out to the browser. Origins are matched by
/// scheme where they are opaque and by the whole origin where they are not,
/// never by prefix.
pub fn navigation(
    shell: &[String],
    extension: &[String],
    scheme: &str,
    origin: &str,
    path: &str,
    query: &[(String, String)],
) -> (r: Navigation)
    ensures
        r == navigation_spec(
            exists|i: int| 0 <= i < shell@.len() && #[trigger] origin_admits(shell@[i]@, scheme@, origin@),
            exists|i: int| 0 <= i < extension@.len() && #[trigger] origin_admits(extension@[i]@, scheme@, origin@),
            path@,
            asks_download(view_pairs(query@)),
        ),
{
    if origin_allowed(shell, scheme, origin) {
        let routed = match shell_route(path, None) {
            ShellAction::NotOurs => false,
            _ => true,
        };
        let ours = routed || str_eq(path, "/.ts/unpin")
            || str_eq(path, "/.ts/forget") || str_eq(path, "/.ts/root") || str_eq(path, "/.ts/place");
        proof {
            reveal_strlit("/.ts/unpin");
            reveal_strlit("/.ts/forget");
            reveal_strlit("/.ts/root");
            reveal_strlit("/.ts/place");
        }
        if ours {
            Navigation::Shell
        } else if is_download_query(query) {
            Navigation::Download
        } else {
            Navigation::Load
        }
    } else if origin_allowed(extension, scheme, origin) {
        Navigation::Load
    } else {
        Navigation::Browser
    }
}

/// A URL as the router speaks it: the path, and the query after a `?` where
/// there is one.
pub fn path_and_query(path: &str, query: Option<&str>) -> (r: String)
    ensures
        r@ == match query {
            Some(q) => path@ + seq!['?'] + q@,
            None => path@,
        },
{
    let mut out = path.to_owned();
    match query {
        Some(q) => {
            push_char(&mut out, '?');
            push_str(&mut out, q);
        },
        None => {},
    }
    out
}

/// The page that says a folder is being opened, for as long as opening it
/// takes: the wait route on the shell's origin, the folder's id
/// percent-encoded.
pub fn wait_url(origin: &str, dir: &str) -> (r: String)
    ensures
        r@ == origin@ + "/.ts/wait?path="@ + crate::util::pct_encoded(vstd::utf8::encode_utf8(display_id(dir@))),
{
    let id = display_path(dir);
    let enc = crate::util::percent_encode(id.as_str());
    let mut out = origin.to_owned();
    push_str(&mut out, "/.ts/wait?path=");
    push_str(&mut out, enc.as_str());
    out
}

/// After a preference route: put the page back on screen.
#[derive(Debug, PartialEq, Eq)]
pub enum PrefStep {
    /// The page it was clicked on is the one to go back to: reload it, which
    /// keeps the reader's place and keeps Back meaning what it meant.
    Reload,
    /// Somewhere else: go there.
    Navigate(String),
}

/// Reload where the window is on the page the reply sends it back to, and
/// navigate to that page on the shell's origin otherwise.
pub fn pref_step(here: Option<&str>, back: &str, origin: &str) -> (r: PrefStep)
    ensures
        (here matches Some(h) && h@ == back@) ==> r == PrefStep::Reload,
        !(here matches Some(h) && h@ == back@) ==> (r matches PrefStep::Navigate(u) && u@ == origin@ + back@),
{
    match here {
        Some(h) => {
            if str_eq(h, back) {
                return PrefStep::Reload;
            }
        },
        None => {},
    }
    let mut u = origin.to_owned();
    push_str(&mut u, back);
    PrefStep::Navigate(u)
}

// ---------------------------------------------------------------------------
// Finding out about the shortcuts

/// The ids of a list of labelled places.
pub open spec fn place_ids(places: Seq<(String, String)>) -> Seq<Seq<char>> {
    places.map_values(|p: (String, String)| p.1@)
}

/// The local ones of a list of ids, in order.
pub open spec fn local_only(ids: Seq<Seq<char>>) -> Seq<Seq<char>>
    decreases ids.len(),
{
    if ids.len() == 0 {
        Seq::empty()
    } else if crate::id_is_local(ids.last()) {
        local_only(ids.drop_last()).push(ids.last())
    } else {
        local_only(ids.drop_last())
    }
}

proof fn lemma_local_only_append(a: Seq<Seq<char>>, b: Seq<Seq<char>>)
    ensures
        local_only(a + b) == local_only(a) + local_only(b),
    decreases b.len(),
{
    if b.len() == 0 {
        assert(a + b =~= a);
        assert(local_only(a) + local_only(b) =~= local_only(a));
    } else {
        lemma_local_only_append(a, b.drop_last());
        assert((a + b).drop_last() =~= a + b.drop_last());
        assert((a + b).last() == b.last());
        if crate::id_is_local(b.last()) {
            assert(local_only(a) + local_only(b.drop_last()).push(b.last()) =~= (local_only(a) + local_only(b.drop_last())).push(b.last()));
        }
    }
}

/// The shortcuts to look at once the window is up: the Places' ids, then
/// Recent's, local ones only. A remote id is skipped: probing one would mean
/// a network handshake, and the look exists because a probe can hang.
pub fn ids_to_probe(places: &[(String, String)], recent: &[String]) -> (r: Vec<String>)
    ensures
        names_of(r@) == local_only(place_ids(places@) + names_of(recent@)),
{
    let ghost ps = place_ids(places@);
    let ghost rs = names_of(recent@);
    let mut out: Vec<String> = Vec::new();
    let mut i: usize = 0;
    assert(ps.take(0) =~= Seq::<Seq<char>>::empty());
    while i < places.len()
        invariant
            i <= places@.len(),
            ps == place_ids(places@),
            names_of(out@) == local_only(ps.take(i as int)),
        decreases places@.len() - i,
    {
        let id = &places[i].1;
        assert(ps.take(i + 1).drop_last() =~= ps.take(i as int));
        assert(ps.take(i + 1).last() == id@);
        if root_id_is_local(id.as_str()) {
            let ghost mid = names_of(out@);
            out.push(id.clone());
            assert(names_of(out@) =~= mid.push(id@));
        }
        i = i + 1;
    }
    assert(ps.take(places@.len() as int) =~= ps);
    let mut j: usize = 0;
    assert(rs.take(0) =~= Seq::<Seq<char>>::empty());
    proof {
        lemma_local_only_append(ps, rs.take(0));
    }
    while j < recent.len()
        invariant
            j <= recent@.len(),
            rs == names_of(recent@),
            names_of(out@) == local_only(ps) + local_only(rs.take(j as int)),
        decreases recent@.len() - j,
    {
        let id = &recent[j];
        assert(rs.take(j + 1).drop_last() =~= rs.take(j as int));
        assert(rs.take(j + 1).last() == id@);
        if root_id_is_local(id.as_str()) {
            let ghost mid = names_of(out@);
            out.push(id.clone());
            assert(names_of(out@) =~= mid.push(id@));
            assert(local_only(ps) + local_only(rs.take(j as int)).push(id@) =~= (local_only(ps)
                + local_only(rs.take(j as int))).push(id@));
        }
        j = j + 1;
    }
    assert(rs.take(recent@.len() as int) =~= rs);
    proof {
        lemma_local_only_append(ps, rs);
    }
    out
}

/// The ids of the answers, as plain values.
pub open spec fn answer_views(answers: Seq<(String, RootStatus)>) -> Seq<(Seq<char>, RootStatus)> {
    answers.map_values(|a: (String, RootStatus)| (a.0@, a.1))
}

/// The Recent ids that turned out not to be there, in the order they were
/// answered.
pub open spec fn gone_spec(answers: Seq<(Seq<char>, RootStatus)>, recent: Seq<Seq<char>>) -> Seq<Seq<char>>
    decreases answers.len(),
{
    if answers.len() == 0 {
        Seq::empty()
    } else if answers.last().1 != RootStatus::Present && recent.contains(answers.last().0) {
        gone_spec(answers.drop_last(), recent).push(answers.last().0)
    } else {
        gone_spec(answers.drop_last(), recent)
    }
}

/// What Recent loses once every look is in: each of its ids that did not
/// answer as a folder. Only Recent: Places stay as they are.
pub fn gone_ids(answers: &[(String, RootStatus)], recent: &[String]) -> (r: Vec<String>)
    ensures
        names_of(r@) == gone_spec(answer_views(answers@), names_of(recent@)),
{
    let ghost avs = answer_views(answers@);
    let ghost rs = names_of(recent@);
    let mut out: Vec<String> = Vec::new();
    let mut i: usize = 0;
    assert(avs.take(0) =~= Seq::<(Seq<char>, RootStatus)>::empty());
    while i < answers.len()
        invariant
            i <= answers@.len(),
            avs == answer_views(answers@),
            rs == names_of(recent@),
            names_of(out@) == gone_spec(avs.take(i as int), rs),
        decreases answers@.len() - i,
    {
        let (id, status) = &answers[i];
        assert(avs.take(i + 1).drop_last() =~= avs.take(i as int));
        assert(avs.take(i + 1).last() == (id@, *status));
        if !(*status == RootStatus::Present) && holds_string(recent, id.as_str()) {
            let ghost mid = names_of(out@);
            out.push(id.clone());
            assert(names_of(out@) =~= mid.push(id@));
        }
        i = i + 1;
    }
    assert(avs.take(answers@.len() as int) =~= avs);
    out
}

/// Whether the page on screen is worth drawing again: some answer says a
/// shortcut is not there as a folder, which the page went out too early to
/// show.
pub fn worth_a_reload(answers: &[(String, RootStatus)]) -> (r: bool)
    ensures
        r == exists|i: int| 0 <= i < answers@.len() && (#[trigger] answers@[i]).1 != RootStatus::Present,
{
    let mut i: usize = 0;
    while i < answers.len()
        invariant
            i <= answers@.len(),
            forall|j: int| 0 <= j < i ==> (#[trigger] answers@[j]).1 == RootStatus::Present,
        decreases answers@.len() - i,
    {
        if !(answers[i].1 == RootStatus::Present) {
            return true;
        }
        i = i + 1;
    }
    false
}

/// Where the folder picker starts: the newest Recent id that names a local
/// path. Whether it is there is for the caller to ask, and not for long.
pub fn picker_start(recent: &[String]) -> (r: Option<String>)
    ensures
        match r {
            Some(id) => exists|i: int| 0 <= i < recent@.len() && recent@[i]@ == id@
                && crate::id_is_local(id@)
                && forall|j: int| 0 <= j < i ==> !crate::id_is_local(#[trigger] recent@[j]@),
            None => forall|j: int| 0 <= j < recent@.len() ==> !crate::id_is_local(#[trigger] recent@[j]@),
        },
{
    let mut i: usize = 0;
    while i < recent.len()
        invariant
            i <= recent@.len(),
            forall|j: int| 0 <= j < i ==> !crate::id_is_local(#[trigger] recent@[j]@),
        decreases recent@.len() - i,
    {
        if root_id_is_local(recent[i].as_str()) {
            return Some(recent[i].clone());
        }
        i = i + 1;
    }
    None
}

/// The arguments that could name a folder to open: those that are not
/// flags, in order. Which of them is a readable directory is the caller's to
/// find out.
pub fn folder_args(args: &[String]) -> (r: Vec<String>)
    ensures
        names_of(r@) == names_of(args@).filter(|a: Seq<char>| !(a.len() > 0 && a[0] == '-')),
{
    let ghost avs = names_of(args@);
    let mut out: Vec<String> = Vec::new();
    let mut i: usize = 0;
    assert(avs.take(0) =~= Seq::<Seq<char>>::empty());
    while i < args.len()
        invariant
            i <= args@.len(),
            avs == names_of(args@),
            names_of(out@) == avs.take(i as int).filter(|a: Seq<char>| !(a.len() > 0 && a[0] == '-')),
        decreases args@.len() - i,
    {
        let a = chars_of(args[i].as_str());
        assert(avs.take(i + 1).drop_last() =~= avs.take(i as int));
        assert(avs.take(i + 1).last() == args@[i as int]@);
        proof {
            reveal(Seq::filter);
        }
        if !(a.len() > 0 && a[0] == '-') {
            let ghost mid = names_of(out@);
            out.push(args[i].clone());
            assert(names_of(out@) =~= mid.push(args@[i as int]@));
        }
        i = i + 1;
    }
    assert(avs.take(args@.len() as int) =~= avs);
    out
}

// ---------------------------------------------------------------------------
// Places

/// Whether drive `i` (0 for `A:`) is in a mask of logical drives.
pub open spec fn has_drive(mask: u32, i: u32) -> bool {
    mask & (1u32 << i) != 0
}

/// The drive letter `i` places after `A`.
pub open spec fn drive_letter(i: int) -> char {
    ('A' as int + i) as char
}

/// A drive as a Place: `C:` and `C:\`.
pub open spec fn drive_place(i: int) -> (Seq<char>, Seq<char>) {
    (seq![drive_letter(i), ':'], seq![drive_letter(i), ':', '\\'])
}

/// The drives among the first `n` letters of a mask, in letter order.
pub open spec fn drives_spec(mask: u32, n: u32) -> Seq<(Seq<char>, Seq<char>)>
    decreases n,
{
    if n == 0 {
        Seq::empty()
    } else if has_drive(mask, (n - 1) as u32) {
        drives_spec(mask, (n - 1) as u32).push(drive_place(n - 1))
    } else {
        drives_spec(mask, (n - 1) as u32)
    }
}

/// The Places for the drive letters a mask of logical drives names, `A:` to
/// `Z:`. A bitmask asked of the system touches no device, so a letter that
/// exists but is not ready is listed and answers when it is opened.
pub fn drive_places(mask: u32) -> (r: Vec<(String, String)>)
    ensures
        view_pairs(r@) == drives_spec(mask, 26),
{
    let mut out: Vec<(String, String)> = Vec::new();
    let mut i: u32 = 0;
    while i < 26
        invariant
            i <= 26,
            view_pairs(out@) == drives_spec(mask, i),
        decreases 26 - i,
    {
        if mask & (1u32 << i) != 0 {
            let c: char = letter_at(i);
            let mut label = String::new();
            push_char(&mut label, c);
            push_char(&mut label, ':');
            let mut dir = String::new();
            push_char(&mut dir, c);
            push_char(&mut dir, ':');
            push_char(&mut dir, '\\');
            assert(label@ =~= seq![c, ':']);
            assert(dir@ =~= seq![c, ':', '\\']);
            let ghost mid = view_pairs(out@);
            out.push((label, dir));
            assert(view_pairs(out@) =~= mid.push(drive_place(i as int)));
        }
        i = i + 1;
    }
    out
}

fn letter_at(i: u32) -> (c: char)
    requires
        i < 26,
    ensures
        c == drive_letter(i as int),
{
    let letters: [char; 26] = [
        'A', 'B', 'C', 'D', 'E', 'F', 'G', 'H', 'I', 'J', 'K', 'L', 'M', 'N', 'O', 'P', 'Q', 'R',
        'S', 'T', 'U', 'V', 'W', 'X', 'Y', 'Z',
    ];
    let c = letters[i as usize];
    assert(c == drive_letter(i as int)) by {
        assert(letters@[i as int] == c);
    }
    c
}

// ---------------------------------------------------------------------------
// The theme outside the tree

/// The theme the shell's own pages are drawn with: what the jar's
/// `ts_theme` names, where it names one, else the served setting, else
/// `Auto`.
pub open spec fn shell_theme_spec(jar: Map<Seq<char>, Seq<char>>, served: Option<ThemeMode>) -> ThemeMode {
    let from_jar = if jar.contains_key("ts_theme"@) {
        theme_named(jar["ts_theme"@])
    } else {
        None
    };
    match from_jar {
        Some(t) => t,
        None => match served {
            Some(t) => t,
            None => ThemeMode::Auto,
        },
    }
}

/// The theme for a page of an embedder's own that sits beside the tree's.
pub fn shell_theme(jar: &Jar, served: Option<ThemeMode>) -> (r: ThemeMode)
    ensures
        r == shell_theme_spec(jar@, served),
{
    let from_jar = match jar.get("ts_theme") {
        Some(v) => ThemeMode::from_str(v.as_str()),
        None => None,
    };
    match from_jar {
        Some(t) => t,
        None => match served {
            Some(t) => t,
            None => ThemeMode::Auto,
        },
    }
}

/// Chooses the theme the way the tree's own toggle does, without the round
/// trip: the tree reads it on its next render.
pub fn set_shell_theme(jar: &mut Jar, mode: ThemeMode)
    ensures
        final(jar)@ == old(jar)@.insert("ts_theme"@, theme_word(mode)),
{
    jar.set("ts_theme", mode.as_str());
}

/// A theme chosen is the theme drawn, whatever the jar held before and
/// whatever the server was started with.
pub proof fn law_chosen_theme_reads_back(jar: Map<Seq<char>, Seq<char>>, mode: ThemeMode, served: Option<ThemeMode>)
    ensures
        shell_theme_spec(jar.insert("ts_theme"@, theme_word(mode)), served) == mode,
{
    crate::page::law_theme_word_reads_back(mode);
}

// ---------------------------------------------------------------------------
// The server the shell starts

/// The configuration the shell starts its server with, nothing open: the
/// page's own chooser on, a folder picker where the platform or an embedder
/// has one, the program's own name and version, the start page's sentence,
/// the Places — the platform's, then an embedder's, then the usage pages
/// last, the one row that is there on a device where nothing else is yet —
/// and Recent, the pinned list and an embedder's sections as they were left.
pub fn shell_config<V>(
    picker: bool,
    app_name: String,
    app_version: String,
    intro: Option<String>,
    places: Vec<(String, String)>,
    extra_places: Vec<(String, String)>,
    recent: Vec<String>,
    pinned: Vec<Pin>,
    sections: Vec<crate::PaneSection>,
) -> (r: Config<V>)
    ensures
        r.root is None,
        r.title is None,
        r.theme == ThemeMode::Auto,
        r.ln,
        r.sidebar,
        !r.show_hidden,
        r.app_ui,
        r.picker == picker,
        r.app_name == Some(app_name),
        r.app_version == Some(app_version),
        r.intro == intro,
        view_pairs(r.places@) == view_pairs(places@) + view_pairs(extra_places@) + seq![(USAGE_LABEL@, USAGE_ROOT_ID@)],
        r.recent == recent,
        r.pinned == pinned,
        r.sections == sections,
        r.root_name is None,
        r.status@ == Map::<Seq<char>, RootStatus>::empty(),
{
    let mut cfg: Config<V> = Config::rootless();
    cfg.app_ui = true;
    cfg.picker = picker;
    cfg.app_name = Some(app_name);
    cfg.app_version = Some(app_version);
    cfg.intro = intro;
    let mut all = places;
    let mut extra = extra_places;
    let ghost a = view_pairs(all@);
    let ghost b = view_pairs(extra@);
    all.append(&mut extra);
    assert(view_pairs(all@) =~= a + b);
    let ghost mid = view_pairs(all@);
    all.push((USAGE_LABEL.to_owned(), USAGE_ROOT_ID.to_owned()));
    assert(view_pairs(all@) =~= mid.push((USAGE_LABEL@, USAGE_ROOT_ID@)));
    cfg.places = all;
    cfg.recent = recent;
    cfg.pinned = pinned;
    cfg.sections = sections;
    cfg
}

} // verus!
