//! A tree that is only in the binary.
//!
//! The pages a program ships to explain itself have no folder on the machine
//! running it, and want none: they are versioned with the program, they cannot
//! go missing, and reaching them asks nothing of the platform — no grant, no
//! network, no install step. So they are compiled in and served through the same
//! seam as any other root, which is what makes them look like ordinary files to
//! every view in the crate.

use vstd::prelude::*;
use crate::util::{
    chars_of, find_char, first_index, lemma_first_index, lemma_lex_irreflexive,
    lemma_lex_transitive, lemma_lex_trichotomy, lex_lt, push_char, push_str, slice_vec,
    starts_at, occurs_at, string_of, strictly_sorted, find_slot,
};
use crate::vfs::{Entry, Meta, ResolveError, Vfs, VfsPath};

verus! {

/// The name of each string in a list.
pub open spec fn names_of(v: Seq<String>) -> Seq<Seq<char>> {
    v.map_values(|s: String| s@)
}

/// A path with its leading `/`s taken off, as `trim_start_matches('/')`.
pub open spec fn strip_leading_slashes(s: Seq<char>) -> Seq<char>
    decreases s.len(),
{
    if s.len() > 0 && s[0] == '/' {
        strip_leading_slashes(s.skip(1))
    } else {
        s
    }
}

/// What a list of `(path, bytes)` pairs files: each path without its leading
/// `/`, a later pair with the same path replacing an earlier one.
pub open spec fn filed(pairs: Seq<(Seq<char>, Seq<u8>)>) -> Map<Seq<char>, Seq<u8>>
    decreases pairs.len(),
{
    if pairs.len() == 0 {
        Map::empty()
    } else {
        filed(pairs.drop_last()).insert(strip_leading_slashes(pairs.last().0), pairs.last().1)
    }
}

/// The pairs as plain values.
pub open spec fn pair_views(v: Seq<(&'static str, &'static [u8])>) -> Seq<(Seq<char>, Seq<u8>)> {
    v.map_values(|p: (&'static str, &'static [u8])| (p.0@, p.1@))
}

/// The table a sorted list of names and their pages stands for.
pub open spec fn table<V>(names: Seq<Seq<char>>, data: Seq<V>) -> Map<Seq<char>, V> {
    Map::new(|k: Seq<char>| names.contains(k), |k: Seq<char>| data[names.index_of(k)])
}

pub proof fn lemma_table_at<V>(names: Seq<Seq<char>>, data: Seq<V>, i: int)
    requires
        strictly_sorted(names),
        0 <= i < names.len(),
    ensures
        table(names, data).contains_key(names[i]),
        table(names, data)[names[i]] == data[i],
{
    assert(names.contains(names[i]));
    let j = names.index_of(names[i]);
    assert(0 <= j < names.len() && names[j] == names[i]);
    if j < i {
        assert(lex_lt(names[j], names[i]));
        lemma_lex_irreflexive(names[i]);
    } else if i < j {
        assert(lex_lt(names[i], names[j]));
        lemma_lex_irreflexive(names[i]);
    }
}

/// Segments `/`-joined: the key a page is filed under.
pub open spec fn key_of(segs: Seq<Seq<char>>) -> Seq<char>
    decreases segs.len(),
{
    if segs.len() == 0 {
        Seq::empty()
    } else if segs.len() == 1 {
        segs[0]
    } else {
        key_of(segs.drop_last()).push('/') + segs.last()
    }
}

/// Whether `p` starts `s`.
pub open spec fn has_prefix(s: Seq<char>, p: Seq<char>) -> bool {
    p.len() <= s.len() && s.take(p.len() as int) == p
}

/// What a directory's children are filed under: nothing for the root,
/// `key/` below it.
pub open spec fn child_prefix(key: Seq<char>) -> Seq<char> {
    if key.len() == 0 {
        Seq::empty()
    } else {
        key.push('/')
    }
}

/// A directory here is a prefix something is filed under — and the root is
/// one even when nothing has been filed yet.
pub open spec fn is_dir_in(m: Map<Seq<char>, Seq<u8>>, key: Seq<char>) -> bool {
    key.len() == 0 || exists|k: Seq<char>| #[trigger]
        m.contains_key(k) && has_prefix(k, key.push('/'))
}

/// `n` names a file directly inside the directory `key`.
pub open spec fn file_child(m: Map<Seq<char>, Seq<u8>>, key: Seq<char>, n: Seq<char>) -> bool {
    first_index(n, '/') is None && m.contains_key(child_prefix(key) + n)
}

/// `n` names a directory directly inside the directory `key`.
pub open spec fn dir_child(m: Map<Seq<char>, Seq<u8>>, key: Seq<char>, n: Seq<char>) -> bool {
    first_index(n, '/') is None && exists|k: Seq<char>| #[trigger]
        m.contains_key(k) && has_prefix(k, child_prefix(key) + n.push('/'))
}

/// Files compiled into the program, served as a root.
///
/// Paths are `/`-joined and relative to the root. A later pair with the same
/// path replaces an earlier one, which is the whole of how a downstream shell
/// rewrites one page of an upstream set without copying the rest of it.
pub struct EmbeddedFs {
    scheme: &'static str,
    /// The paths, strictly sorted.
    names: Vec<String>,
    /// The page filed under each path.
    data: Vec<&'static [u8]>,
}

/// A backend of files built in: the scheme its RootId is written with, and
/// the bytes filed under each path.
impl View for EmbeddedFs {
    type V = (Seq<char>, Map<Seq<char>, Seq<u8>>);

    closed spec fn view(&self) -> (Seq<char>, Map<Seq<char>, Seq<u8>>) {
        (self.scheme@, self.table_view())
    }
}

/// Files `v` under `key` in a strictly sorted table, replacing what was there.
pub(crate) fn file_into<V>(names: &mut Vec<String>, vals: &mut Vec<V>, key: &[char], v: V)
    requires
        old(names)@.len() == old(vals)@.len(),
        strictly_sorted(names_of(old(names)@)),
    ensures
        final(names)@.len() == final(vals)@.len(),
        strictly_sorted(names_of(final(names)@)),
        table(names_of(final(names)@), final(vals)@) == table(names_of(old(names)@), old(vals)@).insert(key@, v),
{
    let ghost old_names = names_of(names@);
    let ghost old_data = vals@;
    let (p, found) = find_slot(names, key);
    if found {
        vals.set(p, v);
        proof {
            let names = names_of(names@);
            let data = vals@;
            assert(names == old_names);
            assert(names[p as int] == key@);
            assert forall|k: Seq<char>| #[trigger] table(names, data).contains_key(k)
                == table(old_names, old_data).insert(key@, v).contains_key(k) by {
                if k == key@ {
                    assert(names[p as int] == k);
                }
            }
            assert forall|k: Seq<char>| table(names, data).contains_key(k) implies #[trigger] table(
                names,
                data,
            )[k] == table(old_names, old_data).insert(key@, v)[k] by {
                let j = names.index_of(k);
                lemma_table_at(names, data, j);
                lemma_table_at(old_names, old_data, j);
                lemma_lex_irreflexive(key@);
                if j < p {
                    assert(lex_lt(names[j], names[p as int]));
                } else if j > p {
                    assert(lex_lt(names[p as int], names[j]));
                }
            }
            assert(table(names, data) =~= table(old_names, old_data).insert(key@, v));
        }
    } else {
        names.insert(p, string_of(key));
        vals.insert(p, v);
        proof {
            let names = names_of(names@);
            let data = vals@;
            assert(names =~= old_names.insert(p as int, key@));
            assert(data =~= old_data.insert(p as int, v));
            assert forall|a: int, b: int| 0 <= a < b < names.len() implies lex_lt(
                #[trigger] names[a],
                #[trigger] names[b],
            ) by {
                if a < p && b > p {
                    lemma_lex_transitive(names[a], key@, names[b]);
                }
            }
            assert forall|k: Seq<char>| #[trigger] table(names, data).contains_key(k)
                == table(old_names, old_data).insert(key@, v).contains_key(k) by {
                if k == key@ {
                    assert(names[p as int] == k);
                }
                if names.contains(k) {
                    let j = names.index_of(k);
                    if j < p {
                        assert(old_names[j] == k);
                    } else if j > p {
                        assert(old_names[j - 1] == k);
                    }
                }
                if old_names.contains(k) {
                    let j = old_names.index_of(k);
                    if j < p {
                        assert(names[j] == k);
                    } else {
                        assert(names[j + 1] == k);
                    }
                }
            }
            assert forall|k: Seq<char>| table(names, data).contains_key(k) implies #[trigger] table(
                names,
                data,
            )[k] == table(old_names, old_data).insert(key@, v)[k] by {
                let j = names.index_of(k);
                lemma_table_at(names, data, j);
                if j < p {
                    lemma_table_at(old_names, old_data, j);
                    lemma_lex_irreflexive(key@);
                } else if j > p {
                    lemma_table_at(old_names, old_data, j - 1);
                    lemma_lex_irreflexive(key@);
                }
            }
            assert(table(names, data) =~= table(old_names, old_data).insert(key@, v));
        }
    }
}

impl EmbeddedFs {
    #[verifier::type_invariant]
    closed spec fn wf(self) -> bool {
        &&& self.names@.len() == self.data@.len()
        &&& strictly_sorted(names_of(self.names@))
    }

    /// The scheme its RootId is written with.
    pub open spec fn scheme_spec(&self) -> Seq<char> {
        self@.0
    }

    /// The bytes filed under each path.
    pub open spec fn files(&self) -> Map<Seq<char>, Seq<u8>> {
        self@.1
    }

    closed spec fn table_view(&self) -> Map<Seq<char>, Seq<u8>> {
        table(names_of(self.names@), self.data@).map_values(|b: &'static [u8]| b@)
    }

    pub fn new(scheme: &'static str, files: Vec<(&'static str, &'static [u8])>) -> (r: EmbeddedFs)
        ensures
            r.files() == filed(pair_views(files@)),
            r.scheme_spec() == scheme@,
    {
        let mut names: Vec<String> = Vec::new();
        let mut data: Vec<&'static [u8]> = Vec::new();
        proof {
            assert(table(names_of(names@), data@) =~= Map::<Seq<char>, &'static [u8]>::empty());
            assert(table(names_of(names@), data@).map_values(|b: &'static [u8]| b@) =~= Map::<
                Seq<char>,
                Seq<u8>,
            >::empty());
            assert(pair_views(files@).take(0) =~= Seq::<(Seq<char>, Seq<u8>)>::empty());
        }
        let mut i: usize = 0;
        while i < files.len()
            invariant
                i <= files@.len(),
                names@.len() == data@.len(),
                strictly_sorted(names_of(names@)),
                table(names_of(names@), data@).map_values(|b: &'static [u8]| b@) == filed(
                    pair_views(files@).take(i as int),
                ),
            decreases files@.len() - i,
        {
            let (path, bytes) = files[i];
            let key = strip_leading(path);
            let ghost before = table(names_of(names@), data@);
            file_into(&mut names, &mut data, key.as_slice(), bytes);
            proof {
                let pv = pair_views(files@);
                assert(pv.take(i + 1).drop_last() =~= pv.take(i as int));
                assert(pv.take(i + 1).last() == pv[i as int]);
                assert(table(names_of(names@), data@).map_values(|b: &'static [u8]| b@) =~= before.map_values(
                    |b: &'static [u8]| b@,
                ).insert(key@, bytes@));
            }
            i = i + 1;
        }
        assert(pair_views(files@).take(files@.len() as int) =~= pair_views(files@));
        EmbeddedFs { scheme, names, data }
    }
}

/// `s` without its leading `/`s.
fn strip_leading(s: &str) -> (r: Vec<char>)
    ensures
        r@ == strip_leading_slashes(s@),
{
    let v = chars_of(s);
    let mut i: usize = 0;
    assert(v@.skip(0) == v@);
    while i < v.len() && v[i] == '/'
        invariant
            i <= v@.len(),
            strip_leading_slashes(v@) == strip_leading_slashes(v@.skip(i as int)),
        decreases v@.len() - i,
    {
        assert(v@.skip(i as int).skip(1) == v@.skip(i + 1));
        i = i + 1;
    }
    slice_vec(v.as_slice(), i, v.len())
}


/// The key a path is filed under: its segments `/`-joined.
fn key(path: &VfsPath) -> (r: Vec<char>)
    ensures
        r@ == key_of(path@),
{
    let segs = path.segments();
    let ghost sv = segs@.map_values(|s: String| s@);
    let mut out: Vec<char> = Vec::new();
    let mut i: usize = 0;
    assert(sv.take(0) =~= Seq::<Seq<char>>::empty());
    while i < segs.len()
        invariant
            i <= segs@.len(),
            sv == segs@.map_values(|s: String| s@),
            sv == path@,
            out@ == key_of(sv.take(i as int)),
        decreases segs@.len() - i,
    {
        if i > 0 {
            out.push('/');
        }
        let seg = chars_of(segs[i].as_str());
        let mut k: usize = 0;
        let ghost base = out@;
        while k < seg.len()
            invariant
                k <= seg@.len(),
                out@ == base + seg@.take(k as int),
            decreases seg@.len() - k,
        {
            out.push(seg[k]);
            assert(seg@.take(k + 1) == seg@.take(k as int).push(seg@[k as int]));
            k = k + 1;
        }
        proof {
            assert(seg@.take(seg@.len() as int) == seg@);
            assert(sv.take(i + 1).drop_last() =~= sv.take(i as int));
            assert(sv.take(i + 1).last() == sv[i as int]);
            if i == 0 {
                assert(sv.take(1) =~= seq![sv[0]]);
                assert(out@ =~= sv[0]);
            }
        }
        i = i + 1;
    }
    assert(sv.take(segs@.len() as int) =~= sv);
    out
}

impl EmbeddedFs {
    /// Where `key` is filed, if it is.
    fn find(&self, key: &[char]) -> (r: Option<usize>)
        ensures
            match r {
                Some(i) => i < self.names@.len() && i < self.data@.len() && self.files().contains_key(key@) && self.files()[key@]
                    == self.data@[i as int]@,
                None => !self.files().contains_key(key@),
            },
    {
        proof {
            use_type_invariant(self);
        }
        let (p, found) = find_slot(&self.names, key);
        proof {
            let names = names_of(self.names@);
            if found {
                lemma_table_at(names, self.data@, p as int);
            } else if names.contains(key@) {
                let j = names.index_of(key@);
                lemma_lex_irreflexive(key@);
                assert(names[j] == self.names@[j]@);
                assert(false);
            }
        }
        if found {
            Some(p)
        } else {
            None
        }
    }

    /// A directory here is a prefix something is filed under. There are no
    /// directory entries to hold, so the shape of the tree is whatever the paths
    /// imply — and the root is a directory even when nothing has been filed yet.
    fn is_dir(&self, key: &[char]) -> (r: bool)
        ensures
            r == is_dir_in(self.files(), key@),
    {
        proof {
            use_type_invariant(self);
        }
        if key.len() == 0 {
            return true;
        }
        let mut prefix: Vec<char> = Vec::new();
        let mut k: usize = 0;
        while k < key.len()
            invariant
                k <= key@.len(),
                prefix@ == key@.take(k as int),
            decreases key@.len() - k,
        {
            prefix.push(key[k]);
            assert(key@.take(k + 1) == key@.take(k as int).push(key@[k as int]));
            k = k + 1;
        }
        prefix.push('/');
        assert(key@.take(key@.len() as int) == key@);
        let ghost names = names_of(self.names@);
        let mut i: usize = 0;
        while i < self.names.len()
            invariant
                i <= self.names@.len(),
                names == names_of(self.names@),
                strictly_sorted(names),
                self.names@.len() == self.data@.len(),
                prefix@ == key@.push('/'),
                forall|j: int| 0 <= j < i ==> !has_prefix(#[trigger] names[j], prefix@),
            decreases self.names@.len() - i,
        {
            let nm = chars_of(self.names[i].as_str());
            if starts_at(nm.as_slice(), 0, prefix.as_slice()) {
                proof {
                    lemma_table_at(names, self.data@, i as int);
                    assert(nm@.subrange(0, prefix@.len() as int) == nm@.take(prefix@.len() as int));
                    assert(self.files().contains_key(names[i as int]));
                }
                return true;
            }
            assert(nm@.subrange(0, prefix@.len() as int) == nm@.take(prefix@.len() as int));
            i = i + 1;
        }
        proof {
            assert forall|k: Seq<char>| #[trigger] self.files().contains_key(k) implies !has_prefix(
                k,
                key@.push('/'),
            ) by {
                let j = names.index_of(k);
                assert(names[j] == k);
            }
        }
        false
    }
}

/// The error for a path that names nothing: `io::Error::from(ErrorKind::NotFound)`.
/// Nothing is promised of the value beyond its type.
#[verifier::external_body]
fn not_found() -> std::io::Error {
    std::io::Error::from(std::io::ErrorKind::NotFound)
}

/// The error for listing something that is not a directory:
/// `io::Error::other`, with that message. Nothing is promised of the value
/// beyond its type.
#[verifier::external_body]
fn not_a_directory() -> std::io::Error {
    std::io::Error::other("not a directory")
}


/// What a listing of directory `key` must hold: every child once, in order,
/// a file where a page is filed under that very name and a directory
/// otherwise, and nothing that is not a child.
pub open spec fn lists_children(m: Map<Seq<char>, Seq<u8>>, key: Seq<char>, v: Seq<Entry>) -> bool {
    &&& strictly_sorted(v.map_values(|e: Entry| e.name@))
    &&& forall|i: int| #![trigger v[i]] 0 <= i < v.len() ==> {
        let n = v[i].name@;
        &&& (file_child(m, key, n) || dir_child(m, key, n))
        &&& v[i].is_dir == !file_child(m, key, n)
        &&& v[i].size == (if file_child(m, key, n) {
            m[child_prefix(key) + n].len() as u64
        } else {
            0u64
        })
        &&& v[i].mtime is None
    }
    &&& forall|n: Seq<char>| #![trigger file_child(m, key, n)] #![trigger dir_child(m, key, n)]
        file_child(m, key, n) || dir_child(m, key, n) ==> exists|i: int|
            0 <= i < v.len() && #[trigger] v[i].name@ == n
}

/// `n` is a file child among the first `j` names.
pub open spec fn file_seen(names: Seq<Seq<char>>, j: int, pre: Seq<char>, n: Seq<char>) -> bool {
    first_index(n, '/') is None && exists|jj: int| 0 <= jj < j && #[trigger] names[jj] == pre + n
}

/// `n` is a directory child among the first `j` names.
pub open spec fn dir_seen(names: Seq<Seq<char>>, j: int, pre: Seq<char>, n: Seq<char>) -> bool {
    first_index(n, '/') is None && exists|jj: int|
        0 <= jj < j && has_prefix(#[trigger] names[jj], pre + n.push('/'))
}

proof fn lemma_prefix_of_longer(s: Seq<char>, pre: Seq<char>, x: Seq<char>)
    requires
        has_prefix(s, pre + x),
    ensures
        has_prefix(s, pre),
        s.skip(pre.len() as int).take(x.len() as int) == x,
{
    let pl = pre.len() as int;
    let xl = x.len() as int;
    assert(s.take(pl + xl) == pre + x);
    assert forall|i: int| 0 <= i < pl implies s.take(pl)[i] == pre[i] by {
        assert(s.take(pl + xl)[i] == (pre + x)[i]);
    }
    assert(s.take(pl) =~= pre);
    assert forall|i: int| 0 <= i < xl implies s.skip(pl).take(xl)[i] == x[i] by {
        assert(s.take(pl + xl)[pl + i] == (pre + x)[pl + i]);
    }
    assert(s.skip(pl).take(xl) =~= x);
}

/// Where `rest` has no `/` before its first one, and `n` has none at all, `n/`
/// starting `rest` means `n` is everything before that first `/`.
proof fn lemma_first_slash(rest: Seq<char>, n: Seq<char>)
    requires
        first_index(n, '/') is None,
        has_prefix(rest, n.push('/')),
    ensures
        first_index(rest, '/') == Some(n.len() as int),
{
    lemma_first_index(n, '/');
    lemma_first_index(rest, '/');
    assert(rest.take(n.len() as int + 1) =~= n.push('/'));
    assert(rest.take(n.len() as int + 1)[n.len() as int] == '/');
    assert(rest[n.len() as int] == '/');
    assert forall|i: int| 0 <= i < n.len() implies rest[i] != '/' by {
        assert(rest.take(n.len() as int + 1)[i] == n[i]);
    }
    match first_index(rest, '/') {
        Some(e) => {
            if e < n.len() {
                assert(rest[e] != '/');
            }
        },
        None => {},
    }
}

/// Records a child directory, unless the name is taken already.
fn note_dir(cn: &mut Vec<String>, ck: &mut Vec<(bool, u64)>, name: &[char])
    requires
        old(cn)@.len() == old(ck)@.len(),
        strictly_sorted(names_of(old(cn)@)),
    ensures
        final(cn)@.len() == final(ck)@.len(),
        strictly_sorted(names_of(final(cn)@)),
        table(names_of(final(cn)@), final(ck)@) == (if table(names_of(old(cn)@), old(ck)@).contains_key(
            name@,
        ) {
            table(names_of(old(cn)@), old(ck)@)
        } else {
            table(names_of(old(cn)@), old(ck)@).insert(name@, (true, 0u64))
        }),
{
    let (p, found) = find_slot(cn, name);
    proof {
        let names = names_of(cn@);
        if found {
            assert(names[p as int] == name@);
            assert(names.contains(name@));
        } else if names.contains(name@) {
            let j = names.index_of(name@);
            lemma_lex_irreflexive(name@);
            assert(names[j] == cn@[j]@);
            assert(false);
        }
    }
    if !found {
        file_into(cn, ck, name, (true, 0u64));
    }
}


proof fn lemma_seen_step_other(names: Seq<Seq<char>>, j: int, pre: Seq<char>)
    requires
        0 <= j < names.len(),
        !has_prefix(names[j], pre),
    ensures
        forall|n: Seq<char>|
            #![trigger file_seen(names, j + 1, pre, n)]
            #![trigger dir_seen(names, j + 1, pre, n)]
            file_seen(names, j + 1, pre, n) == file_seen(names, j, pre, n) && dir_seen(
                names,
                j + 1,
                pre,
                n,
            ) == dir_seen(names, j, pre, n),
{
    assert forall|n: Seq<char>|
        file_seen(names, j + 1, pre, n) == file_seen(names, j, pre, n) && dir_seen(
            names,
            j + 1,
            pre,
            n,
        ) == dir_seen(names, j, pre, n) by {
        if names[j] == pre + n {
            assert(names[j].take(names[j].len() as int) =~= names[j]);
            lemma_prefix_of_longer(names[j], pre, n);
        }
        if has_prefix(names[j], pre + n.push('/')) {
            lemma_prefix_of_longer(names[j], pre, n.push('/'));
        }
        if file_seen(names, j + 1, pre, n) {
            let jj = choose|jj: int| 0 <= jj < j + 1 && #[trigger] names[jj] == pre + n;
            if jj == j {
                assert(has_prefix(pre + n, pre));
            }
        }
        if dir_seen(names, j + 1, pre, n) {
            let jj = choose|jj: int|
                0 <= jj < j + 1 && has_prefix(#[trigger] names[jj], pre + n.push('/'));
        }
    }
}

proof fn lemma_seen_step_dir(names: Seq<Seq<char>>, j: int, pre: Seq<char>, e: int)
    requires
        0 <= j < names.len(),
        has_prefix(names[j], pre),
        first_index(names[j].skip(pre.len() as int), '/') == Some(e),
    ensures
        first_index(names[j].skip(pre.len() as int).take(e), '/') is None,
        forall|n: Seq<char>|
            #![trigger file_seen(names, j + 1, pre, n)]
            #![trigger dir_seen(names, j + 1, pre, n)]
            file_seen(names, j + 1, pre, n) == file_seen(names, j, pre, n) && dir_seen(
                names,
                j + 1,
                pre,
                n,
            ) == (dir_seen(names, j, pre, n) || n == names[j].skip(pre.len() as int).take(e)),
{
    let rest = names[j].skip(pre.len() as int);
    let d = rest.take(e);
    let pl = pre.len() as int;
    lemma_first_index(rest, '/');
    lemma_first_index(d, '/');
    match first_index(d, '/') {
        Some(x) => {
            assert(d[x] == rest[x]);
        },
        None => {},
    }
    assert(names[j].take(pl) == pre);
    assert forall|i: int| 0 <= i < pl + e + 1 implies names[j].take(pl + e + 1)[i] == (pre
        + d.push('/'))[i] by {
        if i < pl {
            assert(names[j].take(pl)[i] == pre[i]);
        } else if i < pl + e {
            assert(rest[i - pl] == names[j][i]);
        } else {
            assert(rest[e] == names[j][i]);
        }
    }
    assert(names[j].take(pl + e + 1) =~= pre + d.push('/'));
    assert(has_prefix(names[j], pre + d.push('/')));
    assert forall|n: Seq<char>|
        file_seen(names, j + 1, pre, n) == file_seen(names, j, pre, n) && dir_seen(
            names,
            j + 1,
            pre,
            n,
        ) == (dir_seen(names, j, pre, n) || n == d) by {
        if names[j] == pre + n && first_index(n, '/') is None {
            assert(rest =~= n);
            assert(false);
        }
        if has_prefix(names[j], pre + n.push('/')) && first_index(n, '/') is None {
            lemma_prefix_of_longer(names[j], pre, n.push('/'));
            assert(has_prefix(rest, n.push('/')));
            lemma_first_slash(rest, n);
            assert(n.len() == e);
            assert(rest.take(e + 1) =~= n.push('/'));
            assert forall|i: int| 0 <= i < e implies d[i] == n[i] by {
                assert(rest.take(e + 1)[i] == n.push('/')[i]);
            }
            assert(d =~= n);
        }
        if file_seen(names, j + 1, pre, n) {
            let jj = choose|jj: int| 0 <= jj < j + 1 && #[trigger] names[jj] == pre + n;
        }
        if dir_seen(names, j + 1, pre, n) {
            let jj = choose|jj: int|
                0 <= jj < j + 1 && has_prefix(#[trigger] names[jj], pre + n.push('/'));
        }
        if n == d {
            assert(dir_seen(names, j + 1, pre, n));
        }
    }
}

proof fn lemma_seen_step_file(names: Seq<Seq<char>>, j: int, pre: Seq<char>)
    requires
        0 <= j < names.len(),
        has_prefix(names[j], pre),
        first_index(names[j].skip(pre.len() as int), '/') is None,
    ensures
        names[j] == pre + names[j].skip(pre.len() as int),
        forall|n: Seq<char>|
            #![trigger file_seen(names, j + 1, pre, n)]
            #![trigger dir_seen(names, j + 1, pre, n)]
            file_seen(names, j + 1, pre, n) == (file_seen(names, j, pre, n) || n == names[j].skip(
                pre.len() as int,
            )) && dir_seen(names, j + 1, pre, n) == dir_seen(names, j, pre, n),
{
    let rest = names[j].skip(pre.len() as int);
    let pl = pre.len() as int;
    assert(names[j].take(pl) == pre);
    assert(names[j] =~= names[j].take(pl) + rest);
    assert forall|n: Seq<char>|
        file_seen(names, j + 1, pre, n) == (file_seen(names, j, pre, n) || n == rest) && dir_seen(
            names,
            j + 1,
            pre,
            n,
        ) == dir_seen(names, j, pre, n) by {
        if names[j] == pre + n {
            assert(rest =~= n);
        }
        if has_prefix(names[j], pre + n.push('/')) && first_index(n, '/') is None {
            lemma_prefix_of_longer(names[j], pre, n.push('/'));
            assert(has_prefix(rest, n.push('/')));
            lemma_first_slash(rest, n);
        }
        if file_seen(names, j + 1, pre, n) {
            let jj = choose|jj: int| 0 <= jj < j + 1 && #[trigger] names[jj] == pre + n;
        }
        if dir_seen(names, j + 1, pre, n) {
            let jj = choose|jj: int|
                0 <= jj < j + 1 && has_prefix(#[trigger] names[jj], pre + n.push('/'));
        }
        if n == rest {
            assert(names[j] == pre + n);
            assert(file_seen(names, j + 1, pre, n));
        }
    }
}


/// What the first `j` names say about the children under `pre`, as a table
/// from name to (is a directory, size).
pub open spec fn seen_right(
    names: Seq<Seq<char>>,
    j: int,
    pre: Seq<char>,
    m: Map<Seq<char>, Seq<u8>>,
    ct: Map<Seq<char>, (bool, u64)>,
) -> bool {
    &&& forall|n: Seq<char>| #[trigger]
        ct.contains_key(n) == (file_seen(names, j, pre, n) || dir_seen(names, j, pre, n))
    &&& forall|n: Seq<char>| #[trigger]
        ct.contains_key(n) ==> ct[n] == (if file_seen(names, j, pre, n) {
            (false, m[pre + n].len() as u64)
        } else {
            (true, 0u64)
        })
}

impl EmbeddedFs {
    /// The children filed under `pre`, sorted, each once.
    fn children(&self, pre: &[char]) -> (r: (Vec<String>, Vec<(bool, u64)>))
        ensures
            r.0@.len() == r.1@.len(),
            strictly_sorted(names_of(r.0@)),
            seen_right(
                names_of(self.names@),
                self.names@.len() as int,
                pre@,
                self.files(),
                table(names_of(r.0@), r.1@),
            ),
    {
        proof {
            use_type_invariant(self);
        }
        let ghost names = names_of(self.names@);
        let mut cn: Vec<String> = Vec::new();
        let mut ck: Vec<(bool, u64)> = Vec::new();
        proof {
            assert forall|n: Seq<char>| #[trigger]
                table(names_of(cn@), ck@).contains_key(n) == (file_seen(names, 0, pre@, n)
                    || dir_seen(names, 0, pre@, n)) by {}
        }
        let mut j: usize = 0;
        while j < self.names.len()
            invariant
                j <= self.names@.len(),
                names == names_of(self.names@),
                strictly_sorted(names),
                self.names@.len() == self.data@.len(),
                cn@.len() == ck@.len(),
                strictly_sorted(names_of(cn@)),
                seen_right(names, j as int, pre@, self.files(), table(names_of(cn@), ck@)),
            decreases self.names@.len() - j,
        {
            let ghost ct = table(names_of(cn@), ck@);
            let nm = chars_of(self.names[j].as_str());
            assert(nm@ == names[j as int]);
            let prefixed = starts_at(nm.as_slice(), 0, pre);
            proof {
                if pre@.len() <= nm@.len() {
                    assert(nm@.subrange(0, pre@.len() as int) == nm@.take(pre@.len() as int));
                }
            }
            if !prefixed {
                proof {
                    lemma_seen_step_other(names, j as int, pre@);
                }
            } else {
                let rest = slice_vec(nm.as_slice(), pre.len(), nm.len());
                assert(rest@ == names[j as int].skip(pre@.len() as int));
                match find_char(rest.as_slice(), '/') {
                    Some(e) => {
                        proof {
                            lemma_first_index(rest@, '/');
                            lemma_seen_step_dir(names, j as int, pre@, e as int);
                        }
                        let d = slice_vec(rest.as_slice(), 0, e);
                        assert(d@ == rest@.take(e as int));
                        note_dir(&mut cn, &mut ck, d.as_slice());
                    },
                    None => {
                        proof {
                            lemma_seen_step_file(names, j as int, pre@);
                            lemma_table_at(names, self.data@, j as int);
                        }
                        let size = self.data[j].len() as u64;
                        file_into(&mut cn, &mut ck, rest.as_slice(), (false, size));
                    },
                }
            }
            j = j + 1;
        }
        (cn, ck)
    }
}


/// What `path` is here: a page, a directory, or nothing.
pub open spec fn meta_of(m: Map<Seq<char>, Seq<u8>>, path: Seq<Seq<char>>) -> Option<Meta> {
    let key = key_of(path);
    if m.contains_key(key) {
        Some(Meta { is_dir: false, is_file: true, len: m[key].len() as u64, mtime: None, mode: None })
    } else if is_dir_in(m, key) {
        Some(Meta { is_dir: true, is_file: false, len: 0, mtime: None, mode: None })
    } else {
        None
    }
}

impl Vfs for EmbeddedFs {
    /// Never: the pages are compiled into the binary the reader is running.
    open spec fn copies_offered(&self) -> bool {
        false
    }

    /// Always: the pages did not travel to get here.
    open spec fn is_on_this_device(&self) -> bool {
        true
    }

    /// No limit: every page is held in memory whole.
    open spec fn piece_limit(&self) -> Option<u64> {
        None
    }

    /// The pages are compiled into this binary: they did not travel to get
    /// here, and the only author is whoever built it.
    fn on_this_device(&self) -> (r: bool) {
        true
    }

    /// Never. These pages are compiled into the binary the reader is running —
    /// there is no copy to be had that they do not already have.
    fn downloadable(&self) -> (r: bool) {
        false
    }

    fn open_limit(&self) -> (r: Option<u64>) {
        None
    }

    /// `Outside` cannot happen: there are no links here to lead anywhere, and a
    /// path that names nothing is simply missing.
    fn resolve(&self, path: &VfsPath) -> (r: Result<VfsPath, ResolveError>)
        ensures
            match r {
                Ok(p) => p@ == path@ && meta_of(self.files(), path@) is Some,
                Err(e) => e == ResolveError::Missing && meta_of(self.files(), path@) is None,
            },
    {
        let k = key(path);
        if self.find(k.as_slice()).is_some() || self.is_dir(k.as_slice()) {
            Ok(path.duplicate())
        } else {
            Err(ResolveError::Missing)
        }
    }

    /// No `mtime`, which the seam allows and which is honest: these bytes are as
    /// old as the build, and a page served without a conditional request beats
    /// one served with a wrong answer to it.
    fn metadata(&self, path: &VfsPath) -> (r: Result<Meta, std::io::Error>)
        ensures
            match meta_of(self.files(), path@) {
                Some(m) => r matches Ok(x) && x == m,
                None => r is Err,
            },
    {
        let k = key(path);
        match self.find(k.as_slice()) {
            Some(i) => {
                return Ok(
                    Meta {
                        is_dir: false,
                        is_file: true,
                        len: self.data[i].len() as u64,
                        mtime: None,
                        mode: None,
                    },
                );
            },
            None => {},
        }
        if self.is_dir(k.as_slice()) {
            Ok(Meta { is_dir: true, is_file: false, len: 0, mtime: None, mode: None })
        } else {
            Err(not_found())
        }
    }

    /// Keyed, so a directory named by four files below it is one entry, and in
    /// order; a name that is both a page and a directory lists as the page.
    fn read_dir(&self, path: &VfsPath) -> (r: Result<Vec<Entry>, std::io::Error>)
        ensures
            match r {
                Ok(v) => is_dir_in(self.files(), key_of(path@)) && lists_children(
                    self.files(),
                    key_of(path@),
                    v@,
                ),
                Err(_) => !is_dir_in(self.files(), key_of(path@)),
            },
    {
        let k = key(path);
        if !self.is_dir(k.as_slice()) {
            return Err(not_a_directory());
        }
        let mut pre: Vec<char> = slice_vec(k.as_slice(), 0, k.len());
        assert(k@.subrange(0, k@.len() as int) == k@);
        if k.len() > 0 {
            pre.push('/');
        }
        assert(pre@ == child_prefix(k@));
        let (cn, ck) = self.children(pre.as_slice());
        let ghost ct = table(names_of(cn@), ck@);
        let ghost names = names_of(self.names@);
        let ghost m = self.files();
        proof {
            use_type_invariant(self);
            assert forall|n: Seq<char>| #![trigger file_child(m, k@, n)]
                file_child(m, k@, n) == file_seen(names, names.len() as int, pre@, n) by {
                if file_child(m, k@, n) {
                    let j = names.index_of(pre@ + n);
                    assert(names[j] == pre@ + n);
                }
            }
            assert forall|n: Seq<char>| #![trigger dir_child(m, k@, n)]
                dir_child(m, k@, n) == dir_seen(names, names.len() as int, pre@, n) by {
                if dir_child(m, k@, n) {
                    let x = choose|x: Seq<char>| #[trigger]
                        m.contains_key(x) && has_prefix(x, child_prefix(k@) + n.push('/'));
                    let j = names.index_of(x);
                    assert(names[j] == x);
                }
                if dir_seen(names, names.len() as int, pre@, n) {
                    let j = choose|j: int|
                        0 <= j < names.len() && has_prefix(#[trigger] names[j], pre@ + n.push('/'));
                    lemma_table_at(names, self.data@, j);
                    assert(m.contains_key(names[j]));
                }
            }
        }
        let mut out: Vec<Entry> = Vec::new();
        let mut i: usize = 0;
        while i < cn.len()
            invariant
                i <= cn@.len(),
                cn@.len() == ck@.len(),
                strictly_sorted(names_of(cn@)),
                ct == table(names_of(cn@), ck@),
                out@.len() == i,
                forall|x: int| #![trigger out@[x]] 0 <= x < i ==> out@[x].name@ == cn@[x]@ && out@[x].is_dir
                    == ck@[x].0 && out@[x].size == ck@[x].1 && out@[x].mtime is None,
            decreases cn@.len() - i,
        {
            let (is_dir, size) = ck[i];
            out.push(Entry { name: cn[i].clone(), is_dir, size, mtime: None });
            i = i + 1;
        }
        proof {
            let cnames = names_of(cn@);
            assert(out@.map_values(|e: Entry| e.name@) =~= cnames);
            assert forall|x: int| #![trigger out@[x]] 0 <= x < out@.len() implies {
                let n = out@[x].name@;
                &&& (file_child(m, k@, n) || dir_child(m, k@, n))
                &&& out@[x].is_dir == !file_child(m, k@, n)
                &&& out@[x].size == (if file_child(m, k@, n) {
                    m[child_prefix(k@) + n].len() as u64
                } else {
                    0u64
                })
                &&& out@[x].mtime is None
            } by {
                lemma_table_at(cnames, ck@, x);
                assert(cnames[x] == cn@[x]@);
                let n = cn@[x]@;
                assert(file_child(m, k@, n) == file_seen(names, names.len() as int, pre@, n));
                assert(dir_child(m, k@, n) == dir_seen(names, names.len() as int, pre@, n));
            }
            assert forall|n: Seq<char>| #![trigger file_child(m, k@, n)] #![trigger dir_child(m, k@, n)]
                file_child(m, k@, n) || dir_child(m, k@, n) implies exists|x: int|
                    0 <= x < out@.len() && #[trigger] out@[x].name@ == n by {
                assert(ct.contains_key(n));
                let x = cnames.index_of(n);
                assert(out@[x].name@ == n);
            }
        }
        Ok(out)
    }

    fn read(&self, path: &VfsPath) -> (r: Result<Vec<u8>, std::io::Error>)
        ensures
            match r {
                Ok(b) => self.files().contains_key(key_of(path@)) && b@ == self.files()[key_of(path@)],
                Err(_) => !self.files().contains_key(key_of(path@)),
            },
    {
        let k = key(path);
        match self.find(k.as_slice()) {
            Some(i) => Ok(vstd::slice::slice_to_vec(self.data[i])),
            None => Err(not_found()),
        }
    }

    /// The length of the page a reader would be handed.
    fn open(&self, path: &VfsPath) -> (r: Result<u64, std::io::Error>)
        ensures
            match r {
                Ok(n) => self.files().contains_key(key_of(path@)) && n == self.files()[key_of(path@)].len(),
                Err(_) => !self.files().contains_key(key_of(path@)),
            },
    {
        let k = key(path);
        match self.find(k.as_slice()) {
            Some(i) => Ok(self.data[i].len() as u64),
            None => Err(not_found()),
        }
    }

    /// The whole tree, whatever is asked about: an embedded set is served as one
    /// root and a directory inside it is not a root of its own.
    fn root_id_at(&self, path: &VfsPath) -> (r: String)
        ensures
            r@ == self.scheme_spec() + seq![':', '/'],
    {
        let mut s = String::new();
        push_str(&mut s, self.scheme);
        push_char(&mut s, ':');
        push_char(&mut s, '/');
        s
    }
}

} // verus!
