//! The filesystem seam: what the renderer asks of a served tree.
//!
//! Every page is rendered from the answers to a handful of questions —
//! resolve, metadata, list, read, open — and nothing else. An embedder can
//! plug in a backend that answers them from anywhere, and every view works
//! unchanged. The server itself never learns where the bytes are.

use vstd::prelude::*;

verus! {

/// The error a backend reports when it cannot answer.
#[verifier::external_type_specification]
#[verifier::external_body]
pub struct ExIoError(std::io::Error);

/// A list of strings, element for element.
pub open spec fn string_views(v: Seq<String>) -> Seq<Seq<char>> {
    v.map_values(|s: String| s@)
}

/// A copy of a list of strings.
pub fn clone_strings(v: &Vec<String>) -> (r: Vec<String>)
    ensures
        r@ == v@,
{
    let r = v.clone();
    proof {
        assert forall|i: int| 0 <= i < v.len() implies r@[i] == v@[i] by {
            assert(cloned::<String>(v[i], r[i]));
        }
        assert(r@ =~= v@);
    }
    r
}

/// A path inside a served root: percent-decoded segments with no separators
/// and no `.` or `..` — the URL side of the server already speaks exactly
/// this. Spelled out it is always `/`-joined, whatever the backend's host
/// uses, which is what keeps a served page identical over every backend.
#[derive(Debug)]
pub struct VfsPath(Vec<String>);

impl View for VfsPath {
    type V = Seq<Seq<char>>;

    closed spec fn view(&self) -> Seq<Seq<char>> {
        string_views(self.0@)
    }
}

impl VfsPath {
    /// The served root itself.
    pub fn root() -> (r: VfsPath)
        ensures
            r@ == Seq::<Seq<char>>::empty(),
    {
        let r = VfsPath(Vec::new());
        assert(r@ =~= Seq::<Seq<char>>::empty());
        r
    }

    pub fn new(segments: Vec<String>) -> (r: VfsPath)
        ensures
            r@ == string_views(segments@),
    {
        VfsPath(segments)
    }

    pub fn segments(&self) -> (r: &[String])
        ensures
            string_views(r@) == self@,
    {
        self.0.as_slice()
    }

    pub fn join(&self, name: &str) -> (r: VfsPath)
        ensures
            r@ == self@.push(name@),
    {
        let mut segs = clone_strings(&self.0);
        segs.push(name.to_owned());
        let r = VfsPath(segs);
        assert(r@ =~= self@.push(name@));
        r
    }

    /// The same path, held twice.
    pub fn duplicate(&self) -> (r: VfsPath)
        ensures
            r@ == self@,
    {
        VfsPath(clone_strings(&self.0))
    }
}

/// A moment, as seconds and nanoseconds since the Unix epoch. A time before
/// the epoch is not one a backend reports.
#[derive(Clone, Copy, Debug, PartialEq, Eq, Structural)]
pub struct Mtime {
    pub secs: u64,
    pub nanos: u32,
}

/// What a path turned out to be. `mtime` and `len` also make the ETag, so a
/// backend that cannot answer `mtime` serves without conditional requests
/// rather than with wrong ones.
#[derive(Clone, Copy, Debug)]
pub struct Meta {
    pub is_dir: bool,
    pub is_file: bool,
    pub len: u64,
    pub mtime: Option<Mtime>,
    /// Unix permission bits, when the backend knows them — what Save As
    /// restores on a copy, so a downloaded script stays executable.
    pub mode: Option<u32>,
}

/// One directory entry, as a listing shows it. `is_dir` follows symlinks —
/// a link to a directory lists and walks as a directory — while `size` and
/// `mtime` describe the entry itself.
#[derive(Debug)]
pub struct Entry {
    pub name: String,
    pub is_dir: bool,
    pub size: u64,
    pub mtime: Option<Mtime>,
}

/// Why [`Vfs::resolve`] refused a path.
#[derive(Clone, Copy, Debug, PartialEq, Eq, Structural)]
pub enum ResolveError {
    /// Nothing there.
    Missing,
    /// There, but it leads out of the served root — a symlink whose target is
    /// outside. Refused for the same reason `..` is refused in a URL.
    Outside,
}

/// What a backend's refusal to answer comes to, for a reader: the thing is
/// gone, it is there but may not be read, or the backend did not answer.
#[derive(Clone, Copy, Debug, PartialEq, Eq, Structural)]
pub enum Refusal {
    Gone,
    Denied,
    NoAnswer,
}

/// The few words a refusal is drawn with where a row or a node stands.
pub open spec fn refusal_words(k: Refusal) -> Seq<char> {
    match k {
        Refusal::Gone => "gone"@,
        Refusal::Denied => "not readable"@,
        Refusal::NoAnswer => "no answer"@,
    }
}

impl Refusal {
    pub fn words(self) -> (r: &'static str)
        ensures
            r@ == refusal_words(self),
    {
        match self {
            Refusal::Gone => "gone",
            Refusal::Denied => "not readable",
            Refusal::NoAnswer => "no answer",
        }
    }
}

/// The kinds of backend error a reader is told apart: nothing there, not
/// allowed, and every other.
#[derive(Clone, Copy, Debug, PartialEq, Eq, Structural)]
pub enum ErrorKindSeen {
    NotFound,
    PermissionDenied,
    Other,
}

/// `io::Error::kind`, as the two kinds a reader is told apart and the rest.
/// The error is opaque here, so which one comes back is not stated.
#[verifier::external_body]
fn kind_of(e: &std::io::Error) -> ErrorKindSeen {
    match e.kind() {
        std::io::ErrorKind::NotFound => ErrorKindSeen::NotFound,
        std::io::ErrorKind::PermissionDenied => ErrorKindSeen::PermissionDenied,
        _ => ErrorKindSeen::Other,
    }
}

/// What a backend's refusal comes to, by its kind: nothing there is gone,
/// not allowed is not readable, and any other is a backend that did not
/// answer.
pub open spec fn refusal_for_spec(k: ErrorKindSeen) -> Refusal {
    match k {
        ErrorKindSeen::NotFound => Refusal::Gone,
        ErrorKindSeen::PermissionDenied => Refusal::Denied,
        ErrorKindSeen::Other => Refusal::NoAnswer,
    }
}

pub fn refusal_for(k: ErrorKindSeen) -> (r: Refusal)
    ensures
        r == refusal_for_spec(k),
{
    match k {
        ErrorKindSeen::NotFound => Refusal::Gone,
        ErrorKindSeen::PermissionDenied => Refusal::Denied,
        ErrorKindSeen::Other => Refusal::NoAnswer,
    }
}

/// What a backend's error comes to for a reader.
pub fn refusal_of(e: &std::io::Error) -> (r: Refusal)
    ensures
        exists|k: ErrorKindSeen| r == refusal_for_spec(k),
{
    refusal_for(kind_of(e))
}

/// A served tree. Paths are [`VfsPath`]s relative to the backend's root.
///
/// Confinement — refusing a path that leads out of the root — is
/// [`resolve`](Vfs::resolve)'s job, and only its job: it runs once per
/// request, on the URL's path. The other methods are asked either about the
/// path `resolve` returned or about children of it made by joining names
/// [`read_dir`](Vfs::read_dir) reported, and those joins are answered as the
/// host answers them.
pub trait Vfs {
    /// The canonical form of `path`: symlinks resolved, confinement checked.
    fn resolve(&self, path: &VfsPath) -> Result<VfsPath, ResolveError>;

    fn metadata(&self, path: &VfsPath) -> Result<Meta, std::io::Error>;

    /// Entries as the backend finds them: unfiltered and unsorted. Hiding
    /// dotfiles and ordering rows are page policy, not filesystem truth, so
    /// they stay with the page.
    fn read_dir(&self, path: &VfsPath) -> Result<Vec<Entry>, std::io::Error>;

    /// The whole file. Callers cap what they ask for; anything unbounded is
    /// streamed by whoever writes the reply.
    fn read(&self, path: &VfsPath) -> Result<Vec<u8>, std::io::Error>;

    /// Opens the file for streaming and answers how many bytes it holds. The
    /// bytes themselves are pumped by whoever writes the reply out.
    fn open(&self, path: &VfsPath) -> Result<u64, std::io::Error>;

    /// Whether this backend offers a copy of its files: a property of the
    /// backend, the same whenever it is asked.
    spec fn copies_offered(&self) -> bool;

    /// Whether this backend's documents came off the machine this is
    /// running on: a property of the backend, the same whenever it is asked.
    spec fn is_on_this_device(&self) -> bool;

    /// The most this backend hands over in one piece, where it has a limit:
    /// a property of the backend, the same whenever it is asked.
    spec fn piece_limit(&self) -> Option<u64>;

    /// Whether a copy of a file here is something to offer. The same for a
    /// whole tree: what varies is where the tree *is*. A backend of files
    /// worth keeping answers `true`.
    fn downloadable(&self) -> (r: bool)
        ensures
            r == self.copies_offered(),
    ;

    /// Whether a document from here came off the machine this is running on.
    /// A backend that cannot say answers `false`, so that its documents are
    /// treated as from somewhere else.
    fn on_this_device(&self) -> (r: bool)
        ensures
            r == self.is_on_this_device(),
    ;

    /// The most this backend will hand over in one piece, where it has a limit
    /// at all; `None` where it has none.
    fn open_limit(&self) -> (r: Option<u64>)
        ensures
            r == self.piece_limit(),
    ;

    /// The RootId that would serve `path` as a root of its own.
    fn root_id_at(&self, path: &VfsPath) -> String;

    /// The RootId of the served root itself.
    fn root_id(&self) -> String {
        let root = VfsPath::root();
        self.root_id_at(&root)
    }
}


/// Whether `p` is where `s` starts.
pub open spec fn starts_with_parts(s: Seq<Seq<u8>>, p: Seq<Seq<u8>>) -> bool {
    p.len() <= s.len() && s.take(p.len() as int) == p
}

/// Byte strings, element for element.
pub open spec fn byte_views(v: Seq<Vec<u8>>) -> Seq<Seq<u8>> {
    v.map_values(|b: Vec<u8>| b@)
}

fn bytes_eq(a: &[u8], b: &[u8]) -> (r: bool)
    ensures
        r == (a@ == b@),
{
    if a.len() != b.len() {
        return false;
    }
    let mut i: usize = 0;
    while i < a.len()
        invariant
            a@.len() == b@.len(),
            i <= a@.len(),
            forall|j: int| 0 <= j < i ==> a@[j] == b@[j],
        decreases a@.len() - i,
    {
        if a[i] != b[i] {
            return false;
        }
        i = i + 1;
    }
    assert(a@ =~= b@);
    true
}

/// Where a canonical path stands against a root, both given as their
/// components' bytes: what follows the root where the path is inside it,
/// and `Outside` where it is not. A backend on a host filesystem confines
/// with this once it has canonicalized a path, so a symlink that leads out
/// of the root is refused however it is spelled. Bytes, not text: two names
/// that differ only in bytes that are not UTF-8 are still two names.
pub fn confine(root: &[Vec<u8>], canon: &[Vec<u8>]) -> (r: Result<Vec<Vec<u8>>, ResolveError>)
    ensures
        starts_with_parts(byte_views(canon@), byte_views(root@)) ==> (r matches Ok(rest)
            && byte_views(root@) + byte_views(rest@) == byte_views(canon@)),
        !starts_with_parts(byte_views(canon@), byte_views(root@)) ==> r == Err::<Vec<Vec<u8>>, ResolveError>(
            ResolveError::Outside,
        ),
{
    let ghost rv = byte_views(root@);
    let ghost cv = byte_views(canon@);
    if root.len() > canon.len() {
        return Err(ResolveError::Outside);
    }
    let mut i: usize = 0;
    while i < root.len()
        invariant
            i <= root@.len() <= canon@.len(),
            rv == byte_views(root@),
            cv == byte_views(canon@),
            forall|j: int| 0 <= j < i ==> rv[j] == cv[j],
        decreases root@.len() - i,
    {
        if !bytes_eq(root[i].as_slice(), canon[i].as_slice()) {
            proof {
                if starts_with_parts(cv, rv) {
                    assert(cv.take(rv.len() as int)[i as int] == cv[i as int]);
                }
            }
            return Err(ResolveError::Outside);
        }
        i = i + 1;
    }
    assert(cv.take(rv.len() as int) =~= rv);
    let mut rest: Vec<Vec<u8>> = Vec::new();
    let mut k: usize = root.len();
    while k < canon.len()
        invariant
            root@.len() <= k <= canon@.len(),
            rv == byte_views(root@),
            cv == byte_views(canon@),
            cv.take(rv.len() as int) == rv,
            byte_views(rest@) == cv.subrange(rv.len() as int, k as int),
        decreases canon@.len() - k,
    {
        let ghost before = byte_views(rest@);
        let part = vstd::slice::slice_to_vec(canon[k].as_slice());
        rest.push(part);
        assert(byte_views(rest@) =~= before.push(cv[k as int]));
        assert(cv.subrange(rv.len() as int, k + 1) =~= cv.subrange(rv.len() as int, k as int).push(cv[k as int]));
        k = k + 1;
    }
    assert(rv + byte_views(rest@) =~= cv);
    Ok(rest)
}

} // verus!
