use treeserve::url_segments;
use treeserve::parse_range;
use treeserve::etag_matches;
use treeserve::vfs::{Meta, Mtime};
use treeserve::{leaf_of, root_id_bookmark, root_id_is_local};

#[test]
fn a_remote_root_id_carries_the_bookmark_it_came_from() {
    assert_eq!(root_id_bookmark("ssh:iota:/home/hanhua"), Some("iota"));
    assert_eq!(root_id_bookmark("s3:bucket:/data"), Some("bucket"));
    assert_eq!(root_id_bookmark("/home/x"), None);
    assert_eq!(root_id_bookmark(r"C:\Users\x"), None);
    assert_eq!(root_id_bookmark("/odd:name/dir"), None);
    assert_eq!(root_id_bookmark("ssh::/x"), None);
    assert_eq!(root_id_bookmark("ssh:iota"), None);
}

#[test]
fn leaf_of_mirrors_file_name() {
    assert_eq!(leaf_of("/home/x/mix", false), Some("mix"));
    assert_eq!(leaf_of("/", false), None);
    assert_eq!(leaf_of("name", false), Some("name"));
    assert_eq!(leaf_of("", false), None);
    assert_eq!(leaf_of("ssh:web:/var/www", false), Some("www"));
    assert_eq!(leaf_of(r"/x/a\b", false), Some(r"a\b"));
    assert_eq!(leaf_of(r"C:\", true), None);
    assert_eq!(leaf_of(r"C:\Users\x", true), Some("x"));
    assert_eq!(leaf_of(r"\\server\share", true), None);
    assert_eq!(leaf_of(r"\\server\share\dir", true), Some("dir"));
}

#[test]
fn scheme_grammar_decides_remote() {
    assert!(root_id_is_local("/home/x"));
    assert!(root_id_is_local(r"C:\Users\x"));
    assert!(root_id_is_local("/odd:name/dir"));
    assert!(!root_id_is_local("ssh:web:/var/www"));
    assert!(!root_id_is_local("s3:bucket:/data"));
    assert!(!root_id_is_local("ssh2:x:/y"));
}

#[test]
fn drive_letters_are_local_and_schemes_are_not() {
    assert!(root_id_is_local("/home/x/mix"));
    assert!(root_id_is_local(r"C:\Users\x"));
    assert!(root_id_is_local(r"\\server\share"));
    assert!(root_id_is_local("/odd:name/dir"));
    assert!(!root_id_is_local("ssh:prod-web:/var/www"));
    assert!(!root_id_is_local("s3:bucket:/data"));
}

#[test]
fn a_url_path_is_decoded_and_refused_where_it_climbs() {
    assert_eq!(url_segments("/a%20b//c/"), Some(vec!["a b".to_string(), "c".to_string()]));
    assert_eq!(url_segments("/"), Some(Vec::new()));
    assert_eq!(url_segments("/a/../b"), None);
    assert_eq!(url_segments("/a/%2e%2e/b"), None);
    assert_eq!(url_segments("/a%00b"), None);
}

#[test]
fn a_range_is_read_as_the_standard_says() {
    assert_eq!(parse_range("bytes=0-99", 1000), Some((0, 99)));
    assert_eq!(parse_range("bytes=500-", 1000), Some((500, 999)));
    assert_eq!(parse_range("bytes=-100", 1000), Some((900, 999)));
    assert_eq!(parse_range("bytes=-2000", 1000), Some((0, 999)));
    assert_eq!(parse_range("bytes=0-5000", 1000), Some((0, 999)));
    assert_eq!(parse_range("bytes=0-1,5-6", 1000), None);
    assert_eq!(parse_range("bytes=0-1", 0), None);
    assert_eq!(parse_range("items=0-1", 10), None);
    assert_eq!(parse_range("bytes=-", 10), None);
}

#[test]
fn an_etag_matches_as_quoted_weak_or_any() {
    assert!(etag_matches("\"1-2-3\"", "\"1-2-3\""));
    assert!(etag_matches("W/\"1-2-3\"", "\"1-2-3\""));
    assert!(etag_matches(" \"x\", \"1-2-3\" ", "\"1-2-3\""));
    assert!(etag_matches("*", "\"1-2-3\""));
    assert!(!etag_matches("\"1-2-4\"", "\"1-2-3\""));
}

#[test]
fn a_file_is_tagged_by_when_it_changed_and_how_long_it_is() {
    let meta = Meta { is_dir: false, is_file: true, len: 255, mtime: Some(Mtime { secs: 16, nanos: 10 }), mode: None };
    assert_eq!(treeserve::etag_for(&meta), Some("\"10-a-ff\"".to_string()));
    let untimed = Meta { mtime: None, ..meta };
    assert_eq!(treeserve::etag_for(&untimed), None);
}

fn parts(v: &[&[u8]]) -> Vec<Vec<u8>> {
    v.iter().map(|p| p.to_vec()).collect()
}

#[test]
fn a_canonical_path_under_the_root_keeps_what_follows_it() {
    let root = parts(&[b"/", b"srv", b"tree"]);
    assert_eq!(
        treeserve::vfs::confine(&root, &parts(&[b"/", b"srv", b"tree", b"docs", b"a.md"])),
        Ok(parts(&[b"docs", b"a.md"]))
    );
    assert_eq!(treeserve::vfs::confine(&root, &root), Ok(Vec::new()));
}

#[test]
fn a_canonical_path_elsewhere_is_outside() {
    let root = parts(&[b"/", b"srv", b"tree"]);
    for canon in [
        parts(&[b"/", b"srv", b"treehouse", b"a"]),
        parts(&[b"/", b"etc", b"passwd"]),
        parts(&[b"/", b"srv"]),
        parts(&[b"/", b"srv", b"tre\xff"]),
    ] {
        assert_eq!(
            treeserve::vfs::confine(&root, &canon),
            Err(treeserve::vfs::ResolveError::Outside),
            "{canon:?}"
        );
    }
}

#[test]
fn a_glob_takes_classes_ranges_and_negation() {
    let m = treeserve::util::fnmatch;
    assert!(m("[a-c]*.md", "b-notes.md"));
    assert!(m("[a-c]*.md", "a.md"));
    assert!(!m("[a-c]*.md", "d.md"));
    assert!(m("[!a-c]*.md", "d.md"));
    assert!(!m("[^a-c]*.md", "a.md"));
    assert!(m("x[]]y", "x]y"));
    assert!(m("[xyz].rs", "y.rs"));
    assert!(!m("[xyz].rs", "w.rs"));
    assert!(m("[abc", "[abc"), "a bracket nothing closes is itself");
    assert!(m("*.rs", "main.rs"));
    assert!(m("?.md", "a.md"));
    assert!(!m("?.md", "ab.md"));
    assert!(m("src/*.rs", "src/lib.rs"));
    assert!(m("", ""));
    assert!(!m("", "a"));
}
