use treeserve::embed::EmbeddedFs;
use treeserve::vfs::{ResolveError, Vfs, VfsPath};

const PAGES: &[(&str, &[u8])] = &[
    ("index.md", b"one"),
    ("keyboard.md", b"two"),
    ("deep/nested.md", b"three"),
];

fn fs() -> EmbeddedFs {
    EmbeddedFs::new("usage", PAGES.to_vec())
}

fn at(segments: &[&str]) -> VfsPath {
    VfsPath::new(segments.iter().map(|s| s.to_string()).collect())
}

#[test]
fn a_directory_is_whatever_the_paths_imply() {
    let fs = fs();
    let names: Vec<String> = fs
        .read_dir(&VfsPath::root())
        .expect("root lists")
        .into_iter()
        .map(|e| format!("{}{}", e.name, if e.is_dir { "/" } else { "" }))
        .collect();
    assert_eq!(names, ["deep/", "index.md", "keyboard.md"]);
    assert!(fs.metadata(&at(&["deep"])).expect("deep is there").is_dir);
    assert_eq!(fs.read(&at(&["deep", "nested.md"])).unwrap(), b"three");
}

#[test]
fn a_later_page_replaces_an_earlier_one() {
    let extra: &[(&str, &[u8])] = &[("index.md", b"mine")];
    let fs = EmbeddedFs::new("usage", PAGES.iter().chain(extra).copied().collect());
    assert_eq!(fs.read(&at(&["index.md"])).unwrap(), b"mine");
    assert_eq!(fs.read(&at(&["keyboard.md"])).unwrap(), b"two");
}

#[test]
fn nothing_here_leads_outside() {
    let fs = fs();
    assert!(matches!(fs.resolve(&at(&["absent.md"])), Err(ResolveError::Missing)));
    assert!(fs.resolve(&at(&["deep"])).is_ok());
    assert_eq!(fs.root_id_at(&at(&["deep"])), "usage:/");
}

#[test]
fn a_leading_slash_names_the_same_page_and_a_file_is_no_directory() {
    let fs = EmbeddedFs::new("usage", vec![("/a.md", b"x".as_slice())]);
    assert_eq!(fs.read(&at(&["a.md"])).unwrap(), b"x");
    assert!(fs.read_dir(&at(&["a.md"])).is_err());
    assert!(fs.read(&at(&["missing.md"])).is_err());
    assert_eq!(fs.open(&at(&["a.md"])).unwrap(), 1);
    assert!(!fs.downloadable());
    assert!(fs.on_this_device());
}
