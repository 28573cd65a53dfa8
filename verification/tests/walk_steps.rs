use treeserve::page::{readme_fits, readme_section, scan_step, ScanStep};
use treeserve::shell::save_choice;
use treeserve::vfs::{Entry, VfsPath};
use treeserve::{PathError, Resolved};

fn entry(name: &str, is_dir: bool) -> Entry {
    Entry { name: name.to_string(), is_dir, size: 0, mtime: None }
}

#[test]
fn each_listed_entry_gets_one_step() {
    let top: Vec<String> = Vec::new();
    let deep: Vec<String> = (0..11).map(|i| format!("d{i}")).collect();
    assert_eq!(scan_step(1, 0, "*.rs", false, &top, &entry("a.rs", false)), ScanStep::Match);
    assert_eq!(scan_step(1, 0, "*.rs", false, &top, &entry("a.md", false)), ScanStep::Pass);
    assert_eq!(scan_step(1, 0, "*.rs", true, &top, &entry("src", true)), ScanStep::Descend);
    assert_eq!(scan_step(1, 0, "*.rs", false, &top, &entry("src", true)), ScanStep::Pass);
    assert_eq!(scan_step(1, 0, "*.rs", true, &deep, &entry("src", true)), ScanStep::TooDeep);
    assert_eq!(scan_step(50001, 0, "*.rs", true, &top, &entry("a.rs", false)), ScanStep::Stop);
    assert_eq!(scan_step(1, 2000, "*.rs", true, &top, &entry("a.rs", false)), ScanStep::Stop);
    let src = vec!["src".to_string()];
    assert_eq!(scan_step(1, 0, "src/*.rs", true, &src, &entry("lib.rs", false)), ScanStep::Match);
    assert_eq!(scan_step(1, 0, "src/*.rs", true, &top, &entry("lib.rs", false)), ScanStep::Pass);
}

#[test]
fn a_readme_is_drawn_when_it_is_a_small_text_file() {
    assert!(readme_fits(true, 10, b"# Hello\n"));
    assert!(!readme_fits(false, 10, b"# Hello\n"));
    assert!(!readme_fits(true, 3 * 1024 * 1024, b"# Hello\n"));
    assert!(!readme_fits(true, 3, b"a\0b"));
    assert_eq!(
        readme_section("<p>x</p>"),
        "<section class=\"listing-readme\"><div class=\"md\"><p>x</p></div></section>"
    );
}

#[test]
fn a_download_saves_a_resolved_file_under_its_last_name() {
    let res = || Resolved {
        rel: vec!["docs".to_string(), "a.md".to_string()],
        path: VfsPath::new(vec!["docs".to_string(), "a.md".to_string()]),
    };
    let (path, name) = save_choice(Ok(res()), true).expect("a file");
    assert_eq!(name, "a.md");
    assert_eq!(path.segments().len(), 2);
    assert!(save_choice(Ok(res()), false).is_none());
    assert!(save_choice(Err(PathError::Bad), true).is_none());
    let root = Resolved { rel: Vec::new(), path: VfsPath::root() };
    assert_eq!(save_choice(Ok(root), true).map(|t| t.1), Some(String::new()));
}
