use treeserve::embed::EmbeddedFs;
use treeserve::shell::save_target;
use treeserve::page::ThemeMode;
use treeserve::shell::{
    drive_places, folder_args, forgotten, gone_ids, ids_to_probe, jar_from_text, jar_text,
    navigation, path_and_query, picker_start, pinned_entries, pinned_text, pref_step,
    recent_ids, recent_text, set_shell_theme, shell_theme, wait_url, with_pin, without_pin,
    worth_a_reload, Jar, Navigation, PrefStep,
};
use treeserve::util::parse_query;
use treeserve::{Pin, RootStatus};

fn pin(id: &str, label: Option<&str>) -> Pin {
    Pin { id: id.to_string(), label: label.map(|l| l.to_string()) }
}

fn pins_equal(a: &[Pin], b: &[Pin]) -> bool {
    a.len() == b.len() && a.iter().zip(b).all(|(x, y)| x.id == y.id && x.label == y.label)
}

#[test]
fn a_pinned_list_reads_back_as_written() {
    let list = vec![
        pin("/home/me/notes", None),
        pin("ssh:host:/srv\twith a tab", Some("Server")),
        pin("C:\\Users", Some("")),
    ];
    let text = pinned_text(&list);
    assert_eq!(text, "/home/me/notes\nServer\tssh:host:/srv\twith a tab\n\tC:\\Users\n");
    assert!(pins_equal(&pinned_entries(&text), &list));
}

#[test]
fn pinning_twice_changes_nothing_and_tabs_leave_the_label() {
    let list = vec![pin("/a", None)];
    assert!(with_pin(&list, "/a", Some("again")).is_none());
    let more = with_pin(&list, "/b", Some("two\twords")).unwrap();
    assert!(pins_equal(&more, &[pin("/a", None), pin("/b", Some("two words"))]));
}

#[test]
fn unpinning_undoes_a_pin() {
    let list = vec![pin("/a", None), pin("/c", Some("C"))];
    let more = with_pin(&list, "/b", None).unwrap();
    let back = without_pin(&more, "/b").unwrap();
    assert!(pins_equal(&back, &list));
    assert!(without_pin(&list, "/nowhere").is_none());
}

#[test]
fn forgetting_drops_only_that_row() {
    let list: Vec<String> = vec!["/a".into(), "/b".into(), "/c".into()];
    assert_eq!(forgotten(&list, "/b"), Some(vec!["/a".to_string(), "/c".to_string()]));
    assert_eq!(forgotten(&list, "/z"), None);
}

#[test]
fn recent_reads_back_as_written() {
    let list: Vec<String> = vec!["/one".into(), "D:\\two".into(), "ssh:host:/x".into()];
    let text = recent_text(&list);
    assert_eq!(text, "/one\nD:\\two\nssh:host:/x\n");
    assert_eq!(recent_ids(&text), list);
}

#[test]
fn a_jar_file_reads_back_the_same_jar() {
    let mut jar = Jar::new();
    jar.set("ts_theme", "dark");
    jar.set("ts_open", "a/b,c");
    jar.set("ts_ln", "");
    let back = jar_from_text(&jar_text(&jar));
    assert_eq!(back.get("ts_theme"), Some("dark".to_string()));
    assert_eq!(back.get("ts_open"), Some("a/b,c".to_string()));
    assert_eq!(back.get("ts_ln"), Some(String::new()));
    assert_eq!(back.get("missing"), None);
    assert_eq!(jar_text(&back), jar_text(&jar));
}

#[test]
fn a_chosen_theme_is_the_theme_drawn() {
    let mut jar = Jar::new();
    assert_eq!(shell_theme(&jar, None), ThemeMode::Auto);
    assert_eq!(shell_theme(&jar, Some(ThemeMode::Light)), ThemeMode::Light);
    set_shell_theme(&mut jar, ThemeMode::Dark);
    assert_eq!(shell_theme(&jar, Some(ThemeMode::Light)), ThemeMode::Dark);
    jar.set("ts_theme", "purple");
    assert_eq!(shell_theme(&jar, Some(ThemeMode::Light)), ThemeMode::Light);
}

#[test]
fn navigation_goes_where_its_origin_says() {
    let shell: Vec<String> = vec!["treesight:".into(), "http://treesight.localhost".into()];
    let ext: Vec<String> = vec!["telesight:".into()];
    let none: Vec<(String, String)> = Vec::new();
    let dl = parse_query("dl=1");
    let nav = |scheme: &str, origin: &str, path: &str, q: &[(String, String)]| {
        navigation(&shell, &ext, scheme, origin, path, q)
    };
    assert_eq!(nav("treesight", "null", "/.ts/open", &none), Navigation::Shell);
    assert_eq!(nav("treesight", "null", "/.ts/root", &none), Navigation::Shell);
    assert_eq!(nav("treesight", "null", "/src/a.rs", &dl), Navigation::Download);
    assert_eq!(nav("treesight", "null", "/src/a.rs", &none), Navigation::Load);
    assert_eq!(nav("http", "http://treesight.localhost", "/", &none), Navigation::Load);
    assert_eq!(
        nav("http", "http://treesight.localhost.evil.com", "/.ts/open", &none),
        Navigation::Browser
    );
    assert_eq!(nav("telesight", "null", "/.ts/open", &none), Navigation::Load);
    assert_eq!(nav("https", "https://example.com", "/", &none), Navigation::Browser);
}

#[test]
fn the_router_gets_path_and_query() {
    assert_eq!(path_and_query("/a/b", Some("raw=1")), "/a/b?raw=1");
    assert_eq!(path_and_query("/a/b", None), "/a/b");
}

#[test]
fn the_wait_page_names_the_folder() {
    assert_eq!(
        wait_url("treesight://localhost", "\\\\?\\C:\\My Files"),
        "treesight://localhost/.ts/wait?path=C%3A%5CMy%20Files"
    );
}

#[test]
fn a_toggle_reloads_the_page_it_was_clicked_on() {
    assert_eq!(pref_step(Some("/src?x=1"), "/src?x=1", "treesight://localhost"), PrefStep::Reload);
    assert_eq!(
        pref_step(Some("/src"), "/doc", "treesight://localhost"),
        PrefStep::Navigate("treesight://localhost/doc".to_string())
    );
    assert_eq!(
        pref_step(None, "/", "o"),
        PrefStep::Navigate("o/".to_string())
    );
}

#[test]
fn only_local_shortcuts_are_looked_at() {
    let places: Vec<(String, String)> =
        vec![("Home".into(), "/home/me".into()), ("Box".into(), "ssh:box:/".into())];
    let recent: Vec<String> = vec!["/tmp".into(), "sftp:x:/y".into(), "C:\\data".into()];
    assert_eq!(
        ids_to_probe(&places, &recent),
        vec!["/home/me".to_string(), "/tmp".to_string(), "C:\\data".to_string()]
    );
}

#[test]
fn recent_loses_what_did_not_answer_as_a_folder() {
    let recent: Vec<String> = vec!["/a".into(), "/b".into(), "/c".into()];
    let answers = vec![
        ("/home".to_string(), RootStatus::Missing),
        ("/a".to_string(), RootStatus::Present),
        ("/b".to_string(), RootStatus::Unreachable),
        ("/c".to_string(), RootStatus::Missing),
    ];
    assert_eq!(gone_ids(&answers, &recent), vec!["/b".to_string(), "/c".to_string()]);
    assert!(worth_a_reload(&answers));
    assert!(!worth_a_reload(&[("/a".to_string(), RootStatus::Present)]));
    assert!(!worth_a_reload(&[]));
}

#[test]
fn the_picker_starts_at_the_newest_local_folder() {
    let recent: Vec<String> = vec!["ssh:h:/".into(), "/work".into(), "/older".into()];
    assert_eq!(picker_start(&recent), Some("/work".to_string()));
    assert_eq!(picker_start(&["ssh:h:/".to_string()]), None);
}

#[test]
fn flags_are_not_folders() {
    let args: Vec<String> = vec!["--verbose".into(), "/srv".into(), "-x".into(), "notes".into()];
    assert_eq!(folder_args(&args), vec!["/srv".to_string(), "notes".to_string()]);
}

#[test]
fn drive_letters_come_from_the_mask() {
    let mask: u32 = (1 << 2) | (1 << 3) | (1 << 25);
    assert_eq!(
        drive_places(mask),
        vec![
            ("C:".to_string(), "C:\\".to_string()),
            ("D:".to_string(), "D:\\".to_string()),
            ("Z:".to_string(), "Z:\\".to_string()),
        ]
    );
    assert!(drive_places(0).is_empty());
    assert_eq!(drive_places(u32::MAX).len(), 26);
}

#[test]
fn a_download_saves_the_file_its_link_names() {
    let fs = EmbeddedFs::new("t", vec![("docs/a.md", b"# a" as &[u8]), ("top.txt", b"t")]);
    let (path, name) = save_target(&fs, "/docs/a.md").expect("a file");
    assert_eq!(name, "a.md");
    assert_eq!(path.segments(), &["docs".to_string(), "a.md".to_string()][..]);
    assert_eq!(save_target(&fs, "/top.txt").map(|t| t.1), Some("top.txt".to_string()));
    assert!(save_target(&fs, "/docs/").is_none(), "a directory is not saved");
    assert!(save_target(&fs, "/docs/missing.md").is_none());
    assert!(save_target(&fs, "/docs/../top.txt").is_none(), "no traversal");
}
