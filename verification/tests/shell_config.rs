use treeserve::embed::EmbeddedFs;
use treeserve::shell::{cannot_open, reply_header, shell_origins, window_title};
use treeserve::{Config, PaneSection, Pin, Reply, Root, RootStatus};

fn docs() -> Root<EmbeddedFs> {
    Root { id: "/home/me/notes".to_string(), vfs: EmbeddedFs::new("notes", Vec::new()) }
}

#[test]
fn the_shell_answers_under_its_scheme_and_its_host_form() {
    assert_eq!(shell_origins(false), vec!["treesight:".to_string(), "treesight://localhost".to_string()]);
    assert_eq!(
        shell_origins(true),
        vec!["treesight:".to_string(), "http://treesight.localhost".to_string()]
    );
}

#[test]
fn a_reply_header_is_found_whatever_its_case() {
    let r = Reply::empty(303).with("location", "/a/").with("Location", "/b/");
    assert_eq!(reply_header(&r, "Location"), Some("/a/".to_string()));
    assert_eq!(reply_header(&r, "Set-Cookie"), None);
}

#[test]
fn a_folder_that_did_not_open_says_why() {
    assert_eq!(
        cannot_open("Z:\\", RootStatus::Unreachable),
        "Z:\\ is not available.\n\nThe drive or share did not answer."
    );
    assert_eq!(cannot_open("/gone", RootStatus::Missing), "/gone is no longer there.");
}

#[test]
fn the_window_is_named_after_what_is_open() {
    let mut cfg: Config<EmbeddedFs> = Config::rootless();
    cfg.app_name = Some("treesight".to_string());
    assert_eq!(window_title(&cfg), "treesight");
    cfg.set_root_vfs(docs());
    assert_eq!(window_title(&cfg), "notes \u{2014} treesight");
    cfg.set_root_name(Some("My notes".to_string()));
    assert_eq!(window_title(&cfg), "My notes \u{2014} treesight");
    cfg.close_root();
    assert_eq!(window_title(&cfg), "treesight");
    assert!(cfg.root().is_none());
    assert_eq!(cfg.root_name(), None);
}

#[test]
fn closing_keeps_the_lists() {
    let mut cfg: Config<EmbeddedFs> = Config::rootless();
    cfg.set_recent(vec!["/a".to_string()]);
    cfg.set_pinned(vec![Pin { id: "/p".to_string(), label: None }]);
    cfg.set_sections(vec![PaneSection {
        class: "hosts".to_string(),
        heading: "Hosts".to_string(),
        heading_acts: Vec::new(),
        entries: Vec::new(),
    }]);
    cfg.set_title(Some("Site".to_string()));
    cfg.set_root_vfs(docs());
    cfg.close_root();
    assert_eq!(cfg.recent(), &vec!["/a".to_string()]);
    assert_eq!(cfg.pinned().len(), 1);
    assert_eq!(cfg.pinned()[0].id, "/p");
    assert_eq!(cfg.sections().len(), 1);
    assert_eq!(cfg.title(), "Site");
}

#[test]
fn the_shell_starts_with_nothing_open_and_the_usage_pages_last() {
    let cfg: Config<EmbeddedFs> = treeserve::shell::shell_config(
        true,
        "treesight".to_string(),
        "0.1.0".to_string(),
        Some("Browse folders.".to_string()),
        vec![("Home".to_string(), "/home/me".to_string())],
        vec![("Box".to_string(), "ssh:box:/".to_string())],
        vec!["/a".to_string()],
        Vec::new(),
        Vec::new(),
    );
    assert!(cfg.root().is_none());
    assert!(cfg.app_ui && cfg.picker);
    assert_eq!(cfg.app_name.as_deref(), Some("treesight"));
    assert_eq!(cfg.app_version.as_deref(), Some("0.1.0"));
    assert_eq!(
        cfg.places,
        vec![
            ("Home".to_string(), "/home/me".to_string()),
            ("Box".to_string(), "ssh:box:/".to_string()),
            ("Usage".to_string(), "usage:/".to_string()),
        ]
    );
    assert_eq!(cfg.recent(), &vec!["/a".to_string()]);
}
