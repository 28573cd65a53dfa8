use treeserve::embed::EmbeddedFs;
use treeserve::page::{start_page, listing_page, sorted_entries, ThemeMode, Prefs, ICON_PLUS};
use treeserve::vfs::{Entry, VfsPath};
use treeserve::{handle, Body, Config, PaneEntry, PaneSection, Pin, Reply, Req, Root, RootStatus, State};

const FILES: &[(&str, &[u8])] = &[
    ("README.md", b"# Hello listing\n\nA note.\n"),
    ("a.rs", b"fn main() {}\nfn other() {}\n"),
    ("src/lib.rs", b"pub fn x() {}\n"),
    ("pic.png", b"\x89PNG"),
    ("blob.bin", b"a\0b"),
    (".hidden", b"x"),
];

fn served(app_ui: bool) -> State<EmbeddedFs> {
    let mut cfg: Config<EmbeddedFs> = Config::rootless();
    cfg.app_ui = app_ui;
    cfg.set_root_vfs(Root { id: "docs:/".to_string(), vfs: EmbeddedFs::new("docs", FILES.to_vec()) });
    State { cfg, app_css: "body{}".to_string(), math_css: "math{}".to_string() }
}

fn rootless() -> State<EmbeddedFs> {
    State { cfg: Config::rootless(), app_css: "body{}".to_string(), math_css: "math{}".to_string() }
}

fn get(state: &State<EmbeddedFs>, url: &str) -> Reply {
    handle(
        state,
        &Req {
            url: url.to_string(),
            headers: vec![("Accept".to_string(), "text/html".to_string())],
            is_get: true,
        },
    )
}

fn text(r: &Reply) -> &str {
    match &r.body {
        Body::Text(t) => t,
        _ => panic!("a page is text"),
    }
}

#[test]
fn nothing_open_means_one_page_and_a_way_back_to_it() {
    let state = rootless();
    let start = get(&state, "/");
    assert_eq!(start.status, 200);
    match &start.body {
        Body::Text(t) => assert!(t.contains("class=\"app nothing\""), "{t}"),
        _ => panic!("a page is text"),
    }
    let stale = get(&state, "/src/main.rs");
    assert_eq!(stale.status, 302);
    assert!(stale.headers.contains(&("Location".to_string(), "/".to_string())));
    assert_eq!(get(&state, "/.ts/app.css").status, 200);
}

#[test]
fn only_a_get_is_answered() {
    let state = rootless();
    let r = handle(&state, &Req { url: "/".to_string(), headers: Vec::new(), is_get: false });
    assert_eq!(r.status, 405);
    assert_eq!(text(&r), "method not allowed");
}

#[test]
fn the_start_page_offers_what_there_is_to_open() {
    let mut state = rootless();
    state.cfg.app_ui = true;
    state.cfg.picker = true;
    state.cfg.places = vec![("Home".to_string(), "/home/x".to_string())];
    state.cfg.set_recent(vec!["ssh:iota:/home/hanhua".to_string()]);
    state.cfg.set_sections(vec![PaneSection {
        class: "servers".to_string(),
        heading: "Servers".to_string(),
        heading_acts: vec![("/x/manage".to_string(), ICON_PLUS.to_string(), "Manage".to_string())],
        entries: vec![PaneEntry {
            label: Some("Iota".to_string()),
            id: "ssh:iota:~".to_string(),
            action: "/x/open".to_string(),
            aside: Vec::new(),
        }],
    }]);
    let prefs = Prefs { theme: ThemeMode::Auto, ln: true, sidebar: true, open: &[] };
    let html = start_page(&state, prefs, "/");
    assert!(html.contains("<body class=\"app nothing\">"), "{html}");
    assert!(!html.contains("<nav class=\"tree\">"), "no pane on this page");
    assert!(html.contains("href=\"/.ts/open\""), "the way in");
    for want in ["Places", "Servers", "Recent", "Home", "Iota", "/x/manage"] {
        assert!(html.contains(want), "missing {want} in {html}");
    }
    assert!(html.contains("/.ts/forget?path="), "{html}");
    state.cfg.app_name = Some("downstream".to_string());
    state.cfg.app_version = Some("9.9.9".to_string());
    state.cfg.intro = Some("A sentence of <its> own.".to_string());
    let html = start_page(&state, prefs, "/");
    assert!(html.contains("<h1>downstream</h1>"), "{html}");
    assert!(html.contains("<title>downstream</title>"), "{html}");
    assert!(html.contains("<div class=\"crumbs\"></div>"), "{html}");
    assert!(html.contains("downstream v9.9.9"), "footer names the app");
    assert!(!html.contains("treeserve v"), "not this crate's name");
    assert!(html.contains("A sentence of &lt;its&gt; own."), "{html}");
    state.cfg.picker = false;
    let html = start_page(&state, prefs, "/");
    assert!(!html.contains("href=\"/.ts/open\""), "{html}");
    assert!(html.contains("Open one of the places below"), "{html}");
}

#[test]
fn a_directory_is_listed_with_its_readme() {
    let state = served(false);
    let page = get(&state, "/");
    assert_eq!(page.status, 200);
    let html = text(&page);
    assert!(html.contains("listing-readme"), "{html}");
    assert!(html.contains("<h1 id=\"hello-listing\">Hello listing"), "{html}");
    assert!(html.contains("<nav class=\"tree\">"), "{html}");
    let table = &html[html.find("<table").expect("a table")..];
    let src = table.find(">src</a>").expect("src is listed");
    let a = table.find(">a.rs</a>").expect("a.rs is listed");
    assert!(src < a, "directories first: {html}");
    assert!(!html.contains(".hidden"), "{html}");
}

#[test]
fn filtered_listing_skips_readme() {
    let state = served(false);
    let page = get(&state, "/?q=*.rs");
    let html = text(&page);
    assert!(!html.contains("listing-readme"), "{html}");
    assert!(html.contains("1 match"), "{html}");
    let deep = get(&state, "/?q=*.rs&r=1");
    assert!(text(&deep).contains("2 matches (recursive)"), "{}", text(&deep));
}

#[test]
fn a_directory_without_its_slash_is_sent_to_it() {
    let state = served(false);
    let r = get(&state, "/src?q=x");
    assert_eq!(r.status, 301);
    assert!(r.headers.contains(&("Location".to_string(), "/src/?q=x".to_string())));
}

#[test]
fn a_missing_file_and_a_bad_path_are_errors() {
    let state = served(false);
    assert_eq!(get(&state, "/nope.md").status, 404);
    assert_eq!(get(&state, "/a/../b").status, 400);
}

#[test]
fn source_is_highlighted_with_line_numbers() {
    let state = served(false);
    let page = get(&state, "/a.rs");
    assert_eq!(page.status, 200);
    let html = text(&page);
    assert!(html.contains("Rust &middot; 2 lines"), "{html}");
    assert!(html.contains("<pre class=\"gutter\" aria-hidden=\"true\">1\n2\n</pre>"), "{html}");
}

#[test]
fn markdown_is_rendered_and_its_source_is_a_flag_away() {
    let state = served(true);
    let page = get(&state, "/README.md");
    let html = text(&page);
    assert!(html.contains("<div class=\"md\"><h1 id=\"hello-listing\">Hello listing"), "{html}");
    assert!(html.contains("/README.md?src=1"), "{html}");
    let src = get(&state, "/README.md?src=1");
    assert!(text(&src).contains("Markdown &middot; 3 lines"), "{}", text(&src));
}

#[test]
fn a_picture_is_shown_and_a_binary_is_offered() {
    let state = served(false);
    let pic = get(&state, "/pic.png");
    assert!(text(&pic).contains("<img class=\"preview-img\" src=\"/pic.png?raw=1&amp;bare=1\""), "{}", text(&pic));
    let bin = get(&state, "/blob.bin");
    assert!(text(&bin).contains("Binary file."), "{}", text(&bin));
}

#[test]
fn raw_bytes_go_out_as_a_stream() {
    let state = served(false);
    let r = handle(&state, &Req { url: "/a.rs".to_string(), headers: Vec::new(), is_get: true });
    assert_eq!(r.status, 200);
    match &r.body {
        Body::Stream { start, len, .. } => {
            assert_eq!(*start, 0);
            assert_eq!(*len, 27);
        }
        _ => panic!("bytes are a stream"),
    }
    assert!(r.headers.contains(&("Cache-Control".to_string(), "no-store".to_string())));
    let ranged = handle(
        &state,
        &Req { url: "/a.rs?raw=1".to_string(), headers: vec![("Range".to_string(), "bytes=3-6".to_string())], is_get: true },
    );
    assert_eq!(ranged.status, 206);
    assert!(ranged.headers.contains(&("Content-Range".to_string(), "bytes 3-6/27".to_string())));
    let beyond = handle(
        &state,
        &Req { url: "/a.rs?raw=1".to_string(), headers: vec![("Range".to_string(), "bytes=30-".to_string())], is_get: true },
    );
    assert_eq!(beyond.status, 416);
    let dl = handle(&state, &Req { url: "/a.rs?dl=1".to_string(), headers: Vec::new(), is_get: true });
    assert_eq!(dl.status, 200);
    assert!(!dl.headers.iter().any(|(k, _)| k == "Content-Disposition"), "these pages are not offered as copies");
}

#[test]
fn the_raw_view_is_the_file_in_a_frame() {
    let state = served(false);
    let r = get(&state, "/a.rs?raw=1");
    assert_eq!(r.status, 200);
    assert!(text(&r).contains("<iframe class=\"raw\" src=\"/a.rs?raw=1&amp;bare=1\" title=\"a.rs\"></iframe>"), "{}", text(&r));
}

#[test]
fn a_stylesheet_is_tagged_and_asked_after() {
    let state = rootless();
    let first = get(&state, "/.ts/syntax-dark.css");
    assert_eq!(first.status, 200);
    assert!(text(&first).contains("generated by syntect"), "{}", text(&first));
    assert!(text(&first).contains(".sy-"), "{}", text(&first));
    let tag = first.headers.iter().find(|(k, _)| k == "ETag").map(|(_, v)| v.clone()).expect("a tag");
    let again = handle(
        &state,
        &Req { url: "/.ts/syntax-dark.css".to_string(), headers: vec![("If-None-Match".to_string(), tag)], is_get: true },
    );
    assert_eq!(again.status, 304);
}

#[test]
fn the_cookies_choose_the_theme() {
    let state = served(false);
    let r = handle(
        &state,
        &Req {
            url: "/".to_string(),
            headers: vec![
                ("Accept".to_string(), "text/html".to_string()),
                ("Cookie".to_string(), "ts_theme=dark; ts_sidebar=0".to_string()),
            ],
            is_get: true,
        },
    );
    let html = text(&r);
    assert!(html.contains("<html lang=\"en\" data-theme=\"dark\">"), "{html}");
}

#[test]
fn the_files_heading_offers_a_pin_and_a_way_out() {
    let mut state = served(true);
    let html = text(&get(&state, "/")).to_string();
    assert!(html.contains("href=\"/.ts/close\""), "{html}");
    assert!(html.contains("href=\"/.ts/pin\""), "{html}");
    state.cfg.pinned = vec![Pin { id: "docs:/".to_string(), label: Some("Docs".to_string()) }];
    let html = text(&get(&state, "/")).to_string();
    assert!(html.contains("href=\"/.ts/unpin\""), "{html}");
    assert!(html.contains(">Docs</a>"), "{html}");
}

#[test]
fn a_shortcut_that_went_missing_says_so() {
    let mut state = rootless();
    state.cfg.places = vec![("Gone".to_string(), "/gone".to_string())];
    state.cfg.set_root_status("/gone".to_string(), RootStatus::Missing);
    assert_eq!(state.cfg.root_status("/gone"), RootStatus::Missing);
    assert_eq!(state.cfg.root_status("/other"), RootStatus::Unknown);
    let prefs = Prefs { theme: ThemeMode::Light, ln: true, sidebar: true, open: &[] };
    let html = start_page(&state, prefs, "/");
    assert!(html.contains("<span class=\"why\">missing</span>"), "{html}");
}

#[test]
fn entries_are_listed_directories_first_then_by_name() {
    let e = |n: &str, d: bool| Entry { name: n.to_string(), is_dir: d, size: 0, mtime: None };
    let out = sorted_entries(vec![e("b", false), e("A", false), e("z", true), e(".x", true), e("a", false)], false);
    let names: Vec<&str> = out.iter().map(|e| e.name.as_str()).collect();
    assert_eq!(names, ["z", "A", "a", "b"]);
    let all = sorted_entries(vec![e("b", false), e(".x", true)], true);
    assert_eq!(all.len(), 2);
    assert_eq!(all[0].name, ".x");
}

#[test]
fn an_opened_directory_shows_its_children_in_the_pane() {
    let state = served(false);
    let open = vec!["src".to_string()];
    let prefs = Prefs { theme: ThemeMode::Auto, ln: true, sidebar: true, open: &open };
    let root = state.cfg.root().expect("served");
    let html = listing_page(&state, root, prefs, &[], &VfsPath::root(), &[], "/");
    assert!(html.contains("/.ts/tree?shut=src"), "{html}");
    assert!(html.contains(">lib.rs</a>"), "{html}");
}

#[test]
fn every_page_forbids_script() {
    let state = served(true);
    for url in ["/", "/a.rs", "/README.md", "/nope.md"] {
        let r = get(&state, url);
        let policy = r
            .headers
            .iter()
            .find(|(k, _)| k == "Content-Security-Policy")
            .map(|(_, v)| v.as_str())
            .unwrap_or_else(|| panic!("{url}: no policy"));
        assert!(policy.contains("script-src 'none'"), "{url}: {policy}");
        assert!(policy.contains("'unsafe-inline'"), "{url}: {policy}");
        assert!(r.headers.contains(&("Cache-Control".to_string(), "no-store".to_string())), "{url}");
    }
}
