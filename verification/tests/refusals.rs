use std::io;
use treeserve::embed::EmbeddedFs;
use treeserve::page::{entries_table, listing_readme, listing_text, read_dir_sorted, readme_fits, search_found};
use treeserve::view::raw_page_with;
use treeserve::vfs::{refusal_for, Entry, ErrorKindSeen, Meta, Refusal, ResolveError, Vfs, VfsPath};
use treeserve::page::{Prefs, ThemeMode};
use treeserve::{
    css_reply, handle, refusal_reply, Body, Config, Reply, Req, Root, RootStatus, State, OPEN_COOKIE_MAX,
};

/// A tree that answers as the embedded one does, except that a copy of a file
/// is worth having and one directory refuses to be listed.
struct Copyable(EmbeddedFs, io::ErrorKind);

impl Vfs for Copyable {
    fn resolve(&self, path: &VfsPath) -> Result<VfsPath, ResolveError> {
        self.0.resolve(path)
    }
    fn metadata(&self, path: &VfsPath) -> Result<Meta, io::Error> {
        self.0.metadata(path)
    }
    fn read_dir(&self, path: &VfsPath) -> Result<Vec<Entry>, io::Error> {
        if path.segments().first().map(|s| s.as_str()) == Some("locked") {
            return Err(io::Error::from(self.1));
        }
        self.0.read_dir(path)
    }
    fn read(&self, path: &VfsPath) -> Result<Vec<u8>, io::Error> {
        self.0.read(path)
    }
    fn open(&self, path: &VfsPath) -> Result<u64, io::Error> {
        self.0.open(path)
    }
    fn root_id_at(&self, path: &VfsPath) -> String {
        self.0.root_id_at(path)
    }
    fn downloadable(&self) -> bool {
        true
    }
    fn on_this_device(&self) -> bool {
        false
    }
    fn open_limit(&self) -> Option<u64> {
        None
    }
    fn copies_offered(&self) -> bool {
        true
    }
    fn is_on_this_device(&self) -> bool {
        false
    }
    fn piece_limit(&self) -> Option<u64> {
        None
    }
}

const FILES: &[(&str, &[u8])] = &[
    ("README.md", b"# Hello listing\n\nA note.\n"),
    ("a.rs", b"fn main() {}\n"),
    ("locked/inside.txt", b"x"),
    ("docs/README.markdown", b"# Second name\n"),
    ("docs/README.md", b"\0\0binary"),
];

fn state_with(kind: io::ErrorKind) -> State<Copyable> {
    let mut cfg: Config<Copyable> = Config::rootless();
    cfg.set_root_vfs(Root { id: "docs:/".to_string(), vfs: Copyable(EmbeddedFs::new("docs", FILES.to_vec()), kind) });
    State { cfg, app_css: "body{}".to_string(), math_css: "math{}".to_string() }
}

fn embedded() -> State<EmbeddedFs> {
    let mut cfg: Config<EmbeddedFs> = Config::rootless();
    cfg.set_root_vfs(Root { id: "docs:/".to_string(), vfs: EmbeddedFs::new("docs", FILES.to_vec()) });
    State { cfg, app_css: "body{}".to_string(), math_css: "math{}".to_string() }
}

fn req(url: &str, headers: Vec<(String, String)>) -> Req {
    Req { url: url.to_string(), headers, is_get: true }
}

fn html() -> Vec<(String, String)> {
    vec![("Accept".to_string(), "text/html".to_string())]
}

fn text(r: &Reply) -> &str {
    match &r.body {
        Body::Text(t) => t,
        _ => panic!("a text body"),
    }
}

fn prefs() -> Prefs<'static> {
    Prefs { theme: ThemeMode::Auto, ln: false, sidebar: false, open: &[] }
}

#[test]
fn a_refused_listing_is_not_an_empty_directory() {
    let state = state_with(io::ErrorKind::PermissionDenied);
    let vfs = &state.cfg.root().unwrap().vfs;
    let locked = VfsPath::new(vec!["locked".to_string()]);
    assert_eq!(read_dir_sorted(&state, vfs, &locked).err(), Some(Refusal::Denied));
    assert!(read_dir_sorted(&state, vfs, &VfsPath::root()).is_ok());
    assert_eq!(listing_text(&state, vfs, &locked).err(), Some(Refusal::Denied));
    let table = entries_table(&state, vfs, &["locked".to_string()], &locked);
    assert_eq!(table, "<p class=\"unread\">This folder could not be listed: not readable.</p>");
    let page = handle(&state, &req("/locked/", html()));
    assert_eq!(page.status, 200, "the page stays 200");
    assert!(text(&page).contains("This folder could not be listed: not readable."), "{}", text(&page));
    assert!(!text(&page).contains("empty directory"), "{}", text(&page));
}

#[test]
fn a_script_asking_for_a_refused_listing_gets_a_status() {
    let denied = handle(&state_with(io::ErrorKind::PermissionDenied), &req("/locked/", Vec::new()));
    assert_eq!((denied.status, text(&denied)), (403, "not readable"));
    let gone = handle(&state_with(io::ErrorKind::NotFound), &req("/locked/", Vec::new()));
    assert_eq!((gone.status, text(&gone)), (404, "gone"));
    let silent = handle(&state_with(io::ErrorKind::TimedOut), &req("/locked/", Vec::new()));
    assert_eq!((silent.status, text(&silent)), (502, "no answer"));
    assert_eq!(refusal_reply(Refusal::NoAnswer).status, 502);
    let fine = handle(&state_with(io::ErrorKind::TimedOut), &req("/", Vec::new()));
    assert_eq!(fine.status, 200);
    assert!(text(&fine).contains("a.rs\n"), "{}", text(&fine));
}

#[test]
fn the_pane_marks_a_directory_it_could_not_open() {
    let state = state_with(io::ErrorKind::NotFound);
    let page = handle(
        &state,
        &Req {
            url: "/locked/".to_string(),
            headers: vec![
                ("Accept".to_string(), "text/html".to_string()),
                ("Cookie".to_string(), "ts_sidebar=1".to_string()),
            ],
            is_get: true,
        },
    );
    let html = text(&page);
    assert!(html.contains("<ul><li class=\"more\">gone</li></ul>"), "{html}");
}

#[test]
fn a_tree_not_worth_copying_offers_no_download() {
    let state = embedded();
    let r = handle(&state, &req("/a.rs?raw=1", html()));
    assert_eq!(r.status, 200);
    assert!(!text(&r).contains("?dl=1"), "{}", text(&r));
    let copyable = state_with(io::ErrorKind::NotFound);
    let r = handle(&copyable, &req("/a.rs?raw=1", html()));
    assert!(text(&r).contains("href=\"/a.rs?dl=1\""), "{}", text(&r));
    let dl = handle(&copyable, &req("/a.rs?dl=1", Vec::new()));
    assert!(dl.headers.contains(&("Content-Disposition".to_string(), "attachment; filename=\"a.rs\"".to_string())));
    let root = state.cfg.root().unwrap();
    let rel = ["a.rs".to_string()];
    assert!(!raw_page_with(&state, root, prefs(), &rel, "/a.rs?raw=1", false).contains("Download"));
    assert!(raw_page_with(&state, root, prefs(), &rel, "/a.rs?raw=1", true).contains("Download"));
}

#[test]
fn the_first_readme_that_reads_as_text_is_shown() {
    let state = embedded();
    let vfs = &state.cfg.root().unwrap().vfs;
    let top = listing_readme(&state, vfs, &VfsPath::root());
    assert_eq!(top, "<section class=\"listing-readme\"><div class=\"md\"><h1 id=\"hello-listing\">Hello listing<a href=\"#hello-listing\" aria-label=\"Link to heading 'Hello listing'\" data-heading-content=\"Hello listing\" class=\"anchor\"></a></h1>\n<p>A note.</p>\n</div></section>");
    let docs = listing_readme(&state, vfs, &VfsPath::new(vec!["docs".to_string()]));
    assert!(docs.contains("Second name"), "README.md is binary, so the next name wins: {docs}");
    assert_eq!(listing_readme(&state, vfs, &VfsPath::new(vec!["locked".to_string()])), "");
    assert!(readme_fits(true, 10, b"text"));
    assert!(!readme_fits(false, 10, b"text"));
    assert!(!readme_fits(true, 10, b"\0\0"));
}

#[test]
fn a_stylesheet_asked_for_without_a_tag_is_sent_whole() {
    let r = css_reply(&req("/.ts/app.css", Vec::new()), "body{}");
    assert_eq!(r.status, 200);
    assert_eq!(text(&r), "body{}");
    let tag = r.headers.iter().find(|(k, _)| k == "ETag").map(|(_, v)| v.clone()).expect("a tag");
    assert!(tag.starts_with('"') && tag.ends_with('"') && tag.len() > 2, "{tag}");
    let again = css_reply(&req("/.ts/app.css", vec![("If-None-Match".to_string(), tag.clone())]), "body{}");
    assert_eq!(again.status, 304);
    let other = css_reply(&req("/.ts/app.css", vec![("If-None-Match".to_string(), "\"zz\"".to_string())]), "body{}");
    assert_eq!(other.status, 200);
    let via = handle(&embedded(), &req("/.ts/app.css", Vec::new()));
    assert_eq!((via.status, text(&via)), (200, "body{}"));
}

#[test]
fn inside_the_root_missing_is_404_and_a_bare_directory_is_sent_to_its_slash() {
    let state = embedded();
    assert_eq!(handle(&state, &req("/nope", html())).status, 404);
    assert_eq!(handle(&state, &req("/a/../b", html())).status, 400);
    let r = handle(&state, &req("/docs?q=x", html()));
    assert_eq!(r.status, 301);
    assert!(r.headers.contains(&("Location".to_string(), "/docs/?q=x".to_string())));
}

#[test]
fn the_last_status_written_for_an_id_is_the_one_read() {
    let mut cfg: Config<EmbeddedFs> = Config::rootless();
    assert_eq!(cfg.root_status("a"), RootStatus::Unknown);
    cfg.set_root_status("a".to_string(), RootStatus::Missing);
    cfg.set_root_status("b".to_string(), RootStatus::Present);
    cfg.set_root_status("a".to_string(), RootStatus::Unreachable);
    assert_eq!(cfg.root_status("a"), RootStatus::Unreachable);
    assert_eq!(cfg.root_status("b"), RootStatus::Present);
    assert_eq!(cfg.root_status("c"), RootStatus::Unknown);
}

#[test]
fn a_tree_link_followed_twice_lands_in_the_same_place() {
    let state = embedded();
    let first = handle(
        &state,
        &req("/.ts/tree?open=docs&back=/a.rs", vec![("Cookie".to_string(), "ts_open=src".to_string())]),
    );
    let cookie = |r: &Reply| {
        r.headers
            .iter()
            .find(|(k, _)| k == "Set-Cookie")
            .map(|(_, v)| v.split(';').next().unwrap().to_string())
            .expect("a cookie")
    };
    let c = cookie(&first);
    assert_eq!(c, "ts_open=src|docs");
    assert!(c.len() < OPEN_COOKIE_MAX);
    let second = handle(&state, &req("/.ts/tree?open=docs&back=/a.rs", vec![("Cookie".to_string(), c.clone())]));
    assert_eq!(cookie(&second), c);
    assert_eq!((first.status, second.status), (303, 303));
    assert!(first.headers.contains(&("Location".to_string(), "/a.rs".to_string())));
    assert!(second.headers.contains(&("Location".to_string(), "/a.rs".to_string())));
    let shut = handle(&state, &req("/.ts/tree?shut=src&back=/", vec![("Cookie".to_string(), c.clone())]));
    let again = handle(&state, &req("/.ts/tree?shut=src&back=/", vec![("Cookie".to_string(), cookie(&shut))]));
    assert_eq!(cookie(&shut), "ts_open=docs");
    assert_eq!(cookie(&again), "ts_open=docs");
}

#[test]
fn a_flat_search_finds_every_match_of_the_one_directory() {
    let state = embedded();
    let vfs = &state.cfg.root().unwrap().vfs;
    let (found, truncated) = search_found(&state, vfs, &VfsPath::root(), "*.rs", false);
    let names: Vec<Vec<String>> = found.iter().map(|(p, _)| p.clone()).collect();
    assert_eq!(names, vec![vec!["a.rs".to_string()]]);
    assert!(!truncated);
    let (deep, _) = search_found(&state, vfs, &VfsPath::root(), "*.txt", true);
    let names: Vec<Vec<String>> = deep.iter().map(|(p, _)| p.clone()).collect();
    assert_eq!(names, vec![vec!["locked".to_string(), "inside.txt".to_string()]]);
    let (flat, _) = search_found(&state, vfs, &VfsPath::root(), "*.txt", false);
    assert!(flat.is_empty(), "a flat search does not walk down");
    let refusing = state_with(io::ErrorKind::PermissionDenied);
    let rvfs = &refusing.cfg.root().unwrap().vfs;
    let (none, truncated) = search_found(&refusing, rvfs, &VfsPath::new(vec!["locked".to_string()]), "*", false);
    assert!(none.is_empty() && !truncated);
    let (skipped, _) = search_found(&refusing, rvfs, &VfsPath::root(), "*.txt", true);
    assert!(skipped.is_empty(), "the refused directory is skipped");
    let (rest, _) = search_found(&refusing, rvfs, &VfsPath::root(), "*.markdown", true);
    assert_eq!(rest.len(), 1, "and the walk carries on past it");
}

#[test]
fn a_refusal_is_named_by_the_kind_of_error() {
    assert_eq!(refusal_for(ErrorKindSeen::NotFound), Refusal::Gone);
    assert_eq!(refusal_for(ErrorKindSeen::PermissionDenied), Refusal::Denied);
    assert_eq!(refusal_for(ErrorKindSeen::Other), Refusal::NoAnswer);
    assert_eq!(Refusal::Denied.words(), "not readable");
}

#[test]
fn a_run_of_statuses_reads_back_the_last_for_each_id() {
    let mut cfg: Config<EmbeddedFs> = Config::rootless();
    cfg.set_root_statuses(vec![
        ("a".to_string(), RootStatus::Missing),
        ("b".to_string(), RootStatus::Present),
        ("a".to_string(), RootStatus::Unreachable),
    ]);
    assert_eq!(cfg.root_status("a"), RootStatus::Unreachable);
    assert_eq!(cfg.root_status("b"), RootStatus::Present);
    assert_eq!(cfg.root_status("c"), RootStatus::Unknown);
}

#[test]
fn a_link_followed_twice_over_a_cookie_that_overflows_can_land_elsewhere() {
    let state = embedded();
    let p = "a".repeat(300);
    let b = "b".repeat(1400);
    let c = "c".repeat(1400);
    let cookie = |r: &Reply| {
        r.headers
            .iter()
            .find(|(k, _)| k == "Set-Cookie")
            .map(|(_, v)| v.split(';').next().unwrap().to_string())
            .expect("a cookie")
    };
    let url = format!("/.ts/tree?open={p}&back=/");
    let first = handle(&state, &req(&url, vec![("Cookie".to_string(), format!("ts_open={p}|{b}|{c}"))]));
    let once = cookie(&first);
    assert_eq!(once, format!("ts_open={b}|{c}"), "the oldest entry went to make room");
    let second = handle(&state, &req(&url, vec![("Cookie".to_string(), once.clone())]));
    assert_eq!(cookie(&second), format!("ts_open={c}|{p}"), "the path came back and pushed another out");
}

#[test]
fn a_link_followed_twice_keeps_its_cookie_where_what_it_opened_was_kept() {
    let state = embedded();
    let p = "a".repeat(300);
    let b = "b".repeat(1400);
    let c = "c".repeat(1400);
    let cookie = |r: &Reply| {
        r.headers
            .iter()
            .find(|(k, _)| k == "Set-Cookie")
            .map(|(_, v)| v.split(';').next().unwrap().to_string())
            .expect("a cookie")
    };
    let url = format!("/.ts/tree?open={p}&back=/");
    let first = handle(&state, &req(&url, vec![("Cookie".to_string(), format!("ts_open={b}|{c}"))]));
    let once = cookie(&first);
    assert_eq!(once, format!("ts_open={c}|{p}"), "the oldest entry went to make room, the new one stayed");
    let second = handle(&state, &req(&url, vec![("Cookie".to_string(), once.clone())]));
    assert_eq!(cookie(&second), once);
}
