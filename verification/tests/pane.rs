use treeserve::embed::EmbeddedFs;
use treeserve::page::{listing_page, Prefs, ThemeMode, ICON_CROSS, ICON_PLUS};
use treeserve::shell::{with_jar, Jar};
use treeserve::util::percent_encode;
use treeserve::vfs::VfsPath;
use treeserve::{handle, Body, Config, PaneEntry, PaneSection, Pin, Req, Root, RootStatus, State};

fn prefs() -> Prefs<'static> {
    Prefs { theme: ThemeMode::Light, ln: false, sidebar: false, open: &[] }
}

fn state_of(files: &[(&'static str, &'static [u8])]) -> State<EmbeddedFs> {
    let mut cfg: Config<EmbeddedFs> = Config::rootless();
    cfg.set_root_vfs(Root { id: "/srv/tree".to_string(), vfs: EmbeddedFs::new("tree", files.to_vec()) });
    State { cfg, app_css: String::new(), math_css: String::new() }
}

fn at_root(state: &State<EmbeddedFs>, prefs: Prefs<'_>) -> String {
    let root = state.cfg.root().expect("these tests always serve one");
    listing_page(state, root, prefs, &[], &VfsPath::root(), &[], "/")
}

#[test]
fn an_arrow_opens_a_directory_without_walking_into_it() {
    let state = state_of(&[("here/inner/x.txt", b"x"), ("other/deep/y.txt", b"y")]);
    let cur = vec!["here".to_string()];
    let shut = Prefs { sidebar: true, ..prefs() };
    let page = |prefs: Prefs<'_>| {
        let root = state.cfg.root().expect("these tests always serve one");
        listing_page(&state, root, prefs, &cur, &VfsPath::new(cur.clone()), &[], "/here/")
    };

    let html = page(shut);
    assert!(html.contains("<a class=\"dir\" href=\"/other/\">other/</a>"), "{html}");
    assert!(
        html.contains("<a class=\"twisty\" href=\"/.ts/tree?open=other&amp;back=%2Fhere%2F\""),
        "{html}"
    );
    assert!(!html.contains(">deep/</a>"), "{html}");
    assert!(html.contains("<span class=\"twisty\">"), "{html}");
    assert!(html.contains(">inner/</a>"), "{html}");

    let open = [String::from("other")];
    let html = page(Prefs { open: &open, ..shut });
    assert!(html.contains(">deep/</a>"), "{html}");
    assert!(
        html.contains("<a class=\"twisty\" href=\"/.ts/tree?shut=other&amp;back=%2Fhere%2F\""),
        "{html}"
    );
}

#[test]
fn a_remote_root_wears_its_id_beside_the_path() {
    let mut state = state_of(&[("a.txt", b"a")]);
    state.cfg.app_ui = true;
    let prefs = Prefs { sidebar: true, ..prefs() };
    assert!(!at_root(&state, prefs).contains("class=\"tag\""), "local root");

    state.cfg.set_root_vfs(Root {
        id: "ssh:iota:/home/hanhua".to_string(),
        vfs: EmbeddedFs::new("tree", vec![("a.txt", b"a" as &[u8])]),
    });
    let html = at_root(&state, prefs);
    assert!(
        html.contains("<span class=\"tag\">iota</span>\n  <div class=\"crumbs\"><a href=\"/\">"),
        "{html}"
    );
}

#[test]
fn the_pane_switch_sits_at_the_left_end() {
    let mut state = state_of(&[("a.txt", b"a")]);
    state.cfg.app_ui = true;
    let html = at_root(&state, prefs());
    assert!(html.contains("class=\"drawer-btn\""), "{html}");
    let switch = html.find("class=\"paneflag\"").expect("a pane switch");
    let controls = html.find("<div class=\"controls\">").expect("the flags");
    assert!(switch < controls, "the switch left the right-hand group: {html}");
}

#[test]
fn pinning_is_an_act_on_the_files_heading_and_the_rows_undo_it() {
    let mut state = state_of(&[("a.txt", b"a")]);
    state.cfg.app_ui = true;
    let prefs = Prefs { sidebar: true, ..prefs() };

    let html = at_root(&state, prefs);
    assert!(
        html.contains("<span class=\"acts\"><a class=\"secact\" href=\"/.ts/pin\""),
        "{html}"
    );
    assert!(!html.contains("/.ts/unpin"), "{html}");
    assert!(!html.contains(">Pinned<"), "{html}");

    let id = state.cfg.root().expect("served").id.clone();
    state.cfg.set_pinned(vec![Pin { id: id.clone(), label: Some("Home of it all".to_string()) }]);
    let html = at_root(&state, prefs);
    assert!(
        html.contains("<span class=\"acts\"><a class=\"secact\" href=\"/.ts/unpin\""),
        "{html}"
    );
    assert!(!html.contains("href=\"/.ts/pin\""), "{html}");
    assert!(html.contains(">Home of it all</a>"), "{html}");
    assert!(
        html.contains(&format!(
            "<a class=\"aside\" href=\"/.ts/unpin?path={}\" title=\"Unpin this folder\">",
            percent_encode(&id)
        )),
        "{html}"
    );

    state.cfg.set_pinned(vec![Pin { id: "ssh:iota:/var/www".to_string(), label: None }]);
    let html = at_root(&state, prefs);
    assert!(html.contains("href=\"/.ts/pin\""), "{html}");
}

#[test]
fn a_recent_row_has_a_forget_button_and_a_place_does_not() {
    let mut state = state_of(&[("a.txt", b"a")]);
    state.cfg.app_ui = true;
    state.cfg.places = vec![("Home".to_string(), "/home/x".to_string())];
    state.cfg.set_recent(vec!["ssh:iota:/home/hanhua/~".to_string()]);
    let html = at_root(&state, Prefs { sidebar: true, ..prefs() });

    let button = "<a class=\"aside\" href=\"/.ts/forget?path=ssh%3Aiota%3A%2Fhome%2Fhanhua%2F~\" \
                  title=\"Forget this folder\">";
    assert!(html.contains(button), "{html}");
    let place = "<li><a href=\"/.ts/place?path=%2Fhome%2Fx\" title=\"/home/x\">Home</a></li>";
    assert!(html.contains(place), "{html}");
    assert_eq!(html.matches("/.ts/forget").count(), 1, "{html}");
}

#[test]
fn a_pane_section_is_drawn_like_places_with_buttons() {
    let mut state = state_of(&[("a.txt", b"a")]);
    let id = "ssh:prod-web:/var/www";
    state.cfg.set_sections(vec![PaneSection {
        class: "servers".to_string(),
        heading: "Servers".to_string(),
        heading_acts: vec![
            ("/x/add".to_string(), ICON_PLUS.to_string(), "Add a server".to_string()),
            ("/x/manage".to_string(), ICON_CROSS.to_string(), "Manage servers".to_string()),
        ],
        entries: vec![PaneEntry {
            label: Some("prod-web".to_string()),
            id: id.to_string(),
            action: "/x/open".to_string(),
            aside: vec![(
                "/x/edit?id=prod-web".to_string(),
                ICON_PLUS.to_string(),
                "Edit prod-web".to_string(),
            )],
        }],
    }]);
    state.cfg.set_root_status(id.to_string(), RootStatus::Missing);
    let prefs = Prefs { sidebar: true, ..prefs() };

    let browser = at_root(&state, prefs);
    assert!(!browser.contains("servers"), "{browser}");

    state.cfg.app_ui = true;
    let html = at_root(&state, prefs);
    assert!(
        html.contains(
            "<section class=\"servers\"><h2>Servers<span class=\"acts\">\
             <a class=\"secact\" href=\"/x/add\" title=\"Add a server\">"
        ),
        "{html}"
    );
    assert!(html.contains("title=\"Add a server\"><svg"), "the first act keeps its mark: {html}");
    assert!(
        html.contains("</a><a class=\"secact\" href=\"/x/manage\" title=\"Manage servers\">"),
        "and the second follows it inside the one wrapper: {html}"
    );
    assert!(
        html.contains(
            "<li class=\"gone\"><span class=\"row\"><a href=\"/x/open?path=\
             ssh%3Aprod-web%3A%2Fvar%2Fwww\" title=\"ssh:prod-web:/var/www\">prod-web</a>"
        ),
        "{html}"
    );
    assert!(
        html.contains("<a class=\"aside\" href=\"/x/edit?id=prod-web\" title=\"Edit prod-web\">"),
        "{html}"
    );
    assert!(html.contains("<span class=\"why\">missing</span>"), "{html}");
    state.cfg.places = vec![("Home".to_string(), "/home/x".to_string())];
    state.cfg.set_recent(vec!["/tmp".to_string()]);
    let ordered = at_root(&state, prefs);
    let at = |needle: &str| ordered.find(needle).unwrap_or_else(|| panic!("{ordered}"));
    assert!(at("\"places\"") < at("\"servers\"") && at("\"servers\"") < at("\"recent\""));

    state.cfg.set_sections(vec![PaneSection {
        class: "servers".to_string(),
        heading: "Servers".to_string(),
        heading_acts: Vec::new(),
        entries: Vec::new(),
    }]);
    let empty = at_root(&state, prefs);
    assert!(!empty.contains("servers"), "{empty}");
}

#[test]
fn listing_includes_readme() {
    let state = state_of(&[("README.md", b"# Hello listing\n\nA note.\n"), ("a.rs", b"fn main() {}\n")]);
    let html = at_root(&state, prefs());
    assert!(html.contains("listing-readme"), "{html}");
    assert!(html.contains("Hello listing"), "{html}");
    assert!(html.contains("a.rs"), "{html}");
}

#[test]
fn a_chosen_preference_reaches_the_next_page() {
    let mut state = state_of(&[("a.txt", b"a")]);
    state.cfg.app_ui = true;
    let mut jar = Jar::new();
    let page = |jar: &Jar| {
        let req = Req {
            url: "/".to_string(),
            headers: with_jar(vec![("Accept".into(), "text/html".into())], jar),
            is_get: true,
        };
        match handle(&state, &req).body {
            Body::Text(t) => t,
            _ => panic!("a listing is text"),
        }
    };

    let before = page(&jar);
    assert!(before.contains("<html lang=\"en\">"), "no theme yet");
    assert!(before.contains("<body class=\"app\">"), "pane is on by default: {before}");

    for q in ["/.ts/set?theme=dark&back=/", "/.ts/set?sidebar=0&back=/"] {
        let reply = handle(&state, &Req { url: q.to_string(), headers: Vec::new(), is_get: true });
        assert_eq!(reply.status, 303);
        jar.store(&reply);
    }

    let after = page(&jar);
    assert!(after.contains("<html lang=\"en\" data-theme=\"dark\">"), "{after}");
    assert!(after.contains("<body class=\"app nopane\">"), "pane switched off: {after}");
}

#[test]
fn the_web_gets_none_of_the_shell() {
    let plain = state_of(&[("a.txt", b"a"), ("d/b.txt", b"b")]);
    let mut furnished = state_of(&[("a.txt", b"a"), ("d/b.txt", b"b")]);
    furnished.cfg.places = vec![("Home".to_string(), "/home/x".to_string())];
    furnished.cfg.set_recent(vec!["/tmp".to_string()]);
    furnished.cfg.set_pinned(vec![Pin { id: "/srv/tree".to_string(), label: None }]);
    furnished.cfg.picker = true;
    furnished.cfg.set_root_status("/tmp".to_string(), RootStatus::Missing);
    let prefs = Prefs { sidebar: true, ..prefs() };
    let html = at_root(&furnished, prefs);
    assert_eq!(html, at_root(&plain, prefs));
    for shell in ["/.ts/open", "/.ts/pin", "/.ts/close", "/.ts/root", "/.ts/place", "Recent"] {
        assert!(!html.contains(shell), "{shell} in {html}");
    }
}
