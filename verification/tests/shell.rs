use treeserve::shell::classify_error;
use treeserve::RootStatus;
use treeserve::shell::{download_name, is_download_query};
use treeserve::util::parse_query;
use treeserve::shell::pruned_recent;
use treeserve::shell::scheme_base;
use treeserve::shell::{
    cookie_pair, jar_from_text, jar_text, may_open_externally, origin_allowed, pinned_entries,
    recent_ids, usage_page_paths, with_front, with_jar, Jar, RECENT_MAX,
};
use treeserve::{Body, Reply};

#[test]
fn a_set_cookie_is_a_name_a_value_and_nothing_else() {
    assert_eq!(
        cookie_pair("ts_theme=dark; Path=/; Max-Age=31536000; SameSite=Lax"),
        Some(("ts_theme".into(), "dark".into()))
    );
    assert_eq!(cookie_pair("ts_sidebar=0"), Some(("ts_sidebar".into(), "0".into())));
    assert_eq!(cookie_pair("nonsense"), None);
    assert_eq!(cookie_pair("=0"), None);
}

#[test]
fn every_page_is_registered_once() {
    let mut paths: Vec<&str> = usage_page_paths();
    let count = paths.len();
    paths.sort_unstable();
    paths.dedup();
    assert_eq!(paths.len(), count, "a page is registered twice");
    assert!(paths.contains(&"README.md"), "the set needs a front page");
}

#[test]
fn only_browsers_and_mail_leave_for_the_os() {
    for ok in ["http", "https", "mailto"] {
        assert!(may_open_externally(ok), "{ok}");
    }
    for no in [
        "javascript", "data", "file", "blob", "intent", "content", "about", "ftp", "smb", "ws",
        "wss", "telesight",
    ] {
        assert!(!may_open_externally(no), "{no}");
    }
}

#[test]
fn a_route_the_shell_answers_is_given_the_jar() {
    let mut jar = Jar::new();
    jar.store(&Reply {
        status: 303,
        headers: vec![("Set-Cookie".into(), "ts_open=src|src%2Fbin".into())],
        body: Body::Empty,
    });
    assert_eq!(
        with_jar(Vec::new(), &jar),
        vec![("Cookie".to_string(), "ts_open=src|src%2Fbin".to_string())]
    );
}

#[test]
fn the_jar_outvotes_a_cookie_the_webview_kept() {
    let mut jar = Jar::new();
    jar.store(&Reply {
        status: 303,
        headers: vec![("Set-Cookie".into(), "ts_theme=light".into())],
        body: Body::Empty,
    });
    let headers = with_jar(
        vec![
            ("Accept".into(), "text/html".into()),
            ("Cookie".into(), "ts_theme=dark; ts_ln=0".into()),
        ],
        &jar,
    );
    assert!(headers.contains(&("Accept".to_string(), "text/html".to_string())));
    assert_eq!(
        headers.iter().find(|(k, _)| k == "Cookie").map(|(_, v)| v.as_str()),
        Some("ts_ln=0; ts_theme=light")
    );
}

#[test]
fn the_jar_reads_back_what_it_wrote() {
    let mut jar = Jar::new();
    assert!(jar.is_empty());
    jar.store(&Reply {
        status: 303,
        headers: vec![
            ("Set-Cookie".into(), "ts_theme=dark; Path=/".into()),
            ("Location".into(), "/".into()),
        ],
        body: Body::Empty,
    });
    assert_eq!(jar.cookie_list(), "ts_theme=dark");
    jar.store(&Reply {
        status: 303,
        headers: vec![
            ("Set-Cookie".into(), "ts_sidebar=0".into()),
            ("Set-Cookie".into(), "ts_theme=light".into()),
        ],
        body: Body::Empty,
    });
    assert_eq!(jar.cookie_list(), "ts_sidebar=0; ts_theme=light");
    assert_eq!(
        jar_from_text(&jar_text(&jar)).pairs(),
        vec![
            ("ts_sidebar".to_string(), "0".to_string()),
            ("ts_theme".to_string(), "light".to_string()),
        ]
    );
}

#[test]
fn lookalike_origins_stay_outside() {
    let allowed = vec!["telesight:".to_string(), "http://telesight.localhost".to_string()];
    assert!(origin_allowed(&allowed, "telesight", "null"));
    assert!(origin_allowed(&allowed, "http", "http://telesight.localhost"));
    assert!(!origin_allowed(&allowed, "http", "http://telesight.localhost.evil.com"));
    assert!(!origin_allowed(&allowed, "http", "http://evil.com"));
    assert!(!origin_allowed(&allowed, "https", "https://telesight.localhost"));
}

#[test]
fn recent_is_a_list_of_ids_and_a_reopened_one_moves() {
    let ids = recent_ids("C:\\Users\\x\r\n\\\\?\\C:\\work\n\n  ssh:prod:/var/www  \n");
    assert_eq!(ids, [r"C:\Users\x", r"C:\work", "ssh:prod:/var/www"]);

    assert_eq!(
        with_front(ids.clone(), "ssh:prod:/var/www"),
        ["ssh:prod:/var/www", r"C:\Users\x", r"C:\work"]
    );
    assert_eq!(with_front(ids, r"C:\work").len(), 3);

    let full: Vec<String> = (0..RECENT_MAX).map(|i| format!("/d{i}")).collect();
    assert_eq!(with_front(full, "/new").len(), RECENT_MAX);
}

#[test]
fn a_pinned_line_hands_the_id_back_whole() {
    let list = pinned_entries("Home of it all\t/home/x\n/home/y\nOdd\t/tmp/a\tb\n\n");
    let seen: Vec<(Option<&str>, &str)> =
        list.iter().map(|p| (p.label.as_deref(), p.id.as_str())).collect();
    assert_eq!(
        seen,
        [
            (Some("Home of it all"), "/home/x"),
            (None, "/home/y"),
            (Some("Odd"), "/tmp/a\tb"),
        ]
    );
}

#[test]
fn a_jar_survives_its_file() {
    let mut jar = Jar::new();
    jar.set("ts_theme", "dark");
    jar.set("ts_ln", "0");
    jar.set("ts_theme", "light");
    let back = jar_from_text(&jar_text(&jar));
    assert_eq!(back.pairs(), jar.pairs());
    assert_eq!(back.pairs(), vec![("ts_ln".to_string(), "0".to_string()), ("ts_theme".to_string(), "light".to_string())]);
}

#[test]
fn the_shell_scheme_differs_where_a_custom_scheme_is_not_a_secure_origin() {
    assert_ne!(scheme_base(true), scheme_base(false));
}

#[test]
fn deleted_is_missing_and_a_dead_mount_is_not() {
    assert_eq!(classify_error(Some(2), true, false), RootStatus::Missing);
    assert_eq!(classify_error(Some(2), true, true), RootStatus::Missing);
    assert_eq!(classify_error(Some(116), false, false), RootStatus::Unreachable);
    assert_eq!(classify_error(Some(53), true, true), RootStatus::Unreachable);
    assert_eq!(classify_error(None, false, false), RootStatus::Unreachable);
}

#[test]
fn a_download_link_is_named_after_its_file() {
    assert!(is_download_query(&parse_query("x=2&dl=1")));
    assert!(!is_download_query(&parse_query("dl=0&raw=1")));
    assert_eq!(download_name(Some("a%20b.txt")), "a b.txt");
    assert_eq!(download_name(Some("")), "download");
    assert_eq!(download_name(None), "download");
}

#[test]
fn pruning_recent_keeps_everything_else() {
    let gone = vec![r"C:\work".to_string()];
    assert_eq!(
        pruned_recent("C:\\Users\\x\r\n\\\\?\\C:\\work\n\n  ssh:prod:/var/www  \n", &gone),
        "C:\\Users\\x\nssh:prod:/var/www\n"
    );
}
