use treeserve::util::parse_query;
use treeserve::{open_cookie, open_from, open_path, toggle_open, Reply, Req, OPEN_MAX};

fn req(cookie: &str) -> Req {
    Req {
        url: "/".to_string(),
        headers: match cookie.is_empty() {
            true => Vec::new(),
            false => vec![("Cookie".to_string(), format!("ts_open={cookie}"))],
        },
        is_get: true,
    }
}

fn set_cookie(reply: &Reply) -> String {
    reply
        .headers
        .iter()
        .find(|(k, _)| k == "Set-Cookie")
        .map(|(_, v)| v.split(';').next().unwrap_or_default().to_string())
        .expect("a cookie")
}

#[test]
fn an_open_entry_cannot_climb_out_of_the_root() {
    assert_eq!(open_path("src/bin"), Some("src/bin".to_string()));
    assert_eq!(open_path("/src/"), Some("src".to_string()));
    assert_eq!(open_path("a%20b"), Some("a b".to_string()));
    assert_eq!(open_path(".."), None);
    assert_eq!(open_path("src/../../etc"), None);
    assert_eq!(open_path("src//bin"), None);
    assert_eq!(open_path("  "), None);
}

#[test]
fn the_open_set_survives_the_cookie() {
    let open = vec!["a b".to_string(), "c/d".to_string()];
    let value = open_cookie(&open);
    assert_eq!(value, "a%20b|c%2Fd");
    assert_eq!(open_from(&req(&value)), open);
}

#[test]
fn a_trip_through_the_tree_route_changes_one_entry() {
    let open = |q: &str, cookie: &str| {
        let reply = toggle_open(&req(cookie), &parse_query(q));
        assert_eq!(reply.status, 303);
        (set_cookie(&reply), reply)
    };

    let (cookie, reply) = open("open=src&back=/here/", "");
    assert_eq!(cookie, "ts_open=src");
    assert!(reply.headers.contains(&("Location".to_string(), "/here/".to_string())));
    assert_eq!(open("open=src&back=/", "src").0, "ts_open=src");
    assert_eq!(open("open=docs/img&back=/", "src").0, "ts_open=src|docs%2Fimg");
    assert_eq!(open("shut=src&back=/", "src|docs%2Fimg").0, "ts_open=docs%2Fimg");
    assert_eq!(open("open=../etc&back=/", "src").0, "ts_open=src");
}

#[test]
fn the_oldest_open_directory_makes_room_for_a_new_one() {
    let full: Vec<String> = (0..OPEN_MAX).map(|i| format!("d{i}")).collect();
    let reply = toggle_open(&req(&open_cookie(&full)), &parse_query("open=late&back=/"));
    let stored = open_from(&req(set_cookie(&reply).trim_start_matches("ts_open=")));
    assert_eq!(stored.len(), OPEN_MAX);
    assert_eq!(stored.first().map(String::as_str), Some("d1"));
    assert_eq!(stored.last().map(String::as_str), Some("late"));
}

#[test]
fn a_long_open_set_drops_its_oldest_entries_to_fit_the_cookie() {
    let long: Vec<String> = (0..20).map(|i| format!("{i:0>200}")).collect();
    let value = open_cookie(&long);
    assert!(value.len() <= 3000);
    assert!(value.ends_with(&long[19]));
    assert!(!value.contains(&long[0]));
}

#[test]
fn an_empty_open_set_is_an_empty_cookie() {
    assert_eq!(open_cookie(&[]), "");
    assert!(open_from(&req("")).is_empty());
}

#[test]
fn the_first_ts_open_cookie_wins() {
    let r = Req {
        url: "/".to_string(),
        headers: vec![
            ("cookie".to_string(), "x=1; ts_open=a|b".to_string()),
            ("Cookie".to_string(), "ts_open=c".to_string()),
        ],
        is_get: true,
    };
    assert_eq!(open_from(&r), vec!["a".to_string(), "b".to_string()]);
}

#[test]
fn a_percent_encoding_decodes_back() {
    for s in ["a b", "c/d", "ü-ß_~.x", "100%", "|;=&"] {
        let e = treeserve::util::percent_encode(s);
        assert!(!e.contains('|') && !e.contains('/') && !e.contains(';'));
        assert_eq!(treeserve::util::percent_decode(&e), s);
    }
    assert_eq!(treeserve::util::percent_encode("a b/ü"), "a%20b%2F%C3%BC");
}

#[test]
fn set_stores_known_preferences_and_goes_back() {
    let reply = treeserve::set_prefs(&parse_query("theme=dark&ln=2&sidebar=0&bogus=1&back=/x/"));
    assert_eq!(reply.status, 303);
    assert_eq!(
        reply.headers,
        vec![
            ("Set-Cookie".to_string(), "ts_theme=dark; Path=/; Max-Age=31536000; SameSite=Lax".to_string()),
            ("Set-Cookie".to_string(), "ts_sidebar=0; Path=/; Max-Age=31536000; SameSite=Lax".to_string()),
            ("Location".to_string(), "/x/".to_string()),
        ]
    );
    let away = treeserve::set_prefs(&parse_query("theme=light&back=//evil.com"));
    assert!(away.headers.contains(&("Location".to_string(), "/".to_string())));
}
