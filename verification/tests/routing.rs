use treeserve::util::parse_query;
use treeserve::{in_root_route, slash_location, InRoot};

#[test]
fn a_directory_is_redirected_listed_or_given_as_text() {
    let none = parse_query("");
    assert_eq!(in_root_route(true, "/src", &none, true, false, true), InRoot::Redirect);
    assert_eq!(slash_location("/src", ""), "/src/");
    assert_eq!(slash_location("/src", "q=main"), "/src/?q=main");
    assert_eq!(in_root_route(true, "/src/", &none, true, false, true), InRoot::ListingPage);
    assert_eq!(in_root_route(true, "/src/", &none, false, false, true), InRoot::ListingText);
}

#[test]
fn a_file_is_its_page_its_raw_view_or_its_bytes() {
    let none = parse_query("");
    let raw = parse_query("raw=1");
    let dl = parse_query("dl=1");
    let bare = parse_query("raw=1&bare=1");
    assert_eq!(in_root_route(false, "/a.rs", &none, true, false, true), InRoot::FilePage);
    assert_eq!(in_root_route(false, "/a.rs", &raw, true, false, true), InRoot::RawPage);
    assert_eq!(in_root_route(false, "/a.rs", &raw, true, true, true), InRoot::Bytes { attachment: false });
    assert_eq!(in_root_route(false, "/a.rs", &bare, true, false, true), InRoot::Bytes { attachment: false });
    assert_eq!(in_root_route(false, "/a.rs", &dl, true, false, true), InRoot::Bytes { attachment: true });
    assert_eq!(in_root_route(false, "/a.rs", &none, false, false, true), InRoot::Bytes { attachment: false });
    assert_eq!(in_root_route(false, "/a.png", &none, true, true, true), InRoot::Bytes { attachment: false });
}

#[test]
fn a_download_asked_of_a_tree_not_worth_copying_is_the_ordinary_view() {
    let dl = parse_query("dl=1");
    assert_eq!(in_root_route(false, "/a.rs", &dl, true, false, false), InRoot::FilePage);
    assert_eq!(in_root_route(false, "/a.rs", &dl, false, false, false), InRoot::Bytes { attachment: false });
    let raw_dl = parse_query("raw=1&dl=1");
    assert_eq!(in_root_route(false, "/a.rs", &raw_dl, true, false, false), InRoot::RawPage);
    assert_eq!(in_root_route(false, "/a.rs", &raw_dl, true, false, true), InRoot::Bytes { attachment: true });
}
