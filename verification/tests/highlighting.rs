use treeserve::hl::{highlight, stylesheet, syntax_name, CLASS_PREFIX};

#[test]
fn a_file_is_coloured_as_its_extension_name_or_first_line_says() {
    assert_eq!(syntax_name("a.rs", "rs", "fn main() {}"), "Rust");
    assert_eq!(syntax_name("README.md", "md", "# Title"), "Markdown");
    assert_eq!(syntax_name("Makefile", "", "all:"), "Makefile");
    assert_eq!(syntax_name("run", "", "#!/bin/bash"), "Bourne Again Shell (bash)");
    assert_eq!(syntax_name("notes", "zzz", "just words"), "Plain Text");
}

#[test]
fn source_is_coloured_with_prefixed_classes() {
    let out = highlight("Rust", "fn main() {}\n");
    assert_ne!(out, "fn main() {}\n");
    assert!(out.contains(&format!("<span class=\"{}", CLASS_PREFIX)), "{out}");
    assert!(out.contains("main"), "{out}");
    let plain = highlight("Plain Text", "a < b\n");
    assert!(plain.contains("&lt;"), "{plain}");
}

#[test]
fn a_theme_is_a_stylesheet_and_an_unknown_one_is_none() {
    let light = stylesheet("InspiredGitHub");
    assert!(light.contains("generated by syntect"), "{light}");
    assert!(light.contains(".sy-"), "{light}");
    assert_ne!(stylesheet("base16-ocean.dark"), light);
    assert_eq!(stylesheet("no such theme"), "");
}
