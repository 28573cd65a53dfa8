use treeserve::md::{expand_tex_delimiters, leaves_the_tree, mermaid_figure, math_error_markup, first_line, info_lang, without_dangerous_attrs, svg_has_on_handler, RawHtml};

#[test]
fn tex_delimiters_in_prose() {
    assert_eq!(expand_tex_delimiters(r"a \(x\) b"), "a $x$ b");
    assert_eq!(expand_tex_delimiters("a \\[x\\] b"), "a $$x$$ b");
}

#[test]
fn tex_delimiters_leave_fences_alone() {
    let src = "```\n\\(x\\)\n```\n";
    assert_eq!(expand_tex_delimiters(src), src);
}

#[test]
fn tex_delimiters_leave_inline_code_alone() {
    assert_eq!(expand_tex_delimiters("`\\(x\\)` and \\(y\\)"), "`\\(x\\)` and $y$");
}

#[test]
fn a_url_that_names_a_host_leaves_the_tree() {
    for out in [
        "https://example.com/x",
        "http://example.com",
        "//example.com/x",
        "mailto:a@b.c",
        "ftp://example.com/f",
        "notes:2024.md",
    ] {
        assert!(leaves_the_tree(out), "{out} names somewhere else");
    }
    for here in [
        "./note.md",
        "note.md",
        "/src/main.rs",
        "sub/c.md",
        "?raw=1",
        "#heading",
        "",
        "//",
        "1st:not-a-scheme.md",
    ] {
        assert!(!leaves_the_tree(here), "{here} is a place in this tree");
    }
}

#[test]
fn a_broken_diagram_is_shown_as_its_source() {
    let out = mermaid_figure("  graph <x>  ", Err("bad \"arrow\"".to_string()));
    assert_eq!(out, "<pre class=\"mermaid-error\" title=\"bad &quot;arrow&quot;\">graph &lt;x&gt;</pre>");
    let ok = mermaid_figure("g", Ok(("<svg>L</svg>".to_string(), "<svg>D</svg>".to_string())));
    assert_eq!(ok, "<figure class=\"mermaid\"><div class=\"mermaid-light\"><svg>L</svg></div><div class=\"mermaid-dark\"><svg>D</svg></div></figure>");
}

#[test]
fn an_empty_diagram_is_refused_before_the_renderer() {
    let out = treeserve::md::render_mermaid_figure("   \n");
    assert!(out.contains("mermaid-error"), "{out}");
    assert!(out.contains("empty diagram"), "{out}");
}

#[test]
fn broken_math_is_its_source_with_the_message() {
    assert_eq!(first_line("one\r\ntwo", "x"), "one");
    assert_eq!(first_line("", "fallback"), "fallback");
    let out = math_error_markup(" \\frac{1 ", "missing brace");
    assert!(out.starts_with("<code class=\"math-error\""), "{out}");
    assert!(out.contains("title=\"missing brace\""), "{out}");
}

#[test]
fn a_fence_names_its_language_by_its_first_word() {
    assert_eq!(info_lang("mermaid extra"), "mermaid");
    assert_eq!(info_lang("rust,ignore"), "rust,ignore");
    assert_eq!(info_lang(""), "");
}

#[test]
fn a_dangerous_attribute_is_cut_from_raw_html() {
    let out = without_dangerous_attrs("<a href=\"javascript:alert(1)\">x</a>");
    assert!(out.is_some());
    assert!(!out.unwrap().contains("javascript:"));
    assert_eq!(without_dangerous_attrs("<a href=\"/docs/a.md\">x</a>"), None);
}

#[test]
fn an_svg_with_a_handler_is_refused() {
    assert!(svg_has_on_handler("<svg onload=\"x()\">"));
    assert!(!svg_has_on_handler("<svg viewbox=\"0 0 1 1\">"));
}

#[test]
fn raw_html_is_drawn_only_from_this_device() {
    assert_eq!(RawHtml::from_device(true), RawHtml::Draw);
    assert_eq!(RawHtml::from_device(false), RawHtml::Show);
}

#[test]
fn a_formula_becomes_mathml() {
    let out = treeserve::md::latex_to_mathml("x^2", false);
    assert!(out.contains("<math"), "{out}");
}
