use treeserve::markdown::{draw_piece, finish_markdown, render_markdown, restore_raw, rewrite, unescape, Pass};
use treeserve::md::RawHtml;

fn html(src: &str) -> String {
    render_markdown(src, true, RawHtml::Draw)
}

fn remote(src: &str) -> String {
    render_markdown(src, true, RawHtml::Show)
}

#[test]
fn a_dangerous_href_is_dropped_even_with_unsafe_on() {
    let out = html("[x](javascript:alert(1))");
    assert!(!out.to_lowercase().contains("javascript:"), "{out}");
    assert!(out.contains("<a"), "{out}");
    assert!(html("[y](/docs/a.md)").contains("href=\"/docs/a.md\""));
}

#[test]
fn a_dangerous_image_src_is_dropped_too() {
    let out = html("![x](javascript:alert(1))");
    assert!(!out.to_lowercase().contains("javascript:"), "{out}");
    assert!(out.contains("<img"), "the picture is still a picture: {out}");
    assert!(out.contains("alt=\"x\""), "{out}");
    let doc = html("![x](data:text/html;base64,PHNjcmlwdD4=)");
    assert!(!doc.contains("text/html"), "{doc}");
    let png = html("![x](data:image/png;base64,iVBORw0KGgo=)");
    assert!(png.contains("data:image/png;base64,iVBORw0KGgo="), "{png}");
    let ordinary = html("![x](shot.png \"A shot\")");
    assert!(ordinary.contains("src=\"shot.png\""), "{ordinary}");
    assert!(ordinary.contains("title=\"A shot\""), "{ordinary}");
}

#[test]
fn mermaid_fence_becomes_dual_svg() {
    let out = html("```mermaid\nflowchart LR\n    A --> B\n```\n");
    assert!(out.contains("class=\"mermaid\""), "{out}");
    assert!(out.contains("mermaid-light"), "{out}");
    assert!(out.contains("mermaid-dark"), "{out}");
    assert_eq!(out.matches("<svg").count(), 2, "{out}");
}

#[test]
fn mermaid_error_keeps_source() {
    let out = html("```mermaid\nthis is not a diagram\n```\n");
    assert!(out.contains("mermaid-error"), "{out}");
    assert!(out.contains("this is not a diagram"), "{out}");
    assert!(!out.contains("<svg"), "{out}");
}

#[test]
fn rust_fence_is_not_mermaid() {
    let out = html("```rust\nfn main() {}\n```\n");
    assert!(out.contains("hl-code"), "{out}");
    assert!(!out.contains("class=\"mermaid\""), "{out}");
}

#[test]
fn inline_mermaid_token_stays_code() {
    let out = html("see `mermaid` in a sentence\n");
    assert!(out.contains("<code>mermaid</code>"), "{out}");
    assert!(!out.contains("class=\"mermaid\""), "{out}");
}

#[test]
fn math_dollar_and_fence() {
    let inline = html("a $x$ b\n");
    assert!(inline.contains("<math"), "{inline}");
    let block = html("```math\nx^2\n```\n");
    assert!(block.contains("<math"), "{block}");
    assert!(block.contains("math-block"), "{block}");
}

#[test]
fn an_external_link_opens_in_a_tab_of_its_own() {
    let src = "[docs](https://example.com/x) and <https://example.com/bare>\n";
    let out = html(src);
    assert_eq!(
        out.matches("target=\"_blank\" rel=\"noopener noreferrer\"").count(),
        2,
        "the written link and the autolink both leave: {out}"
    );
    let shell = render_markdown(src, false, RawHtml::Draw);
    assert!(!shell.contains("_blank"), "{shell}");
    assert!(shell.contains("<a href=\"https://example.com/x\">docs</a>"), "{shell}");
}

#[test]
fn a_link_that_stays_is_untouched() {
    let out = html("[here](./note.md) [titled](/a.rs \"a title\")\n");
    assert!(out.contains("<a href=\"./note.md\">here</a>"), "{out}");
    assert!(out.contains("<a href=\"/a.rs\" title=\"a title\">titled</a>"), "{out}");
    assert!(!out.contains("_blank"), "{out}");
}

#[test]
fn a_remote_document_shows_its_markup_as_text() {
    let phish = "<div style=\"position:fixed;inset:0;background:#fff\">\
                 <p>Passphrase for iota</p><input type=\"password\"></div>";
    let shown = render_markdown(phish, true, RawHtml::Show);
    assert!(!shown.contains("<input"), "{shown}");
    assert!(shown.contains("&lt;input"), "{shown}");
    assert!(shown.contains("Passphrase for iota"), "{shown}");
}

#[test]
fn display_math_alone_in_a_paragraph_replaces_it() {
    let out = finish_markdown("<p><span data-math-style=\"display\">x</span></p>\n".to_string(), true);
    assert!(out.starts_with("<div class=\"math-block\"><math"), "{out}");
    let mixed = finish_markdown("<p>a <span data-math-style=\"display\">x</span> b</p>\n".to_string(), true);
    assert!(mixed.starts_with("<p>a <math"), "{mixed}");
    assert!(!mixed.contains("math-block"), "{mixed}");
}

#[test]
fn a_pass_rewrites_each_region_and_keeps_the_rest() {
    let out = rewrite("x <a href=\"https://e.com\">e</a> <a href=\"/in\">i</a>", Pass::Link, true);
    assert_eq!(
        out,
        "x <a href=\"https://e.com\" target=\"_blank\" rel=\"noopener noreferrer\">e</a> <a href=\"/in\">i</a>"
    );
    assert_eq!(rewrite("no markers here", Pass::Fence, true), "no markers here");
    let fence = rewrite("<pre><code>a &lt; b\n</code></pre>", Pass::PlainFence, true);
    assert!(fence.starts_with("<pre class=\"hl-code\"><code>"), "{fence}");
    assert!(fence.contains("&lt;"), "{fence}");
}

#[test]
fn escaped_text_comes_back_as_written() {
    let v: Vec<char> = "&lt;a href=&quot;x&quot;&gt; &amp;amp; &copy;".chars().collect();
    assert_eq!(unescape(&v), "<a href=\"x\"> &amp; &copy;");
}

#[test]
fn a_remote_document_shows_its_markup_instead_of_drawing_it() {
    let phish = "<div style=\"position:fixed;inset:0;background:#fff\">\
                 <p>Passphrase for iota</p><input type=\"password\"></div>";
    let drawn = html(phish);
    assert!(drawn.contains("<input"), "a local document still renders: {drawn}");

    let shown = remote(phish);
    assert!(!shown.contains("<input"), "{shown}");
    assert!(!shown.contains("<div style"), "{shown}");
    // Shown, not swallowed: the reader can see what the file says.
    assert!(shown.contains("&lt;input"), "{shown}");
    assert!(shown.contains("Passphrase for iota"), "{shown}");

    // Markdown itself is unaffected either way — this is about the
    // document's own HTML, not about the renderer's.
    let md = "# Title\n\nSome *text* and [a link](/a.md).\n";
    for out in [html(md), remote(md)] {
        assert!(out.contains("<h1"), "{out}");
        assert!(out.contains("<em>text</em>"), "{out}");
        assert!(out.contains("href=\"/a.md\""), "{out}");
    }
}

/// Raw HTML the document wrote itself. The scan is not a sanitizer — CSP is
/// the boundary — but a `javascript:` href must not pass a renderer that
/// refuses one in markdown.
#[test]
fn a_dangerous_url_in_raw_html_is_emptied() {
    for src in [
        "<a href=\"javascript:alert(1)\">x</a>",
        "<a href='javascript:alert(1)'>x</a>",
        "<a href=javascript:alert(1)>x</a>",
        "<a\n   href=\"  javascript:alert(1)\">x</a>",
        "<div>\n<img src=\"javascript:alert(1)\">\n</div>",
    ] {
        let out = html(src);
        assert!(!out.to_lowercase().contains("javascript:"), "{src} -> {out}");
        assert!(out.contains("<a") || out.contains("<img"), "{src} -> {out}");
    }

    // Ordinary attributes, an inline PNG and prose naming a scheme all stay:
    // a value is refused only by what it starts with.
    let kept = html(
        "<a href=\"/docs/a.md\" title=\"mind javascript: urls\" class=\"x\">a</a>\n             <img src=\"data:image/png;base64,iVBORw0KGgo=\" alt=\"y\">\n             <p>Write javascript: and nothing happens.</p>",
    );
    assert!(kept.contains("href=\"/docs/a.md\""), "{kept}");
    assert!(kept.contains("title=\"mind javascript: urls\""), "{kept}");
    assert!(kept.contains("data:image/png;base64,iVBORw0KGgo="), "{kept}");
    assert!(kept.contains("Write javascript: and nothing happens."), "{kept}");

    // And the tag filter still does its own job on top.
    let filtered = html("<script>alert(1)</script>");
    assert!(!filtered.contains("<script"), "{filtered}");
}

#[test]
fn raw_html_is_put_back_in_place_of_its_marker() {
    let html = "<p>a <!-- raw HTML omitted -->b<!-- raw HTML omitted --></p>\n";
    let nodes = vec![None, Some((false, "<b>".to_string())), None, Some((false, "</b>".to_string()))];
    assert_eq!(restore_raw(html, &nodes), "<p>a <b>b</b></p>\n");
    // One piece short: nothing is put back.
    let fewer = vec![Some((false, "<b>".to_string()))];
    assert_eq!(restore_raw(html, &fewer), html);
}

#[test]
fn a_refused_tag_opens_as_text() {
    assert_eq!(draw_piece(false, "<script>"), "&lt;script>");
    assert_eq!(draw_piece(false, "</SCRIPT>"), "&lt;/SCRIPT>");
    assert_eq!(draw_piece(false, "<scripts>"), "<scripts>");
    assert_eq!(draw_piece(true, "<div><style>x</style></div>\n"), "<div>&lt;style>x&lt;/style></div>\n");
    assert_eq!(draw_piece(true, "<b/>"), "<b/>");
    assert_eq!(draw_piece(true, "<xmp/>"), "&lt;xmp/>");
}

#[test]
fn local_html_is_drawn_and_filtered() {
    let out = html("<div class=\"note\">\n\n*hi*\n\n</div>\n");
    assert!(out.contains("<div class=\"note\">"), "{out}");
    assert!(out.contains("<em>hi</em>"), "{out}");
    assert!(!out.contains("raw HTML omitted"), "{out}");
    let inline = html("a <kbd>Ctrl</kbd> b <iframe src=\"x\"> c\n");
    assert!(inline.contains("<kbd>Ctrl</kbd>"), "{inline}");
    assert!(inline.contains("&lt;iframe"), "{inline}");
}

#[test]
fn a_documents_own_links_are_left_as_written() {
    let out = html("<a href=\"https://example.com/\">out</a>\n\n[md](https://example.com/x)\n");
    assert!(out.contains("<a href=\"https://example.com/\">out</a>"), "{out}");
    assert_eq!(out.matches("target=\"_blank\"").count(), 1, "{out}");
}

#[test]
fn a_piece_of_raw_html_loses_a_dangerous_url_first() {
    let out = draw_piece(false, "<a href=\"javascript:alert(1)\">");
    assert!(!out.contains("javascript"), "{out}");
    assert!(out.starts_with("<a href="), "{out}");
    assert_eq!(draw_piece(false, "<script src=\"x.js\">"), "&lt;script src=\"x.js\">");
}
