//! The file views: the raw view, and the page for a file — a picture, a
//! film, a rendered document, or highlighted source, by what the file is.

use vstd::prelude::*;
use crate::util::{
    push_str, push_char, push_dec, dec, html_escape, html_escaped, ext_spec, ext_of, one_of,
    image_exts, video_exts, audio_exts, markdown_exts, mermaid_exts, is_image_ext, is_video_ext,
    is_audio_ext, is_markdown_ext, is_mermaid_ext, str_eq, human_spec, human_size, time_spec,
    fmt_time, binary_spec, looks_binary, text_of, utf8_lossy, MAX_HIGHLIGHT_BYTES, SNIFF_BYTES,
    owned, query_get, lookup, view_pairs, views,
};
use crate::page::{
    Prefs, flag, flag_spec, svg_icon, svg_spec, href_path, href_spec, layout, is_layout, bare_layout,
    bare_layout_spec, vfs_of, slice_bytes, ICON_RAW, ICON_DOWNLOAD, ICON_PRINT, ICON_SOURCE,
    ICON_RENDERED,
};
use crate::vfs::{Mtime, Vfs, VfsPath, string_views};
use crate::shell::{lines, lines_of};
use crate::md::{RawHtml, raw_html_for, render_mermaid_figure};
use crate::{Root, State};

verus! {

/// The bytes, for something on a page to point at: `bare` says so in the
/// URL, so the answer is the file whatever the engine says it accepts.
pub open spec fn raw_href_spec(rel: Seq<Seq<char>>) -> Seq<char> {
    href_spec(rel) + "?raw=1&bare=1"@
}

pub fn raw_href(rel: &[String]) -> (r: String)
    ensures
        r@ == raw_href_spec(string_views(rel@)),
{
    let mut out = href_path(rel);
    push_str(&mut out, "?raw=1&bare=1");
    out
}

/// Print, on the views that are documents, and only in the shell, which
/// reads the link and prints.
pub open spec fn print_spec(app_ui: bool) -> Seq<char> {
    if app_ui {
        flag_spec(Seq::empty(), "/.ts/print"@, svg_spec(ICON_PRINT@), "Print"@, "Print this page (Ctrl+P)"@)
    } else {
        Seq::empty()
    }
}

pub fn print_flag(app_ui: bool) -> (r: String)
    ensures
        r@ == print_spec(app_ui),
{
    proof {
        reveal_strlit("");
    }
    if app_ui {
        flag("", "/.ts/print", svg_icon(ICON_PRINT).as_str(), "Print", "Print this page (Ctrl+P)")
    } else {
        String::new()
    }
}

/// Download, where a copy is a thing worth having.
pub open spec fn download_flag_spec(base: Seq<char>, downloadable: bool) -> Seq<char> {
    if downloadable {
        flag_spec(Seq::empty(), base + "?dl=1"@, svg_spec(ICON_DOWNLOAD@), "Download"@, "Save a copy"@)
    } else {
        Seq::empty()
    }
}

pub fn download_flag(base: &str, downloadable: bool) -> (r: String)
    ensures
        r@ == download_flag_spec(base@, downloadable),
{
    proof {
        reveal_strlit("");
    }
    if downloadable {
        let mut href = owned(base);
        push_str(&mut href, "?dl=1");
        flag("", href.as_str(), svg_icon(ICON_DOWNLOAD).as_str(), "Download", "Save a copy")
    } else {
        String::new()
    }
}

/// Raw, and Download where there is one.
pub open spec fn std_controls_spec(rel: Seq<Seq<char>>, downloadable: bool) -> Seq<char> {
    flag_spec(
        Seq::empty(),
        href_spec(rel) + "?raw=1"@,
        svg_spec(ICON_RAW@),
        "Raw"@,
        "The file as it is on disk"@,
    ) + download_flag_spec(href_spec(rel), downloadable)
}

pub fn std_controls(rel: &[String], downloadable: bool) -> (r: String)
    ensures
        r@ == std_controls_spec(string_views(rel@), downloadable),
{
    proof {
        reveal_strlit("");
    }
    let base = href_path(rel);
    let mut raw = owned(base.as_str());
    push_str(&mut raw, "?raw=1");
    let mut out = flag("", raw.as_str(), svg_icon(ICON_RAW).as_str(), "Raw", "The file as it is on disk");
    push_str(&mut out, download_flag(base.as_str(), downloadable).as_str());
    out
}

/// The same, in a sentence: a finished link, or nothing at all.
pub open spec fn download_link_spec(rel: Seq<Seq<char>>, downloadable: bool, words: Seq<char>) -> Option<Seq<char>> {
    if downloadable {
        Some("<a href=\""@ + html_escaped(href_spec(rel)) + "?dl=1\">"@ + words + "</a>"@)
    } else {
        None
    }
}

pub fn download_link(rel: &[String], downloadable: bool, words: &str) -> (r: Option<String>)
    ensures
        match download_link_spec(string_views(rel@), downloadable, words@) {
            Some(l) => r matches Some(x) && x@ == l,
            None => r is None,
        },
{
    if downloadable {
        let mut out = String::new();
        push_str(&mut out, "<a href=\"");
        push_str(&mut out, html_escape(href_path(rel).as_str()).as_str());
        push_str(&mut out, "?dl=1\">");
        push_str(&mut out, words);
        push_str(&mut out, "</a>");
        Some(out)
    } else {
        None
    }
}

/// The line over a file: its size, when it changed, and what it is.
pub open spec fn meta_line_spec(size: u64, mtime: Option<Mtime>, extra: Seq<char>) -> Seq<char> {
    "<p class=\"filemeta\">"@ + human_spec(size as nat) + match mtime {
        Some(t) => " &middot; "@ + time_spec(t.secs as nat),
        None => Seq::empty(),
    } + " &middot; "@ + extra + "</p>"@
}

pub fn meta_line(size: u64, mtime: Option<Mtime>, extra: &str) -> (r: String)
    ensures
        r@ == meta_line_spec(size, mtime, extra@),
{
    let mut out = String::new();
    push_str(&mut out, "<p class=\"filemeta\">");
    push_str(&mut out, human_size(size).as_str());
    match mtime {
        Some(t) => {
            push_str(&mut out, " &middot; ");
            push_str(&mut out, fmt_time(t.secs).as_str());
        },
        None => {},
    }
    push_str(&mut out, " &middot; ");
    push_str(&mut out, extra);
    push_str(&mut out, "</p>");
    out
}

/// The raw view's controls: the way back to the view it came from, and
/// Download where a copy is worth having.
pub open spec fn raw_controls_spec(rel: Seq<Seq<char>>, downloadable: bool) -> Seq<char> {
    flag_spec(Seq::empty(), href_spec(rel), svg_spec(ICON_RENDERED@), "Rendered"@, "The file as this app shows it"@)
        + download_flag_spec(href_spec(rel), downloadable)
}

/// The raw view: the file itself in a frame, under the header.
pub open spec fn raw_content_spec(rel: Seq<Seq<char>>) -> Seq<char> {
    "<iframe class=\"raw\" src=\""@ + html_escaped(raw_href_spec(rel)) + "\" title=\""@ + html_escaped(
        if rel.len() > 0 {
            rel.last()
        } else {
            Seq::empty()
        },
    ) + "\"></iframe>"@
}

/// The raw view of a file, with Download offered or not as the tree says.
pub fn raw_page_with<V>(
    state: &State<V>,
    root: &Root<V>,
    prefs: Prefs,
    rel: &[String],
    url_now: &str,
    downloadable: bool,
) -> (r: String)
    ensures
        r@ == bare_layout_spec(
            state.cfg,
            root.id@,
            prefs.theme,
            prefs.ln,
            prefs.sidebar,
            string_views(rel@),
            url_now@,
            raw_controls_spec(string_views(rel@), downloadable),
            raw_content_spec(string_views(rel@)),
        ),
{
    proof {
        reveal_strlit("");
    }
    let rl = rel.len();
    let name: &str = if rl > 0 {
        rel[rl - 1].as_str()
    } else {
        ""
    };
    let base = href_path(rel);
    let mut controls = flag("", base.as_str(), svg_icon(ICON_RENDERED).as_str(), "Rendered", "The file as this app shows it");
    push_str(&mut controls, download_flag(base.as_str(), downloadable).as_str());
    let mut content = String::new();
    push_str(&mut content, "<iframe class=\"raw\" src=\"");
    push_str(&mut content, html_escape(raw_href(rel).as_str()).as_str());
    push_str(&mut content, "\" title=\"");
    push_str(&mut content, html_escape(name).as_str());
    push_str(&mut content, "\"></iframe>");
    assert(controls@ == raw_controls_spec(string_views(rel@), downloadable));
    assert(content@ == raw_content_spec(string_views(rel@)));
    bare_layout(state, root, prefs, rel, url_now, controls.as_str(), content.as_str())
}

/// The raw view: the file in a frame, under a header whose way out is the
/// view it came from, and Download where the tree says a copy is worth
/// having — a tree that says not gets no such control.
pub fn raw_page<V: Vfs>(state: &State<V>, root: &Root<V>, prefs: Prefs, rel: &[String], url_now: &str) -> (r: String)
    ensures
        r@ == bare_layout_spec(
            state.cfg,
            root.id@,
            prefs.theme,
            prefs.ln,
            prefs.sidebar,
            string_views(rel@),
            url_now@,
            raw_controls_spec(string_views(rel@), root.vfs.copies_offered()),
            raw_content_spec(string_views(rel@)),
        ),
{
    let d = root.vfs.downloadable();
    raw_page_with(state, root, prefs, rel, url_now, d)
}

// ---------------------------------------------------------------------------
// The page for a file

/// What the outside says of a file a page is about: its size, when it
/// changed, the most the backend hands over whole, whether a copy is worth
/// offering, and its bytes where they were read.
pub type FileFacts = (u64, Option<Mtime>, Option<u64>, bool, Option<Seq<u8>>);

/// What the colouring made of the text: the rendered document, the name of
/// the syntax, and the highlighted source.
pub type Drawn = (Seq<char>, Seq<char>, Seq<char>);

/// The name a file's page is about: the last segment.
pub open spec fn name_of(rel: Seq<Seq<char>>) -> Seq<char> {
    if rel.len() > 0 {
        rel.last()
    } else {
        Seq::empty()
    }
}

/// A file past what the backend hands over whole: there is nothing to point
/// anything at.
pub open spec fn too_large_to_show(size: u64, mtime: Option<Mtime>) -> Seq<char> {
    meta_line_spec(size, mtime, "large file"@) + "<div class=\"bigmsg\"><p>File is too large to show here ("@
        + human_spec(size as nat) + ").</p><p>Open it in an app on this device that reads them.</p></div>"@
}

/// A picture, a film, a sound or a PDF, drawn by the engine from the bytes;
/// `None` for anything else.
pub open spec fn media_content(rel: Seq<Seq<char>>, size: u64, mtime: Option<Mtime>) -> Option<Seq<char>> {
    let name = name_of(rel);
    let ext = ext_spec(name);
    let raw = html_escaped(raw_href_spec(rel));
    if one_of(ext, image_exts()) {
        Some(meta_line_spec(size, mtime, "image"@) + "<div class=\"fit\"><a href=\""@ + raw
            + "\"><img class=\"preview-img\" src=\""@ + raw + "\" alt=\""@ + html_escaped(name) + "\"></a></div>"@)
    } else if one_of(ext, video_exts()) {
        Some(meta_line_spec(size, mtime, "video"@) + "<div class=\"fit\"><video class=\"preview\" controls src=\""@
            + raw + "\"></video></div>"@)
    } else if one_of(ext, audio_exts()) {
        Some(meta_line_spec(size, mtime, "audio"@) + "<audio class=\"preview\" controls src=\""@ + raw
            + "\"></audio>"@)
    } else if ext == "pdf"@ {
        Some(meta_line_spec(size, mtime, "pdf"@) + "<div class=\"fit\"><embed class=\"pdf\" src=\""@ + raw
            + "\" type=\"application/pdf\"></div>"@)
    } else {
        None
    }
}

/// Text past what a page renders: the ways to have it anyway.
pub open spec fn too_large_to_render(rel: Seq<Seq<char>>, size: u64, mtime: Option<Mtime>, dl: bool) -> Seq<char> {
    let raw = "<a href=\""@ + html_escaped(href_spec(rel)) + "?raw=1\">View raw</a>"@;
    let ways = match download_link_spec(rel, dl, "download"@) {
        Some(l) => raw + " or "@ + l + seq!['.'],
        None => raw + seq!['.'],
    };
    meta_line_spec(size, mtime, "large file"@) + "<div class=\"bigmsg\"><p>File is too large to render ("@
        + human_spec(size as nat) + ").</p><p>"@ + ways + "</p></div>"@
}

/// A file that is not text.
pub open spec fn binary_content(rel: Seq<Seq<char>>, size: u64, mtime: Option<Mtime>, dl: bool) -> Seq<char> {
    meta_line_spec(size, mtime, "binary"@) + "<div class=\"bigmsg\"><p>Binary file.</p>"@ + match download_link_spec(
        rel,
        dl,
        "Download"@,
    ) {
        Some(l) => "<p>"@ + l + "</p>"@,
        None => Seq::empty(),
    } + "</div>"@
}

/// How many lines a text has, as `str::lines` counts them, and at least one.
pub open spec fn line_total(text: Seq<char>) -> nat {
    if lines_of(text).len() == 0 {
        1
    } else {
        lines_of(text).len()
    }
}

/// The line numbers beside source: one a line.
pub open spec fn gutter_nums(n: nat) -> Seq<char>
    decreases n,
{
    if n == 0 {
        Seq::empty()
    } else {
        gutter_nums((n - 1) as nat) + dec(n) + seq!['\n']
    }
}

/// Highlighted source: what it is and how long, the numbers where they are
/// on, and the code.
pub open spec fn source_content(
    size: u64,
    mtime: Option<Mtime>,
    ln: bool,
    n: nat,
    syntax: Seq<char>,
    highlighted: Seq<char>,
) -> Seq<char> {
    meta_line_spec(
        size,
        mtime,
        html_escaped(syntax) + " &middot; "@ + dec(n) + " line"@ + (if n == 1 {
            Seq::empty()
        } else {
            seq!['s']
        }),
    ) + "<div class=\"codewrap\">"@ + (if ln {
        "<pre class=\"gutter\" aria-hidden=\"true\">"@ + gutter_nums(n) + "</pre>"@
    } else {
        Seq::empty()
    }) + "<pre class=\"hl-code\"><code>"@ + highlighted + "</code></pre></div>"@
}

/// Whether a file is a document the page renders rather than shows as
/// source.
pub open spec fn is_document(ext: Seq<char>) -> bool {
    one_of(ext, markdown_exts()) || one_of(ext, mermaid_exts())
}

/// The controls over a rendered document: Print, the source, Raw, Download.
pub open spec fn document_controls(app_ui: bool, rel: Seq<Seq<char>>, dl: bool) -> Seq<char> {
    print_spec(app_ui) + flag_spec(
        Seq::empty(),
        href_spec(rel) + "?src=1"@,
        svg_spec(ICON_SOURCE@),
        "Source"@,
        "Highlighted source instead"@,
    ) + std_controls_spec(rel, dl)
}

/// The controls over source: Print, the rendered view where there is one,
/// Raw, Download.
pub open spec fn source_controls(app_ui: bool, rel: Seq<Seq<char>>, dl: bool) -> Seq<char> {
    print_spec(app_ui) + (if is_document(ext_spec(name_of(rel))) {
        flag_spec(Seq::empty(), href_spec(rel), svg_spec(ICON_RENDERED@), "Rendered"@, "Rendered view instead"@)
    } else {
        Seq::empty()
    }) + std_controls_spec(rel, dl)
}

/// Which view a file gets, as (controls, line-number switch, content), by
/// what the outside said of it and what the colouring made of its text.
pub open spec fn file_view_spec(
    app_ui: bool,
    ln: bool,
    rel: Seq<Seq<char>>,
    want_source: bool,
    facts: FileFacts,
    drawn: Drawn,
) -> (Seq<char>, bool, Seq<char>) {
    let (size, mtime, limit, dl, bytes) = facts;
    let ext = ext_spec(name_of(rel));
    if limit matches Some(l) && size > l {
        (Seq::empty(), false, too_large_to_show(size, mtime))
    } else if media_content(rel, size, mtime) is Some {
        (std_controls_spec(rel, dl), false, media_content(rel, size, mtime)->0)
    } else if size > MAX_HIGHLIGHT_BYTES {
        (std_controls_spec(rel, dl), false, too_large_to_render(rel, size, mtime, dl))
    } else {
        match bytes {
            None => (Seq::empty(), false, "<div class=\"bigmsg\"><p>Could not read file.</p></div>"@),
            Some(b) => if binary_spec(b.take(if b.len() < SNIFF_BYTES { b.len() as int } else { SNIFF_BYTES as int })) {
                (std_controls_spec(rel, dl), false, binary_content(rel, size, mtime, dl))
            } else if !want_source && is_document(ext) {
                (document_controls(app_ui, rel, dl), false, "<div class=\"md\">"@ + drawn.0 + "</div>"@)
            } else {
                (
                    source_controls(app_ui, rel, dl),
                    true,
                    source_content(size, mtime, ln, line_total(text_of(b)), drawn.1, drawn.2),
                )
            },
        }
    }
}

fn too_large_html(size: u64, mtime: Option<Mtime>) -> (r: String)
    ensures
        r@ == too_large_to_show(size, mtime),
{
    let mut out = meta_line(size, mtime, "large file");
    push_str(&mut out, "<div class=\"bigmsg\"><p>File is too large to show here (");
    push_str(&mut out, human_size(size).as_str());
    push_str(&mut out, ").</p><p>Open it in an app on this device that reads them.</p></div>");
    out
}

#[verifier::spinoff_prover]
fn media_html(rel: &[String], size: u64, mtime: Option<Mtime>) -> (r: Option<String>)
    ensures
        match media_content(string_views(rel@), size, mtime) {
            Some(c) => r matches Some(x) && x@ == c,
            None => r is None,
        },
{
    proof {
        reveal_strlit("pdf");
    }
    let rl = rel.len();
    let name: &str = if rl > 0 {
        rel[rl - 1].as_str()
    } else {
        ""
    };
    proof {
        reveal_strlit("");
        assert(name@ == name_of(string_views(rel@)));
    }
    let ext = ext_of(name);
    let raw = html_escape(raw_href(rel).as_str());
    if is_image_ext(ext.as_str()) {
        let mut out = meta_line(size, mtime, "image");
        push_str(&mut out, "<div class=\"fit\"><a href=\"");
        push_str(&mut out, raw.as_str());
        push_str(&mut out, "\"><img class=\"preview-img\" src=\"");
        push_str(&mut out, raw.as_str());
        push_str(&mut out, "\" alt=\"");
        push_str(&mut out, html_escape(name).as_str());
        push_str(&mut out, "\"></a></div>");
        Some(out)
    } else if is_video_ext(ext.as_str()) {
        let mut out = meta_line(size, mtime, "video");
        push_str(&mut out, "<div class=\"fit\"><video class=\"preview\" controls src=\"");
        push_str(&mut out, raw.as_str());
        push_str(&mut out, "\"></video></div>");
        Some(out)
    } else if is_audio_ext(ext.as_str()) {
        let mut out = meta_line(size, mtime, "audio");
        push_str(&mut out, "<audio class=\"preview\" controls src=\"");
        push_str(&mut out, raw.as_str());
        push_str(&mut out, "\"></audio>");
        Some(out)
    } else if str_eq(ext.as_str(), "pdf") {
        let mut out = meta_line(size, mtime, "pdf");
        push_str(&mut out, "<div class=\"fit\"><embed class=\"pdf\" src=\"");
        push_str(&mut out, raw.as_str());
        push_str(&mut out, "\" type=\"application/pdf\"></div>");
        Some(out)
    } else {
        None
    }
}

fn too_large_render_html(rel: &[String], size: u64, mtime: Option<Mtime>, dl: bool) -> (r: String)
    ensures
        r@ == too_large_to_render(string_views(rel@), size, mtime, dl),
{
    let mut raw = String::new();
    push_str(&mut raw, "<a href=\"");
    push_str(&mut raw, html_escape(href_path(rel).as_str()).as_str());
    push_str(&mut raw, "?raw=1\">View raw</a>");
    let mut ways = owned(raw.as_str());
    match download_link(rel, dl, "download") {
        Some(l) => {
            push_str(&mut ways, " or ");
            push_str(&mut ways, l.as_str());
            push_char(&mut ways, '.');
        },
        None => push_char(&mut ways, '.'),
    }
    let mut out = meta_line(size, mtime, "large file");
    push_str(&mut out, "<div class=\"bigmsg\"><p>File is too large to render (");
    push_str(&mut out, human_size(size).as_str());
    push_str(&mut out, ").</p><p>");
    push_str(&mut out, ways.as_str());
    push_str(&mut out, "</p></div>");
    out
}

fn binary_html(rel: &[String], size: u64, mtime: Option<Mtime>, dl: bool) -> (r: String)
    ensures
        r@ == binary_content(string_views(rel@), size, mtime, dl),
{
    let mut out = meta_line(size, mtime, "binary");
    push_str(&mut out, "<div class=\"bigmsg\"><p>Binary file.</p>");
    match download_link(rel, dl, "Download") {
        Some(l) => {
            push_str(&mut out, "<p>");
            push_str(&mut out, l.as_str());
            push_str(&mut out, "</p>");
        },
        None => {},
    }
    push_str(&mut out, "</div>");
    out
}

fn push_gutter(out: &mut String, n: u64)
    ensures
        final(out)@ == old(out)@ + gutter_nums(n as nat),
{
    let ghost start = out@;
    let mut i: u64 = 0;
    while i < n
        invariant
            i <= n,
            out@ == start + gutter_nums(i as nat),
        decreases n - i,
    {
        i = i + 1;
        push_dec(out, i);
        push_char(out, '\n');
    }
}

#[verifier::spinoff_prover]
fn source_html(size: u64, mtime: Option<Mtime>, ln: bool, n: u64, syntax: &str, highlighted: &str) -> (r: String)
    ensures
        r@ == source_content(size, mtime, ln, n as nat, syntax@, highlighted@),
{
    let mut what = html_escape(syntax);
    push_str(&mut what, " &middot; ");
    push_dec(&mut what, n);
    push_str(&mut what, " line");
    if n != 1 {
        push_char(&mut what, 's');
    }
    let mut out = meta_line(size, mtime, what.as_str());
    push_str(&mut out, "<div class=\"codewrap\">");
    if ln {
        push_str(&mut out, "<pre class=\"gutter\" aria-hidden=\"true\">");
        push_gutter(&mut out, n);
        push_str(&mut out, "</pre>");
    }
    push_str(&mut out, "<pre class=\"hl-code\"><code>");
    push_str(&mut out, highlighted);
    push_str(&mut out, "</code></pre></div>");
    out
}

fn document_controls_html(app_ui: bool, rel: &[String], dl: bool) -> (r: String)
    ensures
        r@ == document_controls(app_ui, string_views(rel@), dl),
{
    proof {
        reveal_strlit("");
    }
    let mut src = href_path(rel);
    push_str(&mut src, "?src=1");
    let mut out = print_flag(app_ui);
    push_str(&mut out, flag("", src.as_str(), svg_icon(ICON_SOURCE).as_str(), "Source", "Highlighted source instead").as_str());
    push_str(&mut out, std_controls(rel, dl).as_str());
    out
}

fn source_controls_html(app_ui: bool, rel: &[String], dl: bool) -> (r: String)
    ensures
        r@ == source_controls(app_ui, string_views(rel@), dl),
{
    proof {
        reveal_strlit("");
    }
    let rl = rel.len();
    let name: &str = if rl > 0 {
        rel[rl - 1].as_str()
    } else {
        ""
    };
    assert(name@ == name_of(string_views(rel@)));
    let ext = ext_of(name);
    let mut out = print_flag(app_ui);
    if is_markdown_ext(ext.as_str()) || is_mermaid_ext(ext.as_str()) {
        push_str(&mut out, flag("", href_path(rel).as_str(), svg_icon(ICON_RENDERED).as_str(), "Rendered", "Rendered view instead").as_str());
    }
    push_str(&mut out, std_controls(rel, dl).as_str());
    out
}

/// The number of lines in a text, at least one.
fn count_lines(text: &str) -> (r: u64)
    ensures
        r as nat == line_total(text@),
{
    let ls = lines(text);
    proof {
        assert(views(ls@).len() == ls@.len());
    }
    if ls.len() == 0 {
        1
    } else {
        ls.len() as u64
    }
}

/// The view for a file, from plain values: what the outside said of it and
/// what the colouring made of its text.
#[verifier::spinoff_prover]
pub fn file_view(
    app_ui: bool,
    ln: bool,
    rel: &[String],
    want_source: bool,
    size: u64,
    mtime: Option<Mtime>,
    limit: Option<u64>,
    dl: bool,
    bytes: &Option<Vec<u8>>,
    rendered: &str,
    syntax: &str,
    highlighted: &str,
) -> (r: (String, bool, String))
    ensures
        (r.0@, r.1, r.2@) == file_view_spec(
            app_ui,
            ln,
            string_views(rel@),
            want_source,
            (
                size,
                mtime,
                limit,
                dl,
                match bytes {
                    Some(b) => Some(b@),
                    None => None,
                },
            ),
            (rendered@, syntax@, highlighted@),
        ),
{
    proof {
        reveal_strlit("");
    }
    let rl = rel.len();
    let name: &str = if rl > 0 {
        rel[rl - 1].as_str()
    } else {
        ""
    };
    assert(name@ == name_of(string_views(rel@)));
    let ext = ext_of(name);
    match limit {
        Some(l) => {
            if size > l {
                return (String::new(), false, too_large_html(size, mtime));
            }
        },
        None => {},
    }
    match media_html(rel, size, mtime) {
        Some(c) => {
            return (std_controls(rel, dl), false, c);
        },
        None => {},
    }
    if size > MAX_HIGHLIGHT_BYTES {
        return (std_controls(rel, dl), false, too_large_render_html(rel, size, mtime, dl));
    }
    match bytes {
        None => (String::new(), false, owned("<div class=\"bigmsg\"><p>Could not read file.</p></div>")),
        Some(b) => {
            let bl = b.len();
            let head = if bl < SNIFF_BYTES {
                bl
            } else {
                SNIFF_BYTES
            };
            if looks_binary(slice_bytes(b.as_slice(), head).as_slice()) {
                return (std_controls(rel, dl), false, binary_html(rel, size, mtime, dl));
            }
            let doc = is_markdown_ext(ext.as_str()) || is_mermaid_ext(ext.as_str());
            if !want_source && doc {
                let mut content = owned("<div class=\"md\">");
                push_str(&mut content, rendered);
                push_str(&mut content, "</div>");
                return (document_controls_html(app_ui, rel, dl), false, content);
            }
            let text = utf8_lossy(b.as_slice());
            let n = count_lines(text.as_str());
            (source_controls_html(app_ui, rel, dl), true, source_html(size, mtime, ln, n, syntax, highlighted))
        },
    }
}

/// What a file's page is, once the outside has been asked: the view
/// `file_view_spec` gives for what it said, in the page shell.
pub open spec fn is_file_page<V>(
    r: Seq<char>,
    cfg: crate::Config<V>,
    id: Seq<char>,
    prefs: Prefs,
    rel: Seq<Seq<char>>,
    url_now: Seq<char>,
    want_source: bool,
    facts: FileFacts,
    drawn: Drawn,
) -> bool {
    let v = file_view_spec(cfg.app_ui, prefs.ln, rel, want_source, facts, drawn);
    is_layout(r, cfg, id, prefs.theme, prefs.ln, prefs.sidebar, string_views(prefs.open@), rel, url_now, v.0, v.1, v.2)
}

/// A diagram as `render_mermaid_figure` draws its text: the refusal where
/// the source is refused, else the figure of some rendering that passed.
pub open spec fn mermaid_drawn(src: Seq<char>, fig: Seq<char>) -> bool {
    match crate::md::mermaid_refusal(src) {
        Some(why) => fig == crate::md::mermaid_figure_spec(src, Err(why)),
        None => exists|res: Result<(Seq<char>, Seq<char>), Seq<char>>|
            crate::md::svgs_passed(res) && fig == #[trigger] crate::md::mermaid_figure_spec(src, res),
    }
}

/// What a file's page owes of the answers it worked from: the bytes were
/// asked for only where nothing before the read settled the view — the file
/// within what the backend hands over, not a picture, film, sound or PDF,
/// and no larger than `MAX_HIGHLIGHT_BYTES` — a diagram shown rendered is
/// what `render_mermaid_figure` makes of its text, and source shown as source
/// is coloured as the syntax its name, extension or first line picks.
pub open spec fn file_drawn_fits(
    rel: Seq<Seq<char>>,
    want_source: bool,
    tabs: bool,
    raw: RawHtml,
    facts: FileFacts,
    drawn: Drawn,
) -> bool {
    let (size, mtime, limit, dl, bytes) = facts;
    let ext = ext_spec(name_of(rel));
    &&& bytes is Some ==> (!(limit matches Some(l) && size > l) && media_content(rel, size, mtime) is None && size
        <= MAX_HIGHLIGHT_BYTES)
    &&& (bytes matches Some(b) && !binary_spec(b.take(if b.len() < SNIFF_BYTES { b.len() as int } else { SNIFF_BYTES as int }))
        && !want_source && one_of(ext, mermaid_exts()) && !one_of(ext, markdown_exts())) ==> mermaid_drawn(
        text_of(bytes->0),
        drawn.0,
    )
    &&& (bytes matches Some(b) && !binary_spec(b.take(if b.len() < SNIFF_BYTES { b.len() as int } else { SNIFF_BYTES as int }))
        && !want_source && one_of(ext, markdown_exts())) ==> crate::markdown::markdown_of(text_of(bytes->0), tabs, raw, drawn.0)
    &&& (bytes matches Some(b) && !binary_spec(b.take(if b.len() < SNIFF_BYTES { b.len() as int } else { SNIFF_BYTES as int }))
        && (want_source || !is_document(ext))) ==> ({
        let text = text_of(bytes->0);
        &&& drawn.1 == crate::hl::syntax_spec(name_of(rel), ext, first_line_spec(text))
        &&& drawn.2 == crate::hl::highlighted(crate::hl::CLASS_PREFIX@, drawn.1, text)
    })
}

/// The first line of a text, as `str::lines` cuts it; nothing for no text.
pub open spec fn first_line_spec(text: Seq<char>) -> Seq<char> {
    if lines_of(text).len() > 0 {
        lines_of(text)[0]
    } else {
        Seq::empty()
    }
}

/// Whether a query asks for the source of a document.
pub open spec fn wants_source(query: Seq<(Seq<char>, Seq<char>)>) -> bool {
    lookup(query, "src"@) == Some("1"@)
}

/// A file's page: what the backend says of the file, and what the colouring
/// makes of it, drawn by `file_view`.
#[verifier::spinoff_prover]
pub fn file_page<V: Vfs>(
    state: &State<V>,
    root: &Root<V>,
    prefs: Prefs,
    rel: &[String],
    canon: &VfsPath,
    query: &[(String, String)],
    url_now: &str,
) -> (r: String)
    ensures
        exists|facts: FileFacts, drawn: Drawn|
            #[trigger] is_file_page(
                r@,
                state.cfg,
                root.id@,
                prefs,
                string_views(rel@),
                url_now@,
                wants_source(view_pairs(query@)),
                facts,
                drawn,
            ) && file_drawn_fits(
                string_views(rel@),
                wants_source(view_pairs(query@)),
                !state.cfg.app_ui,
                raw_html_for(root.vfs.is_on_this_device()),
                facts,
                drawn,
            )
                && facts.2 == root.vfs.piece_limit() && facts.3 == root.vfs.copies_offered(),
{
    proof {
        reveal_strlit("1");
        reveal_strlit("");
    }
    let vfs = vfs_of(root);
    let rl = rel.len();
    let name: &str = if rl > 0 {
        rel[rl - 1].as_str()
    } else {
        ""
    };
    let ext = ext_of(name);
    assert(name@ == name_of(string_views(rel@)));
    let (size, mtime) = match vfs.metadata(canon) {
        Ok(m) => (m.len, m.mtime),
        Err(_) => (0u64, None),
    };
    let limit = vfs.open_limit();
    let dl = vfs.downloadable();
    let over_limit = match limit {
        Some(l) => size > l,
        None => false,
    };
    let media = media_html(rel, size, mtime);
    let bytes: Option<Vec<u8>> = if !over_limit && media.is_none() && size <= MAX_HIGHLIGHT_BYTES {
        match vfs.read(canon) {
            Ok(b) => Some(b),
            Err(_) => None,
        }
    } else {
        None
    };
    let want_source = match query_get(query, "src") {
        Some(v) => str_eq(v, "1"),
        None => false,
    };
    assert(want_source == wants_source(view_pairs(query@)));
    let mut rendered = String::new();
    let mut syntax = String::new();
    let mut highlighted = String::new();
    match &bytes {
        Some(b) => {
            let bl = b.len();
            let head = if bl < SNIFF_BYTES {
                bl
            } else {
                SNIFF_BYTES
            };
            if !looks_binary(slice_bytes(b.as_slice(), head).as_slice()) {
                let text = utf8_lossy(b.as_slice());
                let md = is_markdown_ext(ext.as_str());
                let mm = is_mermaid_ext(ext.as_str());
                if !want_source && (md || mm) {
                    rendered = if md {
                        crate::markdown::render_markdown(text.as_str(), !state.cfg.app_ui, RawHtml::of(vfs))
                    } else {
                        let fig = render_mermaid_figure(text.as_str());
                        proof {
                            if crate::md::mermaid_refusal(text@) is None {
                                let res = choose|res: Result<(Seq<char>, Seq<char>), Seq<char>>|
                                    crate::md::svgs_passed(res) && fig@ == #[trigger] crate::md::mermaid_figure_spec(text@, res);
                                assert(crate::md::svgs_passed(res) && fig@ == crate::md::mermaid_figure_spec(text@, res));
                            }
                            assert(mermaid_drawn(text@, fig@));
                        }
                        fig
                    };
                } else {
                    let ls = lines(text.as_str());
                    let first = if ls.len() > 0 {
                        crate::util::string_of(ls[0].as_slice())
                    } else {
                        String::new()
                    };
                    proof {
                        if ls@.len() > 0 {
                            assert(crate::util::views(ls@)[0] == ls@[0]@);
                        }
                        assert(first@ == first_line_spec(text@));
                    }
                    syntax = crate::hl::syntax_name(name, ext.as_str(), first.as_str());
                    highlighted = crate::hl::highlight(syntax.as_str(), text.as_str());
                    assert(text@ == text_of(b@));
                    assert(syntax@ == crate::hl::syntax_spec(name_of(string_views(rel@)), ext_spec(name_of(string_views(rel@))), first_line_spec(text_of(b@))));
                }
            }
        },
        None => {},
    }
    let (controls, show_ln, content) = file_view(
        state.cfg.app_ui,
        prefs.ln,
        rel,
        want_source,
        size,
        mtime,
        limit,
        dl,
        &bytes,
        rendered.as_str(),
        syntax.as_str(),
        highlighted.as_str(),
    );
    let r = layout(state, root, prefs, rel, url_now, controls.as_str(), show_ln, content.as_str());
    proof {
        let facts: FileFacts = (size, mtime, limit, dl, match bytes {
            Some(b) => Some(b@),
            None => None,
        });
        let drawn: Drawn = (rendered@, syntax@, highlighted@);
        assert(is_file_page(r@, state.cfg, root.id@, prefs, string_views(rel@), url_now@, want_source, facts, drawn));
        assert(ext@ == ext_spec(name_of(string_views(rel@))));
        assert(file_drawn_fits(string_views(rel@), want_source, !state.cfg.app_ui, raw_html_for(root.vfs.is_on_this_device()), facts, drawn));
    }
    r
}

} // verus!
