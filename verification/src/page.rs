//! The pages: the chrome every view shares, and the listings, start page and
//! error page drawn inside it.

use vstd::prelude::*;
use crate::util::{
    str_eq, html_escaped, html_escape, pct_encoded, percent_encode, push_str, push_char,
    lookup, view_pairs, chars_of, string_of, slice_vec, last_index, rfind_char, lemma_last_index,
    lex_lt, lex_less, lowercase, to_lowercase, owned, lemma_lex_trichotomy, lemma_lex_transitive, ext_spec, ext_of, one_of, image_exts, audio_exts,
    video_exts, markdown_exts, mermaid_exts, is_image_ext, is_audio_ext, is_video_ext,
    is_markdown_ext, is_mermaid_ext, push_dec, dec, human_spec, human_size, time_spec, fmt_time, has_char, glob, fnmatch, MAX_HIGHLIGHT_BYTES, SNIFF_BYTES,
    looks_binary, utf8_lossy, query_get,
};
use crate::vfs::{Entry, Meta, Mtime, Refusal, Vfs, VfsPath, refusal_of, refusal_words, string_views};
use crate::md::RawHtml;
use crate::{
    encoded, RootStatus, StatusBook, status_note, PaneSection, PaneEntry, Pin, Config, Root, title_for_spec,
    bookmark, root_id_bookmark, State, or_default, pkg_name, pkg_version,
};

verus! {

/// Which palette a page asks for.
#[derive(Clone, Copy, PartialEq, Eq, Debug, Structural)]
pub enum ThemeMode {
    Auto,
    Light,
    Dark,
}

/// The setting a cookie or a query value names, if it names one.
pub open spec fn theme_named(s: Seq<char>) -> Option<ThemeMode> {
    if s == "auto"@ {
        Some(ThemeMode::Auto)
    } else if s == "light"@ {
        Some(ThemeMode::Light)
    } else if s == "dark"@ {
        Some(ThemeMode::Dark)
    } else {
        None
    }
}

/// The word a setting is stored as.
pub open spec fn theme_word(t: ThemeMode) -> Seq<char> {
    match t {
        ThemeMode::Auto => "auto"@,
        ThemeMode::Light => "light"@,
        ThemeMode::Dark => "dark"@,
    }
}

/// The setting a click on the theme flag moves to.
pub open spec fn theme_after(t: ThemeMode) -> ThemeMode {
    match t {
        ThemeMode::Auto => ThemeMode::Light,
        ThemeMode::Light => ThemeMode::Dark,
        ThemeMode::Dark => ThemeMode::Auto,
    }
}

impl ThemeMode {
    pub fn from_str(s: &str) -> (r: Option<ThemeMode>)
        ensures
            r == theme_named(s@),
    {
        if str_eq(s, "auto") {
            Some(ThemeMode::Auto)
        } else if str_eq(s, "light") {
            Some(ThemeMode::Light)
        } else if str_eq(s, "dark") {
            Some(ThemeMode::Dark)
        } else {
            None
        }
    }

    pub fn as_str(self) -> (r: &'static str)
        ensures
            r@ == theme_word(self),
    {
        match self {
            ThemeMode::Auto => "auto",
            ThemeMode::Light => "light",
            ThemeMode::Dark => "dark",
        }
    }

    pub fn next(self) -> (r: ThemeMode)
        ensures
            r == theme_after(self),
    {
        match self {
            ThemeMode::Auto => ThemeMode::Light,
            ThemeMode::Light => ThemeMode::Dark,
            ThemeMode::Dark => ThemeMode::Auto,
        }
    }
}

/// Reading back the word a setting is stored as gives the setting.
pub proof fn law_theme_word_reads_back(t: ThemeMode)
    ensures
        theme_named(theme_word(t)) == Some(t),
{
    reveal_strlit("auto");
    reveal_strlit("light");
    reveal_strlit("dark");
    assert("light"@.len() != "auto"@.len());
    assert("dark"@[0] != "auto"@[0]);
    assert("dark"@.len() != "light"@.len());
}

/// Three clicks on the theme flag come back round to where they started, and
/// no fewer do.
pub proof fn law_theme_cycle(t: ThemeMode)
    ensures
        theme_after(theme_after(theme_after(t))) == t,
        theme_after(t) != t,
        theme_after(theme_after(t)) != t,
{
}

/// What a request asked for: the settings its cookies carry, falling back to
/// the configured ones.
#[derive(Clone, Copy)]
pub struct Prefs<'a> {
    pub theme: ThemeMode,
    pub ln: bool,
    pub sidebar: bool,
    /// Directories the reader opened in the pane, `/`-joined relative paths.
    /// The chain down to the current directory is deliberately *not* in here:
    /// that one is implied by where you are.
    pub open: &'a [String],
}


// ---------------------------------------------------------------------------
// Icons
//
// Icons are drawn, not typed: a font stack without the emoji planes draws a
// missing-glyph box where a character would be. Paths cannot miss, they take
// the surrounding colour, and they stay legible in both themes. Each constant
// is the inside of an `<svg>`; `svg_icon` supplies the rest.

pub const ICON_FOLDER: &'static str = "<path d=\"M1.7 4.5c0-.5.4-.9.9-.9h2.9l1.3 1.7h7c.5 0 .9.4.9.9v6.4c0 \
     .5-.4.9-.9.9H2.6a.9.9 0 01-.9-.9V4.5z\"/>";

pub const ICON_IMAGE: &'static str = "<path d=\"M2 3.6h12v8.8H2z\"/><path d=\"M2.9 11.6l3.5-3.4 1.9 2 2.3-2.7 \
     3 3.4\"/><path d=\"M5.6 5.6a1.1 1.1 0 100 2.2 1.1 1.1 0 000-2.2z\"/>";

pub const ICON_AUDIO: &'static str = "<path d=\"M6.6 11.4V4l6.4-1.4v2.2L6.6 6.2\"/>\
     <path fill=\"currentColor\" stroke=\"none\" d=\"M4.9 9.6a2 2 0 100 4 2 2 0 000-4z\"/>";

pub const ICON_VIDEO: &'static str = "<path d=\"M1.9 3.9h12.2v8.2H1.9z\"/>\
     <path fill=\"currentColor\" stroke=\"none\" d=\"M6.6 6.3l4 1.7-4 1.7z\"/>";

pub const ICON_DOC: &'static str = "<path d=\"M3.6 2.4h5.6l3.2 3.2v8H3.6z\"/><path d=\"M9.2 2.4v3.2h3.2\"/>\
     <path d=\"M5.6 8.4h5M5.6 10.6h5\"/>";

pub const ICON_FILE: &'static str = "<path d=\"M3.6 2.4h5.6l3.2 3.2v8H3.6z\"/><path d=\"M9.2 2.4v3.2h3.2\"/>";

pub const ICON_RAW: &'static str = "<path d=\"M9.6 3.4h3v3\"/><path d=\"M12.6 3.4L8.2 7.8\"/><path d=\"M12 9.4v3.2H3.4V4h3.2\"/>";

pub const ICON_DOWNLOAD: &'static str = "<path d=\"M8 2.9v6.7\"/><path d=\"M5.2 7l2.8 2.8L10.8 7\"/><path d=\"M3.2 13.1h9.6\"/>";

pub const ICON_SOURCE: &'static str = "<path d=\"M6.2 4.4L2.7 8l3.5 3.6\"/><path d=\"M9.8 4.4L13.3 8l-3.5 3.6\"/>";

pub const ICON_RENDERED: &'static str = "<path d=\"M3.4 3h9.2v10H3.4z\"/><path d=\"M5.4 6h5.2M5.4 8.4h5.2M5.4 10.8h3.4\"/>";

pub const ICON_REFRESH: &'static str = "<path d=\"M12.16 5.8A4.8 4.8 0 1 1 8 3.4\"/><path d=\"M6.5 2.1L8 3.4l-1.5 1.3\"/>";

pub const ICON_PRINT: &'static str = "<path d=\"M4.8 6.2V2.8h6.4v3.4\"/>\
     <path d=\"M4.8 11.4H2.9V6.2h10.2v5.2h-1.9\"/><path d=\"M4.8 9.4h6.4v3.8H4.8z\"/>";

pub const ICON_MENU: &'static str = "<path d=\"M3.6 5h8.8M3.6 8h8.8M3.6 11h8.8\"/>";

pub const ICON_UP: &'static str = "<path d=\"M8 12.8V3.8\"/><path d=\"M4.3 7.5L8 3.8l3.7 3.7\"/>";

pub const ICON_BACK: &'static str = "<path d=\"M13 8H3\"/><path d=\"M7.2 3.8L3 8l4.2 4.2\"/>";

pub const ICON_SUN: &'static str = "<path d=\"M8 4.8a3.2 3.2 0 100 6.4 3.2 3.2 0 000-6.4z\"/>\
     <path d=\"M8 1.2v1.6M8 13.2v1.6M1.2 8h1.6M13.2 8h1.6M3.2 3.2l1.2 1.2\
     M11.6 11.6l1.2 1.2M12.8 3.2l-1.2 1.2M4.4 11.6l-1.2 1.2\"/>";

pub const ICON_MOON: &'static str = "<path d=\"M14 8.53A6 6 0 117.47 2 4.67 4.67 0 0014 8.53z\"/>";

pub const ICON_THEME_AUTO: &'static str = "<path d=\"M8 2a6 6 0 100 12A6 6 0 008 2z\"/>\
     <path fill=\"currentColor\" stroke=\"none\" d=\"M8 2a6 6 0 000 12z\"/>";

pub const ICON_PLUS: &'static str = "<path d=\"M8 3.6v8.8M3.6 8h8.8\"/>";

pub const ICON_CROSS: &'static str = "<path d=\"M4.5 4.5l7 7M11.5 4.5l-7 7\"/>";

pub const ICON_PIN: &'static str = "<path d=\"M4.2 2.6h7.6v10.8L8 10.6l-3.8 2.8z\"/>";

pub const ICON_PINNED: &'static str = "<path fill=\"currentColor\" d=\"M4.2 2.6h7.6v10.8L8 10.6l-3.8 2.8z\"/>";

pub const ICON_AS_ROOT: &'static str = "<path d=\"M9.8 3.4h2.8v9.2H9.8\"/><path d=\"M3.4 8h5.8\"/>\
     <path d=\"M6.8 5.6L9.2 8l-2.4 2.4\"/>";

/// An `<svg>` round icon paths, inheriting colour and text size.
pub open spec fn svg_spec(paths: Seq<char>) -> Seq<char> {
    "<svg viewBox=\"0 0 16 16\" width=\"14\" height=\"14\" fill=\"none\" stroke=\"currentColor\" stroke-width=\"1.2\" stroke-linecap=\"round\" stroke-linejoin=\"round\" aria-hidden=\"true\">"@
        + paths + "</svg>"@
}

pub fn svg_icon(paths: &str) -> (r: String)
    ensures
        r@ == svg_spec(paths@),
{
    let mut out = String::new();
    push_str(
        &mut out,
        "<svg viewBox=\"0 0 16 16\" width=\"14\" height=\"14\" fill=\"none\" stroke=\"currentColor\" stroke-width=\"1.2\" stroke-linecap=\"round\" stroke-linejoin=\"round\" aria-hidden=\"true\">",
    );
    push_str(&mut out, paths);
    push_str(&mut out, "</svg>");
    out
}

/// The theme flag's mark and the words under it: which setting is chosen,
/// and what clicking does next.
pub open spec fn theme_icon_spec(mode: ThemeMode) -> (Seq<char>, Seq<char>) {
    match mode {
        ThemeMode::Auto => (ICON_THEME_AUTO@, "Theme: following the system \u{2014} click for light"@),
        ThemeMode::Light => (ICON_SUN@, "Theme: light \u{2014} click for dark"@),
        ThemeMode::Dark => (ICON_MOON@, "Theme: dark \u{2014} click to follow the system"@),
    }
}

/// Public because the flag is not only in this header: a shell that serves
/// pages of its own beside the tree puts the same control on them.
pub fn theme_icon(mode: ThemeMode) -> (r: (&'static str, &'static str))
    ensures
        (r.0@, r.1@) == theme_icon_spec(mode),
{
    match mode {
        ThemeMode::Auto => (ICON_THEME_AUTO, "Theme: following the system \u{2014} click for light"),
        ThemeMode::Light => (ICON_SUN, "Theme: light \u{2014} click for dark"),
        ThemeMode::Dark => (ICON_MOON, "Theme: dark \u{2014} click to follow the system"),
    }
}

/// The pane flag: a pane down the left of the window, filled in when it is on.
pub open spec fn icon_pane_spec(on: bool) -> Seq<char> {
    "<path d=\"M2.2 3h11.6v10H2.2z\"/><path d=\"M6.4 3v10\"/>"@ + (if on {
        "<path fill=\"currentColor\" stroke=\"none\" d=\"M2.2 3h4.2v10H2.2z\"/>"@
    } else {
        "<path d=\"M3.6 5.8h1.4M3.6 8h1.4\"/>"@
    })
}

pub fn icon_pane(on: bool) -> (r: String)
    ensures
        r@ == icon_pane_spec(on),
{
    let mut out = String::new();
    push_str(&mut out, "<path d=\"M2.2 3h11.6v10H2.2z\"/><path d=\"M6.4 3v10\"/>");
    if on {
        push_str(&mut out, "<path fill=\"currentColor\" stroke=\"none\" d=\"M2.2 3h4.2v10H2.2z\"/>");
    } else {
        push_str(&mut out, "<path d=\"M3.6 5.8h1.4M3.6 8h1.4\"/>");
    }
    out
}

/// Line numbers: the lines they count, with the numbers beside them when
/// they are on.
pub open spec fn icon_lineno_spec(on: bool) -> Seq<char> {
    if on {
        "<path d=\"M2.6 4.2h.8M2.6 8h.8M2.6 11.8h.8\"/><path d=\"M6 4.2h7.4M6 8h7.4M6 11.8h7.4\"/>"@
    } else {
        "<path d=\"M2.6 4.2h10.8M2.6 8h10.8M2.6 11.8h10.8\"/>"@
    }
}

pub fn icon_lineno(on: bool) -> (r: &'static str)
    ensures
        r@ == icon_lineno_spec(on),
{
    if on {
        "<path d=\"M2.6 4.2h.8M2.6 8h.8M2.6 11.8h.8\"/><path d=\"M6 4.2h7.4M6 8h7.4M6 11.8h7.4\"/>"
    } else {
        "<path d=\"M2.6 4.2h10.8M2.6 8h10.8M2.6 11.8h10.8\"/>"
    }
}

/// A link to `/.ts/set` that stores one preference and comes back to `back`.
pub open spec fn set_href_spec(key: Seq<char>, val: Seq<char>, back: Seq<char>) -> Seq<char> {
    "/.ts/set?"@ + key + seq!['='] + val + "&back="@ + encoded(back)
}

pub fn set_href(key: &str, val: &str, back: &str) -> (r: String)
    ensures
        r@ == set_href_spec(key@, val@, back@),
{
    let mut out = String::new();
    push_str(&mut out, "/.ts/set?");
    push_str(&mut out, key);
    push_char(&mut out, '=');
    push_str(&mut out, val);
    push_str(&mut out, "&back=");
    push_str(&mut out, percent_encode(back).as_str());
    out
}

/// A control that spells itself out when there is room and shrinks to a
/// symbol when there is not. `icon` is raw markup, and always a drawn one.
pub open spec fn flag_spec(
    class: Seq<char>,
    href: Seq<char>,
    icon: Seq<char>,
    label: Seq<char>,
    title: Seq<char>,
) -> Seq<char> {
    "<a"@ + (if class.len() == 0 {
        Seq::empty()
    } else {
        " class=\""@ + class + seq!['"']
    }) + " href=\""@ + html_escaped(href) + "\" title=\""@ + html_escaped(title)
        + "\"><span class=\"ico\">"@ + icon + "</span><span class=\"lbl\">"@ + html_escaped(label)
        + "</span></a>"@
}

pub fn flag(class: &str, href: &str, icon: &str, label: &str, title: &str) -> (r: String)
    ensures
        r@ == flag_spec(class@, href@, icon@, label@, title@),
{
    let mut out = String::new();
    push_str(&mut out, "<a");
    if !class.is_empty() {
        push_str(&mut out, " class=\"");
        push_str(&mut out, class);
        push_char(&mut out, '"');
    }
    push_str(&mut out, " href=\"");
    push_str(&mut out, html_escape(href).as_str());
    push_str(&mut out, "\" title=\"");
    push_str(&mut out, html_escape(title).as_str());
    push_str(&mut out, "\"><span class=\"ico\">");
    push_str(&mut out, icon);
    push_str(&mut out, "</span><span class=\"lbl\">");
    push_str(&mut out, html_escape(label).as_str());
    push_str(&mut out, "</span></a>");
    out
}

/// Segments as a URL path: each percent-encoded, `/`-joined, after a `/`.
pub open spec fn href_spec(rel: Seq<Seq<char>>) -> Seq<char>
    decreases rel.len(),
{
    if rel.len() == 0 {
        seq!['/']
    } else if rel.len() == 1 {
        seq!['/'] + encoded(rel[0])
    } else {
        href_spec(rel.drop_last()) + seq!['/'] + encoded(rel.last())
    }
}

pub fn href_path(rel: &[String]) -> (r: String)
    ensures
        r@ == href_spec(rel@.map_values(|s: String| s@)),
{
    let ghost segs = rel@.map_values(|s: String| s@);
    let mut out = String::new();
    push_char(&mut out, '/');
    let mut i: usize = 0;
    while i < rel.len()
        invariant
            i <= rel@.len(),
            segs == rel@.map_values(|s: String| s@),
            i == 0 ==> out@ == seq!['/'],
            i > 0 ==> out@ == href_spec(segs.take(i as int)),
        decreases rel@.len() - i,
    {
        if i > 0 {
            push_char(&mut out, '/');
        }
        push_str(&mut out, percent_encode(rel[i].as_str()).as_str());
        proof {
            assert(segs.take(i + 1).drop_last() =~= segs.take(i as int));
            assert(segs.take(i + 1).last() == rel@[i as int]@);
            if i == 0 {
                assert(segs.take(1)[0] == rel@[0]@);
            }
        }
        i = i + 1;
    }
    assert(segs.take(rel@.len() as int) =~= segs);
    out
}


// ---------------------------------------------------------------------------
// Pieces of the pane

/// Where the last `/` or `\` in `s` is.
pub open spec fn last_sep(s: Seq<char>) -> Option<int>
    decreases s.len(),
{
    if s.len() == 0 {
        None
    } else if s.last() == '/' || s.last() == '\\' {
        Some(s.len() - 1)
    } else {
        last_sep(s.drop_last())
    }
}

fn find_last_sep(v: &[char]) -> (r: Option<usize>)
    ensures
        match r {
            Some(i) => last_sep(v@) == Some(i as int) && i < v@.len(),
            None => last_sep(v@) is None,
        },
{
    let mut i: usize = v.len();
    assert(v@.take(v@.len() as int) =~= v@);
    while i > 0
        invariant
            i <= v@.len(),
            last_sep(v@) == last_sep(v@.take(i as int)),
        decreases i,
    {
        if v[i - 1] == '/' || v[i - 1] == '\\' {
            return Some(i - 1);
        }
        assert(v@.take(i as int).drop_last() =~= v@.take(i - 1));
        i = i - 1;
    }
    None
}

/// A remembered root split into the path above it and the folder itself, so
/// the stylesheet can ellipsise the head and leave the leaf alone. The
/// separator goes with the leaf; a path of one component is all leaf.
pub open spec fn path_label_spec(full: Seq<char>) -> Seq<char> {
    match last_sep(full) {
        Some(i) => if i + 1 < full.len() {
            (if i == 0 {
                Seq::empty()
            } else {
                "<span class=\"head\">"@ + html_escaped(full.take(i)) + "</span>"@
            }) + "<span class=\"leaf\">"@ + html_escaped(full.skip(i)) + "</span>"@
        } else {
            "<span class=\"leaf\">"@ + html_escaped(full) + "</span>"@
        },
        None => "<span class=\"leaf\">"@ + html_escaped(full) + "</span>"@,
    }
}

pub fn path_label(full: &str) -> (r: String)
    ensures
        r@ == path_label_spec(full@),
{
    let v = chars_of(full);
    let mut out = String::new();
    match find_last_sep(v.as_slice()) {
        Some(i) => {
            if v.len() - i > 1 {
                if i > 0 {
                    push_str(&mut out, "<span class=\"head\">");
                    let head = string_of(slice_vec(v.as_slice(), 0, i).as_slice());
                    assert(v@.subrange(0, i as int) == v@.take(i as int));
                    push_str(&mut out, html_escape(head.as_str()).as_str());
                    push_str(&mut out, "</span>");
                }
                push_str(&mut out, "<span class=\"leaf\">");
                let leaf = string_of(slice_vec(v.as_slice(), i, v.len()).as_slice());
                assert(v@.subrange(i as int, v@.len() as int) == v@.skip(i as int));
                push_str(&mut out, html_escape(leaf.as_str()).as_str());
                push_str(&mut out, "</span>");
                return out;
            }
        },
        None => {},
    }
    push_str(&mut out, "<span class=\"leaf\">");
    push_str(&mut out, html_escape(full).as_str());
    push_str(&mut out, "</span>");
    out
}

/// The disclosure arrow: its own link to `/.ts/tree`, saying which way it
/// means to go, because a link that toggles is wrong when followed twice. A
/// directory on the way to the current one has no link: it is open because
/// you are standing in it.
pub open spec fn twisty_spec(open: bool, on_path: bool, key: Seq<char>, back: Seq<char>) -> Seq<char> {
    if on_path {
        "<span class=\"twisty\">&#x25BE;</span>"@
    } else {
        "<a class=\"twisty\" href=\"/.ts/tree?"@ + (if open {
            "shut"@
        } else {
            "open"@
        }) + seq!['='] + encoded(key) + "&amp;back="@ + encoded(back) + "\" title=\""@ + (if open {
            "Collapse"@
        } else {
            "Expand"@
        }) + seq![' '] + html_escaped(key) + "\">"@ + (if open {
            "&#x25BE;"@
        } else {
            "&#x25B8;"@
        }) + "</a>"@
    }
}

pub fn twisty(open: bool, on_path: bool, key: &str, back: &str) -> (r: String)
    ensures
        r@ == twisty_spec(open, on_path, key@, back@),
{
    let mut out = String::new();
    if on_path {
        push_str(&mut out, "<span class=\"twisty\">&#x25BE;</span>");
        return out;
    }
    push_str(&mut out, "<a class=\"twisty\" href=\"/.ts/tree?");
    push_str(&mut out, if open { "shut" } else { "open" });
    push_char(&mut out, '=');
    push_str(&mut out, percent_encode(key).as_str());
    push_str(&mut out, "&amp;back=");
    push_str(&mut out, percent_encode(back).as_str());
    push_str(&mut out, "\" title=\"");
    push_str(&mut out, if open { "Collapse" } else { "Expand" });
    push_char(&mut out, ' ');
    push_str(&mut out, html_escape(key).as_str());
    push_str(&mut out, "\">");
    push_str(&mut out, if open { "&#x25BE;" } else { "&#x25B8;" });
    push_str(&mut out, "</a>");
    out
}

/// A control as a link drawing an icon: (href, icon paths, title).
pub open spec fn act_link(class: Seq<char>, act: (Seq<char>, Seq<char>, Seq<char>)) -> Seq<char> {
    "<a class=\""@ + class + "\" href=\""@ + html_escaped(act.0) + "\" title=\""@ + html_escaped(act.2)
        + "\">"@ + svg_spec(act.1) + "</a>"@
}

/// Several such links, one after the other.
pub open spec fn act_links(class: Seq<char>, acts: Seq<(Seq<char>, Seq<char>, Seq<char>)>) -> Seq<char>
    decreases acts.len(),
{
    if acts.len() == 0 {
        Seq::empty()
    } else {
        act_links(class, acts.drop_last()) + act_link(class, acts.last())
    }
}

/// The triples as plain values.
pub open spec fn triples(v: Seq<(String, String, String)>) -> Seq<(Seq<char>, Seq<char>, Seq<char>)> {
    v.map_values(|t: (String, String, String)| (t.0@, t.1@, t.2@))
}

fn push_act_links(out: &mut String, class: &str, acts: &[(String, String, String)])
    ensures
        final(out)@ == old(out)@ + act_links(class@, triples(acts@)),
{
    let ghost start = out@;
    let ghost ts = triples(acts@);
    let mut i: usize = 0;
    assert(ts.take(0) =~= Seq::<(Seq<char>, Seq<char>, Seq<char>)>::empty());
    while i < acts.len()
        invariant
            i <= acts@.len(),
            ts == triples(acts@),
            out@ == start + act_links(class@, ts.take(i as int)),
        decreases acts@.len() - i,
    {
        let (href, icon, title) = &acts[i];
        push_str(out, "<a class=\"");
        push_str(out, class);
        push_str(out, "\" href=\"");
        push_str(out, html_escape(href.as_str()).as_str());
        push_str(out, "\" title=\"");
        push_str(out, html_escape(title.as_str()).as_str());
        push_str(out, "\">");
        push_str(out, svg_icon(icon.as_str()).as_str());
        push_str(out, "</a>");
        assert(ts.take(i + 1).drop_last() =~= ts.take(i as int));
        assert(ts.take(i + 1).last() == (href@, icon@, title@));
        i = i + 1;
    }
    assert(ts.take(acts@.len() as int) =~= ts);
}

/// The controls on a section heading, grouped at the far end of the bar;
/// nothing where there are none.
pub open spec fn heading_acts_spec(acts: Seq<(Seq<char>, Seq<char>, Seq<char>)>) -> Seq<char> {
    if acts.len() == 0 {
        Seq::empty()
    } else {
        "<span class=\"acts\">"@ + act_links("secact"@, acts) + "</span>"@
    }
}

pub fn heading_acts(acts: &[(String, String, String)]) -> (r: String)
    ensures
        r@ == heading_acts_spec(triples(acts@)),
{
    let mut out = String::new();
    if acts.len() == 0 {
        return out;
    }
    push_str(&mut out, "<span class=\"acts\">");
    push_act_links(&mut out, "secact", acts);
    push_str(&mut out, "</span>");
    out
}

/// One row of a pane list, as the renderer needs it: what to call it (its id,
/// drawn as a path, where there is no label), the id, where the row goes, and
/// the smaller links on it.
pub struct Row {
    pub label: Option<String>,
    pub id: String,
    pub action: String,
    pub aside: Vec<(String, String, String)>,
}

/// A row of a pane list: a link that serves the id, greyed with a word about
/// it where its check came back badly — still a link, because a drive that was
/// not ready can be ready now.
pub open spec fn row_spec(
    label: Option<Seq<char>>,
    id: Seq<char>,
    action: Seq<char>,
    aside: Seq<(Seq<char>, Seq<char>, Seq<char>)>,
    status: RootStatus,
) -> Seq<char> {
    let note = status_note(status);
    let link = row_link_spec(label, id, action);
    "<li"@ + (if note is Some {
        " class=\"gone\""@
    } else {
        Seq::empty()
    }) + seq!['>'] + (if aside.len() == 0 {
        link
    } else {
        "<span class=\"row\">"@ + link + act_links("aside"@, aside) + "</span>"@
    }) + match note {
        Some(n) => "<span class=\"why\">"@ + n + "</span>"@,
        None => Seq::empty(),
    } + "</li>"@
}

/// The link a row is: to `action?path=id`, titled with the id.
pub open spec fn row_link_spec(label: Option<Seq<char>>, id: Seq<char>, action: Seq<char>) -> Seq<char> {
    "<a href=\""@ + action + "?path="@ + encoded(id) + "\" title=\""@ + html_escaped(id) + "\">"@
        + match label {
        Some(l) => html_escaped(l),
        None => path_label_spec(id),
    } + "</a>"@
}

fn row_link(row: &Row) -> (r: String)
    ensures
        r@ == row_link_spec(
            match row.label {
                Some(l) => Some(l@),
                None => None,
            },
            row.id@,
            row.action@,
        ),
{
    let mut link = String::new();
    push_str(&mut link, "<a href=\"");
    push_str(&mut link, row.action.as_str());
    push_str(&mut link, "?path=");
    push_str(&mut link, percent_encode(row.id.as_str()).as_str());
    push_str(&mut link, "\" title=\"");
    push_str(&mut link, html_escape(row.id.as_str()).as_str());
    push_str(&mut link, "\">");
    match &row.label {
        Some(l) => push_str(&mut link, html_escape(l.as_str()).as_str()),
        None => push_str(&mut link, path_label(row.id.as_str()).as_str()),
    }
    push_str(&mut link, "</a>");
    link
}

#[verifier::spinoff_prover]
pub fn row_html(row: &Row, status: RootStatus) -> (r: String)
    ensures
        r@ == row_spec(
            match row.label {
                Some(l) => Some(l@),
                None => None,
            },
            row.id@,
            row.action@,
            triples(row.aside@),
            status,
        ),
{
    let note = status.note();
    let link = row_link(row);
    let mut out = String::new();
    push_str(&mut out, "<li");
    if note.is_some() {
        push_str(&mut out, " class=\"gone\"");
    }
    push_char(&mut out, '>');
    if row.aside.len() == 0 {
        push_str(&mut out, link.as_str());
    } else {
        push_str(&mut out, "<span class=\"row\">");
        push_str(&mut out, link.as_str());
        push_act_links(&mut out, "aside", row.aside.as_slice());
        push_str(&mut out, "</span>");
    }
    match note {
        Some(n) => {
            push_str(&mut out, "<span class=\"why\">");
            push_str(&mut out, n);
            push_str(&mut out, "</span>");
        },
        None => {},
    }
    push_str(&mut out, "</li>");
    out
}


/// What a status map says of an id: its status, or `Unknown`.
pub open spec fn status_of(m: Map<Seq<char>, RootStatus>, id: Seq<char>) -> RootStatus {
    if m.contains_key(id) {
        m[id]
    } else {
        RootStatus::Unknown
    }
}

/// A row as plain values: (label, id, action, aside).
pub open spec fn row_view(r: Row) -> (Option<Seq<char>>, Seq<char>, Seq<char>, Seq<(Seq<char>, Seq<char>, Seq<char>)>) {
    (
        match r.label {
            Some(l) => Some(l@),
            None => None,
        },
        r.id@,
        r.action@,
        triples(r.aside@),
    )
}

/// The rows of a list, drawn one after the other.
pub open spec fn rows_spec(
    rows: Seq<(Option<Seq<char>>, Seq<char>, Seq<char>, Seq<(Seq<char>, Seq<char>, Seq<char>)>)>,
    m: Map<Seq<char>, RootStatus>,
) -> Seq<char>
    decreases rows.len(),
{
    if rows.len() == 0 {
        Seq::empty()
    } else {
        let r = rows.last();
        rows_spec(rows.drop_last(), m) + row_spec(r.0, r.1, r.2, r.3, status_of(m, r.1))
    }
}

/// One pane section of "serve this root instead" links, under its heading;
/// nothing at all for a list with nothing in it.
pub open spec fn root_list_spec(
    class: Seq<char>,
    heading: Seq<char>,
    acts: Seq<(Seq<char>, Seq<char>, Seq<char>)>,
    rows: Seq<(Option<Seq<char>>, Seq<char>, Seq<char>, Seq<(Seq<char>, Seq<char>, Seq<char>)>)>,
    m: Map<Seq<char>, RootStatus>,
) -> Seq<char> {
    if rows.len() == 0 {
        Seq::empty()
    } else {
        "<section class=\""@ + html_escaped(class) + "\"><h2>"@ + html_escaped(heading)
            + heading_acts_spec(acts) + "</h2><ul>"@ + rows_spec(rows, m) + "</ul></section>"@
    }
}

#[verifier::spinoff_prover]
#[verifier::rlimit(30)]
pub fn root_list<V>(
    out: &mut String,
    cfg: &Config<V>,
    class: &str,
    heading: &str,
    acts: &[(String, String, String)],
    rows: &[Row],
)
    ensures
        final(out)@ == old(out)@ + root_list_spec(
            class@,
            heading@,
            triples(acts@),
            rows@.map_values(|r: Row| row_view(r)),
            cfg.status@,
        ),
{
    if rows.len() == 0 {
        return;
    }
    let ghost rv = rows@.map_values(|r: Row| row_view(r));
    let mut links = String::new();
    let mut i: usize = 0;
    assert(rv.take(0) =~= Seq::<(Option<Seq<char>>, Seq<char>, Seq<char>, Seq<(Seq<char>, Seq<char>, Seq<char>)>)>::empty());
    while i < rows.len()
        invariant
            i <= rows@.len(),
            rv == rows@.map_values(|r: Row| row_view(r)),
            links@ == rows_spec(rv.take(i as int), cfg.status@),
        decreases rows@.len() - i,
    {
        let status = cfg.root_status(rows[i].id.as_str());
        let row = row_html(&rows[i], status);
        push_str(&mut links, row.as_str());
        assert(rv.take(i + 1).drop_last() =~= rv.take(i as int));
        assert(rv.take(i + 1).last() == row_view(rows@[i as int]));
        i = i + 1;
    }
    assert(rv.take(rows@.len() as int) =~= rv);
    push_str(out, "<section class=\"");
    push_str(out, html_escape(class).as_str());
    push_str(out, "\"><h2>");
    push_str(out, html_escape(heading).as_str());
    push_str(out, heading_acts(acts).as_str());
    push_str(out, "</h2><ul>");
    push_str(out, links.as_str());
    push_str(out, "</ul></section>");
}

/// The fixed Places rows: labelled, served through `/.ts/place`.
pub open spec fn place_rows(places: Seq<(String, String)>) -> Seq<(Option<Seq<char>>, Seq<char>, Seq<char>, Seq<(Seq<char>, Seq<char>, Seq<char>)>)> {
    places.map_values(|p: (String, String)| (Some(p.0@), p.1@, "/.ts/place"@, Seq::<(Seq<char>, Seq<char>, Seq<char>)>::empty()))
}

/// The Pinned rows: under their label where they have one, each with its own
/// way out.
pub open spec fn pinned_rows(pins: Seq<Pin>) -> Seq<(Option<Seq<char>>, Seq<char>, Seq<char>, Seq<(Seq<char>, Seq<char>, Seq<char>)>)> {
    pins.map_values(|p: Pin| (
        match p.label {
            Some(l) => Some(l@),
            None => None,
        },
        p.id@,
        "/.ts/place"@,
        seq![("/.ts/unpin?path="@ + encoded(p.id@), ICON_CROSS@, "Unpin this folder"@)],
    ))
}

/// The Recent rows: drawn as their paths, each with its own way out.
pub open spec fn recent_rows(recent: Seq<String>) -> Seq<(Option<Seq<char>>, Seq<char>, Seq<char>, Seq<(Seq<char>, Seq<char>, Seq<char>)>)> {
    recent.map_values(|p: String| (
        None::<Seq<char>>,
        p@,
        "/.ts/root"@,
        seq![("/.ts/forget?path="@ + encoded(p@), ICON_CROSS@, "Forget this folder"@)],
    ))
}

/// An embedder's section's rows.
pub open spec fn entry_rows(entries: Seq<PaneEntry>) -> Seq<(Option<Seq<char>>, Seq<char>, Seq<char>, Seq<(Seq<char>, Seq<char>, Seq<char>)>)> {
    entries.map_values(|e: PaneEntry| (
        match e.label {
            Some(l) => Some(l@),
            None => None,
        },
        e.id@,
        e.action@,
        triples(e.aside@),
    ))
}

/// Every embedder section, in order.
pub open spec fn sections_spec(secs: Seq<PaneSection>, m: Map<Seq<char>, RootStatus>) -> Seq<char>
    decreases secs.len(),
{
    if secs.len() == 0 {
        Seq::empty()
    } else {
        let s = secs.last();
        sections_spec(secs.drop_last(), m) + root_list_spec(
            s.class@,
            s.heading@,
            triples(s.heading_acts@),
            entry_rows(s.entries@),
            m,
        )
    }
}

/// The lists a shell offers to open: Places, Pinned, the embedder's sections,
/// Recent — in that order, each drawn only where it has rows.
pub open spec fn chooser_spec<V>(cfg: Config<V>) -> Seq<char> {
    root_list_spec("places"@, "Places"@, Seq::empty(), place_rows(cfg.places@), cfg.status@)
        + root_list_spec("pinned"@, "Pinned"@, Seq::empty(), pinned_rows(cfg.pinned@), cfg.status@)
        + sections_spec(cfg.sections@, cfg.status@) + root_list_spec(
        "recent"@,
        "Recent"@,
        Seq::empty(),
        recent_rows(cfg.recent@),
        cfg.status@,
    )
}

fn clone_triples(v: &Vec<(String, String, String)>) -> (r: Vec<(String, String, String)>)
    ensures
        triples(r@) == triples(v@),
{
    let mut out: Vec<(String, String, String)> = Vec::new();
    let mut i: usize = 0;
    while i < v.len()
        invariant
            i <= v@.len(),
            triples(out@) == triples(v@).take(i as int),
        decreases v@.len() - i,
    {
        let (a, b, c) = &v[i];
        let ghost before = triples(out@);
        out.push((a.clone(), b.clone(), c.clone()));
        assert(triples(out@) =~= before.push((a@, b@, c@)));
        assert(triples(v@).take(i + 1) =~= triples(v@).take(i as int).push((a@, b@, c@)));
        i = i + 1;
    }
    assert(triples(v@).take(v@.len() as int) =~= triples(v@));
    out
}

fn clone_label(l: &Option<String>) -> (r: Option<String>)
    ensures
        match (r, *l) {
            (Some(a), Some(b)) => a@ == b@,
            (None, None) => true,
            _ => false,
        },
{
    match l {
        Some(x) => Some(x.clone()),
        None => None,
    }
}

fn place_row_vec(places: &Vec<(String, String)>) -> (r: Vec<Row>)
    ensures
        r@.map_values(|r: Row| row_view(r)) == place_rows(places@),
{
    let mut rows: Vec<Row> = Vec::new();
    let mut i: usize = 0;
    while i < places.len()
        invariant
            i <= places@.len(),
            rows@.map_values(|r: Row| row_view(r)) == place_rows(places@).take(i as int),
        decreases places@.len() - i,
    {
        let (l, p) = &places[i];
        let empty: Vec<(String, String, String)> = Vec::new();
        assert(triples(empty@) =~= Seq::<(Seq<char>, Seq<char>, Seq<char>)>::empty());
        let row = Row { label: Some(l.clone()), id: p.clone(), action: "/.ts/place".to_owned(), aside: empty };
        let ghost rv = row_view(row);
        assert(rv == place_rows(places@)[i as int]);
        let ghost before = rows@.map_values(|r: Row| row_view(r));
        rows.push(row);
        assert(rows@.map_values(|r: Row| row_view(r)) =~= before.push(rv));
        assert(place_rows(places@).take(i + 1) =~= place_rows(places@).take(i as int).push(rv));
        i = i + 1;
    }
    assert(place_rows(places@).take(places@.len() as int) =~= place_rows(places@));
    rows
}

fn pinned_row_vec(pins: &Vec<Pin>) -> (r: Vec<Row>)
    ensures
        r@.map_values(|r: Row| row_view(r)) == pinned_rows(pins@),
{
    let mut rows: Vec<Row> = Vec::new();
    let mut i: usize = 0;
    while i < pins.len()
        invariant
            i <= pins@.len(),
            rows@.map_values(|r: Row| row_view(r)) == pinned_rows(pins@).take(i as int),
        decreases pins@.len() - i,
    {
        let p = &pins[i];
        let mut href = String::new();
        push_str(&mut href, "/.ts/unpin?path=");
        push_str(&mut href, percent_encode(p.id.as_str()).as_str());
        let mut aside: Vec<(String, String, String)> = Vec::new();
        aside.push((href, ICON_CROSS.to_owned(), "Unpin this folder".to_owned()));
        assert(triples(aside@) =~= seq![("/.ts/unpin?path="@ + encoded(p.id@), ICON_CROSS@, "Unpin this folder"@)]);
        let row = Row { label: clone_label(&p.label), id: p.id.clone(), action: "/.ts/place".to_owned(), aside };
        let ghost rv = row_view(row);
        assert(rv == pinned_rows(pins@)[i as int]);
        let ghost before = rows@.map_values(|r: Row| row_view(r));
        rows.push(row);
        assert(rows@.map_values(|r: Row| row_view(r)) =~= before.push(rv));
        assert(pinned_rows(pins@).take(i + 1) =~= pinned_rows(pins@).take(i as int).push(rv));
        i = i + 1;
    }
    assert(pinned_rows(pins@).take(pins@.len() as int) =~= pinned_rows(pins@));
    rows
}

fn recent_row_vec(recent: &Vec<String>) -> (r: Vec<Row>)
    ensures
        r@.map_values(|r: Row| row_view(r)) == recent_rows(recent@),
{
    let mut rows: Vec<Row> = Vec::new();
    let mut i: usize = 0;
    while i < recent.len()
        invariant
            i <= recent@.len(),
            rows@.map_values(|r: Row| row_view(r)) == recent_rows(recent@).take(i as int),
        decreases recent@.len() - i,
    {
        let p = &recent[i];
        let mut href = String::new();
        push_str(&mut href, "/.ts/forget?path=");
        push_str(&mut href, percent_encode(p.as_str()).as_str());
        let mut aside: Vec<(String, String, String)> = Vec::new();
        aside.push((href, ICON_CROSS.to_owned(), "Forget this folder".to_owned()));
        assert(triples(aside@) =~= seq![("/.ts/forget?path="@ + encoded(p@), ICON_CROSS@, "Forget this folder"@)]);
        let row = Row { label: None, id: p.clone(), action: "/.ts/root".to_owned(), aside };
        let ghost rv = row_view(row);
        assert(rv == recent_rows(recent@)[i as int]);
        let ghost before = rows@.map_values(|r: Row| row_view(r));
        rows.push(row);
        assert(rows@.map_values(|r: Row| row_view(r)) =~= before.push(rv));
        assert(recent_rows(recent@).take(i + 1) =~= recent_rows(recent@).take(i as int).push(rv));
        i = i + 1;
    }
    assert(recent_rows(recent@).take(recent@.len() as int) =~= recent_rows(recent@));
    rows
}

fn entry_row_vec(entries: &Vec<PaneEntry>) -> (r: Vec<Row>)
    ensures
        r@.map_values(|r: Row| row_view(r)) == entry_rows(entries@),
{
    let mut rows: Vec<Row> = Vec::new();
    let mut i: usize = 0;
    while i < entries.len()
        invariant
            i <= entries@.len(),
            rows@.map_values(|r: Row| row_view(r)) == entry_rows(entries@).take(i as int),
        decreases entries@.len() - i,
    {
        let e = &entries[i];
        let row = Row {
            label: clone_label(&e.label),
            id: e.id.clone(),
            action: e.action.clone(),
            aside: clone_triples(&e.aside),
        };
        let ghost rv = row_view(row);
        assert(rv == entry_rows(entries@)[i as int]);
        let ghost before = rows@.map_values(|r: Row| row_view(r));
        rows.push(row);
        assert(rows@.map_values(|r: Row| row_view(r)) =~= before.push(rv));
        assert(entry_rows(entries@).take(i + 1) =~= entry_rows(entries@).take(i as int).push(rv));
        i = i + 1;
    }
    assert(entry_rows(entries@).take(entries@.len() as int) =~= entry_rows(entries@));
    rows
}

fn push_sections<V>(out: &mut String, cfg: &Config<V>)
    ensures
        final(out)@ == old(out)@ + sections_spec(cfg.sections@, cfg.status@),
{
    let ghost at = out@;
    let mut k: usize = 0;
    assert(cfg.sections@.take(0) =~= Seq::<PaneSection>::empty());
    while k < cfg.sections.len()
        invariant
            k <= cfg.sections@.len(),
            out@ == at + sections_spec(cfg.sections@.take(k as int), cfg.status@),
        decreases cfg.sections@.len() - k,
    {
        let sec = &cfg.sections[k];
        let rows = entry_row_vec(&sec.entries);
        root_list(out, cfg, sec.class.as_str(), sec.heading.as_str(), sec.heading_acts.as_slice(), rows.as_slice());
        assert(cfg.sections@.take(k + 1).drop_last() =~= cfg.sections@.take(k as int));
        assert(cfg.sections@.take(k + 1).last() == *sec);
        k = k + 1;
    }
    assert(cfg.sections@.take(cfg.sections@.len() as int) =~= cfg.sections@);
}

/// The lists a shell offers to open, drawn.
#[verifier::spinoff_prover]
#[verifier::rlimit(40)]
pub fn push_chooser<V>(out: &mut String, cfg: &Config<V>)
    ensures
        final(out)@ == old(out)@ + chooser_spec(*cfg),
{
    let none: Vec<(String, String, String)> = Vec::new();
    assert(triples(none@) =~= Seq::<(Seq<char>, Seq<char>, Seq<char>)>::empty());
    let places = place_row_vec(&cfg.places);
    root_list(out, cfg, "places", "Places", none.as_slice(), places.as_slice());
    let pinned = pinned_row_vec(&cfg.pinned);
    root_list(out, cfg, "pinned", "Pinned", none.as_slice(), pinned.as_slice());
    push_sections(out, cfg);
    let recent = recent_row_vec(&cfg.recent);
    root_list(out, cfg, "recent", "Recent", none.as_slice(), recent.as_slice());
}


// ---------------------------------------------------------------------------
// The head and the header

/// Segments `/`-joined.
pub open spec fn slash_joined(rel: Seq<Seq<char>>) -> Seq<char>
    decreases rel.len(),
{
    if rel.len() == 0 {
        Seq::empty()
    } else if rel.len() == 1 {
        rel[0]
    } else {
        slash_joined(rel.drop_last()) + seq!['/'] + rel.last()
    }
}

pub fn join_slash(rel: &[String]) -> (r: String)
    ensures
        r@ == slash_joined(rel@.map_values(|s: String| s@)),
{
    let ghost segs = rel@.map_values(|s: String| s@);
    let mut out = String::new();
    let mut i: usize = 0;
    assert(segs.take(0) =~= Seq::<Seq<char>>::empty());
    while i < rel.len()
        invariant
            i <= rel@.len(),
            segs == rel@.map_values(|s: String| s@),
            out@ == slash_joined(segs.take(i as int)),
        decreases rel@.len() - i,
    {
        if i > 0 {
            push_char(&mut out, '/');
        }
        push_str(&mut out, rel[i].as_str());
        proof {
            assert(segs.take(i + 1).drop_last() =~= segs.take(i as int));
            assert(segs.take(i + 1).last() == rel@[i as int]@);
            if i == 0 {
                assert(segs.take(1)[0] == rel@[0]@);
            }
        }
        i = i + 1;
    }
    assert(segs.take(rel@.len() as int) =~= segs);
    out
}

/// What the document is titled: by name where there is one — a bookmark's
/// label — and by the folder otherwise, after the path inside it.
pub open spec fn doc_title_spec(
    title: Option<String>,
    root_name: Option<String>,
    id: Seq<char>,
    rel: Seq<Seq<char>>,
    windows_like: bool,
) -> Seq<char> {
    let named = match root_name {
        Some(n) => n@,
        None => title_for_spec(title, id, windows_like),
    };
    if rel.len() == 0 {
        named
    } else {
        slash_joined(rel) + " \u{2014} "@ + named
    }
}

fn doc_title<V>(cfg: &Config<V>, root: &Root<V>, rel: &[String]) -> (r: String)
    ensures
        r@ == doc_title_spec(cfg.title, cfg.root_name, root.id@, rel@.map_values(|s: String| s@), cfg.windows_like),
{
    let named = match cfg.root_name() {
        Some(n) => n,
        None => cfg.title_for(root),
    };
    if rel.len() == 0 {
        return named;
    }
    let mut out = join_slash(rel);
    push_str(&mut out, " \u{2014} ");
    push_str(&mut out, named.as_str());
    out
}

/// The palette a page asks for, where it asks for one.
pub open spec fn data_theme_spec(t: ThemeMode) -> Seq<char> {
    match t {
        ThemeMode::Auto => Seq::empty(),
        _ => " data-theme=\""@ + theme_word(t) + seq!['"'],
    }
}

fn data_theme(t: ThemeMode) -> (r: String)
    ensures
        r@ == data_theme_spec(t),
{
    let mut out = String::new();
    match t {
        ThemeMode::Auto => {},
        _ => {
            push_str(&mut out, " data-theme=\"");
            push_str(&mut out, t.as_str());
            push_char(&mut out, '"');
        },
    }
    out
}

/// The syntax colours: paper is named in the light sheet's media and screens
/// in the dark one's, so a dark theme does not send pale code to paper.
pub open spec fn syntax_css_spec(t: ThemeMode) -> Seq<char> {
    match t {
        ThemeMode::Auto => "<link rel=\"stylesheet\" href=\"/.ts/syntax-light.css\" media=\"print, (prefers-color-scheme: light)\"><link rel=\"stylesheet\" href=\"/.ts/syntax-dark.css\" media=\"screen and (prefers-color-scheme: dark)\">"@,
        ThemeMode::Light => "<link rel=\"stylesheet\" href=\"/.ts/syntax-light.css\">"@,
        ThemeMode::Dark => "<link rel=\"stylesheet\" href=\"/.ts/syntax-dark.css\" media=\"screen\"><link rel=\"stylesheet\" href=\"/.ts/syntax-light.css\" media=\"print\">"@,
    }
}

fn syntax_css(t: ThemeMode) -> (r: &'static str)
    ensures
        r@ == syntax_css_spec(t),
{
    match t {
        ThemeMode::Auto => "<link rel=\"stylesheet\" href=\"/.ts/syntax-light.css\" media=\"print, (prefers-color-scheme: light)\"><link rel=\"stylesheet\" href=\"/.ts/syntax-dark.css\" media=\"screen and (prefers-color-scheme: dark)\">",
        ThemeMode::Light => "<link rel=\"stylesheet\" href=\"/.ts/syntax-light.css\">",
        ThemeMode::Dark => "<link rel=\"stylesheet\" href=\"/.ts/syntax-dark.css\" media=\"screen\"><link rel=\"stylesheet\" href=\"/.ts/syntax-light.css\" media=\"print\">",
    }
}

/// The machine a remote root is on, beside the path: `/home/x` looks the
/// same on every host in the world.
pub open spec fn tag_spec(id: Seq<char>) -> Seq<char> {
    match bookmark(id) {
        Some(b) => "<span class=\"tag\">"@ + html_escaped(b) + "</span>"@,
        None => Seq::empty(),
    }
}

fn tag(id: &str) -> (r: String)
    ensures
        r@ == tag_spec(id@),
{
    let mut out = String::new();
    match root_id_bookmark(id) {
        Some(b) => {
            push_str(&mut out, "<span class=\"tag\">");
            push_str(&mut out, html_escape(b).as_str());
            push_str(&mut out, "</span>");
        },
        None => {},
    }
    out
}

/// The crumbs after the root's own link, up to the `n`th segment: each a
/// link to its directory but the last, which is where you are.
pub open spec fn crumb_items(rel: Seq<Seq<char>>, n: int) -> Seq<char>
    decreases n,
{
    if n <= 0 || n > rel.len() {
        Seq::empty()
    } else {
        crumb_items(rel, n - 1) + "<span class=\"sep\">/</span>"@ + (if n == rel.len() {
            html_escaped(rel[n - 1])
        } else {
            "<a href=\""@ + html_escaped(href_spec(rel.take(n))) + "/\">"@ + html_escaped(rel[n - 1])
                + "</a>"@
        })
    }
}

pub open spec fn crumbs_spec(site: Seq<char>, rel: Seq<Seq<char>>) -> Seq<char> {
    "<a href=\"/\">"@ + html_escaped(site) + "</a>"@ + crumb_items(rel, rel.len() as int)
}

#[verifier::spinoff_prover]
fn crumbs(site: &str, rel: &[String]) -> (r: String)
    ensures
        r@ == crumbs_spec(site@, rel@.map_values(|s: String| s@)),
{
    let ghost segs = rel@.map_values(|s: String| s@);
    let mut out = String::new();
    push_str(&mut out, "<a href=\"/\">");
    push_str(&mut out, html_escape(site).as_str());
    push_str(&mut out, "</a>");
    let ghost head = out@;
    let mut i: usize = 0;
    while i < rel.len()
        invariant
            i <= rel@.len(),
            segs == rel@.map_values(|s: String| s@),
            out@ == head + crumb_items(segs, i as int),
        decreases rel@.len() - i,
    {
        push_str(&mut out, "<span class=\"sep\">/</span>");
        assert(segs[i as int] == rel@[i as int]@);
        if i + 1 == rel.len() {
            push_str(&mut out, html_escape(rel[i].as_str()).as_str());
        } else {
            let href = href_path(&rel[0..i + 1]);
            assert(rel@.subrange(0, i + 1).map_values(|s: String| s@) =~= segs.take(i + 1));
            push_str(&mut out, "<a href=\"");
            push_str(&mut out, html_escape(href.as_str()).as_str());
            push_str(&mut out, "/\">");
            push_str(&mut out, html_escape(rel[i].as_str()).as_str());
            push_str(&mut out, "</a>");
        }
        i = i + 1;
    }
    out
}

/// The page's controls, in order: Refresh in the shell, whatever the page
/// brings, the line-number switch where the page has lines, and the theme.
pub open spec fn controls_spec(
    app_ui: bool,
    extra: Seq<char>,
    show_ln: bool,
    ln: bool,
    theme: ThemeMode,
    url_now: Seq<char>,
) -> Seq<char> {
    (if app_ui {
        flag_spec(
            Seq::empty(),
            "/.ts/reload"@,
            svg_spec(ICON_REFRESH@),
            "Refresh"@,
            "Reload this page (F5)"@,
        )
    } else {
        Seq::empty()
    }) + extra + (if show_ln {
        flag_spec(
            Seq::empty(),
            set_href_spec("ln"@, if ln { "0"@ } else { "1"@ }, url_now),
            svg_spec(icon_lineno_spec(ln)),
            if ln { "Ln: on"@ } else { "Ln: off"@ },
            if ln {
                "Line numbers on \u{2014} click to hide"@
            } else {
                "Line numbers off \u{2014} click to show"@
            },
        )
    } else {
        Seq::empty()
    }) + theme_flag_spec(theme, url_now)
}

/// The theme flag: which setting is chosen, and a link to the next.
pub open spec fn theme_flag_spec(theme: ThemeMode, url_now: Seq<char>) -> Seq<char> {
    flag_spec(
        Seq::empty(),
        set_href_spec("theme"@, theme_word(theme_after(theme)), url_now),
        svg_spec(theme_icon_spec(theme).0),
        "Theme: "@ + theme_word(theme),
        theme_icon_spec(theme).1,
    )
}

fn theme_flag(theme: ThemeMode, url_now: &str) -> (r: String)
    ensures
        r@ == theme_flag_spec(theme, url_now@),
{
    proof {
        reveal_strlit("");
    }
    let (mark, why) = theme_icon(theme);
    let mut label = String::new();
    push_str(&mut label, "Theme: ");
    push_str(&mut label, theme.as_str());
    flag("", set_href("theme", theme.next().as_str(), url_now).as_str(), svg_icon(mark).as_str(), label.as_str(), why)
}

fn controls(app_ui: bool, extra: &str, show_ln: bool, ln: bool, theme: ThemeMode, url_now: &str) -> (r: String)
    ensures
        r@ == controls_spec(app_ui, extra@, show_ln, ln, theme, url_now@),
{
    proof {
        reveal_strlit("");
    }
    let mut out = String::new();
    if app_ui {
        push_str(&mut out, flag("", "/.ts/reload", svg_icon(ICON_REFRESH).as_str(), "Refresh", "Reload this page (F5)").as_str());
    }
    push_str(&mut out, extra);
    if show_ln {
        let href = set_href("ln", if ln { "0" } else { "1" }, url_now);
        let icon = svg_icon(icon_lineno(ln));
        let f = flag(
            "",
            href.as_str(),
            icon.as_str(),
            if ln { "Ln: on" } else { "Ln: off" },
            if ln {
                "Line numbers on \u{2014} click to hide"
            } else {
                "Line numbers off \u{2014} click to show"
            },
        );
        push_str(&mut out, f.as_str());
    }
    push_str(&mut out, theme_flag(theme, url_now).as_str());
    out
}

/// The pane switch, at the left end of the row; none on a page with no pane.
pub open spec fn pane_flag_spec(show: bool, sidebar: bool, url_now: Seq<char>) -> Seq<char> {
    if show {
        "\n  "@ + flag_spec(
            "paneflag"@,
            set_href_spec("sidebar"@, if sidebar { "0"@ } else { "1"@ }, url_now),
            svg_spec(icon_pane_spec(sidebar)),
            if sidebar { "Pane: on"@ } else { "Pane: off"@ },
            if sidebar {
                "Side pane shown \u{2014} click to hide"@
            } else {
                "Side pane hidden \u{2014} click to show"@
            },
        )
    } else {
        Seq::empty()
    }
}

fn pane_flag(show: bool, sidebar: bool, url_now: &str) -> (r: String)
    ensures
        r@ == pane_flag_spec(show, sidebar, url_now@),
{
    let mut out = String::new();
    if show {
        push_str(&mut out, "\n  ");
        let href = set_href("sidebar", if sidebar { "0" } else { "1" }, url_now);
        let icon = svg_icon(icon_pane(sidebar).as_str());
        let f = flag(
            "paneflag",
            href.as_str(),
            icon.as_str(),
            if sidebar { "Pane: on" } else { "Pane: off" },
            if sidebar {
                "Side pane shown \u{2014} click to hide"
            } else {
                "Side pane hidden \u{2014} click to show"
            },
        );
        push_str(&mut out, f.as_str());
    }
    out
}

/// The shell's Back button, on the line the path and the flags already have.
pub open spec fn back_flag_spec(app_ui: bool) -> Seq<char> {
    if app_ui {
        "\n  "@ + flag_spec("back"@, "/.ts/back"@, svg_spec(ICON_BACK@), "Back"@, "Back (Alt+Left)"@)
    } else {
        Seq::empty()
    }
}

fn back_flag(app_ui: bool) -> (r: String)
    ensures
        r@ == back_flag_spec(app_ui),
{
    let mut out = String::new();
    if app_ui {
        push_str(&mut out, "\n  ");
        push_str(&mut out, flag("back", "/.ts/back", svg_icon(ICON_BACK).as_str(), "Back", "Back (Alt+Left)").as_str());
    }
    out
}

/// The checkbox the drawer is, ahead of everything: how a page with no script
/// remembers that a button was pressed.
pub open spec fn drawer_toggle_spec(show: bool) -> Seq<char> {
    if show {
        "<input type=\"checkbox\" id=\"ts-drawer\" class=\"drawer-toggle\" aria-hidden=\"true\">\n"@
    } else {
        Seq::empty()
    }
}

fn drawer_toggle(show: bool) -> (r: &'static str)
    ensures
        r@ == drawer_toggle_spec(show),
{
    proof {
        reveal_strlit("");
    }
    if show {
        "<input type=\"checkbox\" id=\"ts-drawer\" class=\"drawer-toggle\" aria-hidden=\"true\">\n"
    } else {
        ""
    }
}

/// The drawer button, for a width where the pane can only slide over.
pub open spec fn drawer_btn_spec(show: bool) -> Seq<char> {
    if show {
        "\n  <label for=\"ts-drawer\" class=\"drawer-btn\" title=\"Tree and places\">"@ + svg_spec(
            ICON_MENU@,
        ) + "</label>"@
    } else {
        Seq::empty()
    }
}

fn drawer_btn(show: bool) -> (r: String)
    ensures
        r@ == drawer_btn_spec(show),
{
    let mut out = String::new();
    if show {
        push_str(&mut out, "\n  <label for=\"ts-drawer\" class=\"drawer-btn\" title=\"Tree and places\">");
        push_str(&mut out, svg_icon(ICON_MENU).as_str());
        push_str(&mut out, "</label>");
    }
    out
}

/// The body's classes: `app` in the shell, the page's own, and `nopane` when
/// the pane is switched off.
pub open spec fn classes_spec(app_ui: bool, extra: Seq<char>, sidebar: bool) -> Seq<char> {
    let off = if sidebar { Seq::empty() } else { " nopane"@ };
    if app_ui {
        if extra.len() == 0 {
            " class=\"app"@ + off + seq!['"']
        } else {
            " class=\"app "@ + extra + off + seq!['"']
        }
    } else if extra.len() == 0 {
        if sidebar {
            Seq::empty()
        } else {
            " class=\"nopane\""@
        }
    } else {
        " class=\""@ + extra + off + seq!['"']
    }
}

fn classes(app_ui: bool, extra: &str, sidebar: bool) -> (r: String)
    ensures
        r@ == classes_spec(app_ui, extra@, sidebar),
{
    proof {
        reveal_strlit("");
    }
    let off = if sidebar { "" } else { " nopane" };
    let mut out = String::new();
    if app_ui {
        if extra.is_empty() {
            push_str(&mut out, " class=\"app");
        } else {
            push_str(&mut out, " class=\"app ");
            push_str(&mut out, extra);
        }
        push_str(&mut out, off);
        push_char(&mut out, '"');
    } else if extra.is_empty() {
        if !sidebar {
            push_str(&mut out, " class=\"nopane\"");
        }
    } else {
        push_str(&mut out, " class=\"");
        push_str(&mut out, extra);
        push_str(&mut out, off);
        push_char(&mut out, '"');
    }
    out
}

/// Everything down to the end of the header: the head, and the one line that
/// says where you are and what can be done here.
pub open spec fn head_and_header_spec<V>(
    cfg: Config<V>,
    id: Seq<char>,
    prefs_theme: ThemeMode,
    ln: bool,
    sidebar: bool,
    rel: Seq<Seq<char>>,
    url_now: Seq<char>,
    extra_controls: Seq<char>,
    show_ln_toggle: bool,
    show_pane_flag: bool,
    extra_body_class: Seq<char>,
) -> Seq<char> {
    "<!DOCTYPE html>\n<html lang=\"en\""@ + data_theme_spec(prefs_theme) + ">\n<head>\n<meta charset=\"utf-8\">\n<meta name=\"viewport\" content=\"width=device-width, initial-scale=1, viewport-fit=cover, interactive-widget=resizes-content\">\n<title>"@ + html_escaped(doc_title_spec(cfg.title, cfg.root_name, id, rel, cfg.windows_like)) + "</title>\n<link rel=\"icon\" href=\"data:image/svg+xml,<svg xmlns='http://www.w3.org/2000/svg' viewBox='0 0 16 16' fill='none' stroke='%234c8dff' stroke-width='1.4' stroke-linejoin='round'><path d='M1.7 4.5c0-.5.4-.9.9-.9h2.9l1.3 1.7h7c.5 0 .9.4.9.9v6.4c0 .5-.4.9-.9.9H2.6a.9.9 0 01-.9-.9V4.5z'/></svg>\">\n<link rel=\"stylesheet\" href=\"/.ts/app.css\">\n<link rel=\"stylesheet\" href=\"/.ts/math.css\">\n"@ + syntax_css_spec(prefs_theme) + "\n</head>\n<body"@ + classes_spec(cfg.app_ui, extra_body_class, sidebar) + ">\n"@ + drawer_toggle_spec(show_pane_flag) + "<header>"@ + back_flag_spec(cfg.app_ui) + drawer_btn_spec(show_pane_flag) + pane_flag_spec(show_pane_flag, sidebar, url_now) + tag_spec(id) + "\n  <div class=\"crumbs\">"@ + crumbs_spec(title_for_spec(cfg.title, id, cfg.windows_like), rel) + "</div>\n  <div class=\"controls\">"@ + controls_spec(cfg.app_ui, extra_controls, show_ln_toggle, ln, prefs_theme, url_now) + "</div>\n</header>"@
}

#[verifier::spinoff_prover]
#[verifier::rlimit(60)]
pub fn head_and_header<V>(
    cfg: &Config<V>,
    root: &Root<V>,
    prefs: Prefs,
    rel: &[String],
    url_now: &str,
    extra_controls: &str,
    show_ln_toggle: bool,
    show_pane_flag: bool,
    extra_body_class: &str,
) -> (r: String)
    ensures
        r@ == head_and_header_spec(
            *cfg,
            root.id@,
            prefs.theme,
            prefs.ln,
            prefs.sidebar,
            rel@.map_values(|s: String| s@),
            url_now@,
            extra_controls@,
            show_ln_toggle,
            show_pane_flag,
            extra_body_class@,
        ),
{
    let mut out = String::new();
    push_str(&mut out, "<!DOCTYPE html>\n<html lang=\"en\"");
    push_str(&mut out, data_theme(prefs.theme).as_str());
    push_str(&mut out, ">\n<head>\n<meta charset=\"utf-8\">\n<meta name=\"viewport\" content=\"width=device-width, initial-scale=1, viewport-fit=cover, interactive-widget=resizes-content\">\n<title>");
    push_str(&mut out, html_escape(doc_title(cfg, root, rel).as_str()).as_str());
    push_str(&mut out, "</title>\n<link rel=\"icon\" href=\"data:image/svg+xml,<svg xmlns='http://www.w3.org/2000/svg' viewBox='0 0 16 16' fill='none' stroke='%234c8dff' stroke-width='1.4' stroke-linejoin='round'><path d='M1.7 4.5c0-.5.4-.9.9-.9h2.9l1.3 1.7h7c.5 0 .9.4.9.9v6.4c0 .5-.4.9-.9.9H2.6a.9.9 0 01-.9-.9V4.5z'/></svg>\">\n<link rel=\"stylesheet\" href=\"/.ts/app.css\">\n<link rel=\"stylesheet\" href=\"/.ts/math.css\">\n");
    push_str(&mut out, syntax_css(prefs.theme));
    push_str(&mut out, "\n</head>\n<body");
    push_str(&mut out, classes(cfg.app_ui, extra_body_class, prefs.sidebar).as_str());
    push_str(&mut out, ">\n");
    push_str(&mut out, drawer_toggle(show_pane_flag));
    push_str(&mut out, "<header>");
    push_str(&mut out, back_flag(cfg.app_ui).as_str());
    push_str(&mut out, drawer_btn(show_pane_flag).as_str());
    push_str(&mut out, pane_flag(show_pane_flag, prefs.sidebar, url_now).as_str());
    push_str(&mut out, tag(root.id.as_str()).as_str());
    push_str(&mut out, "\n  <div class=\"crumbs\">");
    push_str(&mut out, crumbs(cfg.title_for(root).as_str(), rel).as_str());
    push_str(&mut out, "</div>\n  <div class=\"controls\">");
    push_str(&mut out, controls(cfg.app_ui, extra_controls, show_ln_toggle, prefs.ln, prefs.theme, url_now).as_str());
    push_str(&mut out, "</div>\n</header>");
    out
}

// ---------------------------------------------------------------------------
// Listings

/// A name a listing hides unless asked: a dotfile.
pub open spec fn is_hidden(name: Seq<char>) -> bool {
    name.len() > 0 && name[0] == '.'
}

/// The entries a listing shows, in the order found: all of them, or the ones
/// that are not dotfiles.
pub open spec fn shown(s: Seq<Entry>, show_hidden: bool) -> Seq<Entry>
    decreases s.len(),
{
    if s.len() == 0 {
        Seq::empty()
    } else if !show_hidden && is_hidden(s[0].name@) {
        shown(s.drop_first(), show_hidden)
    } else {
        seq![s[0]] + shown(s.drop_first(), show_hidden)
    }
}

/// Whether `a` is listed before `b`: directories first, then by name with
/// case folded.
pub open spec fn listed_before(a: Entry, b: Entry) -> bool {
    (a.is_dir && !b.is_dir) || (a.is_dir == b.is_dir && lex_lt(lowercase(a.name@), lowercase(b.name@)))
}

/// `e` put into a listing just after everything that is listed before it.
pub open spec fn insert_listed(e: Entry, s: Seq<Entry>) -> Seq<Entry>
    decreases s.len(),
{
    if s.len() == 0 {
        seq![e]
    } else if listed_before(s[0], e) {
        seq![s[0]] + insert_listed(e, s.drop_first())
    } else {
        seq![e] + s
    }
}

/// Entries in listing order. Stable: two that tie keep the order they came in.
pub open spec fn listed(s: Seq<Entry>) -> Seq<Entry>
    decreases s.len(),
{
    if s.len() == 0 {
        Seq::empty()
    } else {
        insert_listed(s[0], listed(s.drop_first()))
    }
}

proof fn lemma_insert_at(e: Entry, s: Seq<Entry>, k: int)
    requires
        0 <= k <= s.len(),
        forall|i: int| 0 <= i < k ==> listed_before(#[trigger] s[i], e),
        k < s.len() ==> !listed_before(s[k], e),
    ensures
        insert_listed(e, s) == s.take(k) + seq![e] + s.skip(k),
    decreases k,
{
    if k == 0 {
        assert(s.skip(0) =~= s);
        assert(s.take(0) + seq![e] + s.skip(0) =~= seq![e] + s);
    } else {
        let t = s.drop_first();
        assert forall|i: int| 0 <= i < k - 1 implies listed_before(#[trigger] t[i], e) by {
            assert(t[i] == s[i + 1]);
        }
        if k - 1 < t.len() {
            assert(t[k - 1] == s[k]);
        }
        lemma_insert_at(e, t, k - 1);
        assert(listed_before(s[0], e));
        assert(seq![s[0]] + (t.take(k - 1) + seq![e] + t.skip(k - 1)) =~= s.take(k) + seq![e] + s.skip(k));
    }
}

/// Whether no entry of a listing comes after one it should precede.
pub open spec fn in_listing_order(t: Seq<Entry>) -> bool {
    forall|i: int, j: int| 0 <= i < j < t.len() ==> !listed_before(#[trigger] t[j], #[trigger] t[i])
}

proof fn lemma_before_asymmetric(a: Entry, b: Entry)
    ensures
        listed_before(a, b) ==> !listed_before(b, a),
{
    lemma_lex_trichotomy(lowercase(a.name@), lowercase(b.name@));
}

/// Coming after is transitive: what is not before `y`, and `y` not before
/// `z`, is not before `z`.
proof fn lemma_not_before_transitive(x: Entry, y: Entry, z: Entry)
    requires
        !listed_before(x, y),
        !listed_before(y, z),
    ensures
        !listed_before(x, z),
{
    let (lx, ly, lz) = (lowercase(x.name@), lowercase(y.name@), lowercase(z.name@));
    lemma_lex_trichotomy(lx, ly);
    lemma_lex_trichotomy(ly, lz);
    lemma_lex_trichotomy(lx, lz);
    if listed_before(x, z) && x.is_dir == y.is_dir && y.is_dir == z.is_dir {
        if lex_lt(ly, lx) && lex_lt(lz, ly) {
            lemma_lex_transitive(lz, ly, lx);
        } else if lex_lt(ly, lx) {
            assert(ly == lz || lex_lt(ly, lz));
            if lex_lt(ly, lz) {
                lemma_lex_transitive(lx, lz, ly);
            }
        } else if lex_lt(lz, ly) {
            assert(lx == ly);
        }
    }
}

proof fn lemma_insert_members(e: Entry, t: Seq<Entry>)
    ensures
        insert_listed(e, t).len() == t.len() + 1,
        forall|k: int| 0 <= k < insert_listed(e, t).len() ==> #[trigger] insert_listed(e, t)[k] == e
            || t.contains(insert_listed(e, t)[k]),
    decreases t.len(),
{
    if t.len() > 0 && listed_before(t[0], e) {
        let rest = t.drop_first();
        lemma_insert_members(e, rest);
        let r = insert_listed(e, t);
        assert forall|k: int| 0 <= k < r.len() implies #[trigger] r[k] == e || t.contains(r[k]) by {
            if k == 0 {
                assert(r[0] == t[0]);
            } else {
                assert(r[k] == insert_listed(e, rest)[k - 1]);
                if rest.contains(r[k]) {
                    let j = rest.index_of(r[k]);
                    assert(t[j + 1] == rest[j]);
                }
            }
        }
    } else if t.len() > 0 {
        let r = insert_listed(e, t);
        assert forall|k: int| 0 <= k < r.len() implies #[trigger] r[k] == e || t.contains(r[k]) by {
            if k > 0 {
                assert(r[k] == t[k - 1]);
            }
        }
    }
}

proof fn lemma_insert_ordered(e: Entry, t: Seq<Entry>)
    requires
        in_listing_order(t),
    ensures
        in_listing_order(insert_listed(e, t)),
    decreases t.len(),
{
    let r = insert_listed(e, t);
    if t.len() == 0 {
    } else if listed_before(t[0], e) {
        let rest = t.drop_first();
        assert forall|i: int, j: int| 0 <= i < j < rest.len() implies !listed_before(#[trigger] rest[j], #[trigger] rest[i]) by {
            assert(rest[j] == t[j + 1] && rest[i] == t[i + 1]);
        }
        lemma_insert_ordered(e, rest);
        lemma_insert_members(e, rest);
        let ir = insert_listed(e, rest);
        assert forall|i: int, j: int| 0 <= i < j < r.len() implies !listed_before(#[trigger] r[j], #[trigger] r[i]) by {
            if i == 0 {
                assert(r[0] == t[0]);
                assert(r[j] == ir[j - 1]);
                if ir[j - 1] == e {
                    lemma_before_asymmetric(t[0], e);
                } else {
                    assert(rest.contains(ir[j - 1]));
                    let m = rest.index_of(ir[j - 1]);
                    assert(t[m + 1] == rest[m]);
                }
            } else {
                assert(r[i] == ir[i - 1]);
                assert(r[j] == ir[j - 1]);
            }
        }
    } else {
        assert forall|i: int, j: int| 0 <= i < j < r.len() implies !listed_before(#[trigger] r[j], #[trigger] r[i]) by {
            if i == 0 {
                assert(r[0] == e);
                assert(r[j] == t[j - 1]);
                if j - 1 > 0 {
                    lemma_not_before_transitive(t[j - 1], t[0], e);
                }
            } else {
                assert(r[i] == t[i - 1]);
                assert(r[j] == t[j - 1]);
            }
        }
    }
}

proof fn lemma_insert_shape(e: Entry, t: Seq<Entry>) -> (k: int)
    ensures
        0 <= k <= t.len(),
        insert_listed(e, t) == t.insert(k, e),
    decreases t.len(),
{
    if t.len() == 0 {
        assert(insert_listed(e, t) =~= t.insert(0, e));
        0
    } else if listed_before(t[0], e) {
        let rest = t.drop_first();
        let k = lemma_insert_shape(e, rest);
        assert(insert_listed(e, t) =~= t.insert(k + 1, e));
        k + 1
    } else {
        assert(insert_listed(e, t) =~= t.insert(0, e));
        0
    }
}

/// A listing is in listing order — directories before files, and within
/// each by name with case folded, no entry after one it should precede —
/// and holds exactly the entries it was given.
pub proof fn law_listing_is_ordered(s: Seq<Entry>)
    ensures
        in_listing_order(listed(s)),
        listed(s).to_multiset() == s.to_multiset(),
    decreases s.len(),
{
    if s.len() > 0 {
        let rest = s.drop_first();
        law_listing_is_ordered(rest);
        lemma_insert_ordered(s[0], listed(rest));
        let k = lemma_insert_shape(s[0], listed(rest));
        vstd::seq_lib::to_multiset_insert(listed(rest), k, s[0]);
        assert(s =~= rest.insert(0, s[0]));
        vstd::seq_lib::to_multiset_insert(rest, 0, s[0]);
        assert(listed(s) == listed(rest).insert(k, s[0]));
        assert(listed(s).to_multiset() == listed(rest).to_multiset().insert(s[0]));
        assert(s.to_multiset() == rest.to_multiset().insert(s[0]));
    } else {
        assert(s =~= Seq::<Entry>::empty());
        assert(listed(s) =~= Seq::<Entry>::empty());
    }
}

/// What `shown` keeps of a run of entries, entry by entry.
proof fn lemma_shown_has(s: Seq<Entry>, show_hidden: bool, e: Entry)
    ensures
        shown(s, show_hidden).contains(e) <==> (s.contains(e) && (show_hidden || !is_hidden(e.name@))),
    decreases s.len(),
{
    if s.len() > 0 {
        let rest = s.drop_first();
        lemma_shown_has(rest, show_hidden, e);
        assert(s =~= seq![s[0]] + rest);
        if s.contains(e) && s[0] != e {
            let k = s.index_of(e);
            assert(rest[k - 1] == e);
        }
        if rest.contains(e) {
            let k = rest.index_of(e);
            assert(s[k + 1] == e);
        }
        if !(!show_hidden && is_hidden(s[0].name@)) {
            let t = seq![s[0]] + shown(rest, show_hidden);
            if shown(rest, show_hidden).contains(e) {
                let k = shown(rest, show_hidden).index_of(e);
                assert(t[k + 1] == e);
            }
            if t.contains(e) && t[0] != e {
                let k = t.index_of(e);
                assert(shown(rest, show_hidden)[k - 1] == e);
            }
        }
    }
}

/// With hidden files off, a listing leaves out exactly the entries whose
/// name starts with `.`: every other entry the backend reported is listed,
/// and nothing it did not report. With them on, every entry is listed, as
/// many times as it was reported.
pub proof fn law_only_dotfiles_are_hidden(s: Seq<Entry>, e: Entry)
    ensures
        listed(shown(s, false)).contains(e) <==> (s.contains(e) && !(e.name@.len() > 0 && e.name@[0] == '.')),
        listed(shown(s, true)).to_multiset() == s.to_multiset(),
{
    lemma_shown_has(s, false, e);
    law_listing_is_ordered(shown(s, false));
    vstd::seq_lib::to_multiset_contains(listed(shown(s, false)), e);
    vstd::seq_lib::to_multiset_contains(shown(s, false), e);
    law_listing_is_ordered(shown(s, true));
    lemma_shown_all(s);
}

/// With hidden files on, `shown` keeps every entry.
proof fn lemma_shown_all(s: Seq<Entry>)
    ensures
        shown(s, true) == s,
    decreases s.len(),
{
    if s.len() > 0 {
        lemma_shown_all(s.drop_first());
        assert(s =~= seq![s[0]] + s.drop_first());
    }
}

/// A directory's entries as a listing shows them: dotfiles left out unless
/// `show_hidden`, directories first, then by name with case folded.
pub fn sorted_entries(entries: Vec<Entry>, show_hidden: bool) -> (r: Vec<Entry>)
    ensures
        r@ == listed(shown(entries@, show_hidden)),
{
    let ghost all = entries@;
    let mut rest = entries;
    let mut out: Vec<Entry> = Vec::new();
    let mut keys: Vec<Vec<char>> = Vec::new();
    assert(all.skip(all.len() as int) =~= Seq::<Entry>::empty());
    while rest.len() > 0
        invariant
            rest@ == all.take(rest@.len() as int),
            rest@.len() <= all.len(),
            out@ == listed(shown(all.skip(rest@.len() as int), show_hidden)),
            keys@.len() == out@.len(),
            forall|j: int| 0 <= j < keys@.len() ==> #[trigger] keys@[j]@ == lowercase(out@[j].name@),
        decreases rest@.len(),
    {
        let ghost n = rest@.len() as int;
        let e = rest.pop().unwrap();
        proof {
            assert(all.take(n).take(n - 1) =~= all.take(n - 1));
            assert(e == all[n - 1]);
            assert(all.skip(n - 1).drop_first() =~= all.skip(n));
            assert(all.skip(n - 1)[0] == e);
        }
        let ec = chars_of(e.name.as_str());
        let hidden = ec.len() > 0 && ec[0] == '.';
        if !show_hidden && hidden {
            assert(out@ == listed(shown(all.skip(n - 1), show_hidden)));
        } else {
            let key = chars_of(to_lowercase(e.name.as_str()).as_str());
            let mut k: usize = 0;
            while k < out.len() && (
                (out[k].is_dir && !e.is_dir) || (out[k].is_dir == e.is_dir && lex_less(keys[k].as_slice(), key.as_slice()))
            )
                invariant
                    k <= out@.len(),
                    keys@.len() == out@.len(),
                    forall|j: int| 0 <= j < keys@.len() ==> #[trigger] keys@[j]@ == lowercase(out@[j].name@),
                    key@ == lowercase(e.name@),
                    forall|i: int| 0 <= i < k ==> listed_before(#[trigger] out@[i], e),
                decreases out@.len() - k,
            {
                assert(keys@[k as int]@ == lowercase(out@[k as int].name@));
                k = k + 1;
            }
            proof {
                if k < out@.len() {
                    assert(keys@[k as int]@ == lowercase(out@[k as int].name@));
                }
                lemma_insert_at(e, out@, k as int);
                assert(shown(all.skip(n - 1), show_hidden) =~= seq![e] + shown(all.skip(n), show_hidden));
            }
            let ghost old_out = out@;
            let ghost old_keys = keys@;
            out.insert(k, e);
            keys.insert(k, key);
            proof {
                assert(out@ =~= old_out.take(k as int) + seq![e] + old_out.skip(k as int));
                let t = shown(all.skip(n - 1), show_hidden);
                assert(t[0] == e);
                assert(t.drop_first() =~= shown(all.skip(n), show_hidden));
                assert(listed(t) == insert_listed(e, old_out));
                assert forall|j: int| 0 <= j < keys@.len() implies #[trigger] keys@[j]@ == lowercase(out@[j].name@) by {
                    if j < k {
                        assert(keys@[j] == old_keys[j]);
                        assert(out@[j] == old_out[j]);
                    } else if j > k {
                        assert(keys@[j] == old_keys[j - 1]);
                        assert(out@[j] == old_out[j - 1]);
                    }
                }
            }
        }
    }
    assert(all.skip(0) =~= all);
    out
}

/// A directory's entries as the page lists them, from whatever the backend
/// reported; where it would not list the directory, what its refusal comes
/// to. A refusal is not an empty directory, and is not passed off as one.
pub fn read_dir_sorted<V: Vfs>(state: &State<V>, vfs: &V, path: &VfsPath) -> (r: Result<Vec<Entry>, Refusal>)
    ensures
        r matches Ok(v) ==> exists|found: Seq<Entry>| v@ == listed(shown(found, state.cfg.show_hidden)),
{
    listing_of(vfs.read_dir(path), state.cfg.show_hidden)
}

/// What the backend answered to a listing, as the page lists it: its
/// entries filtered and ordered where it listed the directory, and its
/// refusal, as an error, exactly where it did not.
pub fn listing_of(answer: Result<Vec<Entry>, std::io::Error>, show_hidden: bool) -> (r: Result<Vec<Entry>, Refusal>)
    ensures
        answer is Err <==> r is Err,
        answer matches Ok(v) ==> r matches Ok(w) && w@ == listed(shown(v@, show_hidden)),
{
    match answer {
        Ok(found) => Ok(sorted_entries(found, show_hidden)),
        Err(e) => Err(refusal_of(&e)),
    }
}

/// Where the tree could not list a directory: one row saying why, in the
/// place the "more" row takes.
pub open spec fn unread_list_spec(k: Refusal) -> Seq<char> {
    "<ul><li class=\"more\">"@ + refusal_words(k) + "</li></ul>"@
}

fn unread_list(k: Refusal) -> (r: String)
    ensures
        r@ == unread_list_spec(k),
{
    let mut out = String::new();
    push_str(&mut out, "<ul><li class=\"more\">");
    push_str(&mut out, k.words());
    push_str(&mut out, "</li></ul>");
    out
}

/// The mark a listing row wears, by what the entry is.
#[verifier::opaque]
pub open spec fn icon_spec(name: Seq<char>, is_dir: bool) -> Seq<char> {
    if is_dir {
        ICON_FOLDER@
    } else {
        let e = ext_spec(name);
        if one_of(e, image_exts()) {
            ICON_IMAGE@
        } else if one_of(e, audio_exts()) {
            ICON_AUDIO@
        } else if one_of(e, video_exts()) {
            ICON_VIDEO@
        } else if one_of(e, markdown_exts()) || one_of(e, mermaid_exts()) {
            ICON_DOC@
        } else {
            ICON_FILE@
        }
    }
}

pub fn icon_for(name: &str, is_dir: bool) -> (r: &'static str)
    ensures
        r@ == icon_spec(name@, is_dir),
{
    reveal(icon_spec);
    if is_dir {
        return ICON_FOLDER;
    }
    let e = ext_of(name);
    if is_image_ext(e.as_str()) {
        ICON_IMAGE
    } else if is_audio_ext(e.as_str()) {
        ICON_AUDIO
    } else if is_video_ext(e.as_str()) {
        ICON_VIDEO
    } else if is_markdown_ext(e.as_str()) || is_mermaid_ext(e.as_str()) {
        ICON_DOC
    } else {
        ICON_FILE
    }
}

/// The icon cell of a listing row. A directory carries the class itself, so
/// its colour does not hang on what the engine knows of selectors.
pub open spec fn icon_cell_spec(is_dir: bool, paths: Seq<char>) -> Seq<char> {
    "<span class=\"icon"@ + (if is_dir {
        " dir"@
    } else {
        Seq::empty()
    }) + "\">"@ + svg_spec(paths) + "</span>"@
}

pub fn icon_cell(is_dir: bool, paths: &str) -> (r: String)
    ensures
        r@ == icon_cell_spec(is_dir, paths@),
{
    let mut out = String::new();
    push_str(&mut out, "<span class=\"icon");
    if is_dir {
        push_str(&mut out, " dir");
    }
    push_str(&mut out, "\">");
    push_str(&mut out, svg_icon(paths).as_str());
    push_str(&mut out, "</span>");
    out
}

pub fn entry_icon(name: &str, is_dir: bool) -> (r: String)
    ensures
        r@ == icon_cell_spec(is_dir, icon_spec(name@, is_dir)),
{
    icon_cell(is_dir, icon_for(name, is_dir))
}

/// The button on a directory row that serves it as a root of its own, by the
/// id the backend gives it. Only in the shell: nothing else can act on it.
pub open spec fn as_root_spec(app_ui: bool, full: Seq<char>) -> Seq<char> {
    if !app_ui {
        Seq::empty()
    } else {
        "<a class=\"asroot\" href=\"/.ts/root?path="@ + encoded(full) + "\" title=\"Serve "@
            + html_escaped(full) + " as the root\">"@ + svg_spec(ICON_AS_ROOT@) + "</a>"@
    }
}

pub fn as_root_html(app_ui: bool, full: &str) -> (r: String)
    ensures
        r@ == as_root_spec(app_ui, full@),
{
    let mut out = String::new();
    if !app_ui {
        return out;
    }
    push_str(&mut out, "<a class=\"asroot\" href=\"/.ts/root?path=");
    push_str(&mut out, percent_encode(full).as_str());
    push_str(&mut out, "\" title=\"Serve ");
    push_str(&mut out, html_escape(full).as_str());
    push_str(&mut out, " as the root\">");
    push_str(&mut out, svg_icon(ICON_AS_ROOT).as_str());
    push_str(&mut out, "</a>");
    out
}

/// The as-root button for `path`: nothing outside the shell, and in it the
/// button for whatever id the backend gives the path.
fn as_root_link<V: Vfs>(app_ui: bool, vfs: &V, path: &VfsPath) -> (r: String)
    ensures
        !app_ui ==> r@ == Seq::<char>::empty(),
        app_ui ==> exists|full: Seq<char>| r@ == as_root_spec(true, full),
{
    if !app_ui {
        return String::new();
    }
    let full = vfs.root_id_at(path);
    as_root_html(true, full.as_str())
}

/// The class a tree row wears when it is where you are.
pub open spec fn cur_class(is_cur: bool) -> Seq<char> {
    if is_cur {
        " class=\"cur\""@
    } else {
        Seq::empty()
    }
}

/// A file's row in the tree.
pub open spec fn file_row_spec(is_cur: bool, href: Seq<char>, name: Seq<char>) -> Seq<char> {
    "<li"@ + cur_class(is_cur) + "><a href=\""@ + html_escaped(href) + "\">"@ + html_escaped(name)
        + "</a></li>"@
}

/// The line of a directory's row: its arrow, its name as a link, and the
/// as-root button; its children, where it is open, hang below.
pub open spec fn dir_row_spec(
    is_cur: bool,
    open: bool,
    on_path: bool,
    key: Seq<char>,
    back: Seq<char>,
    href: Seq<char>,
    name: Seq<char>,
    as_root: Seq<char>,
) -> Seq<char> {
    "<li"@ + cur_class(is_cur) + "><span class=\"row\">"@ + twisty_spec(open, on_path, key, back)
        + "<a class=\"dir\" href=\""@ + html_escaped(href) + "/\">"@ + html_escaped(name) + "/</a>"@
        + as_root + "</span>"@
}

/// The most rows one directory shows in the tree.
pub const TREE_MAX_PER_DIR: usize = 150;

/// The row that says how many more a crowded directory holds.
pub open spec fn more_spec(total: nat) -> Seq<char> {
    if total > TREE_MAX_PER_DIR {
        "<li class=\"more\">&hellip; "@ + dec((total - TREE_MAX_PER_DIR) as nat) + " more</li>"@
    } else {
        Seq::empty()
    }
}

fn file_row(is_cur: bool, href: &str, name: &str) -> (r: String)
    ensures
        r@ == file_row_spec(is_cur, href@, name@),
{
    let mut out = String::new();
    push_str(&mut out, "<li");
    if is_cur {
        push_str(&mut out, " class=\"cur\"");
    }
    push_str(&mut out, "><a href=\"");
    push_str(&mut out, html_escape(href).as_str());
    push_str(&mut out, "\">");
    push_str(&mut out, html_escape(name).as_str());
    push_str(&mut out, "</a></li>");
    out
}

fn dir_row(
    is_cur: bool,
    open: bool,
    on_path: bool,
    key: &str,
    back: &str,
    href: &str,
    name: &str,
    as_root: &str,
) -> (r: String)
    ensures
        r@ == dir_row_spec(is_cur, open, on_path, key@, back@, href@, name@, as_root@),
{
    let mut out = String::new();
    push_str(&mut out, "<li");
    if is_cur {
        push_str(&mut out, " class=\"cur\"");
    }
    push_str(&mut out, "><span class=\"row\">");
    push_str(&mut out, twisty(open, on_path, key, back).as_str());
    push_str(&mut out, "<a class=\"dir\" href=\"");
    push_str(&mut out, html_escape(href).as_str());
    push_str(&mut out, "/\">");
    push_str(&mut out, html_escape(name).as_str());
    push_str(&mut out, "/</a>");
    push_str(&mut out, as_root);
    push_str(&mut out, "</span>");
    out
}

fn more_row(total: usize) -> (r: String)
    ensures
        r@ == more_spec(total as nat),
{
    let mut out = String::new();
    if total > TREE_MAX_PER_DIR {
        push_str(&mut out, "<li class=\"more\">&hellip; ");
        push_dec(&mut out, (total - TREE_MAX_PER_DIR) as u64);
        push_str(&mut out, " more</li>");
    }
    out
}

/// Whether `rel` is `cur` or a directory on the way down to it.
pub open spec fn on_the_way(rel: Seq<Seq<char>>, cur: Seq<Seq<char>>) -> bool {
    cur.len() >= rel.len() && cur.take(rel.len() as int) == rel
}

fn leads_to(rel: &[String], cur: &[String]) -> (r: bool)
    ensures
        r == on_the_way(rel@.map_values(|s: String| s@), cur@.map_values(|s: String| s@)),
{
    let ghost rv = rel@.map_values(|s: String| s@);
    let ghost cv = cur@.map_values(|s: String| s@);
    if cur.len() < rel.len() {
        return false;
    }
    let mut i: usize = 0;
    while i < rel.len()
        invariant
            i <= rel@.len(),
            rel@.len() <= cur@.len(),
            rv == rel@.map_values(|s: String| s@),
            cv == cur@.map_values(|s: String| s@),
            forall|j: int| 0 <= j < i ==> cv[j] == rv[j],
        decreases rel@.len() - i,
    {
        if !str_eq(rel[i].as_str(), cur[i].as_str()) {
            assert(cv.take(rv.len() as int)[i as int] != rv[i as int]);
            return false;
        }
        i = i + 1;
    }
    assert(cv.take(rv.len() as int) =~= rv);
    true
}

/// Whether the pane's open set holds `key`.
fn holds(open: &[String], key: &str) -> (r: bool)
    ensures
        r == open@.map_values(|s: String| s@).contains(key@),
{
    let ghost ov = open@.map_values(|s: String| s@);
    let mut i: usize = 0;
    while i < open.len()
        invariant
            i <= open@.len(),
            ov == open@.map_values(|s: String| s@),
            forall|j: int| 0 <= j < i ==> ov[j] != key@,
        decreases open@.len() - i,
    {
        if str_eq(open[i].as_str(), key) {
            assert(ov[i as int] == key@);
            return true;
        }
        i = i + 1;
    }
    false
}

/// The longest of a list of strings, in characters.
pub open spec fn longest(v: Seq<Seq<char>>) -> nat
    decreases v.len(),
{
    if v.len() == 0 {
        0
    } else {
        let rest = longest(v.drop_last());
        if v.last().len() > rest {
            v.last().len()
        } else {
            rest
        }
    }
}

proof fn lemma_longest(v: Seq<Seq<char>>, i: int)
    requires
        0 <= i < v.len(),
    ensures
        v[i].len() <= longest(v),
    decreases v.len(),
{
    if i < v.len() - 1 {
        lemma_longest(v.drop_last(), i);
        assert(v.drop_last()[i] == v[i]);
    }
}

fn longest_of(v: &[String]) -> (r: usize)
    ensures
        r == longest(v@.map_values(|s: String| s@)),
{
    let ghost vv = v@.map_values(|s: String| s@);
    let mut best: usize = 0;
    let mut i: usize = 0;
    assert(vv.take(0) =~= Seq::<Seq<char>>::empty());
    while i < v.len()
        invariant
            i <= v@.len(),
            vv == v@.map_values(|s: String| s@),
            best == longest(vv.take(i as int)),
        decreases v@.len() - i,
    {
        let n = chars_of(v[i].as_str()).len();
        assert(vv.take(i + 1).drop_last() =~= vv.take(i as int));
        assert(vv.take(i + 1).last() == v@[i as int]@);
        if n > best {
            best = n;
        }
        i = i + 1;
    }
    assert(vv.take(v@.len() as int) =~= vv);
    best
}

/// A `/`-joined path is at least as long as it has joins.
proof fn lemma_joined_len(rel: Seq<Seq<char>>)
    ensures
        slash_joined(rel).len() + 1 >= rel.len(),
    decreases rel.len(),
{
    if rel.len() > 1 {
        lemma_joined_len(rel.drop_last());
    }
}

/// What the backend answered while the tree was drawn, as a tree of its
/// own: for a directory, its refusal, or its entries as the page lists them
/// and for each row what the shell's as-root button was given and what was
/// answered under it.
pub enum TreeAnswers {
    Refused(Refusal),
    Listed(Seq<Entry>, Seq<(Seq<char>, TreeAnswers)>),
}

/// How many rows a directory of `total` entries shows.
pub open spec fn shown_rows(total: nat) -> nat {
    if total > TREE_MAX_PER_DIR {
        TREE_MAX_PER_DIR as nat
    } else {
        total
    }
}

/// How wide an answer is: one more than its entries.
pub open spec fn tree_width(a: TreeAnswers) -> nat {
    match a {
        TreeAnswers::Listed(es, _) => es.len() + 1,
        TreeAnswers::Refused(_) => 0,
    }
}

/// The tree below the directory at `rel`, drawn from the answers: nothing
/// for an empty directory, the refusal where it would not be listed, else
/// its first rows in a list and what it holds beyond them. A directory is
/// open below when it is on the way to `cur` or in `open`.
pub open spec fn tree_spec(
    a: TreeAnswers,
    rel: Seq<Seq<char>>,
    cur: Seq<Seq<char>>,
    open: Seq<Seq<char>>,
    back: Seq<char>,
) -> Seq<char>
    decreases a, tree_width(a),
{
    match a {
        TreeAnswers::Refused(k) => unread_list_spec(k),
        TreeAnswers::Listed(es, kids) => if es.len() == 0 {
            Seq::empty()
        } else {
            "<ul>"@ + tree_rows_spec(a, rel, cur, open, back, shown_rows(es.len())) + more_spec(es.len()) + "</ul>"@
        },
    }
}

/// The first `n` rows of a directory's list.
pub open spec fn tree_rows_spec(
    a: TreeAnswers,
    rel: Seq<Seq<char>>,
    cur: Seq<Seq<char>>,
    open: Seq<Seq<char>>,
    back: Seq<char>,
    n: nat,
) -> Seq<char>
    decreases a, n,
{
    match a {
        TreeAnswers::Listed(es, kids) => if n == 0 || n > es.len() || n > kids.len() {
            Seq::empty()
        } else {
            let e = es[n - 1];
            let (asroot, child) = kids[n - 1];
            let r2 = rel.push(e.name@);
            let on_path = on_the_way(r2, cur);
            let is_cur = r2.len() == cur.len() && on_path;
            let key = slash_joined(r2);
            let opened = on_path || open.contains(key);
            proof {
                assert(decreases_to!(a => kids));
                assert(decreases_to!(kids => kids[n - 1]));
                assert(decreases_to!(kids[n - 1] => child));
            }
            tree_rows_spec(a, rel, cur, open, back, (n - 1) as nat) + if e.is_dir {
                dir_row_spec(is_cur, opened, on_path, key, back, href_spec(r2), e.name@, asroot) + (if opened {
                    tree_spec(child, r2, cur, open, back)
                } else {
                    Seq::empty()
                }) + "</li>"@
            } else {
                file_row_spec(is_cur, href_spec(r2), e.name@)
            }
        },
        TreeAnswers::Refused(_) => Seq::empty(),
    }
}

/// The as-root button a directory row may carry: none outside the shell,
/// and in it the button for some id.
pub open spec fn as_root_fits(app_ui: bool, b: Seq<char>) -> bool {
    if app_ui {
        exists|full: Seq<char>| b == #[trigger] as_root_spec(true, full)
    } else {
        b.len() == 0
    }
}

/// How many answers hang below one: one more than its rows.
pub open spec fn kids_width(a: TreeAnswers) -> nat {
    match a {
        TreeAnswers::Listed(_, kids) => kids.len() + 1,
        TreeAnswers::Refused(_) => 0,
    }
}

/// Whether answers are ones the backend can have given: each directory's
/// entries some listing, filtered and ordered as the page lists them, and
/// each directory row's as-root button of the form the shell draws.
pub open spec fn answers_fit(a: TreeAnswers, show_hidden: bool, app_ui: bool) -> bool
    decreases a, kids_width(a),
{
    match a {
        TreeAnswers::Refused(_) => true,
        TreeAnswers::Listed(es, kids) => dir_answer(es, show_hidden) && kids_fit(a, show_hidden, app_ui, kids.len()),
    }
}

/// The first `n` of the answers below a directory fit.
pub open spec fn kids_fit(a: TreeAnswers, show_hidden: bool, app_ui: bool, n: nat) -> bool
    decreases a, n,
{
    match a {
        TreeAnswers::Listed(es, kids) => if n == 0 || n > kids.len() {
            true
        } else {
            proof {
                assert(decreases_to!(a => kids));
                assert(decreases_to!(kids => kids[n - 1]));
                assert(decreases_to!(kids[n - 1] => kids[n - 1].1));
            }
            &&& kids_fit(a, show_hidden, app_ui, (n - 1) as nat)
            &&& (n <= es.len() && es[n - 1].is_dir) ==> as_root_fits(app_ui, kids[n - 1].0)
            &&& answers_fit(kids[n - 1].1, show_hidden, app_ui)
        },
        TreeAnswers::Refused(_) => true,
    }
}

/// An empty listing with nothing below it fits.
proof fn lemma_empty_fits(show_hidden: bool, app_ui: bool)
    ensures
        answers_fit(TreeAnswers::Listed(Seq::empty(), Seq::empty()), show_hidden, app_ui),
{
}

/// Answers that fit stay fitting with one more row's answer that fits.
proof fn lemma_fit_step(
    es: Seq<Entry>,
    kids: Seq<(Seq<char>, TreeAnswers)>,
    item: (Seq<char>, TreeAnswers),
    show_hidden: bool,
    app_ui: bool,
)
    requires
        kids.len() < es.len(),
        kids_fit(TreeAnswers::Listed(es, kids), show_hidden, app_ui, kids.len() as nat),
        es[kids.len() as int].is_dir ==> as_root_fits(app_ui, item.0),
        answers_fit(item.1, show_hidden, app_ui),
    ensures
        kids_fit(TreeAnswers::Listed(es, kids.push(item)), show_hidden, app_ui, kids.len() + 1),
{
    let k2 = kids.push(item);
    assert(k2.take(kids.len() as int) =~= kids);
    lemma_kids_fit_prefix(es, kids, k2, show_hidden, app_ui, kids.len() as nat);
    assert(k2[kids.len() as int] == item);
}

/// Whether the first `n` answers fit does not depend on what follows them.
proof fn lemma_kids_fit_prefix(
    es: Seq<Entry>,
    kids: Seq<(Seq<char>, TreeAnswers)>,
    more: Seq<(Seq<char>, TreeAnswers)>,
    show_hidden: bool,
    app_ui: bool,
    n: nat,
)
    requires
        n <= kids.len(),
        kids.len() <= more.len(),
        more.take(kids.len() as int) == kids,
    ensures
        kids_fit(TreeAnswers::Listed(es, kids), show_hidden, app_ui, n) == kids_fit(
            TreeAnswers::Listed(es, more),
            show_hidden,
            app_ui,
            n,
        ),
    decreases n,
{
    if n > 0 {
        lemma_kids_fit_prefix(es, kids, more, show_hidden, app_ui, (n - 1) as nat);
        assert(more[n - 1] == more.take(kids.len() as int)[n - 1]);
    }
}

/// One row of the tree, drawn from an entry and what was answered for it.
pub open spec fn tree_row_spec(
    e: Entry,
    item: (Seq<char>, TreeAnswers),
    rel: Seq<Seq<char>>,
    cur: Seq<Seq<char>>,
    open: Seq<Seq<char>>,
    back: Seq<char>,
) -> Seq<char> {
    let r2 = rel.push(e.name@);
    let on_path = on_the_way(r2, cur);
    let is_cur = r2.len() == cur.len() && on_path;
    let key = slash_joined(r2);
    let opened = on_path || open.contains(key);
    if e.is_dir {
        dir_row_spec(is_cur, opened, on_path, key, back, href_spec(r2), e.name@, item.0) + (if opened {
            tree_spec(item.1, r2, cur, open, back)
        } else {
            Seq::empty()
        }) + "</li>"@
    } else {
        file_row_spec(is_cur, href_spec(r2), e.name@)
    }
}

/// A list of rows grows by the next entry's row.
proof fn lemma_row_step(
    es: Seq<Entry>,
    kids: Seq<(Seq<char>, TreeAnswers)>,
    item: (Seq<char>, TreeAnswers),
    rel: Seq<Seq<char>>,
    cur: Seq<Seq<char>>,
    open: Seq<Seq<char>>,
    back: Seq<char>,
)
    requires
        kids.len() < es.len(),
    ensures
        tree_rows_spec(TreeAnswers::Listed(es, kids.push(item)), rel, cur, open, back, kids.len() + 1)
            == tree_rows_spec(TreeAnswers::Listed(es, kids), rel, cur, open, back, kids.len() as nat) + tree_row_spec(
            es[kids.len() as int],
            item,
            rel,
            cur,
            open,
            back,
        ),
{
    let k2 = kids.push(item);
    assert(k2.take(kids.len() as int) =~= kids);
    lemma_rows_prefix(es, kids, k2, rel, cur, open, back, kids.len() as nat);
    assert(k2[kids.len() as int] == item);
}

/// Rows drawn from answers for their entries are the same whatever follows
/// those answers.
proof fn lemma_rows_prefix(
    es: Seq<Entry>,
    kids: Seq<(Seq<char>, TreeAnswers)>,
    more: Seq<(Seq<char>, TreeAnswers)>,
    rel: Seq<Seq<char>>,
    cur: Seq<Seq<char>>,
    open: Seq<Seq<char>>,
    back: Seq<char>,
    n: nat,
)
    requires
        n <= kids.len(),
        kids.len() <= more.len(),
        more.take(kids.len() as int) == kids,
    ensures
        tree_rows_spec(TreeAnswers::Listed(es, kids), rel, cur, open, back, n) == tree_rows_spec(
            TreeAnswers::Listed(es, more),
            rel,
            cur,
            open,
            back,
            n,
        ),
    decreases n,
{
    if n > 0 {
        lemma_rows_prefix(es, kids, more, rel, cur, open, back, (n - 1) as nat);
        assert(more[n - 1] == more.take(kids.len() as int)[n - 1]);
    }
}

/// One directory of the tree and, under every directory that is open, its
/// own. A directory is open when it is on the way to where you are or the
/// reader opened it; `room` is how much deeper either can reach.
#[verifier::spinoff_prover]
#[verifier::rlimit(40)]
fn tree_dir<V: Vfs>(
    state: &State<V>,
    vfs: &V,
    rel: &mut Vec<String>,
    cur: &[String],
    prefs: Prefs,
    url_now: &str,
    out: &mut String,
    room: u128,
) -> (a: Ghost<TreeAnswers>)
    requires
        old(rel)@.len() + room > cur@.len(),
        old(rel)@.len() + room > longest(prefs.open@.map_values(|s: String| s@)) + 1,
    ensures
        final(rel)@ == old(rel)@,
        final(out)@ == old(out)@ + tree_spec(
            a@,
            string_views(old(rel)@),
            string_views(cur@),
            string_views(prefs.open@),
            url_now@,
        ),
        answers_fit(a@, state.cfg.show_hidden, state.cfg.app_ui),
    decreases room,
{
    let ghost start = out@;
    let ghost rv = string_views(rel@);
    let ghost cv = string_views(cur@);
    let ghost ov = string_views(prefs.open@);
    let dir = VfsPath::new(crate::vfs::clone_strings(rel));
    let entries = match read_dir_sorted(state, vfs, &dir) {
        Ok(v) => v,
        Err(k) => {
            let piece = unread_list(k);
            push_str(out, piece.as_str());
            return Ghost(TreeAnswers::Refused(k));
        },
    };
    let ghost es = entries@;
    assert(dir_answer(es, state.cfg.show_hidden));
    let total = entries.len();
    if total == 0 {
        assert(out@ =~= start + Seq::<char>::empty());
        return Ghost(TreeAnswers::Listed(es, Seq::empty()));
    }
    push_str(out, "<ul>");
    let ghost pre = out@;
    let ghost rel0 = rel@;
    let ghost mut kids: Seq<(Seq<char>, TreeAnswers)> = Seq::empty();
    let mut i: usize = 0;
    while i < total && i < TREE_MAX_PER_DIR
        invariant
            i <= total,
            i <= TREE_MAX_PER_DIR,
            total == entries@.len(),
            es == entries@,
            rel@ == rel0,
            rv == string_views(rel0),
            cv == string_views(cur@),
            ov == string_views(prefs.open@),
            rel0.len() + room > cur@.len(),
            rel0.len() + room > longest(prefs.open@.map_values(|s: String| s@)) + 1,
            kids.len() == i,
            out@ == pre + tree_rows_spec(TreeAnswers::Listed(es, kids), rv, cv, ov, url_now@, i as nat),
            dir_answer(es, state.cfg.show_hidden),
            kids_fit(TreeAnswers::Listed(es, kids), state.cfg.show_hidden, state.cfg.app_ui, i as nat),
        decreases total - i,
    {
        let e = &entries[i];
        let ghost before = out@;
        rel.push(e.name.clone());
        let ghost r2 = string_views(rel@);
        assert(r2 =~= rv.push(e.name@));
        let is_cur = rel.len() == cur.len() && leads_to(rel.as_slice(), cur);
        let on_path = leads_to(rel.as_slice(), cur);
        let href = href_path(rel.as_slice());
        let ghost mut item: (Seq<char>, TreeAnswers) = (Seq::empty(), TreeAnswers::Listed(Seq::empty(), Seq::empty()));
        proof {
            lemma_empty_fits(state.cfg.show_hidden, state.cfg.app_ui);
        }
        if e.is_dir {
            let key = join_slash(rel.as_slice());
            let open = on_path || holds(prefs.open, key.as_str());
            let child = VfsPath::new(crate::vfs::clone_strings(rel));
            let asroot = as_root_link(state.cfg.app_ui, vfs, &child);
            let row = dir_row(is_cur, open, on_path, key.as_str(), url_now, href.as_str(), e.name.as_str(), asroot.as_str());
            push_str(out, row.as_str());
            let ghost mut sub = TreeAnswers::Listed(Seq::empty(), Seq::empty());
            if open {
                proof {
                    let rvv = rel@.map_values(|s: String| s@);
                    let ovv = prefs.open@.map_values(|s: String| s@);
                    if !on_path {
                        let j = ovv.index_of(key@);
                        lemma_longest(ovv, j);
                        lemma_joined_len(rvv);
                    }
                }
                let g = tree_dir(state, vfs, rel, cur, prefs, url_now, out, room - 1);
                proof {
                    sub = g@;
                }
            }
            push_str(out, "</li>");
            proof {
                item = (asroot@, sub);
                assert(as_root_fits(state.cfg.app_ui, asroot@));
                assert(answers_fit(sub, state.cfg.show_hidden, state.cfg.app_ui));
            }
        } else {
            let row = file_row(is_cur, href.as_str(), e.name.as_str());
            push_str(out, row.as_str());
        }
        rel.pop();
        proof {
            assert(rel@ =~= rel0);
            assert(es[i as int] == *e);
            assert(out@ == before + tree_row_spec(*e, item, rv, cv, ov, url_now@));
            lemma_row_step(es, kids, item, rv, cv, ov, url_now@);
            lemma_fit_step(es, kids, item, state.cfg.show_hidden, state.cfg.app_ui);
            kids = kids.push(item);
        }
        i = i + 1;
    }
    push_str(out, more_row(total).as_str());
    push_str(out, "</ul>");
    proof {
        reveal_strlit("<ul>");
        reveal_strlit("</ul>");
        assert(i as nat == shown_rows(total as nat));
        let a = TreeAnswers::Listed(es, kids);
        assert(out@ =~= start + ("<ul>"@ + tree_rows_spec(a, rv, cv, ov, url_now@, shown_rows(es.len())) + more_spec(es.len()) + "</ul>"@));
    }
    Ghost(TreeAnswers::Listed(es, kids))
}

/// The Files heading's controls, in the shell: pin or unpin the folder that
/// is open, and close it.
pub open spec fn files_acts<V>(cfg: Config<V>, id: Seq<char>) -> Seq<(Seq<char>, Seq<char>, Seq<char>)> {
    if cfg.app_ui {
        seq![
            if exists|i: int| 0 <= i < cfg.pinned@.len() && #[trigger] cfg.pinned@[i].id@ == id {
                ("/.ts/unpin"@, ICON_PINNED@, "Pinned \u{2014} click to remove"@)
            } else {
                ("/.ts/pin"@, ICON_PIN@, "Pin this folder"@)
            },
            ("/.ts/close"@, ICON_CROSS@, "Close this folder"@),
        ]
    } else {
        Seq::empty()
    }
}

/// The left pane round a tree: the Files heading with its controls, the tree,
/// and in the shell the lists of what else there is to open.
pub open spec fn pane_spec<V>(cfg: Config<V>, id: Seq<char>, tree: Seq<char>) -> Seq<char> {
    "<nav class=\"tree\"><section class=\"files\"><h2>Files"@ + heading_acts_spec(files_acts(cfg, id))
        + "</h2>"@ + tree + "</section>"@ + chooser_div_spec(cfg) + "</nav>"@
}

fn files_acts_vec<V>(cfg: &Config<V>, id: &str) -> (r: Vec<(String, String, String)>)
    ensures
        triples(r@) == files_acts(*cfg, id@),
{
    let mut acts: Vec<(String, String, String)> = Vec::new();
    if cfg.app_ui {
        if cfg.is_pinned(id) {
            acts.push(("/.ts/unpin".to_owned(), ICON_PINNED.to_owned(), "Pinned \u{2014} click to remove".to_owned()));
        } else {
            acts.push(("/.ts/pin".to_owned(), ICON_PIN.to_owned(), "Pin this folder".to_owned()));
        }
        acts.push(("/.ts/close".to_owned(), ICON_CROSS.to_owned(), "Close this folder".to_owned()));
    }
    assert(triples(acts@) =~= files_acts(*cfg, id@));
    acts
}

/// The left pane: the directory tree under its heading, and in the shell the
/// Places, Pinned, embedder and Recent lists below it.
#[verifier::spinoff_prover]
fn pane_html<V: Vfs>(state: &State<V>, root: &Root<V>, cur: &[String], prefs: Prefs, url_now: &str) -> (r: String)
    ensures
        exists|a: TreeAnswers|
            answers_fit(a, state.cfg.show_hidden, state.cfg.app_ui) && r@ == #[trigger] pane_spec(
                state.cfg,
                root.id@,
                tree_spec(a, Seq::empty(), string_views(cur@), string_views(prefs.open@), url_now@),
            ),
{
    let mut out = String::new();
    push_str(&mut out, "<nav class=\"tree\"><section class=\"files\"><h2>Files");
    let acts = files_acts_vec(&state.cfg, root.id.as_str());
    push_str(&mut out, heading_acts(acts.as_slice()).as_str());
    push_str(&mut out, "</h2>");
    let mut tree = String::new();
    let mut rel: Vec<String> = Vec::new();
    let deepest = longest_of(prefs.open);
    let room: u128 = if cur.len() > deepest { cur.len() as u128 + 2 } else { deepest as u128 + 2 };
    let a = tree_dir(state, vfs_of(root), &mut rel, cur, prefs, url_now, &mut tree, room);
    assert(string_views(Seq::<String>::empty()) =~= Seq::<Seq<char>>::empty());
    assert(tree@ =~= tree_spec(a@, Seq::empty(), string_views(cur@), string_views(prefs.open@), url_now@));
    push_str(&mut out, tree.as_str());
    push_str(&mut out, "</section>");
    push_str(&mut out, chooser_div(&state.cfg).as_str());
    push_str(&mut out, "</nav>");
    assert(out@ == pane_spec(state.cfg, root.id@, tree@));
    assert(out@ == pane_spec(
        state.cfg,
        root.id@,
        tree_spec(a@, Seq::empty(), string_views(cur@), string_views(prefs.open@), url_now@),
    ));
    out
}

/// The shell's lists of what else there is to open, in their own box.
pub open spec fn chooser_div_spec<V>(cfg: Config<V>) -> Seq<char> {
    if cfg.app_ui {
        "<div class=\"chooser\">"@ + chooser_spec(cfg) + "</div>"@
    } else {
        Seq::empty()
    }
}

fn chooser_div<V>(cfg: &Config<V>) -> (r: String)
    ensures
        r@ == chooser_div_spec(*cfg),
{
    let mut out = String::new();
    if cfg.app_ui {
        push_str(&mut out, "<div class=\"chooser\">");
        push_chooser(&mut out, cfg);
        push_str(&mut out, "</div>");
    }
    out
}

pub(crate) fn vfs_of<V>(root: &Root<V>) -> (r: &V)
    ensures
        *r == root.vfs,
{
    &root.vfs
}

// ---------------------------------------------------------------------------
// Whole pages

/// `name vX.Y.Z` for the status line.
pub open spec fn app_label_spec<V>(cfg: Config<V>) -> Seq<char> {
    or_default(cfg.app_name, pkg_name()) + seq![' ', 'v'] + or_default(cfg.app_version, pkg_version())
}

/// The site title as of now: the root's, or rootless the configured title or
/// the product's name.
pub open spec fn site_title_spec<V>(cfg: Config<V>) -> Seq<char> {
    match cfg.root {
        Some(root) => title_for_spec(cfg.title, root.id@, cfg.windows_like),
        None => match cfg.title {
            Some(t) => t@,
            None => or_default(cfg.app_name, pkg_name()),
        },
    }
}

/// The Open Folder flag in the status line, where this platform can be asked
/// for a folder.
pub open spec fn pick_spec<V>(cfg: Config<V>) -> Seq<char> {
    if cfg.app_ui && cfg.picker {
        flag_spec(
            "pick"@,
            "/.ts/open"@,
            svg_spec(ICON_FOLDER@),
            "Open Folder\u{2026}"@,
            "Open Folder\u{2026} (Ctrl+O)"@,
        )
    } else {
        Seq::empty()
    }
}

/// The status line: the served root, the product, and the picker.
pub open spec fn footer_spec<V>(cfg: Config<V>, id: Seq<char>) -> Seq<char> {
    "<span class=\"where\" title=\""@ + html_escaped(id) + "\"><span class=\"app\">"@
        + html_escaped(app_label_spec(cfg)) + " &middot;</span>"@ + path_label_spec(id) + "</span>"@
        + pick_spec(cfg)
}

/// A full page round `content`, given the pane drawn beside it.
pub open spec fn layout_with_spec<V>(
    cfg: Config<V>,
    id: Seq<char>,
    theme: ThemeMode,
    ln: bool,
    sidebar: bool,
    rel: Seq<Seq<char>>,
    url_now: Seq<char>,
    extra_controls: Seq<char>,
    show_ln_toggle: bool,
    content: Seq<char>,
    pane: Seq<char>,
) -> Seq<char> {
    head_and_header_spec(
        cfg,
        id,
        theme,
        ln,
        sidebar,
        rel,
        url_now,
        extra_controls,
        show_ln_toggle,
        true,
        Seq::empty(),
    ) + "\n<div class=\"shell\">\n<label for=\"ts-drawer\" class=\"drawer-scrim\" aria-hidden=\"true\"></label>\n"@
        + pane + "\n<main>\n"@ + content + "\n</main>\n</div>\n<footer>"@ + footer_spec(cfg, id)
        + "</footer>\n</body>\n</html>\n"@
}

/// Whether `r` is a full page round `content`, with in its pane the tree
/// drawn from some run of the backend's answers.
#[verifier::opaque]
pub open spec fn is_layout<V>(
    r: Seq<char>,
    cfg: Config<V>,
    id: Seq<char>,
    theme: ThemeMode,
    ln: bool,
    sidebar: bool,
    open: Seq<Seq<char>>,
    rel: Seq<Seq<char>>,
    url_now: Seq<char>,
    extra_controls: Seq<char>,
    show_ln_toggle: bool,
    content: Seq<char>,
) -> bool {
    exists|a: TreeAnswers|
        answers_fit(a, cfg.show_hidden, cfg.app_ui) && r == #[trigger] layout_with_spec(
            cfg,
            id,
            theme,
            ln,
            sidebar,
            rel,
            url_now,
            extra_controls,
            show_ln_toggle,
            content,
            pane_spec(cfg, id, tree_spec(a, Seq::empty(), rel, open, url_now)),
        )
}

/// A page served to anything but the shell's own window carries none of the
/// shell's furniture: with the shell's controls off, what the lists hold —
/// Places, Recent, the pinned list, an embedder's sections, what is known of
/// each shortcut — and whether there is a folder picker change nothing in
/// the page, header, pane or footer.
pub proof fn law_the_web_gets_no_shell_furniture<V>(
    cfg: Config<V>,
    places: Vec<(String, String)>,
    recent: Vec<String>,
    pinned: Vec<Pin>,
    sections: Vec<PaneSection>,
    picker: bool,
    status: StatusBook,
    id: Seq<char>,
    theme: ThemeMode,
    ln: bool,
    sidebar: bool,
    rel: Seq<Seq<char>>,
    url_now: Seq<char>,
    extra_controls: Seq<char>,
    show_ln_toggle: bool,
    content: Seq<char>,
    tree: Seq<char>,
)
    requires
        !cfg.app_ui,
    ensures
        ({
            let other = Config { places, recent, pinned, sections, picker, status, ..cfg };
            layout_with_spec(other, id, theme, ln, sidebar, rel, url_now, extra_controls, show_ln_toggle, content, pane_spec(other, id, tree))
                == layout_with_spec(cfg, id, theme, ln, sidebar, rel, url_now, extra_controls, show_ln_toggle, content, pane_spec(cfg, id, tree))
        }),
{
    let other = Config { places, recent, pinned, sections, picker, status, ..cfg };
    assert(files_acts(other, id) == files_acts(cfg, id));
    assert(chooser_div_spec(other) == chooser_div_spec(cfg));
    assert(pick_spec(other) == pick_spec(cfg));
    assert(app_label_spec(other) == app_label_spec(cfg));
}

fn footer<V>(cfg: &Config<V>, id: &str) -> (r: String)
    ensures
        r@ == footer_spec(*cfg, id@),
{
    let mut out = String::new();
    push_str(&mut out, "<span class=\"where\" title=\"");
    push_str(&mut out, html_escape(id).as_str());
    push_str(&mut out, "\"><span class=\"app\">");
    push_str(&mut out, html_escape(cfg.app_label().as_str()).as_str());
    push_str(&mut out, " &middot;</span>");
    push_str(&mut out, path_label(id).as_str());
    push_str(&mut out, "</span>");
    if cfg.app_ui && cfg.picker {
        push_str(
            &mut out,
            flag("pick", "/.ts/open", svg_icon(ICON_FOLDER).as_str(), "Open Folder\u{2026}", "Open Folder\u{2026} (Ctrl+O)").as_str(),
        );
    }
    out
}

/// The full page shell: head and header, the pane, `content`, the status
/// line. `rel` is where the page is; `url_now` the raw path and query of this
/// request, which every toggle comes back to.
#[verifier::spinoff_prover]
pub fn layout<V: Vfs>(
    state: &State<V>,
    root: &Root<V>,
    prefs: Prefs,
    rel: &[String],
    url_now: &str,
    extra_controls: &str,
    show_ln_toggle: bool,
    content: &str,
) -> (r: String)
    ensures
        is_layout(
            r@,
            state.cfg,
            root.id@,
            prefs.theme,
            prefs.ln,
            prefs.sidebar,
            string_views(prefs.open@),
            rel@.map_values(|s: String| s@),
            url_now@,
            extra_controls@,
            show_ln_toggle,
            content@,
        ),
{
    let chrome = head_and_header(&state.cfg, root, prefs, rel, url_now, extra_controls, show_ln_toggle, true, "");
    let pane = pane_html(state, root, rel, prefs, url_now);
    let foot = footer(&state.cfg, root.id.as_str());
    let mut out = String::new();
    push_str(&mut out, chrome.as_str());
    push_str(&mut out, "\n<div class=\"shell\">\n<label for=\"ts-drawer\" class=\"drawer-scrim\" aria-hidden=\"true\"></label>\n");
    push_str(&mut out, pane.as_str());
    push_str(&mut out, "\n<main>\n");
    push_str(&mut out, content);
    push_str(&mut out, "\n</main>\n</div>\n<footer>");
    push_str(&mut out, foot.as_str());
    push_str(&mut out, "</footer>\n</body>\n</html>\n");
    proof {
        reveal_strlit("");
        reveal(is_layout);
        let a = choose|a: TreeAnswers|
            answers_fit(a, state.cfg.show_hidden, state.cfg.app_ui) && pane@ == #[trigger] pane_spec(
                state.cfg,
                root.id@,
                tree_spec(a, Seq::empty(), string_views(rel@), string_views(prefs.open@), url_now@),
            );
        let tree = tree_spec(a, Seq::empty(), string_views(rel@), string_views(prefs.open@), url_now@);
        assert(out@ == layout_with_spec(
            state.cfg,
            root.id@,
            prefs.theme,
            prefs.ln,
            prefs.sidebar,
            rel@.map_values(|s: String| s@),
            url_now@,
            extra_controls@,
            show_ln_toggle,
            content@,
            pane_spec(state.cfg, root.id@, tree),
        ));
    }
    out
}

/// The raw view's page: the header, and under it the file, and nothing else.
pub open spec fn bare_layout_spec<V>(
    cfg: Config<V>,
    id: Seq<char>,
    theme: ThemeMode,
    ln: bool,
    sidebar: bool,
    rel: Seq<Seq<char>>,
    url_now: Seq<char>,
    extra_controls: Seq<char>,
    content: Seq<char>,
) -> Seq<char> {
    head_and_header_spec(cfg, id, theme, ln, sidebar, rel, url_now, extra_controls, false, false, "rawview"@)
        + seq!['\n'] + content + "\n</body>\n</html>\n"@
}

pub fn bare_layout<V>(
    state: &State<V>,
    root: &Root<V>,
    prefs: Prefs,
    rel: &[String],
    url_now: &str,
    extra_controls: &str,
    content: &str,
) -> (r: String)
    ensures
        r@ == bare_layout_spec(
            state.cfg,
            root.id@,
            prefs.theme,
            prefs.ln,
            prefs.sidebar,
            rel@.map_values(|s: String| s@),
            url_now@,
            extra_controls@,
            content@,
        ),
{
    let mut out = head_and_header(&state.cfg, root, prefs, rel, url_now, extra_controls, false, false, "rawview");
    push_char(&mut out, '\n');
    push_str(&mut out, content);
    push_str(&mut out, "\n</body>\n</html>\n");
    out
}

/// A page with no root behind it: the name, the theme, and the way in.
pub open spec fn rootless_spec<V>(cfg: Config<V>, theme: ThemeMode, url_now: Seq<char>, content: Seq<char>) -> Seq<char> {
    "<!DOCTYPE html>\n<html lang=\"en\""@ + data_theme_spec(theme) + ">\n<head>\n<meta charset=\"utf-8\">\n<meta name=\"viewport\" content=\"width=device-width, initial-scale=1, viewport-fit=cover, interactive-widget=resizes-content\">\n<title>"@
        + html_escaped(site_title_spec(cfg)) + "</title>\n<link rel=\"icon\" href=\"data:image/svg+xml,<svg xmlns='http://www.w3.org/2000/svg' viewBox='0 0 16 16' fill='none' stroke='%234c8dff' stroke-width='1.4' stroke-linejoin='round'><path d='M1.7 4.5c0-.5.4-.9.9-.9h2.9l1.3 1.7h7c.5 0 .9.4.9.9v6.4c0 .5-.4.9-.9.9H2.6a.9.9 0 01-.9-.9V4.5z'/></svg>\">\n<link rel=\"stylesheet\" href=\"/.ts/app.css\">\n</head>\n<body class=\"app nothing\">\n<header>\n  <div class=\"crumbs\"></div>\n  <div class=\"controls\">"@
        + theme_flag_spec(theme, url_now) + "</div>\n</header>\n<main>\n"@ + content
        + "\n</main>\n<footer><span class=\"where\"><span class=\"app\">"@ + html_escaped(app_label_spec(cfg))
        + "</span></span></footer>\n</body>\n</html>\n"@
}

pub fn rootless_page<V>(state: &State<V>, prefs: Prefs, url_now: &str, content: &str) -> (r: String)
    ensures
        r@ == rootless_spec(state.cfg, prefs.theme, url_now@, content@),
{
    let mut out = String::new();
    push_str(&mut out, "<!DOCTYPE html>\n<html lang=\"en\"");
    push_str(&mut out, data_theme(prefs.theme).as_str());
    push_str(&mut out, ">\n<head>\n<meta charset=\"utf-8\">\n<meta name=\"viewport\" content=\"width=device-width, initial-scale=1, viewport-fit=cover, interactive-widget=resizes-content\">\n<title>");
    push_str(&mut out, html_escape(state.cfg.title().as_str()).as_str());
    push_str(&mut out, "</title>\n<link rel=\"icon\" href=\"data:image/svg+xml,<svg xmlns='http://www.w3.org/2000/svg' viewBox='0 0 16 16' fill='none' stroke='%234c8dff' stroke-width='1.4' stroke-linejoin='round'><path d='M1.7 4.5c0-.5.4-.9.9-.9h2.9l1.3 1.7h7c.5 0 .9.4.9.9v6.4c0 .5-.4.9-.9.9H2.6a.9.9 0 01-.9-.9V4.5z'/></svg>\">\n<link rel=\"stylesheet\" href=\"/.ts/app.css\">\n</head>\n<body class=\"app nothing\">\n<header>\n  <div class=\"crumbs\"></div>\n  <div class=\"controls\">");
    push_str(&mut out, theme_flag(prefs.theme, url_now).as_str());
    push_str(&mut out, "</div>\n</header>\n<main>\n");
    push_str(&mut out, content);
    push_str(&mut out, "\n</main>\n<footer><span class=\"where\"><span class=\"app\">");
    push_str(&mut out, html_escape(state.cfg.app_label().as_str()).as_str());
    push_str(&mut out, "</span></span></footer>\n</body>\n</html>\n");
    out
}

/// What the start page says the program is, where the embedder says nothing.
pub open spec fn default_intro() -> Seq<char> {
    "Browse a folder as a tree: files beside their contents, and nothing installed on whatever machine you are reading from."@
}

/// The start page's words: the name, what it is, and the way in — the picker
/// where there is one, else a pointer to the lists.
pub open spec fn intro_spec<V>(cfg: Config<V>) -> Seq<char> {
    "<div class=\"intro\"><h1>"@ + html_escaped(site_title_spec(cfg)) + "</h1><p>"@ + html_escaped(
        or_default(cfg.intro, default_intro()),
    ) + "</p>"@ + (if cfg.picker {
        "<p><a class=\"open\" href=\"/.ts/open\">"@ + svg_spec(ICON_FOLDER@) + " Open a folder&hellip;</a></p>"@
    } else {
        "<p class=\"hint\">Open one of the places below to start.</p>"@
    }) + "</div>"@
}

/// What there is to open, when nothing is: the pane's lists without the pane.
pub open spec fn start_spec<V>(cfg: Config<V>, theme: ThemeMode, url_now: Seq<char>) -> Seq<char> {
    rootless_spec(cfg, theme, url_now, intro_spec(cfg) + "<div class=\"start\">"@ + chooser_spec(cfg) + "</div>"@)
}

fn intro<V>(cfg: &Config<V>) -> (r: String)
    ensures
        r@ == intro_spec(*cfg),
{
    let mut out = String::new();
    push_str(&mut out, "<div class=\"intro\"><h1>");
    push_str(&mut out, html_escape(cfg.title().as_str()).as_str());
    push_str(&mut out, "</h1><p>");
    match &cfg.intro {
        Some(t) => push_str(&mut out, html_escape(t.as_str()).as_str()),
        None => push_str(
            &mut out,
            html_escape("Browse a folder as a tree: files beside their contents, and nothing installed on whatever machine you are reading from.").as_str(),
        ),
    }
    push_str(&mut out, "</p>");
    if cfg.picker {
        push_str(&mut out, "<p><a class=\"open\" href=\"/.ts/open\">");
        push_str(&mut out, svg_icon(ICON_FOLDER).as_str());
        push_str(&mut out, " Open a folder&hellip;</a></p>");
    } else {
        push_str(&mut out, "<p class=\"hint\">Open one of the places below to start.</p>");
    }
    push_str(&mut out, "</div>");
    out
}

pub fn start_page<V>(state: &State<V>, prefs: Prefs, url_now: &str) -> (r: String)
    ensures
        r@ == start_spec(state.cfg, prefs.theme, url_now@),
{
    let mut content = intro(&state.cfg);
    push_str(&mut content, "<div class=\"start\">");
    push_chooser(&mut content, &state.cfg);
    push_str(&mut content, "</div>");
    rootless_page(state, prefs, url_now, content.as_str())
}

/// What the window says while the shell finds out whether a folder opens.
pub open spec fn wait_content(path: Seq<char>) -> Seq<char> {
    "<div class=\"bigmsg\"><p>Opening "@ + html_escaped(path)
        + "&hellip;</p><p>If the folder is on a drive or a share that is not answering, this waits for as long as that takes to find out.</p></div>"@
}

/// Shown while the shell finds out whether a folder can be opened: still the
/// served root's page where there is one, since only the middle is waiting.
pub fn wait_page<V: Vfs>(state: &State<V>, root: Option<&Root<V>>, prefs: Prefs, url_now: &str, path: &str) -> (r: String)
    ensures
        match root {
            Some(root) => is_layout(
                r@,
                state.cfg,
                root.id@,
                prefs.theme,
                prefs.ln,
                prefs.sidebar,
                string_views(prefs.open@),
                Seq::empty(),
                url_now@,
                Seq::empty(),
                false,
                wait_content(path@),
            ),
            None => r@ == rootless_spec(state.cfg, prefs.theme, url_now@, wait_content(path@)),
        },
{
    proof {
        reveal_strlit("");
    }
    let mut content = String::new();
    push_str(&mut content, "<div class=\"bigmsg\"><p>Opening ");
    push_str(&mut content, html_escape(path).as_str());
    push_str(&mut content, "&hellip;</p><p>If the folder is on a drive or a share that is not answering, this waits for as long as that takes to find out.</p></div>");
    assert(content@ == wait_content(path@));
    assert(""@ =~= Seq::<char>::empty());
    match root {
        Some(root) => {
            let none: Vec<String> = Vec::new();
            assert(none@.map_values(|s: String| s@) =~= Seq::<Seq<char>>::empty());
            layout(state, root, prefs, none.as_slice(), url_now, "", false, content.as_str())
        },
        None => rootless_page(state, prefs, url_now, content.as_str()),
    }
}

/// An error, as a page: the code, what went wrong, and the way back.
pub open spec fn error_content(code: u32, msg: Seq<char>) -> Seq<char> {
    "<div class=\"bigmsg\"><h2>"@ + dec(code as nat) + "</h2><p>"@ + html_escaped(msg)
        + "</p><p><a href=\"/\">Back to root</a></p></div>"@
}

pub fn error_page<V: Vfs>(
    state: &State<V>,
    root: &Root<V>,
    prefs: Prefs,
    rel: &[String],
    url_now: &str,
    code: u32,
    msg: &str,
) -> (r: String)
    ensures
        is_layout(
            r@,
            state.cfg,
            root.id@,
            prefs.theme,
            prefs.ln,
            prefs.sidebar,
            string_views(prefs.open@),
            rel@.map_values(|s: String| s@),
            url_now@,
            Seq::empty(),
            false,
            error_content(code, msg@),
        ),
{
    proof {
        reveal_strlit("");
    }
    let mut content = String::new();
    push_str(&mut content, "<div class=\"bigmsg\"><h2>");
    push_dec(&mut content, code as u64);
    push_str(&mut content, "</h2><p>");
    push_str(&mut content, html_escape(msg).as_str());
    push_str(&mut content, "</p><p><a href=\"/\">Back to root</a></p></div>");
    assert(content@ == error_content(code, msg@));
    assert(""@ =~= Seq::<char>::empty());
    layout(state, root, prefs, rel, url_now, "", false, content.as_str())
}

// ---------------------------------------------------------------------------
// The listing

/// A listing for something that is not a browser: one name a line, a
/// directory's with a `/` after it.
pub open spec fn text_lines(entries: Seq<Entry>) -> Seq<char>
    decreases entries.len(),
{
    if entries.len() == 0 {
        Seq::empty()
    } else {
        let e = entries.last();
        text_lines(entries.drop_last()) + e.name@ + (if e.is_dir {
            seq!['/']
        } else {
            Seq::empty()
        }) + seq!['\n']
    }
}

pub fn entries_text(entries: &[Entry]) -> (r: String)
    ensures
        r@ == text_lines(entries@),
{
    let mut out = String::new();
    let mut i: usize = 0;
    assert(entries@.take(0) =~= Seq::<Entry>::empty());
    while i < entries.len()
        invariant
            i <= entries@.len(),
            out@ == text_lines(entries@.take(i as int)),
        decreases entries@.len() - i,
    {
        push_str(&mut out, entries[i].name.as_str());
        if entries[i].is_dir {
            push_char(&mut out, '/');
        }
        push_char(&mut out, '\n');
        assert(entries@.take(i + 1).drop_last() =~= entries@.take(i as int));
        i = i + 1;
    }
    assert(entries@.take(entries@.len() as int) =~= entries@);
    out
}

/// Plain-text listing for non-browser clients; where the backend would not
/// list the directory, its refusal, so a script gets a status for it.
pub fn listing_text<V: Vfs>(state: &State<V>, vfs: &V, path: &VfsPath) -> (r: Result<String, Refusal>)
    ensures
        r matches Ok(t) ==> exists|found: Seq<Entry>| t@ == text_lines(listed(shown(found, state.cfg.show_hidden))),
{
    match read_dir_sorted(state, vfs, path) {
        Ok(entries) => Ok(entries_text(entries.as_slice())),
        Err(k) => Err(k),
    }
}

/// `s` without the `c`s at its end.
pub open spec fn strip_end(s: Seq<char>, c: char) -> Seq<char>
    decreases s.len(),
{
    if s.len() > 0 && s.last() == c {
        strip_end(s.drop_last(), c)
    } else {
        s
    }
}

pub(crate) fn strip_end_of(t: &str, c: char) -> (r: String)
    ensures
        r@ == strip_end(t@, c),
{
    let v = chars_of(t);
    let mut n: usize = v.len();
    assert(v@.take(n as int) =~= v@);
    while n > 0 && v[n - 1] == c
        invariant
            n <= v@.len(),
            strip_end(v@.take(n as int), c) == strip_end(v@, c),
        decreases n,
    {
        assert(v@.take(n as int).drop_last() =~= v@.take(n - 1));
        n = n - 1;
    }
    let w = slice_vec(v.as_slice(), 0, n);
    assert(w@ =~= v@.take(n as int));
    string_of(w.as_slice())
}

/// The size cell: a dash for a directory.
pub open spec fn size_cell(e: Entry) -> Seq<char> {
    if e.is_dir {
        "&mdash;"@
    } else {
        human_spec(e.size as nat)
    }
}

/// The time cell: when it was last changed, where the backend knows.
pub open spec fn time_cell(e: Entry) -> Seq<char> {
    match e.mtime {
        Some(t) => time_spec(t.secs as nat),
        None => Seq::empty(),
    }
}

/// One row of the table: icon, name as a link, size, time.
pub open spec fn table_row(e: Entry, href: Seq<char>, text: Seq<char>, dir_class: bool) -> Seq<char> {
    "<tr><td>"@ + icon_cell_spec(e.is_dir, icon_spec(e.name@, e.is_dir)) + "<a href=\""@ + html_escaped(href)
        + seq!['"'] + (if dir_class && e.is_dir {
        " class=\"dir\""@
    } else {
        Seq::empty()
    }) + seq!['>'] + html_escaped(text) + "</a></td><td class=\"size\">"@ + size_cell(e)
        + "</td><td class=\"time\">"@ + time_cell(e) + "</td></tr>"@
}

/// Where an entry of the directory at `rel` links to.
pub open spec fn entry_href(rel: Seq<Seq<char>>, e: Entry) -> Seq<char> {
    href_spec(rel.push(e.name@)) + (if e.is_dir {
        seq!['/']
    } else {
        Seq::empty()
    })
}

pub open spec fn table_rows(rel: Seq<Seq<char>>, entries: Seq<Entry>) -> Seq<char>
    decreases entries.len(),
{
    if entries.len() == 0 {
        Seq::empty()
    } else {
        let e = entries.last();
        table_rows(rel, entries.drop_last()) + table_row(e, entry_href(rel, e), e.name@, true)
    }
}

/// The row up to the parent, where there is one.
pub open spec fn up_row(rel: Seq<Seq<char>>) -> Seq<char> {
    if rel.len() == 0 {
        Seq::empty()
    } else {
        "<tr><td>"@ + icon_cell_spec(true, ICON_UP@) + "<a href=\""@ + html_escaped(
            strip_end(href_spec(rel.drop_last()), '/'),
        ) + "/\">..</a></td><td class=\"size\"></td><td class=\"time\"></td></tr>"@
    }
}

/// A directory's table: the way up, a row an entry, and a word where there
/// are none.
pub open spec fn table_spec(rel: Seq<Seq<char>>, entries: Seq<Entry>) -> Seq<char> {
    "<table class=\"listing\"><tr><th>Name</th><th class=\"size\">Size</th><th class=\"time\">Modified</th></tr>"@
        + up_row(rel) + table_rows(rel, entries) + (if entries.len() == 0 {
        "<tr><td colspan=\"3\"><em>empty directory</em></td></tr>"@
    } else {
        Seq::empty()
    }) + "</table>"@
}

fn size_html(e: &Entry) -> (r: String)
    ensures
        r@ == size_cell(*e),
{
    if e.is_dir {
        owned("&mdash;")
    } else {
        human_size(e.size)
    }
}

fn time_html(e: &Entry) -> (r: String)
    ensures
        r@ == time_cell(*e),
{
    match e.mtime {
        Some(t) => fmt_time(t.secs),
        None => String::new(),
    }
}

#[verifier::spinoff_prover]
fn push_table_row(out: &mut String, e: &Entry, href: &str, text: &str, dir_class: bool)
    ensures
        final(out)@ == old(out)@ + table_row(*e, href@, text@, dir_class),
{
    let icon = entry_icon(e.name.as_str(), e.is_dir);
    let size = size_html(e);
    let time = time_html(e);
    push_str(out, "<tr><td>");
    push_str(out, icon.as_str());
    push_str(out, "<a href=\"");
    push_str(out, html_escape(href).as_str());
    push_char(out, '"');
    if dir_class && e.is_dir {
        push_str(out, " class=\"dir\"");
    }
    push_char(out, '>');
    push_str(out, html_escape(text).as_str());
    push_str(out, "</a></td><td class=\"size\">");
    push_str(out, size.as_str());
    push_str(out, "</td><td class=\"time\">");
    push_str(out, time.as_str());
    push_str(out, "</td></tr>");
}

fn strings_clone(v: &[String]) -> (r: Vec<String>)
    ensures
        r@.map_values(|s: String| s@) == v@.map_values(|s: String| s@),
{
    let mut out: Vec<String> = Vec::new();
    let mut i: usize = 0;
    while i < v.len()
        invariant
            i <= v@.len(),
            out@.map_values(|s: String| s@) == v@.map_values(|s: String| s@).take(i as int),
        decreases v@.len() - i,
    {
        let ghost before = out@.map_values(|s: String| s@);
        let x = owned(v[i].as_str());
        out.push(x);
        assert(out@.map_values(|s: String| s@) =~= before.push(v@[i as int]@));
        assert(v@.map_values(|s: String| s@).take(i + 1) =~= v@.map_values(|s: String| s@).take(i as int).push(v@[i as int]@));
        i = i + 1;
    }
    assert(v@.map_values(|s: String| s@).take(v@.len() as int) =~= v@.map_values(|s: String| s@));
    out
}

fn up_row_html(rel: &[String]) -> (r: String)
    ensures
        r@ == up_row(rel@.map_values(|s: String| s@)),
{
    let ghost rv = rel@.map_values(|s: String| s@);
    let mut out = String::new();
    let rl = rel.len();
    if rl > 0 {
        let mut parent = strings_clone(rel);
        parent.pop();
        assert(parent@.map_values(|s: String| s@) =~= rv.drop_last());
        push_str(&mut out, "<tr><td>");
        push_str(&mut out, icon_cell(true, ICON_UP).as_str());
        push_str(&mut out, "<a href=\"");
        push_str(&mut out, html_escape(strip_end_of(href_path(parent.as_slice()).as_str(), '/').as_str()).as_str());
        push_str(&mut out, "/\">..</a></td><td class=\"size\"></td><td class=\"time\"></td></tr>");
    }
    out
}

fn entry_link(rel: &[String], e: &Entry) -> (r: String)
    ensures
        r@ == entry_href(rel@.map_values(|s: String| s@), *e),
{
    let mut segs = strings_clone(rel);
    segs.push(owned(e.name.as_str()));
    assert(segs@.map_values(|s: String| s@) =~= rel@.map_values(|s: String| s@).push(e.name@));
    let mut href = href_path(segs.as_slice());
    if e.is_dir {
        push_char(&mut href, '/');
    }
    href
}

fn push_entry_row(out: &mut String, rel: &[String], e: &Entry)
    ensures
        final(out)@ == old(out)@ + table_row(*e, entry_href(rel@.map_values(|s: String| s@), *e), e.name@, true),
{
    let href = entry_link(rel, e);
    push_table_row(out, e, href.as_str(), e.name.as_str(), true);
}

#[verifier::spinoff_prover]
pub fn entries_table_of(rel: &[String], entries: &[Entry]) -> (r: String)
    ensures
        r@ == table_spec(rel@.map_values(|s: String| s@), entries@),
{
    let ghost rv = rel@.map_values(|s: String| s@);
    let mut out = String::new();
    push_str(&mut out, "<table class=\"listing\"><tr><th>Name</th><th class=\"size\">Size</th><th class=\"time\">Modified</th></tr>");
    push_str(&mut out, up_row_html(rel).as_str());
    let ghost head = out@;
    let mut i: usize = 0;
    assert(entries@.take(0) =~= Seq::<Entry>::empty());
    while i < entries.len()
        invariant
            i <= entries@.len(),
            rv == rel@.map_values(|s: String| s@),
            out@ == head + table_rows(rv, entries@.take(i as int)),
        decreases entries@.len() - i,
    {
        push_entry_row(&mut out, rel, &entries[i]);
        assert(entries@.take(i + 1).drop_last() =~= entries@.take(i as int));
        i = i + 1;
    }
    assert(entries@.take(entries@.len() as int) =~= entries@);
    if entries.len() == 0 {
        push_str(&mut out, "<tr><td colspan=\"3\"><em>empty directory</em></td></tr>");
    }
    push_str(&mut out, "</table>");
    out
}

/// In place of a listing's table where the backend would not list the
/// directory: a sentence saying so.
pub open spec fn unread_table_spec(k: Refusal) -> Seq<char> {
    "<p class=\"unread\">This folder could not be listed: "@ + refusal_words(k) + ".</p>"@
}

fn unread_table(k: Refusal) -> (r: String)
    ensures
        r@ == unread_table_spec(k),
{
    let mut out = String::new();
    push_str(&mut out, "<p class=\"unread\">This folder could not be listed: ");
    push_str(&mut out, k.words());
    push_str(&mut out, ".</p>");
    out
}

/// The listing table of the directory at `canon`, reached as `rel`, or the
/// sentence that stands in for it where the backend would not list it.
pub fn entries_table<V: Vfs>(state: &State<V>, vfs: &V, rel: &[String], canon: &VfsPath) -> (r: String)
    ensures
        (exists|found: Seq<Entry>|
            r@ == table_spec(rel@.map_values(|s: String| s@), listed(shown(found, state.cfg.show_hidden))))
            || (exists|k: Refusal| r@ == #[trigger] unread_table_spec(k)),
{
    match read_dir_sorted(state, vfs, canon) {
        Ok(entries) => entries_table_of(rel, entries.as_slice()),
        Err(k) => unread_table(k),
    }
}

// ---------------------------------------------------------------------------
// Filtering a listing

/// How many matches a search lists at most.
pub const SEARCH_MAX_RESULTS: usize = 2000;
/// How many entries a search looks at before it gives up.
pub const SEARCH_MAX_SCANNED: usize = 50000;
/// How deep a recursive search walks.
pub const SEARCH_MAX_DEPTH: usize = 12;

/// A match as plain values: its path below the searched directory, and the
/// entry.
pub type Found = (Seq<Seq<char>>, Entry);

/// What a pattern is held against: the path below the searched directory
/// where the pattern has a `/` in it, else the name.
pub open spec fn haystack(pat: Seq<char>, f: Found) -> Seq<char> {
    if pat.contains('/') {
        slash_joined(f.0)
    } else {
        f.1.name@
    }
}

/// What every match is: a name at the end of a path no deeper than the walk
/// goes (one step, where it does not walk), that the pattern matches.
pub open spec fn good_match(pat: Seq<char>, recursive: bool, f: Found) -> bool {
    &&& 1 <= f.0.len() <= SEARCH_MAX_DEPTH
    &&& !recursive ==> f.0.len() == 1
    &&& f.0.last() == f.1.name@
    &&& glob(pat, haystack(pat, f))
}

/// A match's row: its path as the link text.
pub open spec fn found_row(rel: Seq<Seq<char>>, f: Found) -> Seq<char> {
    table_row(
        f.1,
        href_spec(rel + f.0) + (if f.1.is_dir {
            seq!['/']
        } else {
            Seq::empty()
        }),
        slash_joined(f.0),
        false,
    )
}

pub open spec fn found_rows(rel: Seq<Seq<char>>, found: Seq<Found>) -> Seq<char>
    decreases found.len(),
{
    if found.len() == 0 {
        Seq::empty()
    } else {
        found_rows(rel, found.drop_last()) + found_row(rel, found.last())
    }
}

/// The results of a search: how many, how it went, and a table of them.
pub open spec fn search_spec(rel: Seq<Seq<char>>, found: Seq<Found>, recursive: bool, truncated: bool) -> Seq<char> {
    "<p class=\"matchnote\">"@ + dec(found.len()) + " match"@ + (if found.len() == 1 {
        Seq::empty()
    } else {
        "es"@
    }) + (if recursive {
        " (recursive)"@
    } else {
        Seq::empty()
    }) + (if truncated {
        ", truncated"@
    } else {
        Seq::empty()
    }) + "</p>"@ + (if found.len() > 0 {
        "<table class=\"listing\"><tr><th>Path</th><th class=\"size\">Size</th><th class=\"time\">Modified</th></tr>"@
            + found_rows(rel, found) + "</table>"@
    } else {
        Seq::empty()
    })
}

/// A match held by value.
pub open spec fn found_view(f: (Vec<String>, Entry)) -> Found {
    (f.0@.map_values(|s: String| s@), f.1)
}

fn copy_entry(e: &Entry) -> (r: Entry)
    ensures
        r.name@ == e.name@,
        r.is_dir == e.is_dir,
        r.size == e.size,
        r.mtime == e.mtime,
{
    Entry { name: owned(e.name.as_str()), is_dir: e.is_dir, size: e.size, mtime: e.mtime }
}

fn push_found_row(out: &mut String, rel: &[String], f: &(Vec<String>, Entry))
    ensures
        final(out)@ == old(out)@ + found_row(rel@.map_values(|s: String| s@), found_view(*f)),
{
    let ghost fv = found_view(*f);
    let mut full = strings_clone(rel);
    let mut k: usize = 0;
    let ghost base = full@.map_values(|s: String| s@);
    while k < f.0.len()
        invariant
            k <= f.0@.len(),
            base == rel@.map_values(|s: String| s@),
            fv == found_view(*f),
            full@.map_values(|s: String| s@) == base + fv.0.take(k as int),
        decreases f.0@.len() - k,
    {
        let ghost before = full@.map_values(|s: String| s@);
        full.push(owned(f.0[k].as_str()));
        assert(full@.map_values(|s: String| s@) =~= before.push(fv.0[k as int]));
        assert(fv.0.take(k + 1) =~= fv.0.take(k as int).push(fv.0[k as int]));
        k = k + 1;
    }
    assert(fv.0.take(fv.0.len() as int) =~= fv.0);
    let mut href = href_path(full.as_slice());
    if f.1.is_dir {
        push_char(&mut href, '/');
    }
    let text = join_slash(f.0.as_slice());
    assert(href@ == href_spec(rel@.map_values(|s: String| s@) + fv.0) + (if f.1.is_dir {
        seq!['/']
    } else {
        Seq::empty()
    }));
    assert(text@ == slash_joined(fv.0));
    push_table_row(out, &f.1, href.as_str(), text.as_str(), false);
}

#[verifier::spinoff_prover]
pub fn search_page(rel: &[String], found: &Vec<(Vec<String>, Entry)>, recursive: bool, truncated: bool) -> (r: String)
    ensures
        r@ == search_spec(rel@.map_values(|s: String| s@), found@.map_values(|f: (Vec<String>, Entry)| found_view(f)), recursive, truncated),
{
    let ghost rv = rel@.map_values(|s: String| s@);
    let ghost fv = found@.map_values(|f: (Vec<String>, Entry)| found_view(f));
    let mut rows = String::new();
    let mut i: usize = 0;
    assert(fv.take(0) =~= Seq::<Found>::empty());
    while i < found.len()
        invariant
            i <= found@.len(),
            rv == rel@.map_values(|s: String| s@),
            fv == found@.map_values(|f: (Vec<String>, Entry)| found_view(f)),
            rows@ == found_rows(rv, fv.take(i as int)),
        decreases found@.len() - i,
    {
        let ghost before = rows@;
        push_found_row(&mut rows, rel, &found[i]);
        proof {
            let t = fv.take(i + 1);
            assert(t.drop_last() =~= fv.take(i as int));
            assert(t.last() == fv[i as int]);
        }
        i = i + 1;
    }
    assert(fv.take(found@.len() as int) =~= fv);
    let n = found.len();
    let mut out = String::new();
    push_str(&mut out, "<p class=\"matchnote\">");
    push_dec(&mut out, n as u64);
    push_str(&mut out, " match");
    if n != 1 {
        push_str(&mut out, "es");
    }
    if recursive {
        push_str(&mut out, " (recursive)");
    }
    if truncated {
        push_str(&mut out, ", truncated");
    }
    push_str(&mut out, "</p>");
    if n > 0 {
        push_str(&mut out, "<table class=\"listing\"><tr><th>Path</th><th class=\"size\">Size</th><th class=\"time\">Modified</th></tr>");
        push_str(&mut out, rows.as_str());
        push_str(&mut out, "</table>");
    }
    out
}

/// What the walk does with one entry the backend listed.
#[derive(Clone, Copy, Debug, PartialEq, Eq, Structural)]
pub enum ScanStep {
    /// The walk has looked at enough, or found enough: it stops here,
    /// truncated.
    Stop,
    /// The entry matches: it is a result.
    Match,
    /// A directory that does not match, to walk into later.
    Descend,
    /// A directory that does not match, too deep to walk into: the results
    /// are truncated.
    TooDeep,
    /// Nothing to do.
    Pass,
}

/// The step for an entry of the directory at `drel`, seen as the
/// `scanned`-th entry of the walk with `found` results so far: stop past the
/// budget of entries or of results; a result where the pattern matches its
/// name, or its path where the pattern has a `/`; where the walk recurses,
/// a directory to walk into while it is shallow enough.
pub open spec fn scan_step_spec(
    scanned: int,
    found: int,
    pat: Seq<char>,
    recursive: bool,
    drel: Seq<Seq<char>>,
    e: Entry,
) -> ScanStep {
    let erel = drel.push(e.name@);
    let hay = if pat.contains('/') { slash_joined(erel) } else { e.name@ };
    if scanned > SEARCH_MAX_SCANNED || found >= SEARCH_MAX_RESULTS {
        ScanStep::Stop
    } else if glob(pat, hay) {
        ScanStep::Match
    } else if e.is_dir && recursive && erel.len() < SEARCH_MAX_DEPTH {
        ScanStep::Descend
    } else if e.is_dir && recursive {
        ScanStep::TooDeep
    } else {
        ScanStep::Pass
    }
}

pub fn scan_step(scanned: usize, found: usize, pat: &str, recursive: bool, drel: &[String], e: &Entry) -> (r: ScanStep)
    ensures
        r == scan_step_spec(scanned as int, found as int, pat@, recursive, drel@.map_values(|s: String| s@), *e),
{
    if scanned > SEARCH_MAX_SCANNED || found >= SEARCH_MAX_RESULTS {
        return ScanStep::Stop;
    }
    let mut erel = strings_clone(drel);
    erel.push(owned(e.name.as_str()));
    let ghost ev = erel@.map_values(|s: String| s@);
    assert(ev =~= drel@.map_values(|s: String| s@).push(e.name@));
    let hay = if has_char(chars_of(pat).as_slice(), '/') {
        join_slash(erel.as_slice())
    } else {
        owned(e.name.as_str())
    };
    if fnmatch(pat, hay.as_str()) {
        ScanStep::Match
    } else if e.is_dir && recursive && erel.len() < SEARCH_MAX_DEPTH {
        ScanStep::Descend
    } else if e.is_dir && recursive {
        ScanStep::TooDeep
    } else {
        ScanStep::Pass
    }
}

/// An entry as its row shows it: name, kind, size, time.
pub open spec fn entry_key(e: Entry) -> (Seq<char>, bool, u64, Option<Mtime>) {
    (e.name@, e.is_dir, e.size, e.mtime)
}

/// A match as its row shows it: the path, and the entry.
pub type FoundKey = (Seq<Seq<char>>, (Seq<char>, bool, u64, Option<Mtime>));

pub open spec fn found_keys(v: Seq<(Vec<String>, Entry)>) -> Seq<FoundKey> {
    v.map_values(|f: (Vec<String>, Entry)| (found_view(f).0, entry_key(f.1)))
}

/// A directory's entries as a search reads them: some listing the backend
/// gave, or none where it would not list the directory.
pub open spec fn dir_answer(es: Seq<Entry>, show_hidden: bool) -> bool {
    es.len() == 0 || exists|found: Seq<Entry>| es == #[trigger] listed(shown(found, show_hidden))
}

/// What the backend answered while a search walked: a directory's entries
/// as the page lists them, and for each directory the walk queued to go
/// into, in the order it queued them, what was answered there.
pub struct SearchAnswers {
    pub entries: Seq<Entry>,
    pub kids: Seq<SearchAnswers>,
}

/// Where a walk stands: how many entries it has looked at, the matches so
/// far, and whether it has been cut short.
pub type WalkState = (int, Seq<FoundKey>, bool);

/// Looking at the first `n` entries of the directory at `drel`, from `st`:
/// where the walk then stands, the names of the directories it queued, and
/// whether it stopped.
pub open spec fn scan_spec(
    es: Seq<Entry>,
    drel: Seq<Seq<char>>,
    pat: Seq<char>,
    recursive: bool,
    st: WalkState,
    n: nat,
) -> (WalkState, Seq<Seq<char>>, bool)
    decreases n,
{
    if n == 0 || n > es.len() {
        (st, Seq::empty(), false)
    } else {
        let (s, queued, stopped) = scan_spec(es, drel, pat, recursive, st, (n - 1) as nat);
        if stopped {
            (s, queued, true)
        } else {
            let e = es[n - 1];
            let seen = s.0 + 1;
            match scan_step_spec(seen, s.1.len() as int, pat, recursive, drel, e) {
                ScanStep::Stop => ((seen, s.1, true), queued, true),
                ScanStep::Match => ((seen, s.1.push((drel.push(e.name@), entry_key(e))), s.2), queued, false),
                ScanStep::Descend => ((seen, s.1, s.2), queued.push(e.name@), false),
                ScanStep::TooDeep => ((seen, s.1, true), queued, false),
                ScanStep::Pass => ((seen, s.1, s.2), queued, false),
            }
        }
    }
}

/// How wide a walk's answer is: one more than its entries.
pub open spec fn walk_width(t: SearchAnswers) -> nat {
    t.entries.len() + 1
}

/// Where a walk through the directory at `drel` leaves it, from `st`: its
/// entries looked at in order, then, unless cut short, the directories it
/// queued walked in turn, the last queued first.
pub open spec fn walk_spec(
    t: SearchAnswers,
    drel: Seq<Seq<char>>,
    pat: Seq<char>,
    recursive: bool,
    st: WalkState,
) -> WalkState
    decreases t, walk_width(t),
{
    let (s, queued, _) = scan_spec(t.entries, drel, pat, recursive, st, t.entries.len());
    kids_walk(
        t,
        drel,
        queued,
        pat,
        recursive,
        s,
        if queued.len() <= t.entries.len() {
            queued.len()
        } else {
            t.entries.len()
        },
    )
}

/// Where the walk stands once the last `j` of the queued directories have
/// been walked, the last first, from `st`.
pub open spec fn kids_walk(
    t: SearchAnswers,
    drel: Seq<Seq<char>>,
    queued: Seq<Seq<char>>,
    pat: Seq<char>,
    recursive: bool,
    st: WalkState,
    j: nat,
) -> WalkState
    decreases t, j,
{
    if j == 0 || j > queued.len() || j > t.entries.len() {
        st
    } else {
        let s = kids_walk(t, drel, queued, pat, recursive, st, (j - 1) as nat);
        let i = queued.len() - j;
        if s.2 || i >= t.kids.len() {
            s
        } else {
            proof {
                assert(decreases_to!(t => t.kids));
                assert(decreases_to!(t.kids => t.kids[i]));
            }
            walk_spec(t.kids[i], drel.push(queued[i]), pat, recursive, s)
        }
    }
}

/// What a whole search found, and whether it was cut short.
pub open spec fn walk_from(t: SearchAnswers, pat: Seq<char>, recursive: bool) -> WalkState {
    walk_spec(t, Seq::empty(), pat, recursive, (0, Seq::empty(), false))
}

/// Whether a walk's answers are ones the backend can have given: every
/// directory's entries some listing, filtered and ordered as pages list them.
pub open spec fn search_fit(t: SearchAnswers, show_hidden: bool) -> bool
    decreases t, t.kids.len() + 1,
{
    dir_answer(t.entries, show_hidden) && search_kids_fit(t, show_hidden, t.kids.len())
}

pub open spec fn search_kids_fit(t: SearchAnswers, show_hidden: bool, n: nat) -> bool
    decreases t, n,
{
    if n == 0 || n > t.kids.len() {
        true
    } else {
        proof {
            assert(decreases_to!(t => t.kids));
            assert(decreases_to!(t.kids => t.kids[n - 1]));
        }
        search_kids_fit(t, show_hidden, (n - 1) as nat) && search_fit(t.kids[n - 1], show_hidden)
    }
}

/// The kids' answers fit after one of them is replaced by answers that fit.
proof fn lemma_kids_fit_update(es: Seq<Entry>, kids: Seq<SearchAnswers>, i: int, x: SearchAnswers, show_hidden: bool, n: nat)
    requires
        0 <= i < kids.len(),
        n <= kids.len(),
        search_kids_fit(SearchAnswers { entries: es, kids }, show_hidden, n),
        search_fit(x, show_hidden),
    ensures
        search_kids_fit(SearchAnswers { entries: es, kids: kids.update(i, x) }, show_hidden, n),
    decreases n,
{
    if n > 0 {
        lemma_kids_fit_update(es, kids, i, x, show_hidden, (n - 1) as nat);
    }
}

/// A run of answers with nothing in them fits.
proof fn lemma_blank_kids_fit(es: Seq<Entry>, n: nat, show_hidden: bool, m: nat)
    requires
        m <= n,
    ensures
        search_kids_fit(SearchAnswers { entries: es, kids: Seq::new(n, |k: int| blank_answers()) }, show_hidden, m),
    decreases m,
{
    if m > 0 {
        lemma_blank_kids_fit(es, n, show_hidden, (m - 1) as nat);
        let b = blank_answers();
        assert(search_kids_fit(b, show_hidden, 0));
        assert(search_fit(b, show_hidden));
        let kids = Seq::new(n, |k: int| blank_answers());
        assert(kids[m - 1] == b);
    }
}

pub open spec fn blank_answers() -> SearchAnswers {
    SearchAnswers { entries: Seq::empty(), kids: Seq::empty() }
}

/// Walking the queued directories depends only on those already walked.
proof fn lemma_kids_walk_update(
    es: Seq<Entry>,
    kids: Seq<SearchAnswers>,
    i: int,
    x: SearchAnswers,
    drel: Seq<Seq<char>>,
    queued: Seq<Seq<char>>,
    pat: Seq<char>,
    recursive: bool,
    st: WalkState,
    j: nat,
)
    requires
        0 <= i < kids.len(),
        i < queued.len() - j,
    ensures
        kids_walk(SearchAnswers { entries: es, kids }, drel, queued, pat, recursive, st, j) == kids_walk(
            SearchAnswers { entries: es, kids: kids.update(i, x) },
            drel,
            queued,
            pat,
            recursive,
            st,
            j,
        ),
    decreases j,
{
    if j > 0 {
        lemma_kids_walk_update(es, kids, i, x, drel, queued, pat, recursive, st, (j - 1) as nat);
    }
}

/// Once a scan has stopped, looking at more entries changes nothing.
proof fn lemma_scan_stopped(
    es: Seq<Entry>,
    drel: Seq<Seq<char>>,
    pat: Seq<char>,
    recursive: bool,
    st: WalkState,
    n: nat,
    m: nat,
)
    requires
        n <= m <= es.len(),
        scan_spec(es, drel, pat, recursive, st, n).2,
    ensures
        scan_spec(es, drel, pat, recursive, st, m) == scan_spec(es, drel, pat, recursive, st, n),
    decreases m - n,
{
    if m > n {
        lemma_scan_stopped(es, drel, pat, recursive, st, n, (m - 1) as nat);
    }
}

/// A queued scan holds at most as many directories as entries looked at,
/// and none when the search does not walk down.
proof fn lemma_scan_queue_len(
    es: Seq<Entry>,
    drel: Seq<Seq<char>>,
    pat: Seq<char>,
    recursive: bool,
    st: WalkState,
    n: nat,
)
    ensures
        scan_spec(es, drel, pat, recursive, st, n).1.len() <= n,
        !recursive ==> scan_spec(es, drel, pat, recursive, st, n).1.len() == 0,
    decreases n,
{
    if n > 0 {
        lemma_scan_queue_len(es, drel, pat, recursive, st, (n - 1) as nat);
    }
}

/// Once the walk is cut short, walking more of the queue changes nothing.
proof fn lemma_kids_walk_stopped(
    t: SearchAnswers,
    drel: Seq<Seq<char>>,
    queued: Seq<Seq<char>>,
    pat: Seq<char>,
    recursive: bool,
    st: WalkState,
    j: nat,
    m: nat,
)
    requires
        j <= m,
        m <= queued.len(),
        m <= t.entries.len(),
        kids_walk(t, drel, queued, pat, recursive, st, j).2,
    ensures
        kids_walk(t, drel, queued, pat, recursive, st, m) == kids_walk(t, drel, queued, pat, recursive, st, j),
    decreases m - j,
{
    if m > j {
        lemma_kids_walk_stopped(t, drel, queued, pat, recursive, st, j, (m - 1) as nat);
    }
}

/// The directory at `dir`, reached as `drel`, walked from where the search
/// stands: its entries looked at in order, then, unless the walk is cut
/// short, the directories it queued, the last queued first.
#[verifier::spinoff_prover]
#[verifier::rlimit(80)]
fn walk_dir<V: Vfs>(
    state: &State<V>,
    vfs: &V,
    dir: &VfsPath,
    drel: &Vec<String>,
    pat: &str,
    recursive: bool,
    scanned: &mut usize,
    results: &mut Vec<(Vec<String>, Entry)>,
    truncated: &mut bool,
) -> (t: Ghost<SearchAnswers>)
    requires
        drel@.len() < SEARCH_MAX_DEPTH,
        !recursive ==> drel@.len() == 0,
        old(results)@.len() <= SEARCH_MAX_RESULTS,
        !*old(truncated),
        *old(scanned) <= SEARCH_MAX_SCANNED,
        forall|i: int| 0 <= i < old(results)@.len() ==> good_match(pat@, recursive, #[trigger] found_view(old(results)@[i])),
    ensures
        final(results)@.len() <= SEARCH_MAX_RESULTS,
        *final(scanned) <= SEARCH_MAX_SCANNED + 1,
        !*final(truncated) ==> *final(scanned) <= SEARCH_MAX_SCANNED,
        forall|i: int| 0 <= i < final(results)@.len() ==> good_match(pat@, recursive, #[trigger] found_view(final(results)@[i])),
        search_fit(t@, state.cfg.show_hidden),
        (*final(scanned) as int, found_keys(final(results)@), *final(truncated)) == walk_spec(
            t@,
            string_views(drel@),
            pat@,
            recursive,
            (*old(scanned) as int, found_keys(old(results)@), false),
        ),
    decreases SEARCH_MAX_DEPTH - drel@.len(),
{
    let entries = match read_dir_sorted(state, vfs, dir) {
        Ok(v) => v,
        Err(_) => Vec::new(),
    };
    let ghost es = entries@;
    let ghost dv = string_views(drel@);
    let ghost st0: WalkState = (*scanned as int, found_keys(results@), false);
    assert(dir_answer(es, state.cfg.show_hidden));
    let mut queue: Vec<(VfsPath, Vec<String>)> = Vec::new();
    let mut stop = false;
    let mut i: usize = 0;
    while i < entries.len() && !stop
        invariant
            i <= es.len(),
            es == entries@,
            dv == string_views(drel@),
            drel@.len() < SEARCH_MAX_DEPTH,
            !recursive ==> drel@.len() == 0,
            (*scanned as int, found_keys(results@), *truncated) == scan_spec(es, dv, pat@, recursive, st0, i as nat).0,
            stop == scan_spec(es, dv, pat@, recursive, st0, i as nat).2,
            stop ==> *truncated,
            queue@.len() == scan_spec(es, dv, pat@, recursive, st0, i as nat).1.len(),
            forall|k: int| 0 <= k < queue@.len() ==> string_views((#[trigger] queue@[k]).1@) == dv.push(
                scan_spec(es, dv, pat@, recursive, st0, i as nat).1[k],
            ),
            forall|k: int| 0 <= k < queue@.len() ==> (#[trigger] queue@[k]).1@.len() < SEARCH_MAX_DEPTH,
            !stop ==> *scanned <= SEARCH_MAX_SCANNED,
            *scanned <= SEARCH_MAX_SCANNED + 1,
            results@.len() <= SEARCH_MAX_RESULTS,
            forall|k: int| 0 <= k < results@.len() ==> good_match(pat@, recursive, #[trigger] found_view(results@[k])),
        decreases es.len() - i,
    {
        let ghost before = results@;
        let ghost qbefore = queue@;
        *scanned = *scanned + 1;
        let e = &entries[i];
        assert(found_keys(results@).len() == results@.len());
        let step = scan_step(*scanned, results.len(), pat, recursive, drel.as_slice(), e);
        assert(es[i as int] == *e);
        match step {
            ScanStep::Stop => {
                *truncated = true;
                stop = true;
            },
            ScanStep::Match => {
                let mut erel = strings_clone(drel.as_slice());
                erel.push(owned(e.name.as_str()));
                let ghost ev = erel@.map_values(|s: String| s@);
                assert(ev =~= drel@.map_values(|s: String| s@).push(e.name@));
                let c = copy_entry(e);
                let ghost fv = (ev, c);
                assert(fv.1.name@ == e.name@);
                assert(ev.last() == e.name@);
                results.push((erel, c));
                assert(found_view(results@[results@.len() - 1]) == fv);
                assert(results@ =~= before.push((erel, c)));
                assert(found_keys(results@) =~= found_keys(before).push((dv.push(e.name@), entry_key(*e))));
            },
            ScanStep::Descend => {
                let mut erel = strings_clone(drel.as_slice());
                erel.push(owned(e.name.as_str()));
                let ghost ev = erel@.map_values(|s: String| s@);
                assert(ev =~= drel@.map_values(|s: String| s@).push(e.name@));
                let next = dir.join(e.name.as_str());
                queue.push((next, erel));
                assert forall|k: int| 0 <= k < queue@.len() implies string_views((#[trigger] queue@[k]).1@) == dv.push(
                    scan_spec(es, dv, pat@, recursive, st0, (i + 1) as nat).1[k],
                ) by {
                    if k < qbefore.len() {
                        assert(queue@[k] == qbefore[k]);
                    }
                }
            },
            ScanStep::TooDeep => {
                *truncated = true;
            },
            ScanStep::Pass => {},
        }
        i = i + 1;
    }
    proof {
        if stop {
            lemma_scan_stopped(es, dv, pat@, recursive, st0, i as nat, es.len());
        }
        lemma_scan_queue_len(es, dv, pat@, recursive, st0, es.len());
    }
    let ghost scan = scan_spec(es, dv, pat@, recursive, st0, es.len());
    let ghost queued = scan.1;
    let ghost s1 = scan.0;
    let ghost mut kids: Seq<SearchAnswers> = Seq::new(queue@.len(), |k: int| blank_answers());
    proof {
        lemma_blank_kids_fit(es, queue@.len(), state.cfg.show_hidden, queue@.len());
    }
    let mut j: usize = 0;
    while j < queue.len() && !*truncated
        invariant
            j <= queue@.len(),
            queue@.len() == queued.len(),
            queued.len() <= es.len(),
            kids.len() == queued.len(),
            dv == string_views(drel@),
            !recursive ==> queue@.len() == 0,
            forall|k: int| 0 <= k < queue@.len() ==> string_views((#[trigger] queue@[k]).1@) == dv.push(queued[k]),
            forall|k: int| 0 <= k < queue@.len() ==> (#[trigger] queue@[k]).1@.len() < SEARCH_MAX_DEPTH,
            (*scanned as int, found_keys(results@), *truncated) == kids_walk(
                SearchAnswers { entries: es, kids },
                dv,
                queued,
                pat@,
                recursive,
                s1,
                j as nat,
            ),
            search_kids_fit(SearchAnswers { entries: es, kids }, state.cfg.show_hidden, kids.len()),
            *scanned <= SEARCH_MAX_SCANNED + 1,
            !*truncated ==> *scanned <= SEARCH_MAX_SCANNED,
            results@.len() <= SEARCH_MAX_RESULTS,
            forall|k: int| 0 <= k < results@.len() ==> good_match(pat@, recursive, #[trigger] found_view(results@[k])),
        decreases queue@.len() - j,
    {
        let k = queue.len() - 1 - j;
        let g = walk_dir(state, vfs, &queue[k].0, &queue[k].1, pat, recursive, scanned, results, truncated);
        proof {
            lemma_kids_walk_update(es, kids, k as int, g@, dv, queued, pat@, recursive, s1, j as nat);
            lemma_kids_fit_update(es, kids, k as int, g@, state.cfg.show_hidden, kids.len());
            kids = kids.update(k as int, g@);
            assert(kids[k as int] == g@);
        }
        j = j + 1;
    }
    proof {
        if j < queue@.len() {
            lemma_kids_walk_stopped(SearchAnswers { entries: es, kids }, dv, queued, pat@, recursive, s1, j as nat, queued.len());
        }
    }
    let ghost t = SearchAnswers { entries: es, kids };
    assert(search_fit(t, state.cfg.show_hidden));
    Ghost(t)
}

/// The matches of `pat` below the directory at `canon`: walked depth first,
/// into directories only when `recursive`, and only so far and so wide —
/// exactly what the walk makes of some run of the backend's answers.
pub fn search_found<V: Vfs>(
    state: &State<V>,
    vfs: &V,
    canon: &VfsPath,
    pat: &str,
    recursive: bool,
) -> (r: (Vec<(Vec<String>, Entry)>, bool))
    ensures
        r.0@.len() <= SEARCH_MAX_RESULTS,
        forall|i: int| 0 <= i < r.0@.len() ==> good_match(pat@, recursive, #[trigger] found_view(r.0@[i])),
        exists|t: SearchAnswers|
            search_fit(t, state.cfg.show_hidden) && #[trigger] walk_from(t, pat@, recursive).1 == found_keys(r.0@)
                && walk_from(t, pat@, recursive).2 == r.1,
{
    let mut results: Vec<(Vec<String>, Entry)> = Vec::new();
    let mut scanned: usize = 0;
    let mut truncated = false;
    let top: Vec<String> = Vec::new();
    assert(found_keys(results@) =~= Seq::<FoundKey>::empty());
    assert(string_views(top@) =~= Seq::<Seq<char>>::empty());
    let t = walk_dir(state, vfs, canon, &top, pat, recursive, &mut scanned, &mut results, &mut truncated);
    assert(walk_from(t@, pat@, recursive).1 == found_keys(results@));
    (results, truncated)
}

/// The results of filtering the directory at `canon` (reached as `rel`) by
/// `pat`.
#[verifier::spinoff_prover]
pub fn search_results<V: Vfs>(
    state: &State<V>,
    vfs: &V,
    rel: &[String],
    canon: &VfsPath,
    pat: &str,
    recursive: bool,
) -> (r: String)
    ensures
        exists|found: Seq<Found>, truncated: bool|
            #![trigger search_spec(string_views(rel@), found, recursive, truncated)]
            found.len() <= SEARCH_MAX_RESULTS && (forall|i: int| 0 <= i < found.len() ==> good_match(pat@, recursive, #[trigger] found[i]))
                && r@ == search_spec(string_views(rel@), found, recursive, truncated) && exists|t: SearchAnswers|
                search_fit(t, state.cfg.show_hidden) && #[trigger] walk_from(t, pat@, recursive).1 == keys_of(found)
                    && walk_from(t, pat@, recursive).2 == truncated,
{
    let (found, truncated) = search_found(state, vfs, canon, pat, recursive);
    let r = search_page(rel, &found, recursive, truncated);
    proof {
        let fv = found@.map_values(|f: (Vec<String>, Entry)| found_view(f));
        assert forall|i: int| 0 <= i < fv.len() implies good_match(pat@, recursive, #[trigger] fv[i]) by {
            assert(fv[i] == found_view(found@[i]));
        }
        assert(r@ == search_spec(string_views(rel@), fv, recursive, truncated));
        assert(keys_of(fv) =~= found_keys(found@));
    }
    r
}

/// Matches as their rows show them.
pub open spec fn keys_of(found: Seq<Found>) -> Seq<FoundKey> {
    found.map_values(|f: Found| (f.0, entry_key(f.1)))
}

// ---------------------------------------------------------------------------
// The listing page

/// A README under an unfiltered listing, drawn.
pub open spec fn readme_spec(md: Seq<char>) -> Seq<char> {
    "<section class=\"listing-readme\"><div class=\"md\">"@ + md + "</div></section>"@
}

/// Whether a README the backend describes and hands over is one to render:
/// a file, small enough, and text in its first bytes.
pub open spec fn readme_fits_spec(is_file: bool, len: u64, bytes: Seq<u8>) -> bool {
    &&& is_file
    &&& len <= MAX_HIGHLIGHT_BYTES
    &&& !crate::util::binary_spec(bytes.take(if bytes.len() < SNIFF_BYTES { bytes.len() as int } else { SNIFF_BYTES as int }))
}

pub fn readme_fits(is_file: bool, len: u64, bytes: &[u8]) -> (r: bool)
    ensures
        r == readme_fits_spec(is_file, len, bytes@),
{
    if !is_file || len > MAX_HIGHLIGHT_BYTES {
        return false;
    }
    let bl = bytes.len();
    let head = if bl < SNIFF_BYTES { bl } else { SNIFF_BYTES };
    !looks_binary(slice_bytes(bytes, head).as_slice())
}

/// A rendered README, in its section under the table.
pub fn readme_section(md: &str) -> (r: String)
    ensures
        r@ == readme_spec(md@),
{
    let mut out = String::new();
    push_str(&mut out, "<section class=\"listing-readme\"><div class=\"md\">");
    push_str(&mut out, md);
    push_str(&mut out, "</div></section>");
    out
}

/// What the backend answered for one README name, in the order the names
/// are tried: its metadata where it gave any, and its bytes where they were
/// asked for and came.
pub type ReadmeAnswer = (Option<Meta>, Option<Seq<u8>>);

/// Whether one name's answers make the README to show: a file no larger
/// than `MAX_HIGHLIGHT_BYTES` whose bytes came and are text.
pub open spec fn readme_takes(a: ReadmeAnswer) -> bool {
    a.0 matches Some(m) && a.1 matches Some(b) && readme_fits_spec(m.is_file, m.len, b)
}

/// Which of the names tried wins: the first whose answers make a README.
pub open spec fn first_readme(answers: Seq<ReadmeAnswer>) -> Option<int>
    decreases answers.len(),
{
    if answers.len() == 0 {
        None
    } else {
        match first_readme(answers.drop_last()) {
            Some(i) => Some(i),
            None => if readme_takes(answers.last()) {
                Some(answers.len() - 1)
            } else {
                None
            },
        }
    }
}

/// What a listing shows under its table, given the answers for the names
/// tried (`README.md`, `README.markdown`, `README.mdown`, `README.mkd`, in
/// that order, stopping at the first that wins): that one rendered, or
/// nothing where none wins. Bytes are asked for only of a name the backend
/// called a file small enough.
pub open spec fn readme_from(answers: Seq<ReadmeAnswer>, app_ui: bool, raw: RawHtml, r: Seq<char>) -> bool {
    &&& answers.len() <= 4
    &&& forall|i: int| 0 <= i < answers.len() && (#[trigger] answers[i]).1 is Some ==> (answers[i].0 matches Some(m)
        && m.is_file && m.len <= MAX_HIGHLIGHT_BYTES)
    &&& match first_readme(answers) {
        Some(i) => i == answers.len() - 1 && exists|md: Seq<char>|
            #[trigger] readme_md(crate::util::text_of(answers[i].1->0), app_ui, raw, md) && r == readme_spec(md),
        None => answers.len() == 4 && r.len() == 0,
    }
}

/// A README's text as a listing renders it: links out of the tree open in a
/// tab of their own but in the app's window.
pub open spec fn readme_md(text: Seq<char>, app_ui: bool, raw: RawHtml, md: Seq<char>) -> bool {
    crate::markdown::markdown_of(text, !app_ui, raw, md)
}

/// A README as some run of answers makes it.
pub open spec fn readme_shown(r: Seq<char>, app_ui: bool, raw: RawHtml) -> bool {
    exists|answers: Seq<ReadmeAnswer>| #[trigger] readme_from(answers, app_ui, raw, r)
}

/// The first of the README names that is a file small enough to render and
/// is text, rendered; nothing where there is none — so the table still
/// stands on its own. What the backend says of each name decides which one;
/// what is made of its answers is [`readme_fits`] and [`readme_section`].
pub fn listing_readme<V: Vfs>(state: &State<V>, vfs: &V, dir: &VfsPath) -> (r: String)
    ensures
        readme_shown(r@, state.cfg.app_ui, crate::md::raw_html_for(vfs.is_on_this_device())),
{
    let names: Vec<&'static str> = vec!["README.md", "README.markdown", "README.mdown", "README.mkd"];
    let ghost mut answers: Seq<ReadmeAnswer> = Seq::empty();
    let mut i: usize = 0;
    while i < names.len()
        invariant
            names@.len() == 4,
            i <= names@.len(),
            answers.len() == i,
            first_readme(answers) is None,
            forall|j: int| 0 <= j < answers.len() && (#[trigger] answers[j]).1 is Some ==> (answers[j].0 matches Some(m)
                && m.is_file && m.len <= MAX_HIGHLIGHT_BYTES),
        decreases names@.len() - i,
    {
        let path = dir.join(names[i]);
        i = i + 1;
        let ghost before = answers;
        let meta = match vfs.metadata(&path) {
            Ok(m) => m,
            Err(_) => {
                proof {
                    answers = before.push((None, None));
                    assert(answers.drop_last() =~= before);
                }
                continue;
            },
        };
        if !meta.is_file || meta.len > MAX_HIGHLIGHT_BYTES {
            proof {
                answers = before.push((Some(meta), None));
                assert(answers.drop_last() =~= before);
            }
            continue;
        }
        let bytes = match vfs.read(&path) {
            Ok(b) => b,
            Err(_) => {
                proof {
                    answers = before.push((Some(meta), None));
                    assert(answers.drop_last() =~= before);
                }
                continue;
            },
        };
        proof {
            answers = before.push((Some(meta), Some(bytes@)));
            assert(answers.drop_last() =~= before);
        }
        if !readme_fits(meta.is_file, meta.len, bytes.as_slice()) {
            continue;
        }
        let text = utf8_lossy(bytes.as_slice());
        let raw = RawHtml::of(vfs);
        let md = crate::markdown::render_markdown(text.as_str(), !state.cfg.app_ui, raw);
        let r = readme_section(md.as_str());
        assert(readme_md(crate::util::text_of(answers.last().1->0), state.cfg.app_ui, raw, md@));
        assert(readme_from(answers, state.cfg.app_ui, raw, r@));
        return r;
    }
    let r = String::new();
    assert(readme_from(answers, state.cfg.app_ui, crate::md::raw_html_for(vfs.is_on_this_device()), r@));
    r
}

/// The first `n` bytes of `b`.
pub fn slice_bytes(b: &[u8], n: usize) -> (r: Vec<u8>)
    requires
        n <= b@.len(),
    ensures
        r@ == b@.take(n as int),
{
    let mut out: Vec<u8> = Vec::new();
    let mut i: usize = 0;
    while i < n
        invariant
            i <= n,
            n <= b@.len(),
            out@ == b@.take(i as int),
        decreases n - i,
    {
        out.push(b[i]);
        assert(b@.take(i + 1) =~= b@.take(i as int).push(b@[i as int]));
        i = i + 1;
    }
    out
}

/// The filter form over a listing: the pattern, whether to walk down, and a
/// way back to the whole listing while a pattern is in.
pub open spec fn filter_form(q: Seq<char>, recursive: bool, rel: Seq<Seq<char>>) -> Seq<char> {
    "<form class=\"filter\" method=\"get\">\n<input type=\"text\" name=\"q\" value=\""@ + html_escaped(q)
        + "\" placeholder=\"glob, e.g. *.rs\" aria-label=\"filter pattern\">\n<label><input type=\"checkbox\" name=\"r\" value=\"1\""@
        + (if recursive {
        " checked"@
    } else {
        Seq::empty()
    }) + "> recursive</label>\n<button>Filter</button>"@ + (if q.len() == 0 {
        Seq::empty()
    } else {
        " <a href=\""@ + html_escaped(strip_end(href_spec(rel), '/')) + "/\">clear</a>"@
    }) + "\n</form>\n"@
}

/// What a listing page holds under its form: with no pattern, the table and
/// any README; with one, what the search found.
pub open spec fn listing_body<V>(
    cfg: Config<V>,
    raw: RawHtml,
    body: Seq<char>,
    q: Seq<char>,
    recursive: bool,
    rel: Seq<Seq<char>>,
) -> bool {
    if q.len() == 0 {
        exists|table: Seq<char>, readme: Seq<char>|
            #![trigger listing_table(cfg, rel, table), readme_shown(readme, cfg.app_ui, raw)]
            listing_table(cfg, rel, table) && readme_shown(readme, cfg.app_ui, raw) && body == table + readme
    } else {
        exists|found: Seq<Found>, truncated: bool|
            #![trigger search_spec(rel, found, recursive, truncated)]
            found.len() <= SEARCH_MAX_RESULTS && (forall|i: int| 0 <= i < found.len() ==> good_match(q, recursive, #[trigger] found[i]))
                && body == search_spec(rel, found, recursive, truncated) && exists|t: SearchAnswers|
                search_fit(t, cfg.show_hidden) && #[trigger] walk_from(t, q, recursive).1 == keys_of(found)
                    && walk_from(t, q, recursive).2 == truncated
    }
}

/// A listing's table, over some listing the backend gave, or the sentence
/// standing in for it where the backend would not list the directory.
pub open spec fn listing_table<V>(cfg: Config<V>, rel: Seq<Seq<char>>, t: Seq<char>) -> bool {
    (exists|found: Seq<Entry>| t == #[trigger] table_spec(rel, listed(shown(found, cfg.show_hidden))))
        || (exists|k: Refusal| t == #[trigger] unread_table_spec(k))
}

fn filter_form_html(q: &str, recursive: bool, rel: &[String]) -> (r: String)
    ensures
        r@ == filter_form(q@, recursive, rel@.map_values(|s: String| s@)),
{
    let mut out = String::new();
    push_str(&mut out, "<form class=\"filter\" method=\"get\">\n<input type=\"text\" name=\"q\" value=\"");
    push_str(&mut out, html_escape(q).as_str());
    push_str(&mut out, "\" placeholder=\"glob, e.g. *.rs\" aria-label=\"filter pattern\">\n<label><input type=\"checkbox\" name=\"r\" value=\"1\"");
    if recursive {
        push_str(&mut out, " checked");
    }
    push_str(&mut out, "> recursive</label>\n<button>Filter</button>");
    if chars_of(q).len() > 0 {
        push_str(&mut out, " <a href=\"");
        push_str(&mut out, html_escape(strip_end_of(href_path(rel).as_str(), '/').as_str()).as_str());
        push_str(&mut out, "/\">clear</a>");
    }
    push_str(&mut out, "\n</form>\n");
    out
}

/// What a query asks of a listing: the pattern (none where absent), and
/// whether to walk down.
pub open spec fn filter_of(query: Seq<(Seq<char>, Seq<char>)>) -> (Seq<char>, bool) {
    (
        match lookup(query, "q"@) {
            Some(v) => v,
            None => Seq::empty(),
        },
        lookup(query, "r"@) == Some("1"@),
    )
}

/// A directory's page: the filter form, and under it the listing — or the
/// matches, where a pattern is in.
#[verifier::spinoff_prover]
pub fn listing_page<V: Vfs>(
    state: &State<V>,
    root: &Root<V>,
    prefs: Prefs,
    rel: &[String],
    canon: &VfsPath,
    query: &[(String, String)],
    url_now: &str,
) -> (r: String)
    ensures
        exists|body: Seq<char>|
            #![trigger listing_body(state.cfg, crate::md::raw_html_for(root.vfs.is_on_this_device()), body, filter_of(view_pairs(query@)).0, filter_of(view_pairs(query@)).1, string_views(rel@))]
            listing_body(state.cfg, crate::md::raw_html_for(root.vfs.is_on_this_device()), body, filter_of(view_pairs(query@)).0, filter_of(view_pairs(query@)).1, string_views(rel@))
                && is_layout(
                r@,
                state.cfg,
                root.id@,
                prefs.theme,
                prefs.ln,
                prefs.sidebar,
                string_views(prefs.open@),
                string_views(rel@),
                url_now@,
                Seq::empty(),
                false,
                filter_form(filter_of(view_pairs(query@)).0, filter_of(view_pairs(query@)).1, string_views(rel@)) + body,
            ),
{
    proof {
        reveal_strlit("");
        reveal_strlit("1");
        assert(""@ =~= Seq::<char>::empty());
    }
    let vfs = vfs_of(root);
    let q = match query_get(query, "q") {
        Some(v) => v,
        None => "",
    };
    let recursive = match query_get(query, "r") {
        Some(v) => str_eq(v, "1"),
        None => false,
    };
    let ghost rv = string_views(rel@);
    assert(q@ == filter_of(view_pairs(query@)).0);
    assert(recursive == filter_of(view_pairs(query@)).1);
    let mut content = filter_form_html(q, recursive, rel);
    let ghost form = content@;
    let body = if chars_of(q).len() == 0 {
        let mut b = entries_table(state, vfs, rel, canon);
        let ghost t = b@;
        let readme = listing_readme(state, vfs, canon);
        push_str(&mut b, readme.as_str());
        proof {
            assert(rel@.map_values(|s: String| s@) == rv);
            assert(listing_table(state.cfg, rv, t));
            assert(readme_shown(readme@, state.cfg.app_ui, crate::md::raw_html_for(root.vfs.is_on_this_device())));
            assert(b@ == t + readme@);
        }
        b
    } else {
        search_results(state, vfs, rel, canon, q, recursive)
    };
    assert(listing_body(state.cfg, crate::md::raw_html_for(root.vfs.is_on_this_device()), body@, q@, recursive, rv));
    push_str(&mut content, body.as_str());
    layout(state, root, prefs, rel, url_now, "", false, content.as_str())
}

} // verus!
