//! Markdown documents as HTML. comrak renders the document, with the options
//! decided here; what the pages make of that rendering is decided here too,
//! over the HTML comrak wrote: a document's own HTML, which comrak leaves out
//! as a marker, is put back from comrak's tree for a document from this
//! device (less the tags GitHub's dialect refuses), formulas become MathML,
//! diagrams become figures, code is coloured, links out of the tree open in a
//! tab of their own, and any URL comrak would refuse is emptied.

use vstd::prelude::*;
use crate::util::{
    chars_of, string_of, push_str, push_char, find_from, find_seq, occurs_at, find_chars_from, starts_at, slice_vec,
    lemma_find_from, lowercase, to_lowercase, str_eq,
};
use crate::md::{
    RawHtml, mathml_spec, latex_to_mathml, expand_tex_delimiters, tex_expanded, render_mermaid_figure,
    without_dangerous_attrs, scrubbed, leaves_the_tree, leaves_spec,
};
use crate::view::mermaid_drawn;
use crate::page::{strip_end, strip_end_of};
use crate::hl::{highlight, highlighted, CLASS_PREFIX};

verus! {

/// Which of comrak's options a rendering turns on.
#[derive(Clone, Copy, Debug, PartialEq, Eq, Structural)]
pub struct MdFlags {
    /// GitHub's dialect: strikethrough, tables, autolinks, task lists and
    /// their classes.
    pub gfm: bool,
    pub footnotes: bool,
    pub alerts: bool,
    /// `$…$`, `$$…$$` and math in code spans.
    pub math: bool,
    /// Headings carry ids, with no prefix.
    pub heading_ids: bool,
    /// Raw HTML is shown as text; otherwise comrak leaves its marker comment
    /// in its place, and the library puts the HTML back (see `restore_raw`).
    pub escape: bool,
}

/// The options a page's documents are rendered with: GitHub's dialect,
/// footnotes, alerts, math, heading ids; raw HTML shown as text for a
/// document that came from somewhere else.
pub open spec fn page_flags(raw: RawHtml) -> MdFlags {
    MdFlags {
        gfm: true,
        footnotes: true,
        alerts: true,
        math: true,
        heading_ids: true,
        escape: raw == RawHtml::Show,
    }
}

fn flags_for(raw: RawHtml) -> (r: MdFlags)
    ensures
        r == page_flags(raw),
{
    MdFlags {
        gfm: true,
        footnotes: true,
        alerts: true,
        math: true,
        heading_ids: true,
        escape: match raw {
            RawHtml::Show => true,
            RawHtml::Draw => false,
        },
    }
}

/// What `comrak::markdown_to_html` writes for a document, with the options
/// the flags turn on and every other option at comrak's default.
pub uninterp spec fn comrak_rendered(
    src: Seq<char>,
    gfm: bool,
    footnotes: bool,
    alerts: bool,
    math: bool,
    heading_ids: bool,
    escape: bool,
) -> Seq<char>;

pub open spec fn comrak_html_of(src: Seq<char>, f: MdFlags) -> Seq<char> {
    comrak_rendered(src, f.gfm, f.footnotes, f.alerts, f.math, f.heading_ids, f.escape)
}

/// `comrak::markdown_to_html`. Claimed: the HTML is the one named by
/// `comrak_rendered` for the text and the flags, which set strikethrough,
/// tables, autolinks, task lists, GFM quirks and task-list classes (`gfm`),
/// footnotes, alerts, dollar and code math (`math`), an empty heading-id
/// prefix (`heading_ids`) and escaping of raw HTML (`escape`).
#[verifier::external_body]
fn comrak_html(src: &str, f: MdFlags) -> (r: String)
    ensures
        r@ == comrak_rendered(src@, f.gfm, f.footnotes, f.alerts, f.math, f.heading_ids, f.escape),
{
    let mut o = comrak::Options::default();
    o.extension.strikethrough = f.gfm;
    o.extension.table = f.gfm;
    o.extension.autolink = f.gfm;
    o.extension.tasklist = f.gfm;
    o.render.gfm_quirks = f.gfm;
    o.render.tasklist_classes = f.gfm;
    o.extension.footnotes = f.footnotes;
    o.extension.alerts = f.alerts;
    o.extension.math_dollars = f.math;
    o.extension.math_code = f.math;
    o.extension.header_id_prefix = if f.heading_ids { Some(String::new()) } else { None };
    o.render.escape = f.escape;
    comrak::markdown_to_html(src, &o)
}

/// For each node of the tree `comrak::parse_document` builds for a document,
/// in the order the tree is walked: the text of raw HTML, with whether it is
/// a block, and `None` for any other node.
pub uninterp spec fn comrak_raw_nodes(src: Seq<char>, gfm: bool, footnotes: bool, math: bool) -> Seq<Option<(bool, Seq<char>)>>;

pub open spec fn piece_view(p: Option<(bool, String)>) -> Option<(bool, Seq<char>)> {
    match p {
        Some(q) => Some((q.0, q.1@)),
        None => None,
    }
}

/// `comrak::parse_document`, then its nodes in `descendants` order, each
/// taken to its raw HTML. Claimed: the list is the one named by
/// `comrak_raw_nodes`, for the options that shape the tree as
/// `comrak_html` sets them (strikethrough, tables and autolinks for `gfm`,
/// footnotes, dollar and code math for `math`).
#[verifier::external_body]
fn comrak_raw_html(src: &str, f: MdFlags) -> (r: Vec<Option<(bool, String)>>)
    ensures
        r@.map_values(|p: Option<(bool, String)>| piece_view(p)) == comrak_raw_nodes(src@, f.gfm, f.footnotes, f.math),
{
    let mut o = comrak::Options::default();
    o.extension.strikethrough = f.gfm;
    o.extension.table = f.gfm;
    o.extension.autolink = f.gfm;
    o.extension.footnotes = f.footnotes;
    o.extension.math_dollars = f.math;
    o.extension.math_code = f.math;
    let arena = comrak::Arena::new();
    let root = comrak::parse_document(&arena, src, &o);
    root.descendants().map(|n| match &n.data().value {
        comrak::nodes::NodeValue::HtmlBlock(b) => Some((true, b.literal.clone())),
        comrak::nodes::NodeValue::HtmlInline(t) => Some((false, t.clone())),
        _ => None,
    }).collect()
}

// ---------------------------------------------------------------------------
// Text comrak escaped

/// Text as comrak escaped it, back: `&quot;`, `&amp;`, `&lt;` and `&gt;` as
/// the characters they stand for.
pub open spec fn unescaped(s: Seq<char>) -> Seq<char>
    decreases s.len(),
{
    if s.len() == 0 {
        s
    } else if occurs_at(s, 0, seq!['&', 'q', 'u', 'o', 't', ';']) {
        seq!['"'] + unescaped(s.skip(6))
    } else if occurs_at(s, 0, seq!['&', 'a', 'm', 'p', ';']) {
        seq!['&'] + unescaped(s.skip(5))
    } else if occurs_at(s, 0, seq!['&', 'l', 't', ';']) {
        seq!['<'] + unescaped(s.skip(4))
    } else if occurs_at(s, 0, seq!['&', 'g', 't', ';']) {
        seq!['>'] + unescaped(s.skip(4))
    } else {
        seq![s[0]] + unescaped(s.skip(1))
    }
}

proof fn lemma_occurs_skip(s: Seq<char>, i: int, pat: Seq<char>)
    requires
        0 <= i <= s.len(),
    ensures
        occurs_at(s, i, pat) == occurs_at(s.skip(i), 0, pat),
{
    if i + pat.len() <= s.len() {
        assert(s.skip(i).subrange(0, pat.len() as int) =~= s.subrange(i, i + pat.len()));
    }
}

pub fn unescape(v: &[char]) -> (r: String)
    ensures
        r@ == unescaped(v@),
{
    let quot: Vec<char> = vec!['&', 'q', 'u', 'o', 't', ';'];
    let amp: Vec<char> = vec!['&', 'a', 'm', 'p', ';'];
    let lt: Vec<char> = vec!['&', 'l', 't', ';'];
    let gt: Vec<char> = vec!['&', 'g', 't', ';'];
    assert(quot@ =~= seq!['&', 'q', 'u', 'o', 't', ';']);
    assert(amp@ =~= seq!['&', 'a', 'm', 'p', ';']);
    assert(lt@ =~= seq!['&', 'l', 't', ';']);
    assert(gt@ =~= seq!['&', 'g', 't', ';']);
    let mut out: Vec<char> = Vec::new();
    let mut i: usize = 0;
    assert(v@.skip(0) =~= v@);
    while i < v.len()
        invariant
            i <= v@.len(),
            quot@ == seq!['&', 'q', 'u', 'o', 't', ';'],
            amp@ == seq!['&', 'a', 'm', 'p', ';'],
            lt@ == seq!['&', 'l', 't', ';'],
            gt@ == seq!['&', 'g', 't', ';'],
            unescaped(v@) == out@ + unescaped(v@.skip(i as int)),
        decreases v@.len() - i,
    {
        let ghost rest = v@.skip(i as int);
        proof {
            lemma_occurs_skip(v@, i as int, quot@);
            lemma_occurs_skip(v@, i as int, amp@);
            lemma_occurs_skip(v@, i as int, lt@);
            lemma_occurs_skip(v@, i as int, gt@);
        }
        let ghost before = out@;
        let step: usize;
        if starts_at(v, i, quot.as_slice()) {
            out.push('"');
            step = 6;
        } else if starts_at(v, i, amp.as_slice()) {
            out.push('&');
            step = 5;
        } else if starts_at(v, i, lt.as_slice()) {
            out.push('<');
            step = 4;
        } else if starts_at(v, i, gt.as_slice()) {
            out.push('>');
            step = 4;
        } else {
            out.push(v[i]);
            step = 1;
        }
        proof {
            assert(rest.skip(step as int) =~= v@.skip(i + step));
            assert(rest[0] == v@[i as int]);
            assert(out@ =~= before + seq![out@.last()]);
        }
        i = i + step;
    }
    string_of(out.as_slice())
}

// ---------------------------------------------------------------------------
// Rewriting the regions between two markers

/// The rewrites a rendered document goes through, in this order, each over
/// the regions between one opening and one closing marker.
#[derive(Clone, Copy, Debug, PartialEq, Eq, Structural)]
pub enum Pass {
    /// A ```` ```math ```` fence: display math, as a block.
    MathFence,
    /// A paragraph holding nothing but `$$…$$`: the formula replaces it.
    DisplayParagraph,
    /// The same, for display math written in a code span.
    DisplayCodeParagraph,
    /// `$$…$$` among other text: display math, kept inline.
    DisplaySpan,
    DisplayCode,
    /// `$…$`: inline math.
    InlineSpan,
    InlineCode,
    /// A fence with a language: a diagram where it is mermaid, else code
    /// coloured as that language.
    Fence,
    /// A fence or an indented block without one: coloured as plain text.
    PlainFence,
    /// A link: opened in a tab of its own where it leaves the tree and the
    /// page asks for that.
    Link,
}

pub open spec fn pass_open(p: Pass) -> Seq<char> {
    match p {
        Pass::MathFence => "<pre><code class=\"language-math\" data-math-style=\"display\">"@,
        Pass::DisplayParagraph => "<p><span data-math-style=\"display\">"@,
        Pass::DisplayCodeParagraph => "<p><code data-math-style=\"display\">"@,
        Pass::DisplaySpan => "<span data-math-style=\"display\">"@,
        Pass::DisplayCode => "<code data-math-style=\"display\">"@,
        Pass::InlineSpan => "<span data-math-style=\"inline\">"@,
        Pass::InlineCode => "<code data-math-style=\"inline\">"@,
        Pass::Fence => "<pre><code class=\"language-"@,
        Pass::PlainFence => "<pre><code>"@,
        Pass::Link => "<a href=\""@,
    }
}

pub open spec fn pass_close(p: Pass) -> Seq<char> {
    match p {
        Pass::MathFence | Pass::Fence | Pass::PlainFence => "</code></pre>"@,
        Pass::DisplayParagraph => "</span></p>"@,
        Pass::DisplayCodeParagraph => "</code></p>"@,
        Pass::DisplaySpan | Pass::InlineSpan => "</span>"@,
        Pass::DisplayCode | Pass::InlineCode => "</code>"@,
        Pass::Link => "\""@,
    }
}

fn pass_open_str(p: Pass) -> (r: &'static str)
    ensures
        r@ == pass_open(p),
{
    match p {
        Pass::MathFence => "<pre><code class=\"language-math\" data-math-style=\"display\">",
        Pass::DisplayParagraph => "<p><span data-math-style=\"display\">",
        Pass::DisplayCodeParagraph => "<p><code data-math-style=\"display\">",
        Pass::DisplaySpan => "<span data-math-style=\"display\">",
        Pass::DisplayCode => "<code data-math-style=\"display\">",
        Pass::InlineSpan => "<span data-math-style=\"inline\">",
        Pass::InlineCode => "<code data-math-style=\"inline\">",
        Pass::Fence => "<pre><code class=\"language-",
        Pass::PlainFence => "<pre><code>",
        Pass::Link => "<a href=\"",
    }
}

fn pass_close_str(p: Pass) -> (r: &'static str)
    ensures
        r@ == pass_close(p),
{
    match p {
        Pass::MathFence | Pass::Fence | Pass::PlainFence => "</code></pre>",
        Pass::DisplayParagraph => "</span></p>",
        Pass::DisplayCodeParagraph => "</code></p>",
        Pass::DisplaySpan | Pass::InlineSpan => "</span>",
        Pass::DisplayCode | Pass::InlineCode => "</code>",
        Pass::Link => "\"",
    }
}

/// A formula as a block of its own.
pub open spec fn math_block(inner: Seq<char>) -> Seq<char> {
    "<div class=\"math-block\">"@ + mathml_spec(unescaped(inner), true) + "</div>"@
}

/// What one region becomes, given what lies between its markers.
pub open spec fn piece_of(p: Pass, inner: Seq<char>, tabs: bool, piece: Seq<char>) -> bool {
    match p {
        Pass::MathFence => piece == math_block(inner),
        Pass::DisplayParagraph | Pass::DisplayCodeParagraph => if inner.contains('<') {
            piece == pass_open(p) + inner + pass_close(p)
        } else {
            piece == math_block(inner)
        },
        Pass::DisplaySpan | Pass::DisplayCode => piece == mathml_spec(unescaped(inner), true),
        Pass::InlineSpan | Pass::InlineCode => piece == mathml_spec(unescaped(inner), false),
        Pass::Fence => match find_seq(inner, "\">"@) {
            None => piece == pass_open(p) + inner + pass_close(p),
            Some(k) => {
                let lang = unescaped(inner.take(k));
                let body = unescaped(inner.skip(k + 2));
                if lowercase(lang) == "mermaid"@ {
                    mermaid_drawn(strip_end(body, '\n'), piece)
                } else {
                    piece == "<pre class=\"hl-code\"><code class=\"language-"@ + inner.take(k) + "\">"@ + highlighted(
                        CLASS_PREFIX@,
                        lang,
                        body,
                    ) + "</code></pre>"@
                }
            },
        },
        Pass::PlainFence => piece == "<pre class=\"hl-code\"><code>"@ + highlighted(
            CLASS_PREFIX@,
            "Plain Text"@,
            unescaped(inner),
        ) + "</code></pre>"@,
        Pass::Link => piece == "<a href=\""@ + inner + (if tabs && leaves_spec(unescaped(inner)) {
            "\" target=\"_blank\" rel=\"noopener noreferrer"@
        } else {
            Seq::empty()
        }) + "\""@,
    }
}

fn apply_pass(p: Pass, inner: &[char], tabs: bool) -> (r: String)
    ensures
        piece_of(p, inner@, tabs, r@),
{
    match p {
        Pass::MathFence => math_block_of(inner),
        Pass::DisplayParagraph | Pass::DisplayCodeParagraph => {
            match crate::util::find_char(inner, '<') {
                Some(i) => {
                    assert(inner@[i as int] == '<');
                    assert(inner@.contains('<'));
                    let mut out = String::new();
                    push_str(&mut out, pass_open_str(p));
                    push_str(&mut out, string_of(inner).as_str());
                    push_str(&mut out, pass_close_str(p));
                    out
                },
                None => {
                    proof {
                        crate::util::lemma_first_index(inner@, '<');
                    }
                    math_block_of(inner)
                },
            }
        },
        Pass::DisplaySpan | Pass::DisplayCode => latex_to_mathml(unescape(inner).as_str(), true),
        Pass::InlineSpan | Pass::InlineCode => latex_to_mathml(unescape(inner).as_str(), false),
        Pass::Fence => {
            let mark: Vec<char> = vec!['"', '>'];
            proof {
                reveal_strlit("\">");
                assert(mark@ =~= "\">"@);
            }
            match find_chars_from(inner, mark.as_slice(), 0) {
                None => {
                    let mut out = String::new();
                    push_str(&mut out, pass_open_str(p));
                    push_str(&mut out, string_of(inner).as_str());
                    push_str(&mut out, pass_close_str(p));
                    out
                },
                Some(k) => {
                    proof {
                        lemma_find_from(inner@, mark@, 0);
                    }
                    let raw_lang = slice_vec(inner, 0, k);
                    proof {
                        let kk = find_from(inner@, mark@, 0)->0;
                        assert(kk <= inner@.len() && inner@.len() == inner.len());
                        assert(find_from(inner@, mark@, 0) == Some(k as int));
                        assert(occurs_at(inner@, k as int, mark@));
                    }
                    let raw_body = slice_vec(inner, k + 2, inner.len());
                    assert(raw_lang@ =~= inner@.take(k as int));
                    assert(raw_body@ =~= inner@.skip(k + 2));
                    let lang = unescape(raw_lang.as_slice());
                    let body = unescape(raw_body.as_slice());
                    if str_eq(to_lowercase(lang.as_str()).as_str(), "mermaid") {
                        render_mermaid_figure(strip_end_of(body.as_str(), '\n').as_str())
                    } else {
                        let mut out = String::new();
                        push_str(&mut out, "<pre class=\"hl-code\"><code class=\"language-");
                        push_str(&mut out, string_of(raw_lang.as_slice()).as_str());
                        push_str(&mut out, "\">");
                        push_str(&mut out, highlight(lang.as_str(), body.as_str()).as_str());
                        push_str(&mut out, "</code></pre>");
                        out
                    }
                },
            }
        },
        Pass::PlainFence => {
            let mut out = String::new();
            push_str(&mut out, "<pre class=\"hl-code\"><code>");
            push_str(&mut out, highlight("Plain Text", unescape(inner).as_str()).as_str());
            push_str(&mut out, "</code></pre>");
            out
        },
        Pass::Link => {
            let url = string_of(inner);
            let mut out = String::new();
            push_str(&mut out, "<a href=\"");
            push_str(&mut out, url.as_str());
            if tabs && leaves_the_tree(unescape(inner).as_str()) {
                push_str(&mut out, "\" target=\"_blank\" rel=\"noopener noreferrer");
            }
            push_str(&mut out, "\"");
            proof {
                reveal_strlit("");
            }
            out
        },
    }
}

fn math_block_of(inner: &[char]) -> (r: String)
    ensures
        r@ == math_block(inner@),
{
    let mut out = String::new();
    push_str(&mut out, "<div class=\"math-block\">");
    push_str(&mut out, latex_to_mathml(unescape(inner).as_str(), true).as_str());
    push_str(&mut out, "</div>");
    out
}

/// The regions of `s` a pass rewrites, in order: what comes before each, and
/// what lies between its markers. A region opens at the first opening marker
/// and closes at the first closing marker after it.
pub open spec fn regions_from(s: Seq<char>, p: Pass) -> Seq<(Seq<char>, Seq<char>)>
    decreases s.len(),
{
    let o = pass_open(p);
    let c = pass_close(p);
    if o.len() == 0 {
        Seq::empty()
    } else {
        match find_seq(s, o) {
            None => Seq::empty(),
            Some(i) => if i < 0 || i + o.len() > s.len() {
                Seq::empty()
            } else {
                let rest = s.skip(i + o.len());
                match find_seq(rest, c) {
                    None => Seq::empty(),
                    Some(j) => if j < 0 || j + c.len() > rest.len() {
                        Seq::empty()
                    } else {
                        seq![(s.take(i), rest.take(j))] + regions_from(rest.skip(j + c.len()), p)
                    },
                }
            },
        }
    }
}

/// What follows the last region a pass rewrites.
pub open spec fn tail_of(s: Seq<char>, p: Pass) -> Seq<char>
    decreases s.len(),
{
    let o = pass_open(p);
    let c = pass_close(p);
    if o.len() == 0 {
        s
    } else {
        match find_seq(s, o) {
            None => s,
            Some(i) => if i < 0 || i + o.len() > s.len() {
                s
            } else {
                let rest = s.skip(i + o.len());
                match find_seq(rest, c) {
                    None => s,
                    Some(j) => if j < 0 || j + c.len() > rest.len() {
                        s
                    } else {
                        tail_of(rest.skip(j + c.len()), p)
                    },
                }
            },
        }
    }
}

/// The first `n` regions, each replaced by its piece.
pub open spec fn joined(regs: Seq<(Seq<char>, Seq<char>)>, pieces: Seq<Seq<char>>, n: nat) -> Seq<char>
    decreases n,
{
    if n == 0 || n > regs.len() || n > pieces.len() {
        Seq::empty()
    } else {
        joined(regs, pieces, (n - 1) as nat) + regs[n - 1].0 + pieces[n - 1]
    }
}

proof fn lemma_joined_prefix(regs: Seq<(Seq<char>, Seq<char>)>, pieces: Seq<Seq<char>>, x: Seq<char>, n: nat)
    requires
        n <= pieces.len(),
    ensures
        joined(regs, pieces.push(x), n) == joined(regs, pieces, n),
    decreases n,
{
    if n > 0 {
        lemma_joined_prefix(regs, pieces, x, (n - 1) as nat);
        assert(pieces.push(x)[n - 1] == pieces[n - 1]);
    }
}

/// `r` is `s` with every region a pass finds replaced by what it becomes.
pub open spec fn rewritten_by(s: Seq<char>, p: Pass, tabs: bool, r: Seq<char>) -> bool {
    let regs = regions_from(s, p);
    exists|pieces: Seq<Seq<char>>|
        #![trigger joined(regs, pieces, regs.len())]
        pieces.len() == regs.len() && (forall|k: int| 0 <= k < regs.len() ==> #[trigger] piece_of(p, regs[k].1, tabs, pieces[k]))
            && r == joined(regs, pieces, regs.len()) + tail_of(s, p)
}

#[verifier::rlimit(60)]
pub fn rewrite(s: &str, p: Pass, tabs: bool) -> (r: String)
    ensures
        rewritten_by(s@, p, tabs, r@),
{
    let vv = chars_of(s);
    let ov = chars_of(pass_open_str(p));
    let cv = chars_of(pass_close_str(p));
    let v = vv.as_slice();
    let o = ov.as_slice();
    let c = cv.as_slice();
    let vlen = v.len();
    let ghost regs = regions_from(v@, p);
    if o.len() == 0 {
        let r = string_of(v);
        proof {
            let pieces = Seq::<Seq<char>>::empty();
            assert(regs.len() == 0);
            assert(r@ == joined(regs, pieces, regs.len()) + tail_of(v@, p));
        }
        return r;
    }
    let ghost mut pieces: Seq<Seq<char>> = Seq::empty();
    let mut out = String::new();
    let mut pos: usize = 0;
    assert(v@.skip(0) =~= v@);
    assert(v@ == s@);
    assert(regs.take(0) + regions_from(v@.skip(0), p) =~= regs);
    loop
        invariant
            pos <= v@.len(),
            o@ == pass_open(p),
            c@ == pass_close(p),
            o@.len() > 0,
            vlen == v@.len(),
            v@ == s@,
            regs == regions_from(v@, p),
            pieces.len() <= regs.len(),
            regs == regs.take(pieces.len() as int) + regions_from(v@.skip(pos as int), p),
            tail_of(v@, p) == tail_of(v@.skip(pos as int), p),
            forall|k: int| 0 <= k < pieces.len() ==> #[trigger] piece_of(p, regs[k].1, tabs, pieces[k]),
            out@ == joined(regs, pieces, pieces.len()),
        decreases v@.len() - pos,
    {
        let ghost rest0 = v@.skip(pos as int);
        let found = find_chars_from(v, o, pos);
        proof {
            lemma_find_from(v@, o@, pos as int);
            lemma_find_shift(v@, o@, pos as int, pos as int);
            assert(rest0.len() == v@.len() - pos);
        }
        match found {
            None => {
                let tail = slice_vec(v, pos, v.len());
                let ghost n = pieces.len();
                push_str(&mut out, string_of(tail.as_slice()).as_str());
                proof {
                    assert(find_seq(rest0, o@) is None);
                    assert(tail@ =~= rest0);
                    assert(regions_from(rest0, p) =~= Seq::<(Seq<char>, Seq<char>)>::empty());
                    assert(tail_of(rest0, p) == rest0);
                    assert(regs =~= regs.take(n as int));
                    assert(pieces.len() == regs.len());
                    assert(out@ == joined(regs, pieces, regs.len()) + tail_of(v@, p));
                    assert(forall|k: int| 0 <= k < regs.len() ==> #[trigger] piece_of(p, regs[k].1, tabs, pieces[k]));
                    assert(rewritten_by(s@, p, tabs, out@));
                }
                return out;
            },
            Some(k) => {
                proof {
                    assert(find_from(v@, o@, pos as int) is Some);
                    let kk = find_from(v@, o@, pos as int)->0;
                    assert(kk <= v@.len() && v@.len() == vlen);
                    assert(found == Some(kk as usize));
                    assert(find_from(v@, o@, pos as int) == Some(k as int));
                    assert(pos <= k && k + o@.len() <= v@.len());
                }
                let after = k + o.len();
                let found2 = find_chars_from(v, c, after);
                let ghost i = k - pos;
                let ghost rest = rest0.skip(i + o@.len());
                proof {
                    assert(find_seq(rest0, o@) == Some(i));
                    assert(rest =~= v@.skip(after as int));
                    lemma_find_from(v@, c@, after as int);
                    lemma_find_shift(v@, c@, after as int, after as int);
                }
                match found2 {
                    None => {
                        let tail = slice_vec(v, pos, v.len());
                        let ghost n = pieces.len();
                        push_str(&mut out, string_of(tail.as_slice()).as_str());
                        proof {
                            assert(find_seq(rest, c@) is None);
                            assert(tail@ =~= rest0);
                            assert(regions_from(rest0, p) =~= Seq::<(Seq<char>, Seq<char>)>::empty());
                            assert(tail_of(rest0, p) == rest0);
                            assert(regs =~= regs.take(n as int));
                            assert(pieces.len() == regs.len());
                            assert(out@ == joined(regs, pieces, regs.len()) + tail_of(v@, p));
                            assert(forall|k: int| 0 <= k < regs.len() ==> #[trigger] piece_of(p, regs[k].1, tabs, pieces[k]));
                            assert(rewritten_by(s@, p, tabs, out@));
                        }
                        return out;
                    },
                    Some(j2) => {
                        proof {
                            let jj = find_from(v@, c@, after as int)->0;
                            assert(jj <= v@.len() && v@.len() == vlen);
                            assert(find_from(v@, c@, after as int) == Some(j2 as int));
                            assert(after <= j2 && j2 + c@.len() <= v@.len());
                        }
                        let ghost j = j2 - after;
                        let gap = slice_vec(v, pos, k);
                        let inner = slice_vec(v, after, j2);
                        let piece = apply_pass(p, inner.as_slice(), tabs);
                        push_str(&mut out, string_of(gap.as_slice()).as_str());
                        push_str(&mut out, piece.as_str());
                        let next = j2 + c.len();
                        proof {
                            assert(find_seq(rest, c@) == Some(j));
                            assert(gap@ =~= rest0.take(i));
                            assert(inner@ =~= rest.take(j));
                            assert(rest.skip(j + c@.len()) =~= v@.skip(next as int));
                            assert(regions_from(rest0, p) == seq![(rest0.take(i), rest.take(j))] + regions_from(
                                v@.skip(next as int),
                                p,
                            ));
                            assert(tail_of(rest0, p) == tail_of(v@.skip(next as int), p));
                            let n = pieces.len();
                            assert(regs[n as int] == (rest0.take(i), rest.take(j)));
                            lemma_joined_prefix(regs, pieces, piece@, n);
                            pieces = pieces.push(piece@);
                            assert(regs.take(pieces.len() as int) =~= regs.take(n as int).push(regs[n as int]));
                            assert(regs == regs.take(pieces.len() as int) + regions_from(v@.skip(next as int), p));
                            assert(out@ == joined(regs, pieces, pieces.len()));
                        }
                        pos = next;
                    },
                }
            },
        }
    }
}

/// `find_from` over a suffix, shifted back to positions in the whole.
proof fn lemma_find_shift(s: Seq<char>, pat: Seq<char>, pos: int, i: int)
    requires
        0 <= pos <= i,
        pos <= s.len(),
    ensures
        find_from(s, pat, i) == match find_from(s.skip(pos), pat, i - pos) {
            Some(k) => Some(k + pos),
            None => None::<int>,
        },
    decreases s.len() + 1 - i,
{
    if i <= s.len() {
        lemma_occurs_skip_at(s, pos, i, pat);
        if !occurs_at(s, i, pat) {
            lemma_find_shift(s, pat, pos, i + 1);
        }
    }
}

proof fn lemma_occurs_skip_at(s: Seq<char>, pos: int, i: int, pat: Seq<char>)
    requires
        0 <= pos <= i <= s.len(),
    ensures
        occurs_at(s, i, pat) == occurs_at(s.skip(pos), i - pos, pat),
{
    if i + pat.len() <= s.len() {
        assert(s.skip(pos).subrange(i - pos, i - pos + pat.len()) =~= s.subrange(i, i + pat.len()));
    }
}

// ---------------------------------------------------------------------------
// The whole rendering

pub open spec fn pass_at(k: int) -> Pass {
    if k == 0 {
        Pass::MathFence
    } else if k == 1 {
        Pass::DisplayParagraph
    } else if k == 2 {
        Pass::DisplayCodeParagraph
    } else if k == 3 {
        Pass::DisplaySpan
    } else if k == 4 {
        Pass::DisplayCode
    } else if k == 5 {
        Pass::InlineSpan
    } else if k == 6 {
        Pass::InlineCode
    } else if k == 7 {
        Pass::Fence
    } else if k == 8 {
        Pass::PlainFence
    } else {
        Pass::Link
    }
}

/// How many passes a rendering goes through.
pub const PASS_COUNT: usize = 10;

fn pass_number(k: usize) -> (r: Pass)
    ensures
        r == pass_at(k as int),
{
    if k == 0 {
        Pass::MathFence
    } else if k == 1 {
        Pass::DisplayParagraph
    } else if k == 2 {
        Pass::DisplayCodeParagraph
    } else if k == 3 {
        Pass::DisplaySpan
    } else if k == 4 {
        Pass::DisplayCode
    } else if k == 5 {
        Pass::InlineSpan
    } else if k == 6 {
        Pass::InlineCode
    } else if k == 7 {
        Pass::Fence
    } else if k == 8 {
        Pass::PlainFence
    } else {
        Pass::Link
    }
}

/// `r` is `s` after every pass, in order.
pub open spec fn passes_done(s: Seq<char>, tabs: bool, r: Seq<char>) -> bool {
    exists|h: Seq<Seq<char>>|
        h.len() == PASS_COUNT + 1 && h[0] == s && h[PASS_COUNT as int] == r && forall|k: int|
            0 <= k < PASS_COUNT ==> #[trigger] rewritten_by(h[k], pass_at(k), tabs, h[k + 1])
}

/// Raw HTML with every URL comrak would refuse emptied.
pub open spec fn scrub_spec(s: Seq<char>) -> Seq<char> {
    match scrubbed(s) {
        Some(t) => t,
        None => s,
    }
}

/// What a page makes of the HTML comrak wrote for a document: every pass
/// made over it, in order.
pub open spec fn markdown_finished(html: Seq<char>, tabs: bool, r: Seq<char>) -> bool {
    passes_done(html, tabs, r)
}

/// The HTML comrak wrote for a document, made into what a page shows.
pub fn finish_markdown(html: String, tabs: bool) -> (r: String)
    ensures
        markdown_finished(html@, tabs, r@),
{
    let ghost mut h: Seq<Seq<char>> = seq![html@];
    let mut cur = html;
    let mut k: usize = 0;
    while k < PASS_COUNT
        invariant
            k <= PASS_COUNT,
            h.len() == k + 1,
            h[0] == html@,
            h[k as int] == cur@,
            forall|m: int| 0 <= m < k ==> #[trigger] rewritten_by(h[m], pass_at(m), tabs, h[m + 1]),
        decreases PASS_COUNT - k,
    {
        let next = rewrite(cur.as_str(), pass_number(k), tabs);
        proof {
            let h2 = h.push(next@);
            assert forall|m: int| 0 <= m < k + 1 implies #[trigger] rewritten_by(h2[m], pass_at(m), tabs, h2[m + 1]) by {
                if m < k {
                    assert(h2[m] == h[m] && h2[m + 1] == h[m + 1]);
                }
            }
            h = h2;
        }
        cur = next;
        k = k + 1;
    }
    assert(passes_done(html@, tabs, cur@));
    cur
}

// ---------------------------------------------------------------------------
// A document's own HTML, put back

/// The comment comrak writes where it leaves raw HTML out.
pub open spec fn omitted_marker() -> Seq<char> {
    seq![
        '<', '!', '-', '-', ' ', 'r', 'a', 'w', ' ', 'H', 'T', 'M', 'L', ' ', 'o', 'm', 'i', 't', 't', 'e', 'd',
        ' ', '-', '-', '>',
    ]
}

/// The tag names GitHub's dialect refuses to pass through as raw HTML.
pub open spec fn filtered_names() -> Seq<Seq<char>> {
    seq![
        seq!['t', 'i', 't', 'l', 'e'],
        seq!['t', 'e', 'x', 't', 'a', 'r', 'e', 'a'],
        seq!['s', 't', 'y', 'l', 'e'],
        seq!['x', 'm', 'p'],
        seq!['i', 'f', 'r', 'a', 'm', 'e'],
        seq!['n', 'o', 'e', 'm', 'b', 'e', 'd'],
        seq!['n', 'o', 'f', 'r', 'a', 'm', 'e', 's'],
        seq!['s', 'c', 'r', 'i', 'p', 't'],
        seq!['p', 'l', 'a', 'i', 'n', 't', 'e', 'x', 't'],
    ]
}

/// The same names in upper case.
pub open spec fn filtered_upper() -> Seq<Seq<char>> {
    seq![
        seq!['T', 'I', 'T', 'L', 'E'],
        seq!['T', 'E', 'X', 'T', 'A', 'R', 'E', 'A'],
        seq!['S', 'T', 'Y', 'L', 'E'],
        seq!['X', 'M', 'P'],
        seq!['I', 'F', 'R', 'A', 'M', 'E'],
        seq!['N', 'O', 'E', 'M', 'B', 'E', 'D'],
        seq!['N', 'O', 'F', 'R', 'A', 'M', 'E', 'S'],
        seq!['S', 'C', 'R', 'I', 'P', 'T'],
        seq!['P', 'L', 'A', 'I', 'N', 'T', 'E', 'X', 'T'],
    ]
}

/// At `at` stands `name`, each letter in either case (`upper` is the name
/// in upper case).
pub open spec fn name_at(s: Seq<char>, at: int, name: Seq<char>, upper: Seq<char>) -> bool {
    0 <= at && at + name.len() <= s.len() && upper.len() == name.len() && forall|m: int|
        0 <= m < name.len() ==> (#[trigger] s[at + m] == name[m] || s[at + m] == upper[m])
}

pub open spec fn space_char(c: char) -> bool {
    c == ' ' || c == '\t' || c == '\n' || c == '\x0B' || c == '\x0C' || c == '\r'
}

/// A tag name ends at `j`: a space, `>`, or `/>` follows it.
pub open spec fn name_ends(s: Seq<char>, j: int) -> bool {
    0 <= j < s.len() && (space_char(s[j]) || s[j] == '>' || (s[j] == '/' && j + 1 < s.len() && s[j + 1]
        == '>'))
}

/// At `i` opens (or closes) a tag whose name is one of `filtered_names`.
pub open spec fn disallowed_at(s: Seq<char>, i: int) -> bool {
    0 <= i && i + 3 <= s.len() && s[i] == '<' && exists|k: int|
        0 <= k < filtered_names().len() && #[trigger] name_at(
            s,
            name_start(s, i),
            filtered_names()[k],
            filtered_upper()[k],
        ) && name_ends(s, name_start(s, i) + filtered_names()[k].len())
}

/// Where the name of a tag opened at `i` starts: past `<`, or `</`.
pub open spec fn name_start(s: Seq<char>, i: int) -> int {
    if s[i + 1] == '/' {
        i + 2
    } else {
        i + 1
    }
}

/// A block of raw HTML from `i` on, with each `<` that opens a refused tag
/// written as `&lt;`.
pub open spec fn block_filtered(s: Seq<char>, i: int) -> Seq<char>
    decreases s.len() - i,
{
    if i < 0 || i >= s.len() {
        Seq::empty()
    } else if disallowed_at(s, i) {
        "&lt;"@ + block_filtered(s, i + 1)
    } else {
        seq![s[i]] + block_filtered(s, i + 1)
    }
}

/// Raw HTML with the refused tags opened as text: a block filtered
/// throughout, an inline tag at its start.
pub open spec fn tag_filtered(block: bool, s: Seq<char>) -> Seq<char> {
    if block {
        block_filtered(s, 0)
    } else if disallowed_at(s, 0) {
        "&lt;"@ + s.skip(1)
    } else {
        s
    }
}

/// Raw HTML as a page draws it: every URL comrak would refuse emptied, then
/// the refused tags opened as text.
pub open spec fn piece_drawn(block: bool, s: Seq<char>) -> Seq<char> {
    tag_filtered(block, scrub_spec(s))
}

/// The raw HTML among a document's nodes, in order, as a page draws it.
pub open spec fn raw_kept(nodes: Seq<Option<(bool, Seq<char>)>>) -> Seq<Seq<char>>
    decreases nodes.len(),
{
    if nodes.len() == 0 {
        Seq::empty()
    } else {
        match nodes[0] {
            Some(p) => seq![piece_drawn(p.0, p.1)] + raw_kept(nodes.skip(1)),
            None => raw_kept(nodes.skip(1)),
        }
    }
}

/// How many markers stand in `s` from `i` on.
pub open spec fn markers_from(s: Seq<char>, i: int) -> nat
    decreases s.len() - i,
{
    if i < 0 || i >= s.len() {
        0
    } else if occurs_at(s, i, omitted_marker()) {
        1 + markers_from(s, i + omitted_marker().len())
    } else {
        markers_from(s, i + 1)
    }
}

/// `s` from `i` on, with each marker in turn replaced by the next of `lits`,
/// from the `k`-th.
pub open spec fn replaced_from(s: Seq<char>, i: int, lits: Seq<Seq<char>>, k: int) -> Seq<char>
    decreases s.len() - i,
{
    if i < 0 || i >= s.len() {
        Seq::empty()
    } else if occurs_at(s, i, omitted_marker()) && 0 <= k < lits.len() {
        lits[k] + replaced_from(s, i + omitted_marker().len(), lits, k + 1)
    } else {
        seq![s[i]] + replaced_from(s, i + 1, lits, k)
    }
}

/// The HTML comrak wrote with raw HTML left out, with that HTML put back
/// where there is one marker for each piece of it; else as it was.
pub open spec fn raw_restored(html: Seq<char>, nodes: Seq<Option<(bool, Seq<char>)>>) -> Seq<char> {
    let lits = raw_kept(nodes);
    if markers_from(html, 0) == lits.len() {
        replaced_from(html, 0, lits, 0)
    } else {
        html
    }
}

fn filtered_name(k: usize) -> (r: (Vec<char>, Vec<char>))
    requires
        k < 9,
    ensures
        r.0@ == filtered_names()[k as int],
        r.1@ == filtered_upper()[k as int],
        r.0@.len() <= 9,
{
    let r = if k == 0 {
        (vec!['t', 'i', 't', 'l', 'e'], vec!['T', 'I', 'T', 'L', 'E'])
    } else if k == 1 {
        (vec!['t', 'e', 'x', 't', 'a', 'r', 'e', 'a'], vec!['T', 'E', 'X', 'T', 'A', 'R', 'E', 'A'])
    } else if k == 2 {
        (vec!['s', 't', 'y', 'l', 'e'], vec!['S', 'T', 'Y', 'L', 'E'])
    } else if k == 3 {
        (vec!['x', 'm', 'p'], vec!['X', 'M', 'P'])
    } else if k == 4 {
        (vec!['i', 'f', 'r', 'a', 'm', 'e'], vec!['I', 'F', 'R', 'A', 'M', 'E'])
    } else if k == 5 {
        (vec!['n', 'o', 'e', 'm', 'b', 'e', 'd'], vec!['N', 'O', 'E', 'M', 'B', 'E', 'D'])
    } else if k == 6 {
        (vec!['n', 'o', 'f', 'r', 'a', 'm', 'e', 's'], vec!['N', 'O', 'F', 'R', 'A', 'M', 'E', 'S'])
    } else if k == 7 {
        (vec!['s', 'c', 'r', 'i', 'p', 't'], vec!['S', 'C', 'R', 'I', 'P', 'T'])
    } else {
        (vec!['p', 'l', 'a', 'i', 'n', 't', 'e', 'x', 't'], vec!['P', 'L', 'A', 'I', 'N', 'T', 'E', 'X', 'T'])
    };
    assert(r.0@ =~= filtered_names()[k as int]);
    assert(r.1@ =~= filtered_upper()[k as int]);
    r
}

fn letters_at(s: &[char], at: usize, name: &[char], upper: &[char]) -> (r: bool)
    ensures
        r == name_at(s@, at as int, name@, upper@),
{
    if at > s.len() || name.len() > s.len() - at || upper.len() != name.len() {
        return false;
    }
    let mut m: usize = 0;
    while m < name.len()
        invariant
            m <= name@.len(),
            at <= s@.len(),
            upper@.len() == name@.len(),
            at + name@.len() <= s@.len(),
            s@.len() <= usize::MAX,
            forall|x: int| 0 <= x < m ==> (#[trigger] s@[at + x] == name@[x] || s@[at + x] == upper@[x]),
        decreases name@.len() - m,
    {
        let c = s[at + m];
        if !(c == name[m] || c == upper[m]) {
            return false;
        }
        m = m + 1;
    }
    true
}

fn name_ends_at(s: &[char], j: usize) -> (r: bool)
    ensures
        r == name_ends(s@, j as int),
{
    if j >= s.len() {
        return false;
    }
    let c = s[j];
    c == ' ' || c == '\t' || c == '\n' || c == '\x0B' || c == '\x0C' || c == '\r' || c == '>' || (c == '/'
        && j + 1 < s.len() && s[j + 1] == '>')
}

fn tag_disallowed(s: &[char], i: usize) -> (r: bool)
    ensures
        r == disallowed_at(s@, i as int),
{
    if i >= s.len() || s.len() - i < 3 || s[i] != '<' {
        return false;
    }
    let j: usize = if s[i + 1] == '/' {
        i + 2
    } else {
        i + 1
    };
    let mut k: usize = 0;
    while k < 9
        invariant
            k <= 9,
            j <= s@.len(),
            filtered_names().len() == 9,
            filtered_upper().len() == 9,
            s@.len() <= usize::MAX,
            i + 3 <= s@.len(),
            s@[i as int] == '<',
            j == name_start(s@, i as int),
            forall|x: int|
                0 <= x < k ==> !(#[trigger] name_at(s@, name_start(s@, i as int), filtered_names()[x], filtered_upper()[x]) && name_ends(
                    s@,
                    j + filtered_names()[x].len(),
                )),
        decreases 9 - k,
    {
        let (name, upper) = filtered_name(k);
        if letters_at(s, j, name.as_slice(), upper.as_slice()) && name_ends_at(s, j + name.len()) {
            assert(name_at(s@, name_start(s@, i as int), filtered_names()[k as int], filtered_upper()[k as int]));
            assert(name_ends(s@, j + filtered_names()[k as int].len()));
            assert(disallowed_at(s@, i as int));
            return true;
        }
        k = k + 1;
    }
    false
}

/// A piece of raw HTML as a page draws it: dangerous URLs emptied, then
/// the refused tags opened as text.
pub fn draw_piece(block: bool, lit: &str) -> (r: String)
    ensures
        r@ == piece_drawn(block, lit@),
{
    let clean = match without_dangerous_attrs(lit) {
        Some(t) => t,
        None => crate::util::owned(lit),
    };
    filter_tags(block, clean.as_str())
}

/// Raw HTML with the refused tags opened as text.
pub fn filter_tags(block: bool, lit: &str) -> (r: String)
    ensures
        r@ == tag_filtered(block, lit@),
{
    let v = chars_of(lit);
    if !block {
        if tag_disallowed(v.as_slice(), 0) {
            let mut r = String::new();
            push_str(&mut r, "&lt;");
            let rest = slice_vec(v.as_slice(), 1, v.len());
            let t = string_of(rest.as_slice());
            push_str(&mut r, t.as_str());
            proof {
                assert(rest@ =~= lit@.skip(1));
            }
            return r;
        }
        return string_of(v.as_slice());
    }
    let mut out = String::new();
    let mut i: usize = 0;
    while i < v.len()
        invariant
            i <= v@.len(),
            v@ == lit@,
            block_filtered(v@, 0) == out@ + block_filtered(v@, i as int),
        decreases v@.len() - i,
    {
        let ghost before = out@;
        if tag_disallowed(v.as_slice(), i) {
            push_str(&mut out, "&lt;");
            assert(block_filtered(v@, i as int) == "&lt;"@ + block_filtered(v@, i + 1));
        } else {
            push_char(&mut out, v[i]);
            assert(block_filtered(v@, i as int) == seq![v@[i as int]] + block_filtered(v@, i + 1));
        }
        assert(before + block_filtered(v@, i as int) =~= out@ + block_filtered(v@, i + 1));
        i = i + 1;
    }
    assert(block_filtered(v@, i as int) =~= Seq::<char>::empty());
    assert(out@ + Seq::<char>::empty() =~= out@);
    out
}

/// The raw HTML among a document's nodes, each as a page draws it.
pub fn kept_pieces(nodes: &[Option<(bool, String)>]) -> (r: Vec<String>)
    ensures
        r@.map_values(|t: String| t@) == raw_kept(nodes@.map_values(|p: Option<(bool, String)>| piece_view(p))),
{
    let ghost all = nodes@.map_values(|p: Option<(bool, String)>| piece_view(p));
    let mut out: Vec<String> = Vec::new();
    let mut i: usize = 0;
    assert(all.skip(0) =~= all);
    while i < nodes.len()
        invariant
            i <= nodes@.len(),
            all == nodes@.map_values(|p: Option<(bool, String)>| piece_view(p)),
            raw_kept(all) == out@.map_values(|t: String| t@) + raw_kept(all.skip(i as int)),
        decreases nodes@.len() - i,
    {
        let ghost rest = all.skip(i as int);
        assert(rest[0] == piece_view(nodes@[i as int]));
        assert(rest.skip(1) =~= all.skip(i + 1));
        let ghost before = out@.map_values(|t: String| t@);
        match &nodes[i] {
            Some(p) => {
                let t = draw_piece(p.0, p.1.as_str());
                out.push(t);
                assert(out@.map_values(|t: String| t@) =~= before + seq![piece_drawn(p.0, p.1@)]);
            },
            None => {},
        }
        i = i + 1;
    }
    assert(all.skip(i as int) =~= Seq::<Option<(bool, Seq<char>)>>::empty());
    assert(raw_kept(all.skip(i as int)) =~= Seq::<Seq<char>>::empty());
    assert(out@.map_values(|t: String| t@) + Seq::<Seq<char>>::empty() =~= out@.map_values(|t: String| t@));
    out
}

/// How many markers stand in `v`.
fn count_markers(v: &[char], m: &[char]) -> (r: usize)
    requires
        m@ == omitted_marker(),
    ensures
        r as nat == markers_from(v@, 0),
{
    let mut n: usize = 0;
    let mut i: usize = 0;
    while i < v.len()
        invariant
            i <= v@.len(),
            m@ == omitted_marker(),
            n <= i,
            markers_from(v@, 0) == n + markers_from(v@, i as int),
        decreases v@.len() - i,
    {
        if starts_at(v, i, m) {
            n = n + 1;
            i = i + m.len();
        } else {
            i = i + 1;
        }
    }
    n
}

/// The HTML comrak wrote with raw HTML left out, and the document's nodes:
/// the HTML with each piece of raw HTML, as a page draws it, in place of its
/// marker, where the markers and the pieces are as many; else the HTML as it
/// was.
pub fn restore_raw(html: &str, nodes: &[Option<(bool, String)>]) -> (r: String)
    ensures
        r@ == raw_restored(html@, nodes@.map_values(|p: Option<(bool, String)>| piece_view(p))),
{
    let lits = kept_pieces(nodes);
    let ghost gl = lits@.map_values(|t: String| t@);
    let v = chars_of(html);
    let m: Vec<char> = vec![
        '<', '!', '-', '-', ' ', 'r', 'a', 'w', ' ', 'H', 'T', 'M', 'L', ' ', 'o', 'm', 'i', 't', 't', 'e', 'd',
        ' ', '-', '-', '>',
    ];
    assert(m@ =~= omitted_marker());
    let count = count_markers(v.as_slice(), m.as_slice());
    if count != lits.len() {
        return string_of(v.as_slice());
    }
    let mut out = String::new();
    let mut i: usize = 0;
    let mut k: usize = 0;
    while i < v.len()
        invariant
            i <= v@.len(),
            v@ == html@,
            m@ == omitted_marker(),
            gl == lits@.map_values(|t: String| t@),
            replaced_from(v@, 0, gl, 0) == out@ + replaced_from(v@, i as int, gl, k as int),
        decreases v@.len() - i,
    {
        let ghost before = out@;
        if starts_at(v.as_slice(), i, m.as_slice()) && k < lits.len() {
            push_str(&mut out, lits[k].as_str());
            assert(gl[k as int] == lits@[k as int]@);
            i = i + m.len();
            k = k + 1;
        } else {
            push_char(&mut out, v[i]);
            i = i + 1;
        }
    }
    assert(replaced_from(v@, i as int, gl, k as int) =~= Seq::<char>::empty());
    assert(out@ + Seq::<char>::empty() =~= out@);
    out
}

/// The HTML comrak writes for a document whose TeX delimiters are spelled
/// out, with the page's options.
pub open spec fn markdown_html(src: Seq<char>, raw: RawHtml) -> Seq<char> {
    comrak_html_of(src, page_flags(raw))
}

/// What a page shows of a Markdown document: comrak's HTML after every
/// pass, with the document's own HTML shown as text, or put back in place
/// of its markers, as `raw` says.
pub open spec fn markdown_of(src: Seq<char>, tabs: bool, raw: RawHtml, r: Seq<char>) -> bool {
    let expanded = tex_expanded(src);
    let f = page_flags(raw);
    exists|passed: Seq<char>|
        #[trigger] markdown_finished(markdown_html(expanded, raw), tabs, passed) && r == match raw {
            RawHtml::Show => passed,
            RawHtml::Draw => raw_restored(passed, comrak_raw_nodes(expanded, f.gfm, f.footnotes, f.math)),
        }
}

/// Every document is rendered in the page's whole dialect, whether its own
/// HTML is drawn or shown: GitHub's extensions, footnotes, alerts, math and
/// heading ids all on, raw HTML escaped exactly for a document from
/// somewhere else, and, for one from this device, the raw HTML put back from
/// a tree parsed with the same extensions.
pub proof fn law_every_document_gets_the_whole_dialect(src: Seq<char>, tabs: bool, raw: RawHtml, r: Seq<char>)
    requires
        markdown_of(src, tabs, raw, r),
    ensures
        raw == RawHtml::Show ==> exists|passed: Seq<char>|
            #[trigger] markdown_finished(comrak_rendered(tex_expanded(src), true, true, true, true, true, true), tabs, passed)
                && r == passed,
        raw == RawHtml::Draw ==> exists|passed: Seq<char>|
            #[trigger] markdown_finished(comrak_rendered(tex_expanded(src), true, true, true, true, true, false), tabs, passed)
                && r == raw_restored(passed, comrak_raw_nodes(tex_expanded(src), true, true, true)),
{
    let expanded = tex_expanded(src);
    let passed = choose|passed: Seq<char>|
        #[trigger] markdown_finished(markdown_html(expanded, raw), tabs, passed) && r == match raw {
            RawHtml::Show => passed,
            RawHtml::Draw => raw_restored(passed, comrak_raw_nodes(expanded, true, true, true)),
        };
    match raw {
        RawHtml::Show => {
            assert(markdown_html(expanded, raw) == comrak_rendered(expanded, true, true, true, true, true, true));
            assert(markdown_finished(comrak_rendered(expanded, true, true, true, true, true, true), tabs, passed));
        },
        RawHtml::Draw => {
            assert(markdown_html(expanded, raw) == comrak_rendered(expanded, true, true, true, true, true, false));
            assert(markdown_finished(comrak_rendered(expanded, true, true, true, true, true, false), tabs, passed));
        },
    }
}

/// A document from somewhere else never has its own HTML drawn: what a page
/// shows of it is comrak's rendering with raw HTML escaped as text, after
/// the passes, and nothing put back into it.
pub proof fn law_remote_markup_is_shown(src: Seq<char>, tabs: bool, r: Seq<char>)
    requires
        markdown_of(src, tabs, RawHtml::Show, r),
    ensures
        markdown_finished(comrak_rendered(tex_expanded(src), true, true, true, true, true, true), tabs, r),
{
}

/// A Markdown document as HTML: its TeX delimiters spelled out, rendered by
/// comrak with the page's options, finished by the passes, and then its own
/// HTML drawn or shown as text as `raw` says. `tabs` asks for links that
/// leave the tree to open in a tab of their own.
pub fn render_markdown(src: &str, tabs: bool, raw: RawHtml) -> (r: String)
    ensures
        markdown_of(src@, tabs, raw, r@),
{
    let expanded = expand_tex_delimiters(src);
    let f = flags_for(raw);
    let html = comrak_html(expanded.as_str(), f);
    let passed = finish_markdown(html, tabs);
    assert(markdown_finished(markdown_html(tex_expanded(src@), raw), tabs, passed@));
    match raw {
        RawHtml::Show => passed,
        RawHtml::Draw => {
            let nodes = comrak_raw_html(expanded.as_str(), f);
            restore_raw(passed.as_str(), nodes.as_slice())
        },
    }
}

} // verus!
