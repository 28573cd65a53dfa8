//! Source colouring, with syntect's bundled syntaxes and themes. Code is
//! coloured with classes rather than inline styles, so the light and the dark
//! stylesheet can be swapped under a page without colouring it twice.

use vstd::prelude::*;
use comrak::adapters::SyntaxHighlighterAdapter;

verus! {

/// What every colouring class starts with, so that syntect's class names
/// cannot meet a page's own.
pub const CLASS_PREFIX: &'static str = "sy-";

/// The name of the bundled syntax that claims files ending in `ext`, where
/// one does.
pub uninterp spec fn syntax_of_extension(ext: Seq<char>) -> Option<Seq<char>>;

/// The name of the bundled syntax whose first-line pattern matches `line`,
/// where one does.
pub uninterp spec fn syntax_of_first_line(line: Seq<char>) -> Option<Seq<char>>;

/// What comrak's syntect adapter writes for `text` coloured as the syntax
/// that `syntax` names, with classes that carry `prefix`.
pub uninterp spec fn highlighted(prefix: Seq<char>, syntax: Seq<char>, text: Seq<char>) -> Seq<char>;

/// The stylesheet syntect writes for the bundled theme named `theme`, its
/// classes carrying `prefix`; `None` where no bundled theme has that name or
/// it cannot be written as CSS.
pub uninterp spec fn theme_css(prefix: Seq<char>, theme: Seq<char>) -> Option<Seq<char>>;

/// `SyntaxSet::find_syntax_by_extension` over syntect's bundled syntaxes,
/// and the name of what it found.
#[verifier::external_body]
fn by_extension(ext: &str) -> (r: Option<String>)
    ensures
        match r {
            Some(n) => syntax_of_extension(ext@) == Some(n@),
            None => syntax_of_extension(ext@) is None,
        },
{
    syntect::parsing::SyntaxSet::load_defaults_newlines().find_syntax_by_extension(ext).map(|s| s.name.clone())
}

/// `SyntaxSet::find_syntax_by_first_line` over syntect's bundled syntaxes,
/// and the name of what it found.
#[verifier::external_body]
fn by_first_line(line: &str) -> (r: Option<String>)
    ensures
        match r {
            Some(n) => syntax_of_first_line(line@) == Some(n@),
            None => syntax_of_first_line(line@) is None,
        },
{
    syntect::parsing::SyntaxSet::load_defaults_newlines().find_syntax_by_first_line(line).map(|s| s.name.clone())
}

/// `SyntectAdapter::write_highlighted` from comrak, built with classes that
/// carry `prefix`, into an empty string. The adapter looks the syntax up by
/// name or extension and falls back to plain text; where syntect fails on the
/// text it writes the text as it came, unescaped. Writing into a `String`
/// cannot fail, so its result says nothing and is dropped.
#[verifier::external_body]
fn adapter_highlight(prefix: &'static str, syntax: &str, text: &str) -> (r: String)
    ensures
        r@ == highlighted(prefix@, syntax@, text@),
{
    let adapter = comrak::plugins::syntect::SyntectAdapterBuilder::new().css_with_class_prefix(prefix).build();
    let mut out = String::new();
    let _ = adapter.write_highlighted(&mut out, Some(syntax), text);
    out
}

/// `syntect::html::css_for_theme_with_class_style` for the bundled theme of
/// that name, with classes spaced and prefixed; `None` where there is no such
/// theme or syntect reports an error.
#[verifier::external_body]
fn css_for(prefix: &'static str, theme: &str) -> (r: Option<String>)
    ensures
        match r {
            Some(c) => theme_css(prefix@, theme@) == Some(c@),
            None => theme_css(prefix@, theme@) is None,
        },
{
    let set = syntect::highlighting::ThemeSet::load_defaults();
    let t = set.themes.get(theme)?;
    syntect::html::css_for_theme_with_class_style(t, syntect::html::ClassStyle::SpacedPrefixed { prefix }).ok()
}

/// The syntax a file is coloured as: the one its extension claims, else the
/// one its whole name claims (a `Makefile`), else the one its first line
/// names, else plain text.
pub open spec fn syntax_spec(name: Seq<char>, ext: Seq<char>, first_line: Seq<char>) -> Seq<char> {
    match syntax_of_extension(ext) {
        Some(n) => n,
        None => match syntax_of_extension(name) {
            Some(n) => n,
            None => match syntax_of_first_line(first_line) {
                Some(n) => n,
                None => "Plain Text"@,
            },
        },
    }
}

/// The name of the syntax a file is coloured as.
pub fn syntax_name(name: &str, ext: &str, first_line: &str) -> (r: String)
    ensures
        r@ == syntax_spec(name@, ext@, first_line@),
{
    match by_extension(ext) {
        Some(n) => n,
        None => match by_extension(name) {
            Some(n) => n,
            None => match by_first_line(first_line) {
                Some(n) => n,
                None => "Plain Text".to_owned(),
            },
        },
    }
}

/// Source text coloured as `syntax`, with the classes the stylesheets style.
pub fn highlight(syntax: &str, text: &str) -> (r: String)
    ensures
        r@ == highlighted(CLASS_PREFIX@, syntax@, text@),
{
    adapter_highlight(CLASS_PREFIX, syntax, text)
}

/// The stylesheet for a theme: syntect's, or nothing where the theme is not
/// one it bundles.
pub open spec fn stylesheet_spec(theme: Seq<char>) -> Seq<char> {
    match theme_css(CLASS_PREFIX@, theme) {
        Some(c) => c,
        None => Seq::empty(),
    }
}

pub fn stylesheet(theme: &str) -> (r: String)
    ensures
        r@ == stylesheet_spec(theme@),
{
    match css_for(CLASS_PREFIX, theme) {
        Some(c) => c,
        None => String::new(),
    }
}

} // verus!
