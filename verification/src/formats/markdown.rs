//! Markdown → the `Html` form. Rendering happens here rather than in the
//! browser: less javascript, faster, and the same HTML can later go to print.

use vstd::prelude::*;
use crate::doc::Doc;
use pulldown_cmark::{html, Options, Parser};

verus! {

/// The HTML `pulldown_cmark::html::push_html` writes for `src`, parsed with
/// tables, strikethrough, task lists, footnotes and smart punctuation enabled.
pub uninterp spec fn markdown_html(src: Seq<char>) -> Seq<char>;

/// Renders markdown with `pulldown_cmark` (`Parser::new_ext` with the options
/// above, then `html::push_html` into an empty string).
#[verifier::external_body]
fn render_markdown(src: &str) -> (r: String)
    ensures
        r@ == markdown_html(src@),
{
    let opts = Options::ENABLE_TABLES | Options::ENABLE_STRIKETHROUGH | Options::ENABLE_TASKLISTS
        | Options::ENABLE_FOOTNOTES | Options::ENABLE_SMART_PUNCTUATION;
    let mut out = String::new();
    html::push_html(&mut out, Parser::new_ext(src, opts));
    out
}

/// Markdown text → `Html`.
pub fn render(src: &str) -> (r: Doc)
    ensures
        r matches Doc::Html { html } && html@ == markdown_html(src@),
{
    Doc::Html { html: render_markdown(src) }
}

} // verus!
