//! Which files get a rendered markdown preview, and the id its tab goes by.

use vstd::prelude::*;
use crate::text::{ends_with, unicode_str_lower};

verus! {

/// The id of the preview tab that follows the file at `path`.
pub fn preview_id(path: &str) -> (r: String)
    ensures
        r@ == "markdown-preview:"@ + path@,
{
    let mut id = String::from_str("markdown-preview:");
    id.append(path);
    id
}

/// A path gets a preview when, lower-cased, it ends in `.md`, `.markdown` or `.mdx`.
pub open spec fn spec_is_markdown(path: Seq<char>) -> bool {
    let lower = unicode_str_lower(path);
    ends_with(lower, ".md"@) || ends_with(lower, ".markdown"@) || ends_with(lower, ".mdx"@)
}

pub fn is_markdown(path: &str) -> (r: bool)
    ensures
        r == spec_is_markdown(path@),
{
    let lower = crate::text::str_to_lowercase(path);
    let chars = crate::text::chars_of(lower.as_str());
    let md = crate::text::chars_of(".md");
    let markdown = crate::text::chars_of(".markdown");
    let mdx = crate::text::chars_of(".mdx");
    crate::text::seq_ends_with(&chars, &md) || crate::text::seq_ends_with(&chars, &markdown)
        || crate::text::seq_ends_with(&chars, &mdx)
}

} // verus!
