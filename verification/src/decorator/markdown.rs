//! The Markdown preset: each file under a `## File:` heading, its content in
//! a fenced code block tagged with the file's extension.

use vstd::prelude::*;

use crate::decorator::ContentDecorator;
use crate::decorator::format_path;
use crate::text::extension_of;
use crate::text::format_path_spec;
use crate::text::path_extension;

verus! {

/// Renders each file as a Markdown section with a fenced code block.
pub struct MarkdownDecorator;

impl ContentDecorator for MarkdownDecorator {
    open spec fn before_spec(&self, path: Seq<char>) -> Option<Seq<char>> {
        Some("## File: "@ + format_path_spec(path) + "\n```"@ + extension_of(path))
    }

    open spec fn after_spec(&self, path: Seq<char>) -> Option<Seq<char>> {
        Some("```"@)
    }

    open spec fn transform_spec(&self, path: Seq<char>, content: Seq<char>) -> Seq<char> {
        content
    }

    fn before(&self, path: &str) -> (r: Option<String>) {
        let mut out = "## File: ".to_owned();
        let p = format_path(path);
        out.append(p.as_str());
        out.append("\n```");
        let ext = path_extension(path);
        out.append(ext.as_str());
        Some(out)
    }

    fn after(&self, path: &str) -> (r: Option<String>) {
        Some("```".to_owned())
    }

    fn transform(&self, path: &str, content: String) -> (r: String) {
        content
    }
}

} // verus!
