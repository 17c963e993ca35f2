//! The XML-style preset: each file wrapped in a `<file path="...">` element.

use vstd::prelude::*;

use crate::decorator::ContentDecorator;
use crate::decorator::format_path;
use crate::text::format_path_spec;

verus! {

/// Wraps each file's content in a `<file>` element carrying its path.
pub struct XmlDecorator;

impl ContentDecorator for XmlDecorator {
    open spec fn before_spec(&self, path: Seq<char>) -> Option<Seq<char>> {
        Some("<file path=\""@ + format_path_spec(path) + "\">"@)
    }

    open spec fn after_spec(&self, path: Seq<char>) -> Option<Seq<char>> {
        Some("</file>"@)
    }

    open spec fn transform_spec(&self, path: Seq<char>, content: Seq<char>) -> Seq<char> {
        content
    }

    fn before(&self, path: &str) -> (r: Option<String>) {
        let mut out = "<file path=\"".to_owned();
        let p = format_path(path);
        out.append(p.as_str());
        out.append("\">");
        Some(out)
    }

    fn after(&self, path: &str) -> (r: Option<String>) {
        Some("</file>".to_owned())
    }

    fn transform(&self, path: &str, content: String) -> (r: String) {
        content
    }
}

} // verus!
