//! The default preset: a banner naming the file before its content, a blank
//! line after it, and the content left untouched.

use vstd::prelude::*;

use crate::decorator::ContentDecorator;
use crate::decorator::format_path;
use crate::text::format_path_spec;

verus! {

/// The default decorator: a `FILE:` banner, an empty line after the content,
/// and no transformation.
pub struct DefaultDecorator;

impl ContentDecorator for DefaultDecorator {
    open spec fn before_spec(&self, path: Seq<char>) -> Option<Seq<char>> {
        Some(
            "================================================\nFILE: "@ + format_path_spec(path)
                + "\n================================================\n"@,
        )
    }

    open spec fn after_spec(&self, path: Seq<char>) -> Option<Seq<char>> {
        Some(Seq::empty())
    }

    open spec fn transform_spec(&self, path: Seq<char>, content: Seq<char>) -> Seq<char> {
        content
    }

    fn before(&self, path: &str) -> (r: Option<String>) {
        let mut out = "================================================\nFILE: ".to_owned();
        let p = format_path(path);
        out.append(p.as_str());
        out.append("\n================================================\n");
        Some(out)
    }

    fn after(&self, path: &str) -> (r: Option<String>) {
        Some(String::new())
    }

    fn transform(&self, path: &str, content: String) -> (r: String) {
        content
    }
}

} // verus!
