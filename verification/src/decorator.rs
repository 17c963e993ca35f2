//! Decoration capabilities: per-file wrapper text and content transformation,
//! and an optional digest-level prologue. Each preset is a type implementing
//! one of the two traits; a spec method beside each operation states exactly
//! what text the operation produces.

use vstd::prelude::*;

use crate::text::format_path_spec;
use crate::text::join_components;
use crate::text::filter_components;
use crate::text::path_components;

pub mod default;
pub mod file_tree;
pub mod markdown;
pub mod xml;

pub use default::DefaultDecorator;
pub use file_tree::FileTreeDecorator;
pub use markdown::MarkdownDecorator;
pub use xml::XmlDecorator;

verus! {

/// The view of an optional string: its character sequence, when present.
pub open spec fn opt_string_view(o: Option<String>) -> Option<Seq<char>> {
    match o {
        Some(s) => Some(s@),
        None => None,
    }
}

/// Decorates an individual file: text before the content, text after it, and
/// a transformation of the content itself. Implementations are pure: each
/// operation returns exactly what its spec method describes.
pub trait ContentDecorator: Sized {
    /// What `before` returns for a path.
    spec fn before_spec(&self, path: Seq<char>) -> Option<Seq<char>>;

    /// What `after` returns for a path.
    spec fn after_spec(&self, path: Seq<char>) -> Option<Seq<char>>;

    /// What `transform` returns for a path and content.
    spec fn transform_spec(&self, path: Seq<char>, content: Seq<char>) -> Seq<char>;

    /// Initial text to appear before the file content.
    fn before(&self, path: &str) -> (r: Option<String>)
        ensures
            opt_string_view(r) == self.before_spec(path@),
    ;

    /// Text to appear after the file content.
    fn after(&self, path: &str) -> (r: Option<String>)
        ensures
            opt_string_view(r) == self.after_spec(path@),
    ;

    /// Transform the content of the file itself.
    fn transform(&self, path: &str, content: String) -> (r: String)
        ensures
            r@ == self.transform_spec(path@, content@),
    ;
}

/// Decorates the digest as a whole with text written once, before any
/// per-file output.
pub trait GlobalDecorator: Sized {
    /// What `prologue` returns for an ordered file list.
    spec fn prologue_spec(&self, files: Seq<Seq<char>>) -> Option<Seq<char>>;

    /// Text to appear at the very beginning of the digest.
    fn prologue(&self, files: &Vec<String>) -> (r: Option<String>)
        ensures
            opt_string_view(r) == self.prologue_spec(files.deep_view()),
    ;
}

/// Which form of prologue the file-tree decorator writes.
#[derive(Clone, Copy, Debug, PartialEq, Eq)]
pub enum PrologueMode {
    /// No prologue at all.
    Off,
    /// A flat list of the included files.
    List,
    /// An indented tree of the included files.
    Tree,
}

/// The digest form of a path, as `format_path_spec` describes: every path in
/// the digest uses forward slashes, with empty and `.` components dropped.
pub fn format_path(path: &str) -> (r: String)
    ensures
        r@ == format_path_spec(path@),
{
    let comps = path_components(path);
    let kept = filter_components(comps);
    join_components(&kept)
}

} // verus!
