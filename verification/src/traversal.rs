//! Options for the file-discovery collaborator. Discovery itself — walking
//! directories, honouring ignore files, matching include and exclude globs —
//! happens outside the pipeline; the pipeline treats the ordered file list it
//! produces as final.

use vstd::prelude::*;

verus! {

/// Where discovery starts and which glob patterns narrow it: files matching
/// a skip pattern are dropped, and when keep patterns are given, only files
/// matching one of them are kept.
pub struct TraversalOptions {
    /// The directory discovery starts from.
    pub root: String,
    /// Keep patterns; empty means every file is eligible.
    pub keep_globs: Vec<String>,
    /// Skip patterns.
    pub skip_globs: Vec<String>,
}

/// The discovery decision for one file, from what the glob matchers said of
/// it: it is dropped when a skip pattern matched, and, when keep patterns
/// were configured at all, also when none of them matched.
pub fn retain_file(skip_matched: bool, keep_configured: bool, keep_matched: bool) -> (r: bool)
    ensures
        r == (!skip_matched && (!keep_configured || keep_matched)),
{
    !skip_matched && (!keep_configured || keep_matched)
}

} // verus!
