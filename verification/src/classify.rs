//! Per-file classification: a size ceiling checked from metadata alone, and a
//! binary sniff over a bounded prefix of the file's bytes.

use vstd::prelude::*;

verus! {

/// Largest file, in bytes, that the pipeline reads in full; anything above it
/// is skipped with a placeholder.
pub const MAX_FILE_SIZE: u64 = 10 * 1024 * 1024;

/// How many bytes of a file the binary sniff reads.
pub const SNIFF_PREFIX_LEN: usize = 1024;

/// Whether `b` starts with the bytes `p`.
pub open spec fn starts_with_bytes(b: Seq<u8>, p: Seq<u8>) -> bool {
    p.len() <= b.len() && b.subrange(0, p.len() as int) == p
}

/// Whether the buffer starts with a byte-order mark of an encoded text
/// (UTF-8, UTF-16, or UTF-32, either endianness).
pub open spec fn has_text_bom(b: Seq<u8>) -> bool {
    ||| starts_with_bytes(b, seq![0xEFu8, 0xBBu8, 0xBFu8])
    ||| starts_with_bytes(b, seq![0x00u8, 0x00u8, 0xFEu8, 0xFFu8])
    ||| starts_with_bytes(b, seq![0xFFu8, 0xFEu8, 0x00u8, 0x00u8])
    ||| starts_with_bytes(b, seq![0xFEu8, 0xFFu8])
    ||| starts_with_bytes(b, seq![0xFFu8, 0xFEu8])
}

/// Whether the buffer starts with the magic number of a PDF or PNG file,
/// binary formats that need not hold an early NUL byte.
pub open spec fn has_binary_magic(b: Seq<u8>) -> bool {
    ||| starts_with_bytes(b, seq![0x25u8, 0x50u8, 0x44u8, 0x46u8])
    ||| starts_with_bytes(b, seq![0x89u8, 0x50u8, 0x4Eu8, 0x47u8])
}

/// Whether the buffer holds a NUL byte among its first 1024 bytes.
pub open spec fn has_early_nul(b: Seq<u8>) -> bool {
    exists|i: int| 0 <= i < b.len() && i < 1024 && b[i] == 0u8
}

/// The binary heuristic: a buffer is binary when it carries no text
/// byte-order mark and either holds an early NUL byte or starts with a known
/// binary magic number.
pub open spec fn is_binary_content(b: Seq<u8>) -> bool {
    !has_text_bom(b) && (has_early_nul(b) || has_binary_magic(b))
}

/// Relies on `content_inspector::inspect`: it reports binary content exactly
/// when the buffer starts with no known byte-order mark and either holds a
/// NUL byte among its first 1024 bytes or starts with a `%PDF` or PNG magic
/// number, which is what `is_binary_content` states.
#[verifier::external_body]
fn inspect_is_binary(prefix: &[u8]) -> (r: bool)
    ensures
        r == is_binary_content(prefix@),
{
    content_inspector::inspect(prefix).is_binary()
}

/// What the classifier decides for one file.
#[derive(Clone, Copy, Debug, PartialEq, Eq, Structural)]
pub enum Classification {
    /// Read the file in full and process it.
    Process,
    /// Skip it: its byte length exceeds the size ceiling.
    SkipTooLarge,
    /// Skip it: its leading bytes sniff as binary.
    SkipBinary,
}

/// The classification of a file with `size` bytes of metadata length and a
/// non-consuming read of its leading bytes `prefix`. The size ceiling is
/// checked first, from metadata alone; an empty prefix never sniffs binary.
pub open spec fn classify_spec(size: u64, prefix: Seq<u8>) -> Classification {
    if size > MAX_FILE_SIZE {
        Classification::SkipTooLarge
    } else if prefix.len() > 0 && is_binary_content(prefix) {
        Classification::SkipBinary
    } else {
        Classification::Process
    }
}

/// Whether a file of `size` bytes lies above the size ceiling. Files exactly
/// at the ceiling pass; one byte over is skipped.
pub fn exceeds_size_ceiling(size: u64) -> (r: bool)
    ensures
        r == (size > MAX_FILE_SIZE),
{
    size > MAX_FILE_SIZE
}

/// Whether a file's leading bytes sniff as binary. An empty prefix (an empty
/// file) is never binary.
pub fn prefix_is_binary(prefix: &[u8]) -> (r: bool)
    ensures
        r == (prefix@.len() > 0 && is_binary_content(prefix@)),
{
    if prefix.len() == 0 {
        false
    } else {
        inspect_is_binary(prefix)
    }
}

/// Classifies one file from its metadata length and its leading bytes, as
/// `classify_spec` describes.
pub fn classify(size: u64, prefix: &[u8]) -> (c: Classification)
    ensures
        c == classify_spec(size, prefix@),
{
    if exceeds_size_ceiling(size) {
        Classification::SkipTooLarge
    } else if prefix_is_binary(prefix) {
        Classification::SkipBinary
    } else {
        Classification::Process
    }
}

} // verus!
