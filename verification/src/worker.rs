//! The per-file work of the pipeline: turning what reading one file yielded
//! into exactly one indexed result, whatever happened — content decorated and
//! tokenized on success, a short placeholder on a skip or a read error.

use vstd::prelude::*;

use crate::decorator::ContentDecorator;
use crate::text::trim_end_spec;
use crate::text::trim_end_exec;
use crate::tokenizer::Tokenizer;
use crate::tokenizer::cl100k_token_count;

verus! {

/// One fully processed file: its position in the input list, its formatted
/// block, and its token count.
#[derive(Debug)]
pub struct ProcessedFile {
    /// The file's 0-based position in the input list.
    pub index: usize,
    /// The fully formatted block: wrapper text, transformed content or a
    /// placeholder, trimmed of trailing white space.
    pub body: String,
    /// Tokens counted over the transformed content alone; zero for a skipped
    /// or failed file, and zero when no tokenizer is configured.
    pub tokens: usize,
}

/// Why a file was skipped without reading it in full.
#[derive(Clone, Copy, Debug, PartialEq, Eq, Structural)]
pub enum SkipReason {
    /// Its byte length exceeds the size ceiling.
    TooLarge,
    /// Its leading bytes sniff as binary.
    Binary,
}

/// Which step of reading a file failed. Each is a per-file, recoverable
/// condition: it yields a placeholder, never aborts the run.
#[derive(Clone, Copy, Debug, PartialEq, Eq, Structural)]
pub enum ReadError {
    /// Opening the file failed.
    OpenFailed,
    /// Reading the sniff prefix failed.
    PrefixReadFailed,
    /// Seeking back to the start after the sniff failed.
    SeekFailed,
    /// Reading the full content failed.
    FullReadFailed,
}

/// What reading one file yielded: its full text, a classification that said
/// to skip it, or the read step that failed.
pub enum FileOutcome {
    /// The file was classified processable and read in full.
    Text(String),
    /// Classification said to skip it.
    Skipped(SkipReason),
    /// A read step failed.
    Failed(ReadError),
}

/// The parenthetical note of a placeholder block.
pub open spec fn outcome_note(o: FileOutcome) -> Seq<char> {
    match o {
        FileOutcome::Text(_) => Seq::empty(),
        FileOutcome::Skipped(SkipReason::TooLarge) => "(Skipped: >10MB)"@,
        FileOutcome::Skipped(SkipReason::Binary) => "(Skipped: Binary)"@,
        FileOutcome::Failed(ReadError::OpenFailed) => "(Error opening file)"@,
        FileOutcome::Failed(ReadError::PrefixReadFailed) => "(Error reading prelude)"@,
        FileOutcome::Failed(ReadError::SeekFailed) => "(Error seeking file)"@,
        FileOutcome::Failed(ReadError::FullReadFailed) => "(Error reading content)"@,
    }
}

/// A placeholder block: the path and a short note of what happened.
pub open spec fn placeholder_body(path: Seq<char>, note: Seq<char>) -> Seq<char> {
    "----- "@ + path + " "@ + note + " -----"@
}

/// The undecorated concatenation of wrapper text and transformed content:
/// each present piece followed by a newline.
pub open spec fn decorated_block(
    before: Option<Seq<char>>,
    transformed: Seq<char>,
    after: Option<Seq<char>>,
) -> Seq<char> {
    (match before {
        Some(b) => b + seq!['\n'],
        None => Seq::empty(),
    }) + transformed + seq!['\n'] + (match after {
        Some(a) => a + seq!['\n'],
        None => Seq::empty(),
    })
}

/// The block of a successfully read file: decorated, then trimmed of
/// trailing white space.
pub open spec fn content_body<D: ContentDecorator>(
    d: &D,
    path: Seq<char>,
    content: Seq<char>,
) -> Seq<char> {
    trim_end_spec(
        decorated_block(
            d.before_spec(path),
            d.transform_spec(path, content),
            d.after_spec(path),
        ),
    )
}

/// The block a worker produces for one file, whatever its outcome.
pub open spec fn outcome_body<D: ContentDecorator>(
    d: &D,
    path: Seq<char>,
    o: FileOutcome,
) -> Seq<char> {
    match o {
        FileOutcome::Text(c) => content_body(d, path, c@),
        _ => trim_end_spec(placeholder_body(path, outcome_note(o))),
    }
}

/// The tokens a worker reports for one file: the count over the transformed
/// content alone when the file was read and a tokenizer is configured, and
/// zero otherwise.
pub open spec fn outcome_tokens<D: ContentDecorator>(
    d: &D,
    path: Seq<char>,
    o: FileOutcome,
    counting: bool,
) -> usize {
    match o {
        FileOutcome::Text(c) => if counting {
            cl100k_token_count(d.transform_spec(path, c@))
        } else {
            0
        },
        _ => 0,
    }
}

/// Builds a placeholder block for a path and note.
fn build_placeholder(path: &str, note: &str) -> (r: String)
    ensures
        r@ == placeholder_body(path@, note@),
{
    let mut out = "----- ".to_owned();
    out.append(path);
    out.append(" ");
    out.append(note);
    out.append(" -----");
    out
}

/// Turns what reading one file yielded into its result: exactly one block
/// per input file, whatever the outcome, with the index preserved, the body
/// as `outcome_body` describes, and tokens counted over the transformed
/// content alone. A bad file yields its placeholder and touches nothing
/// else, so no outcome of one file can disturb another's result.
pub fn process_outcome<D: ContentDecorator>(
    index: usize,
    path: &str,
    outcome: FileOutcome,
    dec: &D,
    tokenizer: Option<&Tokenizer>,
) -> (r: ProcessedFile)
    ensures
        r.index == index,
        r.body@ == outcome_body(dec, path@, outcome),
        r.tokens == outcome_tokens(dec, path@, outcome, tokenizer is Some),
{
    match outcome {
        FileOutcome::Text(content) => {
            let ghost content_view = content@;
            let mut out = String::new();
            match dec.before(path) {
                Some(b) => {
                    out.append(b.as_str());
                    out.append("\n");
                },
                None => {},
            }
            let t = dec.transform(path, content);
            let tokens: usize = match tokenizer {
                Some(tk) => tk.count_tokens(t.as_str()),
                None => 0,
            };
            out.append(t.as_str());
            out.append("\n");
            match dec.after(path) {
                Some(a) => {
                    out.append(a.as_str());
                    out.append("\n");
                },
                None => {},
            }
            proof {
                reveal_strlit("\n");
                assert("\n"@ =~= seq!['\n']);
                assert(out@ =~= decorated_block(
                    dec.before_spec(path@),
                    dec.transform_spec(path@, content_view),
                    dec.after_spec(path@),
                ));
            }
            let body = trim_end_exec(out.as_str());
            ProcessedFile { index, body, tokens }
        },
        FileOutcome::Skipped(SkipReason::TooLarge) => {
            let body = trim_end_exec(build_placeholder(path, "(Skipped: >10MB)").as_str());
            ProcessedFile { index, body, tokens: 0 }
        },
        FileOutcome::Skipped(SkipReason::Binary) => {
            let body = trim_end_exec(build_placeholder(path, "(Skipped: Binary)").as_str());
            ProcessedFile { index, body, tokens: 0 }
        },
        FileOutcome::Failed(ReadError::OpenFailed) => {
            let body = trim_end_exec(build_placeholder(path, "(Error opening file)").as_str());
            ProcessedFile { index, body, tokens: 0 }
        },
        FileOutcome::Failed(ReadError::PrefixReadFailed) => {
            let body = trim_end_exec(build_placeholder(path, "(Error reading prelude)").as_str());
            ProcessedFile { index, body, tokens: 0 }
        },
        FileOutcome::Failed(ReadError::SeekFailed) => {
            let body = trim_end_exec(build_placeholder(path, "(Error seeking file)").as_str());
            ProcessedFile { index, body, tokens: 0 }
        },
        FileOutcome::Failed(ReadError::FullReadFailed) => {
            let body = trim_end_exec(build_placeholder(path, "(Error reading content)").as_str());
            ProcessedFile { index, body, tokens: 0 }
        },
    }
}

} // verus!
