use gitmelt::classify::Classification;
use gitmelt::classify::MAX_FILE_SIZE;
use gitmelt::classify::classify;
use gitmelt::classify::exceeds_size_ceiling;
use gitmelt::classify::prefix_is_binary;
use gitmelt::decorator::DefaultDecorator;
use gitmelt::tokenizer::Tokenizer;
use gitmelt::worker::FileOutcome;
use gitmelt::worker::ReadError;
use gitmelt::worker::SkipReason;
use gitmelt::worker::process_outcome;

#[test]
fn test_size_ceiling_boundary() {
    // a file exactly at the ceiling is processed; one byte over is skipped
    assert!(!exceeds_size_ceiling(MAX_FILE_SIZE));
    assert!(exceeds_size_ceiling(MAX_FILE_SIZE + 1));
    assert!(!exceeds_size_ceiling(0));
}

#[test]
fn test_classify_at_ceiling() {
    let text_prefix = b"plain text".to_vec();
    assert!(matches!(
        classify(MAX_FILE_SIZE, &text_prefix),
        Classification::Process
    ));
    assert!(matches!(
        classify(MAX_FILE_SIZE + 1, &text_prefix),
        Classification::SkipTooLarge
    ));
}

#[test]
fn test_classify_binary() {
    let nuls = vec![0u8; 100];
    assert!(prefix_is_binary(&nuls));
    assert!(matches!(classify(100, &nuls), Classification::SkipBinary));

    let text = b"Important Context\n".to_vec();
    assert!(!prefix_is_binary(&text));
    assert!(matches!(classify(100, &text), Classification::Process));

    // an empty prefix (an empty file) is never binary
    let empty: Vec<u8> = Vec::new();
    assert!(!prefix_is_binary(&empty));

    // a UTF-16 byte-order mark marks text even though NUL bytes follow
    let utf16 = vec![0xFFu8, 0xFEu8, 0x68u8, 0x00u8, 0x69u8, 0x00u8];
    assert!(!prefix_is_binary(&utf16));
}

#[test]
fn test_process_content_block() {
    let result = process_outcome(
        7,
        "a.txt",
        FileOutcome::Text("hello".to_string()),
        &DefaultDecorator,
        None,
    );
    assert_eq!(result.index, 7);
    assert_eq!(result.tokens, 0);
    assert_eq!(
        result.body,
        "================================================\nFILE: a.txt\n================================================\n\nhello"
    );
}

#[test]
fn test_process_placeholders() {
    let cases = [
        (
            FileOutcome::Skipped(SkipReason::TooLarge),
            "----- big.bin (Skipped: >10MB) -----",
        ),
        (
            FileOutcome::Skipped(SkipReason::Binary),
            "----- big.bin (Skipped: Binary) -----",
        ),
        (
            FileOutcome::Failed(ReadError::OpenFailed),
            "----- big.bin (Error opening file) -----",
        ),
        (
            FileOutcome::Failed(ReadError::PrefixReadFailed),
            "----- big.bin (Error reading prelude) -----",
        ),
        (
            FileOutcome::Failed(ReadError::SeekFailed),
            "----- big.bin (Error seeking file) -----",
        ),
        (
            FileOutcome::Failed(ReadError::FullReadFailed),
            "----- big.bin (Error reading content) -----",
        ),
    ];
    let mut index = 0;
    for (outcome, expected) in cases {
        let result = process_outcome(index, "big.bin", outcome, &DefaultDecorator, None);
        assert_eq!(result.index, index);
        assert_eq!(result.tokens, 0);
        assert_eq!(result.body, expected);
        index += 1;
    }
}

#[test]
fn test_tokens_counted_on_transformed_content_only() {
    let tokenizer = Tokenizer::new().expect("the cl100k_base encoding should load");
    let content = "fn main() { println!(\"hi\"); }";
    let direct = tokenizer.count_tokens(content);
    assert!(direct > 0);

    // the decorator's wrapper text must not be counted
    let result = process_outcome(
        0,
        "main.rs",
        FileOutcome::Text(content.to_string()),
        &DefaultDecorator,
        Some(&tokenizer),
    );
    assert_eq!(result.tokens, direct);
}

#[test]
fn test_tokenizer_empty_text() {
    let tokenizer = Tokenizer::new().expect("the cl100k_base encoding should load");
    assert_eq!(tokenizer.count_tokens(""), 0);
}

#[test]
fn test_placeholder_counts_no_tokens() {
    let tokenizer = Tokenizer::new().expect("the cl100k_base encoding should load");
    let result = process_outcome(
        0,
        "big.bin",
        FileOutcome::Skipped(SkipReason::TooLarge),
        &DefaultDecorator,
        Some(&tokenizer),
    );
    assert_eq!(result.tokens, 0);
}
