use gitmelt::classify::Classification;
use gitmelt::traversal::retain_file;
use gitmelt::classify::classify;
use gitmelt::decorator::DefaultDecorator;
use gitmelt::reorder::Reorderer;
use gitmelt::worker::FileOutcome;
use gitmelt::worker::SkipReason;
use gitmelt::worker::process_outcome;

#[test]
fn test_retain_file_decision() {
    // no patterns at all: everything is kept
    assert!(retain_file(false, false, false));
    // a skip match always drops the file
    assert!(!retain_file(true, false, false));
    assert!(!retain_file(true, true, true));
    // with keep patterns configured, only matched files stay
    assert!(retain_file(false, true, true));
    assert!(!retain_file(false, true, false));
}

/// One file of the synthetic input list: its path, its metadata size, and
/// its content bytes.
struct FakeFile {
    path: &'static str,
    size: u64,
    bytes: Vec<u8>,
}

fn outcome_of(file: &FakeFile) -> FileOutcome {
    let prefix_len = file.bytes.len().min(1024);
    match classify(file.size, &file.bytes[..prefix_len]) {
        Classification::SkipTooLarge => FileOutcome::Skipped(SkipReason::TooLarge),
        Classification::SkipBinary => FileOutcome::Skipped(SkipReason::Binary),
        Classification::Process => {
            FileOutcome::Text(String::from_utf8(file.bytes.clone()).unwrap())
        }
    }
}

#[test]
fn test_digest_scenario_binary_in_the_middle() {
    // input: a.txt("hello"), b.bin(binary bytes), c.txt("world"); the digest
    // must hold a block for each, in that order, whatever order the workers
    // finish in
    let files = [
        FakeFile { path: "a.txt", size: 5, bytes: b"hello".to_vec() },
        FakeFile { path: "b.bin", size: 4, bytes: vec![0u8, 159, 146, 150] },
        FakeFile { path: "c.txt", size: 5, bytes: b"world".to_vec() },
    ];

    // workers finish in the order c, b, a
    let completion_order = [2usize, 1, 0];
    let mut stage = Reorderer::new(files.len());
    let mut digest = String::new();
    for &i in &completion_order {
        let result = process_outcome(i, files[i].path, outcome_of(&files[i]), &DefaultDecorator, None);
        for block in stage.accept(result).unwrap() {
            digest.push_str(&block.body);
            digest.push('\n');
        }
    }
    let metrics = stage.finish().unwrap();
    assert_eq!(metrics.total_tokens, 0);

    let hello = digest.find("hello").unwrap();
    let skipped = digest.find("----- b.bin (Skipped: Binary) -----").unwrap();
    let world = digest.find("world").unwrap();
    assert!(hello < skipped && skipped < world);

    let a_block = digest.find("FILE: a.txt").unwrap();
    let c_block = digest.find("FILE: c.txt").unwrap();
    assert!(a_block < hello && hello < c_block);
}

#[test]
fn test_every_file_yields_exactly_one_block() {
    // one unreadable, one oversized, one binary, one plain file: every input
    // gets exactly one block and the bad ones do not disturb the good one
    let outcomes = [
        FileOutcome::Failed(gitmelt::worker::ReadError::OpenFailed),
        FileOutcome::Skipped(SkipReason::TooLarge),
        FileOutcome::Skipped(SkipReason::Binary),
        FileOutcome::Text("still fine".to_string()),
    ];
    let mut stage = Reorderer::new(4);
    let mut blocks: Vec<String> = Vec::new();
    let mut index = 0;
    for outcome in outcomes {
        let result = process_outcome(index, "f", outcome, &DefaultDecorator, None);
        for block in stage.accept(result).unwrap() {
            blocks.push(block.body);
        }
        index += 1;
    }
    stage.finish().unwrap();
    assert_eq!(blocks.len(), 4);
    assert!(blocks[3].contains("still fine"));
}

#[test]
fn test_identical_runs_give_identical_digests() {
    // running the pipeline twice over unchanged inputs gives byte-identical
    // digests, even with different completion orders
    let files = [
        FakeFile { path: "x.txt", size: 3, bytes: b"one".to_vec() },
        FakeFile { path: "y.txt", size: 3, bytes: b"two".to_vec() },
    ];
    let mut digests: Vec<String> = Vec::new();
    for order in [[0usize, 1], [1usize, 0]] {
        let mut stage = Reorderer::new(files.len());
        let mut digest = String::new();
        for &i in &order {
            let result =
                process_outcome(i, files[i].path, outcome_of(&files[i]), &DefaultDecorator, None);
            for block in stage.accept(result).unwrap() {
                digest.push_str(&block.body);
                digest.push('\n');
            }
        }
        stage.finish().unwrap();
        digests.push(digest);
    }
    assert_eq!(digests[0], digests[1]);
}

#[test]
fn test_token_totals_add_up() {
    let tokenizer = gitmelt::tokenizer::Tokenizer::new().expect("the cl100k_base encoding should load");
    let contents = ["fn main() {}", "hello world", "zebra quartz"];
    let mut expected: usize = 0;
    for content in contents {
        expected += tokenizer.count_tokens(content);
    }
    assert!(expected > 0);

    let mut stage = Reorderer::new(contents.len());
    let mut index = contents.len();
    while index > 0 {
        index -= 1;
        let result = process_outcome(
            index,
            "f.txt",
            FileOutcome::Text(contents[index].to_string()),
            &DefaultDecorator,
            Some(&tokenizer),
        );
        stage.accept(result).unwrap();
    }
    let metrics = stage.finish().unwrap();
    assert_eq!(metrics.total_tokens, expected);
}
