use gitmelt::reorder::PipelineError;
use gitmelt::reorder::Reorderer;
use gitmelt::worker::ProcessedFile;

fn result(index: usize, body: &str, tokens: usize) -> ProcessedFile {
    ProcessedFile {
        index,
        body: body.to_string(),
        tokens,
    }
}

#[test]
fn test_in_order_arrival_flushes_immediately() {
    let mut stage = Reorderer::new(3);
    for i in 0..3 {
        let flushed = stage.accept(result(i, "x", 1)).unwrap();
        assert_eq!(flushed.len(), 1);
        assert_eq!(flushed[0].index, i);
    }
    let metrics = stage.finish().unwrap();
    assert_eq!(metrics.total_tokens, 3);
}

#[test]
fn test_out_of_order_arrival_restores_input_order() {
    // workers finish in the order 2, 0, 1; the output order must be 0, 1, 2
    let mut stage = Reorderer::new(3);

    let flushed = stage.accept(result(2, "third", 30)).unwrap();
    assert_eq!(flushed.len(), 0);
    assert_eq!(stage.pending_count(), 1);

    let flushed = stage.accept(result(0, "first", 10)).unwrap();
    assert_eq!(flushed.len(), 1);
    assert_eq!(flushed[0].body, "first");

    let flushed = stage.accept(result(1, "second", 20)).unwrap();
    assert_eq!(flushed.len(), 2);
    assert_eq!(flushed[0].body, "second");
    assert_eq!(flushed[1].body, "third");

    assert_eq!(stage.pending_count(), 0);
    let metrics = stage.finish().unwrap();
    assert_eq!(metrics.total_tokens, 60);
}

#[test]
fn test_reverse_arrival_order() {
    let n: usize = 16;
    let mut stage = Reorderer::new(n);
    let mut i = n;
    while i > 1 {
        i -= 1;
        let flushed = stage.accept(result(i, &format!("block {}", i), i)).unwrap();
        assert_eq!(flushed.len(), 0);
        // the buffer never holds more than the out-of-order window
        assert!(stage.pending_count() <= n - stage.released_count());
    }
    let flushed = stage.accept(result(0, "block 0", 0)).unwrap();
    assert_eq!(flushed.len(), n);
    for (position, block) in flushed.iter().enumerate() {
        assert_eq!(block.index, position);
        assert_eq!(block.body, format!("block {}", position));
    }
    let metrics = stage.finish().unwrap();
    assert_eq!(metrics.total_tokens, (0..n).sum::<usize>());
}

#[test]
fn test_empty_run() {
    let stage = Reorderer::new(0);
    let metrics = stage.finish().unwrap();
    assert_eq!(metrics.total_tokens, 0);
}

#[test]
fn test_duplicate_index_refused() {
    let mut stage = Reorderer::new(2);
    stage.accept(result(0, "a", 0)).unwrap();
    let err = stage.accept(result(0, "again", 0)).unwrap_err();
    assert!(matches!(err, PipelineError::DuplicateIndex));
    // a buffered duplicate is refused too
    stage.accept(result(1, "b", 0)).unwrap();
    let err = stage.accept(result(1, "again", 0)).unwrap_err();
    assert!(matches!(err, PipelineError::DuplicateIndex));
}

#[test]
fn test_index_beyond_total_refused() {
    let mut stage = Reorderer::new(2);
    let err = stage.accept(result(2, "x", 0)).unwrap_err();
    assert!(matches!(err, PipelineError::IndexBeyondTotal));
}

#[test]
fn test_missing_result_is_fatal() {
    // the stream ends before index 1 arrives: the run must fail, not
    // silently truncate
    let mut stage = Reorderer::new(2);
    stage.accept(result(0, "a", 5)).unwrap();
    let err = stage.finish().unwrap_err();
    assert!(matches!(err, PipelineError::MissingResults));
}

#[test]
fn test_lost_middle_result_is_fatal() {
    let mut stage = Reorderer::new(3);
    stage.accept(result(0, "a", 0)).unwrap();
    stage.accept(result(2, "c", 0)).unwrap();
    let err = stage.finish().unwrap_err();
    assert!(matches!(err, PipelineError::MissingResults));
}

#[test]
fn test_error_descriptions() {
    assert_eq!(
        PipelineError::MissingResults.describe(),
        "results ended before every file was written"
    );
    assert_eq!(
        PipelineError::DuplicateIndex.describe(),
        "a second result arrived for the same index"
    );
    assert_eq!(
        PipelineError::IndexBeyondTotal.describe(),
        "result index beyond the announced file count"
    );
}

#[test]
fn test_two_runs_agree() {
    // the same results, arriving in two different orders, give the same
    // releases and the same total
    let arrivals_one = [0usize, 2, 1, 3];
    let arrivals_two = [3usize, 2, 1, 0];
    let mut bodies_one: Vec<String> = Vec::new();
    let mut bodies_two: Vec<String> = Vec::new();

    let mut stage = Reorderer::new(4);
    for &i in &arrivals_one {
        for block in stage.accept(result(i, &format!("b{}", i), i)).unwrap() {
            bodies_one.push(block.body);
        }
    }
    let total_one = stage.finish().unwrap().total_tokens;

    let mut stage = Reorderer::new(4);
    for &i in &arrivals_two {
        for block in stage.accept(result(i, &format!("b{}", i), i)).unwrap() {
            bodies_two.push(block.body);
        }
    }
    let total_two = stage.finish().unwrap().total_tokens;

    assert_eq!(bodies_one, bodies_two);
    assert_eq!(total_one, total_two);
    assert_eq!(bodies_one, vec!["b0", "b1", "b2", "b3"]);
}
