use wall_e1::processor::BasicTextProcessor;
use wall_e1::stream::{strip_line_ending, BatchReader, BatchStep, ReadOutcome};

/// Runs one request for a batch over the given remaining lines, as a file reader would.
fn next_batch<P: wall_e1::processor::TextProcessor>(r: &mut BatchReader<P>, lines: &mut std::collections::VecDeque<String>) -> Option<Vec<String>> {
    match r.begin() {
        BatchStep::Finished => None,
        BatchStep::Ready(b) => Some(b),
        BatchStep::ReadLines => {
            while r.wants_line() {
                match lines.pop_front() {
                    Some(l) => r.on_read(ReadOutcome::Line(l)),
                    None => r.on_read(ReadOutcome::EndOfFile),
                }
            }
            r.finish()
        }
    }
}

fn file_lines(text: &str) -> std::collections::VecDeque<String> {
    text.split_inclusive('\n').map(|s| s.to_string()).collect()
}

#[test]
fn test_dataset_stream() {
    let mut lines = file_lines("Line 1\nLine 2\nLine 3\nLine 4\nLine 5\n");
    let mut stream: BatchReader<BasicTextProcessor> = BatchReader::new(2);

    // Reads the first batch
    let batch1 = next_batch(&mut stream, &mut lines).unwrap();
    assert_eq!(batch1.len(), 2);
    assert_eq!(batch1[0], "Line 1");
    assert_eq!(batch1[1], "Line 2");

    // Reads the second batch
    let batch2 = next_batch(&mut stream, &mut lines).unwrap();
    assert_eq!(batch2.len(), 2);
    assert_eq!(batch2[0], "Line 3");
    assert_eq!(batch2[1], "Line 4");

    // Reads the third batch (incomplete)
    let batch3 = next_batch(&mut stream, &mut lines).unwrap();
    assert_eq!(batch3.len(), 1);
    assert_eq!(batch3[0], "Line 5");

    // Verifies that there is no more data
    assert!(next_batch(&mut stream, &mut lines).is_none());
}

#[test]
fn test_stream_with_processor() {
    let mut lines = file_lines("  UPPER CASE  \n Mixed   Case  \n");
    let processor = BasicTextProcessor::new(true, true);
    let mut stream = BatchReader::new(2).with_processor(processor);

    let batch = next_batch(&mut stream, &mut lines).unwrap();
    assert_eq!(batch.len(), 2);
    assert_eq!(batch[0], "upper case");
    assert_eq!(batch[1], "mixed case");
}

#[test]
fn stream_line_endings() {
    assert_eq!(strip_line_ending("abc\r\n"), "abc");
    assert_eq!(strip_line_ending("abc\n"), "abc");
    assert_eq!(strip_line_ending("abc\r"), "abc\r");
    assert_eq!(strip_line_ending("abc"), "abc");
    assert_eq!(strip_line_ending("\n"), "");
}

#[test]
fn stream_read_failure_ends_the_stream() {
    let mut r: BatchReader<BasicTextProcessor> = BatchReader::new(3);
    assert!(matches!(r.begin(), BatchStep::ReadLines));
    r.on_read(ReadOutcome::Line("one\n".to_string()));
    assert!(r.wants_line());
    r.on_read(ReadOutcome::Failed);
    assert!(!r.wants_line());
    assert_eq!(r.finish(), Some(vec!["one".to_string()]));
    assert!(matches!(r.begin(), BatchStep::Finished));
}

#[test]
fn stream_zero_batch_size_reads_nothing() {
    let mut r: BatchReader<BasicTextProcessor> = BatchReader::new(0);
    assert!(matches!(r.begin(), BatchStep::ReadLines));
    assert!(!r.wants_line());
    assert_eq!(r.finish(), None);
    assert!(matches!(r.begin(), BatchStep::ReadLines));
}
