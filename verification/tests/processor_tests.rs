use wall_e1::processor::{BasicTextProcessor, CompositeTextProcessor, TextProcessor};

#[test]
fn test_basic_processor() {
    let processor = BasicTextProcessor::new(true, true);

    let input = "  Hello   WORLD!  ";
    let expected = "hello world!";

    assert_eq!(processor.process(input), expected);
}

#[test]
fn test_basic_processor_no_lowercase() {
    let processor = BasicTextProcessor::new(false, true);

    let input = "  Hello   WORLD!  ";
    let expected = "Hello WORLD!";

    assert_eq!(processor.process(input), expected);
}

#[test]
fn test_composite_processor() {
    let processor = CompositeTextProcessor::new()
        .add_processor(BasicTextProcessor::new(true, false))
        .add_processor(BasicTextProcessor::new(false, true));

    let input = "  Hello   WORLD!  ";
    let expected = "hello world!";

    assert_eq!(processor.process(input), expected);
}

#[test]
fn basic_processor_identity_when_nothing_asked() {
    let processor = BasicTextProcessor::new(false, false);
    assert_eq!(processor.process("  A\tB  "), "  A\tB  ");
}

#[test]
fn basic_processor_collapses_tabs_and_newlines() {
    let processor = BasicTextProcessor::new(false, true);
    assert_eq!(processor.process("a\t\n b\r\nc"), "a b c");
}

#[test]
fn empty_composite_is_identity() {
    let processor: CompositeTextProcessor<BasicTextProcessor> = CompositeTextProcessor::new();
    assert_eq!(processor.process(" Mixed  Case "), " Mixed  Case ");
}

#[test]
fn processor_collapses_unicode_white_space() {
    let p = BasicTextProcessor::new(false, true);
    assert_eq!(p.process("a\u{3000}\u{3000}b\u{a0}c\u{2028} "), "a b c");
    assert_eq!(p.process("\t\n"), "");
}

#[test]
fn normalizing_joins_the_words_with_single_spaces() {
    let processor = BasicTextProcessor::new(false, true);
    for text in ["", "   ", " a\u{2003}b\n\nc\t", "one", "x  y  "] {
        let expected = text.split_whitespace().collect::<Vec<_>>().join(" ");
        assert_eq!(processor.process(text), expected);
    }
}

#[test]
fn processing_twice_is_processing_once() {
    for (lower, normalize) in [(false, false), (false, true), (true, true), (true, false)] {
        let processor = BasicTextProcessor::new(lower, normalize);
        for text in ["  Hello \t WORLD!  ", "", "a\u{3000}\u{3000}b"] {
            let once = processor.process(text);
            assert_eq!(processor.process(&once), once);
        }
    }
}
