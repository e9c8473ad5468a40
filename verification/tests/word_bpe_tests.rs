use wall_e1::tokenizer::Tokenizer;
use wall_e1::word_bpe::{repetition_counts, WordPieceBPETokenizer, DEFAULT_REPETITION_PENALTY_BITS};

#[test]
fn test_word_bpe_tokenizer_simple() {
    let mut tokenizer = WordPieceBPETokenizer::new();

    // Test pre-tokenization
    let tokens = tokenizer.pre_tokenize("Hello, world!");
    assert_eq!(tokens, vec!["hello", "[,]", "[SPACE]", "world", "[!]"]);

    // For the decoder test, we'll manually create a token sequence
    // that represents what we want to decode, rather than using the tokenizer
    let test_tokens = vec!["hello</w>", "[,]", "[SPACE]", "world</w>", "[!]"];

    // Convert to token IDs
    let test_ids: Vec<usize> = test_tokens
        .iter()
        .map(|token| {
            // Add token to vocab to ensure we have IDs for our test tokens
            let id = tokenizer.as_vocab_mut().unwrap().add_token(token);
            id
        })
        .collect();

    // Test decoding directly
    let decoded = tokenizer.decode(&test_ids);
    assert_eq!(decoded, "hello, world!");
}

#[test]
fn test_word_bpe_learn() {
    let mut tokenizer = WordPieceBPETokenizer::new();

    // Example text with word boundaries
    let text = "Hello, hello! This is a test. Hello again.";

    // Learn BPE rules
    tokenizer.learn_bpe(text, 200, 1);

    // Verify that rules have been learned
    assert!(!tokenizer.get_merges().is_empty());

    // Tokenize a word present in the training text
    let tokens = tokenizer.tokenize("Hello, test!");
    assert!(!tokens.is_empty());

    // Verify that tokenization and decoding are consistent
    let ids = tokenizer.encode("Hello, test!");
    let decoded = tokenizer.decode(&ids);
    assert_eq!(decoded, "hello, test!");
}

#[test]
fn test_word_boundaries() {
    let mut tokenizer = WordPieceBPETokenizer::new();

    // Example text with word boundaries
    let text = "Hello, world! How are you? I'm fine, thank you.";

    // Learn BPE rules
    tokenizer.learn_bpe(text, 200, 1);

    // Verify tokenization and decoding of a sentence
    let _tokens = tokenizer.tokenize(text);
    let ids = tokenizer.encode(text);
    let decoded = tokenizer.decode(&ids);

    // Check if the decoded text has proper word boundaries
    assert_eq!(decoded, "hello, world! how are you? i'm fine, thank you.");

    // Test with some problematic input
    let strange_text = "Hello@world#with$strange^chars&and*weird(symbols)!";
    let ids = tokenizer.encode(strange_text);
    let decoded = tokenizer.decode(&ids);

    // Should properly filter invalid characters
    assert!(decoded.contains("hello"));
    assert!(decoded.contains("world"));
    assert!(decoded.contains("with"));
    assert!(decoded.contains("strange"));
    assert!(decoded.contains("chars"));
    assert!(decoded.contains("and"));
    assert!(decoded.contains("weird"));
    assert!(decoded.contains("symbols"));
}

#[test]
fn word_bpe_new_vocabulary_layout() {
    let tokenizer = WordPieceBPETokenizer::new();
    let v = tokenizer.get_vocab();
    // 5 special tokens, 30 punctuation tokens, 65 other printable ASCII characters, `</w>`
    assert_eq!(tokenizer.vocab_size(), 101);
    assert_eq!(tokenizer.get_vocab_size(), 101);
    assert_eq!(v.token_to_id("[PAD]"), Some(0));
    assert_eq!(v.token_to_id("[UNK]"), Some(1));
    assert_eq!(v.token_to_id("[SPACE]"), Some(4));
    assert_eq!(v.token_to_id("[.]"), Some(5));
    assert_eq!(v.token_to_id("[*]"), Some(34));
    assert_eq!(v.token_to_id(" "), Some(35));
    assert_eq!(v.token_to_id("0"), Some(36));
    assert_eq!(v.token_to_id("</w>"), Some(100));
    assert_eq!(v.token_to_id("."), None);
    assert!(v.is_special_token("[,]"));
    assert!(!v.is_special_token("a"));
    assert_eq!(tokenizer.repetition_penalty_bits(), DEFAULT_REPETITION_PENALTY_BITS);
}

#[test]
fn word_bpe_pre_tokenize_drops_other_characters() {
    let tokenizer = WordPieceBPETokenizer::new();
    assert_eq!(tokenizer.pre_tokenize("Ab~c  D"), vec!["abc", "[SPACE]", "[SPACE]", "d"]);
    assert_eq!(tokenizer.pre_tokenize(""), Vec::<String>::new());
}

#[test]
fn word_bpe_apply_bpe_cases() {
    let tokenizer = WordPieceBPETokenizer::new();
    assert_eq!(tokenizer.apply_bpe("[SPACE]"), vec!["[SPACE]"]);
    assert_eq!(tokenizer.apply_bpe("~~"), Vec::<String>::new());
    assert_eq!(tokenizer.apply_bpe("Ab"), vec!["a", "b", "w"]);
}

#[test]
fn word_bpe_tokens_concatenate_to_word() {
    let mut tokenizer = WordPieceBPETokenizer::new();
    tokenizer.learn_bpe("low lower lowest low lower", 150, 1);
    let joined: String = tokenizer.apply_bpe("Lower").concat();
    assert_eq!(joined, "lower</w>");
}

#[test]
fn word_bpe_parallel_matches_single_text() {
    let mut a = WordPieceBPETokenizer::new();
    let mut b = WordPieceBPETokenizer::new();
    a.learn_bpe("the cat. the hat", 120, 1);
    b.learn_bpe_parallel(&["the cat.", " the hat"], 120, 1);
    assert_eq!(a.get_merges(), b.get_merges());
    assert_eq!(a.vocab_size(), b.vocab_size());
}

#[test]
fn word_bpe_learn_stops_when_vocabulary_is_large_enough() {
    let mut tokenizer = WordPieceBPETokenizer::new();
    tokenizer.learn_bpe("hello hello", 50, 1);
    assert!(tokenizer.get_merges().is_empty());
    assert_eq!(tokenizer.vocab_size(), 101);
}

#[test]
fn word_bpe_learn_respects_min_frequency() {
    let mut tokenizer = WordPieceBPETokenizer::new();
    tokenizer.learn_bpe("ab ab cd", 200, 2);
    let merges = tokenizer.get_merges();
    assert!(!merges.is_empty());
    assert!(merges.iter().all(|m| !m.2.contains('c') && !m.2.contains('d')));
}

#[test]
fn word_bpe_resize_adds_placeholders() {
    let mut tokenizer = WordPieceBPETokenizer::new();
    tokenizer.resize_vocabulary(104);
    assert_eq!(tokenizer.vocab_size(), 104);
    assert_eq!(tokenizer.get_vocab().token_to_id("[PLACEHOLDER_0]"), Some(101));
    assert_eq!(tokenizer.get_vocab().token_to_id("[PLACEHOLDER_2]"), Some(103));
    tokenizer.update_vocab_size(50);
    assert_eq!(tokenizer.vocab_size(), 104);
    tokenizer.update_vocab_size(105);
    // placeholder 0 exists already, so nothing new is added
    assert_eq!(tokenizer.vocab_size(), 104);
}

#[test]
fn word_bpe_decode_collapses_spaces_and_skips_unknown() {
    let tokenizer = WordPieceBPETokenizer::new();
    let v = tokenizer.get_vocab();
    let sp = v.token_to_id("[SPACE]").unwrap();
    let a = v.token_to_id("a").unwrap();
    let end = v.token_to_id("</w>").unwrap();
    let bos = v.token_to_id("[BOS]").unwrap();
    let ids = vec![a, end, sp, sp, a, end, 9999];
    assert_eq!(tokenizer.decode(&ids), "a a");
    // a bracketed token is written without its brackets
    assert_eq!(tokenizer.decode(&[bos]), "BOS");
}

#[test]
fn word_bpe_repetition_counts() {
    let counts = repetition_counts(&[3, 1, 3, 7, 3, 1], 5);
    assert_eq!(counts, vec![(3, 3), (1, 2)]);
    assert_eq!(repetition_counts(&[], 5), vec![]);
}

#[test]
fn word_bpe_set_penalty_bits() {
    let mut tokenizer = WordPieceBPETokenizer::new();
    tokenizer.set_repetition_penalty_bits(2.0f32.to_bits());
    assert_eq!(f32::from_bits(tokenizer.repetition_penalty_bits()), 2.0);
}

#[test]
fn word_bpe_parallel_matches_joined_chunks() {
    let chunks = ["low lower, lowest", "newer\tnew", "", "low-er"];
    let mut a = WordPieceBPETokenizer::new();
    let mut b = WordPieceBPETokenizer::new();
    a.learn_bpe(&chunks.join(" "), 140, 1);
    b.learn_bpe_parallel(&chunks, 140, 1);
    assert_eq!(a.get_merges(), b.get_merges());
    assert_eq!(a.vocab_size(), b.vocab_size());
}
