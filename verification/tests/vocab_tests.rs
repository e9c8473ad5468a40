use wall_e1::vocab::Vocab;

#[test]
fn test_vocab_add_token() {
    let mut vocab = Vocab::new();

    // Adding tokens
    assert_eq!(vocab.add_token("hello"), 0);
    assert_eq!(vocab.add_token("world"), 1);

    // Verify token -> ID mapping
    assert_eq!(vocab.token_to_id("hello"), Some(0));
    assert_eq!(vocab.token_to_id("world"), Some(1));
    assert_eq!(vocab.token_to_id("unknown"), None);

    // Verify ID -> token mapping
    assert_eq!(vocab.id_to_token(0), Some("hello"));
    assert_eq!(vocab.id_to_token(1), Some("world"));
    assert_eq!(vocab.id_to_token(2), None);

    // Verify vocabulary size
    assert_eq!(vocab.len(), 2);
}

#[test]
fn test_vocab_special_tokens() {
    let mut vocab = Vocab::new();

    // Adding special tokens
    assert_eq!(vocab.add_special_token("[PAD]"), 0);
    assert_eq!(vocab.add_special_token("[UNK]"), 1);

    // Verify special tokens
    assert!(vocab.is_special_token("[PAD]"));
    assert!(vocab.is_special_token("[UNK]"));
    assert!(!vocab.is_special_token("hello"));

    // Adding regular tokens
    assert_eq!(vocab.add_token("hello"), 2);

    // Verify vocabulary size
    assert_eq!(vocab.len(), 3);
}

#[test]
fn vocab_add_token_is_idempotent() {
    let mut vocab = Vocab::new();
    let a = vocab.add_token("hello");
    let b = vocab.add_token("hello");
    assert_eq!(a, b);
    assert_eq!(vocab.len(), 1);
    assert!(vocab.is_empty() == false);
    assert!(Vocab::new().is_empty());
}

#[test]
fn vocab_special_token_keeps_existing_id() {
    let mut vocab = Vocab::new();
    vocab.add_token("a");
    vocab.add_token("b");
    assert_eq!(vocab.add_special_token("a"), 0);
    assert!(vocab.is_special_token("a"));
    assert!(!vocab.is_special_token("b"));
    assert_eq!(vocab.len(), 2);
}

#[test]
fn test_vocab_save_load() {
    let mut vocab = Vocab::new();

    // Add tokens in the correct order for the test
    vocab.add_special_token("[PAD]"); // ID 0
    vocab.add_special_token("[UNK]"); // ID 1
    vocab.add_token("hello"); // ID 2
    vocab.add_token("world"); // ID 3

    // Verify order before saving
    assert_eq!(vocab.token_to_id("[PAD]"), Some(0));
    assert_eq!(vocab.token_to_id("[UNK]"), Some(1));
    assert_eq!(vocab.token_to_id("hello"), Some(2));

    // Save the vocabulary (the lines of its file)
    let lines = vocab.to_lines();

    // Load the vocabulary from those lines
    let loaded_vocab = Vocab::from_lines(&lines);

    // Verify that the loaded vocabulary is identical to the original
    assert_eq!(loaded_vocab.len(), vocab.len());
    assert_eq!(loaded_vocab.token_to_id("[PAD]"), vocab.token_to_id("[PAD]"));
    assert_eq!(loaded_vocab.token_to_id("[UNK]"), vocab.token_to_id("[UNK]"));
    assert_eq!(loaded_vocab.token_to_id("hello"), vocab.token_to_id("hello"));
    assert!(loaded_vocab.is_special_token("[PAD]"));
}

#[test]
fn vocab_file_lines_layout() {
    let mut vocab = Vocab::new();
    vocab.add_special_token("[PAD]");
    vocab.add_token("hello");
    vocab.add_token("world");
    assert_eq!(vocab.to_lines(), vec!["hello\t1", "world\t2", "<special>\t[PAD]\t0"]);
}

#[test]
fn vocab_from_lines_reads_fields() {
    let lines: Vec<String> = vec![
        "a\t7".to_string(),
        "b\tx".to_string(),
        "<special>\t[S]\t3".to_string(),
        "ignored line".to_string(),
        "too\tmany\tfields".to_string(),
    ];
    let v = Vocab::from_lines(&lines);
    assert_eq!(v.token_to_id("a"), Some(7));
    assert_eq!(v.id_to_token(7), Some("a"));
    // an ID that is not a number counts as 0
    assert_eq!(v.token_to_id("b"), Some(0));
    assert_eq!(v.token_to_id("[S]"), Some(3));
    assert!(v.is_special_token("[S]"));
    assert!(!v.is_special_token("a"));
    assert_eq!(v.token_to_id("too"), None);
    assert_eq!(v.len(), 3);
}

#[test]
fn vocab_lines_round_trip_many() {
    let mut vocab = Vocab::new();
    for t in ["[PAD]", "[UNK]"] {
        vocab.add_special_token(t);
    }
    for t in ["x", "y", "z", "", "x"] {
        vocab.add_token(t);
    }
    let loaded = Vocab::from_lines(&vocab.to_lines());
    assert_eq!(loaded.len(), vocab.len());
    for id in 0..vocab.len() {
        let t = vocab.id_to_token(id).unwrap();
        assert_eq!(loaded.id_to_token(id), Some(t));
        assert_eq!(loaded.token_to_id(t), Some(id));
        assert_eq!(loaded.is_special_token(t), vocab.is_special_token(t));
    }
}
