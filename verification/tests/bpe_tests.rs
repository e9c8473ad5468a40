use wall_e1::bpe::BPETokenizer;
use wall_e1::tokenizer::Tokenizer;

#[test]
fn test_bpe_tokenizer_simple() {
    let base = BPETokenizer::new();
    let mut vocab = base.get_vocab().clone();

    // Add some simple tokens to the vocabulary
    vocab.add_token("test");
    vocab.add_token("ing");

    // Add a merge rule
    let merges = vec![
        ("t".to_string(), "e".to_string(), "te".to_string()),
        ("te".to_string(), "s".to_string(), "tes".to_string()),
        ("tes".to_string(), "t".to_string(), "test".to_string()),
    ];
    let tokenizer = BPETokenizer::with_vocab(vocab, merges);

    // Tokenize a word
    let tokens = tokenizer.apply_bpe("test");
    assert_eq!(tokens, vec!["test</w>"]);
}

#[test]
fn test_bpe_learn() {
    let mut tokenizer = BPETokenizer::new();

    // Example text with repetitions to learn BPE rules
    let text = "low lower lowest low lower lowest";

    // Learn BPE rules
    tokenizer.learn_bpe(text, 200, 1);

    // Verify that rules have been learned
    assert!(!tokenizer.get_merges().is_empty());

    // Tokenize a word present in the training text
    let tokens = tokenizer.tokenize("lower");
    assert!(!tokens.is_empty());

    // Verify that tokenization and decoding are consistent
    let ids = tokenizer.encode("lower");
    let decoded = tokenizer.decode(&ids);
    assert_eq!(decoded, "lower");
}

#[test]
fn bpe_new_vocabulary_layout() {
    let tokenizer = BPETokenizer::new();
    // 4 special tokens, 95 printable ASCII characters, the end-of-word marker
    assert_eq!(tokenizer.vocab_size(), 100);
    assert_eq!(tokenizer.get_vocab().token_to_id("[PAD]"), Some(0));
    assert_eq!(tokenizer.get_vocab().token_to_id("[UNK]"), Some(1));
    assert_eq!(tokenizer.get_vocab().token_to_id(" "), Some(4));
    assert_eq!(tokenizer.get_vocab().token_to_id("~"), Some(98));
    assert_eq!(tokenizer.get_vocab().token_to_id("</w>"), Some(99));
    assert!(tokenizer.get_vocab().is_special_token("[EOS]"));
}

#[test]
fn bpe_learn_first_rule_is_most_frequent_pair() {
    let mut tokenizer = BPETokenizer::new();
    tokenizer.learn_bpe("ab ab ab cd", 101, 1);
    let merges = tokenizer.get_merges();
    assert_eq!(merges.len(), 1);
    // "<" followed by "/" occurs in every word (four times), more than any other pair
    assert_eq!(merges[0], ("<".to_string(), "/".to_string(), "</".to_string()));
    assert_eq!(tokenizer.get_vocab().token_to_id("</"), Some(100));
}

#[test]
fn bpe_tokens_keep_characters() {
    let mut tokenizer = BPETokenizer::new();
    tokenizer.learn_bpe("banana bandana", 130, 1);
    let tokens = tokenizer.tokenize("Banana cabana");
    let joined: String = tokens.concat();
    assert_eq!(joined, "banana</w>cabana</w>");
}

#[test]
fn bpe_unknown_tokens_encode_as_unk() {
    let tokenizer = BPETokenizer::new();
    // without merge rules a word is split into characters and the marker characters
    let ids = tokenizer.encode("é");
    let unk = tokenizer.get_vocab().token_to_id("[UNK]").unwrap();
    assert_eq!(ids[0], unk);
}

#[test]
fn bpe_decode_special_tokens() {
    let tokenizer = BPETokenizer::new();
    let v = tokenizer.get_vocab();
    let ids = vec![
        v.token_to_id("h").unwrap(),
        v.token_to_id("i").unwrap(),
        v.token_to_id("[EOS]").unwrap(),
        v.token_to_id("o").unwrap(),
        v.token_to_id("</w>").unwrap(),
        12345,
    ];
    assert_eq!(tokenizer.decode(&ids), "hi [EOS] o");
}

#[test]
fn bpe_learning_effect_on_the_vocabulary() {
    let mut tokenizer = BPETokenizer::new();
    let before = tokenizer.get_vocab().clone();
    let start = before.len();
    let vocab_size = start + 5;
    tokenizer.learn_bpe("low lower lowest low lower lowest newest widest", vocab_size, 1);
    let merges = tokenizer.get_merges().to_vec();
    assert!(!merges.is_empty());
    assert!(merges.len() <= vocab_size - start);
    assert!(tokenizer.get_vocab().len() <= vocab_size);
    for (a, b, m) in &merges {
        assert_eq!(*m, format!("{}{}", a, b));
        assert!(tokenizer.get_vocab().token_to_id(m).is_some());
    }
    for id in 0..start {
        let token = before.id_to_token(id).unwrap();
        assert_eq!(tokenizer.get_vocab().token_to_id(token), Some(id));
        assert_eq!(tokenizer.get_vocab().is_special_token(token), before.is_special_token(token));
    }
}

#[test]
fn bpe_first_rule_is_a_most_frequent_pair() {
    // Pairs of "aaa</w>" twice and "ab</w>" once: (a, a) occurs 4 times,
    // (<, /), (/, w) and (w, >) 3 times each, every other pair less often.
    let mut tokenizer = BPETokenizer::new();
    let size = tokenizer.get_vocab().len() + 1;
    tokenizer.learn_bpe("aaa aaa ab", size, 1);
    assert_eq!(tokenizer.get_merges(), &[("a".to_string(), "a".to_string(), "aa".to_string())]);
}

#[test]
fn bpe_first_rule_among_equal_pairs_is_the_first_met() {
    // In "xy</w>" every pair occurs once; (x, y) comes first.
    let mut tokenizer = BPETokenizer::new();
    let size = tokenizer.get_vocab().len() + 1;
    tokenizer.learn_bpe("xy", size, 1);
    assert_eq!(tokenizer.get_merges(), &[("x".to_string(), "y".to_string(), "xy".to_string())]);
}

#[test]
fn bpe_tokens_are_never_empty() {
    let mut tokenizer = BPETokenizer::new();
    for w in ["Low", "a", "test"] {
        let tokens = tokenizer.apply_bpe(w);
        assert!(tokens.iter().all(|t| !t.is_empty()));
        assert_eq!(tokens.concat(), format!("{}</w>", w.to_lowercase()));
    }
    assert_eq!(tokenizer.apply_bpe("Ab"), vec!["a", "b", "<", "/", "w", ">"]);
    tokenizer.learn_bpe("low lower lowest test tester", 200, 1);
    for w in ["lowest", "x", "test", "Tester"] {
        let tokens = tokenizer.apply_bpe(w);
        assert!(tokens.iter().all(|t| !t.is_empty()));
        assert_eq!(tokens.concat(), format!("{}</w>", w.to_lowercase()));
    }
}
