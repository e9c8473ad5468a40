use wall_e1::basic_tokenizer::BasicTokenizer;
use wall_e1::tokenizer::Tokenizer;
use wall_e1::vocab::Vocab;

#[test]
fn test_basic_tokenizer_tokenize() {
    let mut tokenizer = BasicTokenizer::new();

    // Add necessary tokens to the vocabulary
    tokenizer.get_vocab_mut().add_token("hello");
    tokenizer.get_vocab_mut().add_token("world");
    tokenizer.get_vocab_mut().add_token(",");
    tokenizer.get_vocab_mut().add_token("!");

    let text = "Hello, world!";
    let tokens = tokenizer.tokenize(text);

    assert_eq!(tokens, vec!["hello", ",", "world", "!"]);
}

#[test]
fn test_basic_tokenizer_encode_decode() {
    let mut tokenizer = BasicTokenizer::new();

    // Build a small vocabulary
    tokenizer.get_vocab_mut().add_token("hello");
    tokenizer.get_vocab_mut().add_token("world");

    let text = "Hello, world!";
    let ids = tokenizer.encode(text);

    // "hello" and "world" must be in the vocabulary, "," and "!" are [UNK]
    let unk_id = tokenizer.get_vocab().token_to_id("[UNK]").unwrap();
    assert_eq!(ids[0], tokenizer.get_vocab().token_to_id("hello").unwrap());
    assert_eq!(ids[1], unk_id); // ","
    assert_eq!(ids[2], tokenizer.get_vocab().token_to_id("world").unwrap());
    assert_eq!(ids[3], unk_id); // "!"

    // Decode (note that we lose punctuation)
    let decoded = tokenizer.decode(&ids);
    assert_eq!(decoded, "hello [UNK] world [UNK]");
}

#[test]
fn test_build_vocab() {
    let mut tokenizer = BasicTokenizer::new();

    let text = "hello world hello hello world test";
    tokenizer.build_vocab(text, 2); // Only tokens with frequency >= 2

    // "hello" and "world" are frequent enough
    assert!(tokenizer.get_vocab().token_to_id("hello").is_some());
    assert!(tokenizer.get_vocab().token_to_id("world").is_some());

    // "test" is not frequent enough
    assert!(tokenizer.get_vocab().token_to_id("test").is_none());
}

#[test]
fn basic_tokenizer_starts_with_pad_and_unk() {
    let tokenizer = BasicTokenizer::new();
    assert_eq!(tokenizer.vocab_size(), 2);
    assert_eq!(tokenizer.get_vocab().token_to_id("[PAD]"), Some(0));
    assert_eq!(tokenizer.get_vocab().token_to_id("[UNK]"), Some(1));
}

#[test]
fn basic_tokenize_keeps_tokens_the_vocabulary_lacks() {
    let mut tokenizer = BasicTokenizer::new();
    tokenizer.get_vocab_mut().add_token("hello");
    tokenizer.get_vocab_mut().add_token("world");
    let tokens = tokenizer.tokenize("Hello, world!");
    assert_eq!(tokens, vec!["hello", ",", "world", "!"]);
    let tokens = tokenizer.tokenize("Hello brave world!");
    assert_eq!(tokens, vec!["hello", "brave", "world", "!"]);
    let unk = tokenizer.get_vocab().token_to_id("[UNK]").unwrap();
    let hello = tokenizer.get_vocab().token_to_id("hello").unwrap();
    let world = tokenizer.get_vocab().token_to_id("world").unwrap();
    assert_eq!(tokenizer.encode("Hello brave world!"), vec![hello, unk, world, unk]);
}

#[test]
fn basic_build_vocab_order_of_first_occurrence() {
    let mut tokenizer = BasicTokenizer::new();
    tokenizer.build_vocab("b a b a c (x)", 1);
    let v = tokenizer.get_vocab();
    assert_eq!(v.token_to_id("b"), Some(2));
    assert_eq!(v.token_to_id("a"), Some(3));
    assert_eq!(v.token_to_id("c"), Some(4));
    assert_eq!(v.token_to_id("("), Some(5));
    assert_eq!(v.token_to_id("x"), Some(6));
    assert_eq!(v.token_to_id(")"), Some(7));
}

#[test]
fn basic_with_vocab_adds_unk() {
    let mut vocab = Vocab::new();
    vocab.add_token("hello");
    vocab.add_token("world");
    let tokenizer = BasicTokenizer::with_vocab(vocab);
    assert!(tokenizer.get_vocab().token_to_id("hello").is_some());
    assert_eq!(tokenizer.get_vocab().token_to_id("[UNK]"), Some(2));
    assert!(tokenizer.get_vocab().is_special_token("[UNK]"));
}

#[test]
fn basic_decode_skips_unknown_ids() {
    let tokenizer = BasicTokenizer::new();
    assert_eq!(tokenizer.decode(&[1, 99, 0]), "[UNK] [PAD]");
    assert_eq!(tokenizer.decode(&[]), "");
}
