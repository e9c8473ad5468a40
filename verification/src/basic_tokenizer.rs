//! A basic tokenizer that splits text on white space and punctuation.
use vstd::prelude::*;
use crate::text::{
    lowercase, split_ws, chars_of, split_whitespace_chars, str_to_lowercase, string_push,
    push_str, lemma_split_ws_len,
};
use crate::vocab::{Vocab, VocabView, well_built, string_views, add_tokens_spec, add_specials_spec, empty_vocab, lemma_add_tokens_len};
use crate::counting::{count_words, counts_view, count_words_exec, lemma_count_words};
use crate::tokenizer::{Tokenizer, unk_token, pad_token, known_tokens, unk_str, pad_str, encode_with, lookup_tokens};

verus! {

/// The punctuation marks that the basic tokenizer treats as tokens of their own.
pub open spec fn basic_punct(c: char) -> bool {
    c == '.' || c == ',' || c == '!' || c == '?' || c == ':' || c == ';' || c == '(' || c == ')'
        || c == '[' || c == ']' || c == '{' || c == '}'
}

/// The text with a space put on each side of every punctuation mark.
pub open spec fn pad_punct(t: Seq<char>) -> Seq<char> {
    t.map_values(|c: char| if basic_punct(c) { seq![' ', c, ' '] } else { seq![c] }).flatten()
}

/// The tokens of a text before the vocabulary is consulted: the words of
/// the text once punctuation marks stand apart, lowercased.
pub open spec fn basic_raw_tokens(t: Seq<char>) -> Seq<Seq<char>> {
    split_ws(pad_punct(t)).map_values(|w: Seq<char>| lowercase(w))
}

/// Tokens joined with single spaces.
pub open spec fn join_spaced(ts: Seq<Seq<char>>) -> Seq<char>
    decreases ts.len(),
{
    if ts.len() == 0 {
        Seq::empty()
    } else if ts.len() == 1 {
        ts[0]
    } else {
        join_spaced(ts.drop_last()) + seq![' '] + ts.last()
    }
}

/// The words of a count table that occur at least `min` times, in order.
pub open spec fn frequent(t: Seq<(Seq<char>, usize)>, min: usize) -> Seq<Seq<char>>
    decreases t.len(),
{
    if t.len() == 0 {
        Seq::empty()
    } else {
        let rest = frequent(t.drop_last(), min);
        if t.last().1 >= min {
            rest.push(t.last().0)
        } else {
            rest
        }
    }
}

proof fn lemma_frequent_len(t: Seq<(Seq<char>, usize)>, min: usize)
    ensures
        frequent(t, min).len() <= t.len(),
    decreases t.len(),
{
    if t.len() > 0 {
        lemma_frequent_len(t.drop_last(), min);
    }
}

/// The text with a space put on each side of every punctuation mark.
pub fn pad_punctuation(cs: &Vec<char>) -> (r: Vec<char>)
    ensures
        r@ == pad_punct(cs@),
        r@.len() <= 3 * cs@.len(),
{
    let ghost f = |c: char| if basic_punct(c) { seq![' ', c, ' '] } else { seq![c] };
    let mut out: Vec<char> = Vec::new();
    let mut i: usize = 0;
    assert(cs@.map_values(f).take(0).flatten() =~= Seq::<char>::empty());
    while i < cs.len()
        invariant
            i <= cs@.len(),
            f == |c: char| if basic_punct(c) { seq![' ', c, ' '] } else { seq![c] },
            out@ == cs@.map_values(f).take(i as int).flatten(),
            out@.len() <= 3 * i,
        decreases cs.len() - i,
    {
        let c = cs[i];
        let ghost before = out@;
        if c == '.' || c == ',' || c == '!' || c == '?' || c == ':' || c == ';' || c == '(' || c == ')'
            || c == '[' || c == ']' || c == '{' || c == '}' {
            out.push(' ');
            out.push(c);
            out.push(' ');
        } else {
            out.push(c);
        }
        proof {
            let m = cs@.map_values(f);
            assert(m.take(i + 1) =~= m.take(i as int).push(m[i as int]));
            m.take(i as int).lemma_flatten_push(m[i as int]);
            assert(out@ =~= before + m[i as int]);
        }
        i = i + 1;
    }
    assert(cs@.map_values(f).take(i as int) =~= cs@.map_values(f));
    out
}

/// Basic tokenizer that uses spaces and punctuation to split text, and
/// lowercases.
#[derive(Debug)]
pub struct BasicTokenizer {
    vocab: Vocab,
}

/// The vocabulary of a new basic tokenizer: the special tokens `[PAD]` and `[UNK]`.
pub open spec fn basic_base_vocab() -> VocabView {
    add_specials_spec(empty_vocab(), seq![pad_token(), unk_token()])
}

impl BasicTokenizer {
    /// Creates a new basic tokenizer whose vocabulary holds the special tokens
    /// `[PAD]` and `[UNK]`.
    pub fn new() -> (t: Self)
        ensures
            t.spec_vocab() == basic_base_vocab(),
            well_built(t.spec_vocab()),
    {
        let mut vocab = Vocab::new();
        let ghost sp = seq![pad_token(), unk_token()];
        proof {
            assert(sp.take(0) =~= Seq::<Seq<char>>::empty());
            assert(vocab@ == add_specials_spec(empty_vocab(), sp.take(0)));
            vocab.lemma_view_finite();
        }
        vocab.add_special_token(pad_str());
        proof {
            assert(sp.take(1).drop_last() =~= sp.take(0));
            assert(vocab@ == add_specials_spec(empty_vocab(), sp.take(1)));
            crate::vocab::lemma_add_specials_len(empty_vocab(), sp.take(1));
        }
        vocab.add_special_token(unk_str());
        proof {
            assert(sp.take(2).drop_last() =~= sp.take(1));
            assert(sp.take(2) =~= sp);
        }
        BasicTokenizer { vocab }
    }

    /// Creates a basic tokenizer with a given vocabulary, adding the unknown
    /// token as a special token if the vocabulary lacks it.
    pub fn with_vocab(vocab: Vocab) -> (t: Self)
        requires
            vocab@.ids.dom().len() < usize::MAX,
        ensures
            t.spec_vocab() == (if vocab@.ids.dom().contains(unk_token()) {
                vocab@
            } else {
                crate::vocab::add_special_spec(vocab@, unk_token())
            }),
            well_built(vocab@) ==> well_built(t.spec_vocab()),
    {
        let mut vocab = vocab;
        if vocab.token_to_id(unk_str()).is_none() {
            vocab.add_special_token(unk_str());
        }
        BasicTokenizer { vocab }
    }

    /// Adds to the vocabulary, in order of first occurrence, every raw token
    /// of the text that occurs at least `min_freq` times.
    pub fn build_vocab(&mut self, text: &str, min_freq: usize)
        requires
            old(self).spec_vocab().ids.dom().len() + 3 * text@.len() < usize::MAX,
        ensures
            final(self).spec_vocab() == add_tokens_spec(old(self).spec_vocab(), frequent(count_words(basic_raw_tokens(text@)), min_freq)),
            well_built(old(self).spec_vocab()) ==> well_built(final(self).spec_vocab()),
    {
        let tokens = self.tokenize_raw(text);
        let counts = count_words_exec(&tokens);
        let n_tokens = tokens.len();
        let ghost toks = frequent(counts_view(counts@), min_freq);
        let ghost v0 = self.vocab@;
        proof {
            lemma_count_words(string_views(tokens@));
            lemma_frequent_len(counts_view(counts@), min_freq);
            self.vocab.lemma_view_finite();
            assert(toks.len() <= 3 * text@.len());
        }
        let mut i: usize = 0;
        let ghost mut added: Seq<Seq<char>> = Seq::empty();
        assert(counts_view(counts@).take(0) =~= Seq::<(Seq<char>, usize)>::empty());
        while i < counts.len()
            invariant
                i <= counts@.len(),
                v0.ids.dom().finite(),
                v0.ids.dom().len() + toks.len() < usize::MAX,
                toks == frequent(counts_view(counts@), min_freq),
                added == frequent(counts_view(counts@).take(i as int), min_freq),
                self.vocab@ == add_tokens_spec(v0, added),
            decreases counts.len() - i,
        {
            proof {
                let cv = counts_view(counts@);
                assert(cv.take(i + 1).drop_last() =~= cv.take(i as int));
                assert(cv.take(i + 1).last() == (counts@[i as int].0@, counts@[i as int].1));
                lemma_frequent_prefix_len(cv, i + 1, min_freq);
                lemma_add_tokens_len(v0, added);
            }
            if counts[i].1 >= min_freq {
                self.vocab.add_token(counts[i].0.as_str());
                proof {
                    assert(added.push(counts@[i as int].0@).drop_last() =~= added);
                    added = added.push(counts@[i as int].0@);
                }
            }
            i = i + 1;
        }
        assert(counts_view(counts@).take(i as int) =~= counts_view(counts@));
        proof {
            if crate::vocab::consistent(v0) {
                crate::vocab::lemma_add_tokens_keeps(v0, toks);
            }
        }
    }

    /// The raw tokens of a text (see `basic_raw_tokens`); they are also what
    /// `tokenize` returns, whether or not the vocabulary knows them.
    pub fn tokenize_raw(&self, text: &str) -> (r: Vec<String>)
        ensures
            string_views(r@) == basic_raw_tokens(text@),
            r@.len() <= 3 * text@.len(),
    {
        let cs = chars_of(text);
        let padded = pad_punctuation(&cs);
        let words = split_whitespace_chars(padded.as_slice());
        proof {
            lemma_split_ws_len(padded@);
            assert(string_views(words@).len() == words@.len());
        }
        let mut out: Vec<String> = Vec::new();
        let mut i: usize = 0;
        while i < words.len()
            invariant
                i <= words@.len(),
                string_views(words@) == split_ws(pad_punct(text@)),
                string_views(out@) == basic_raw_tokens(text@).take(i as int),
                out@.len() == i,
            decreases words.len() - i,
        {
            let w = str_to_lowercase(words[i].as_str());
            let ghost before = out@;
            out.push(w);
            proof {
                assert(string_views(words@)[i as int] == words@[i as int]@);
                assert(string_views(out@) =~= string_views(before).push(w@));
                assert(basic_raw_tokens(text@).take(i + 1) =~= basic_raw_tokens(text@).take(i as int).push(w@));
            }
            i = i + 1;
        }
        assert(basic_raw_tokens(text@).take(i as int) =~= basic_raw_tokens(text@));
        out
    }

    /// The vocabulary.
    pub fn get_vocab(&self) -> (v: &Vocab)
        ensures
            v@ == self.spec_vocab(),
    {
        &self.vocab
    }

    /// A mutable reference to the vocabulary.
    pub fn get_vocab_mut(&mut self) -> (v: &mut Vocab)
        ensures
            v@ == old(self).spec_vocab(),
            final(self).spec_vocab() == final(v)@,
    {
        &mut self.vocab
    }
}

impl BasicTokenizer {
    /// What the tokenizer interface promises of a basic tokenizer: its tokens
    /// are the raw tokens of the text (unknown ones included; `encode` gives
    /// those the unknown token's ID), and decoding joins the tokens of the
    /// known IDs with single spaces.
    pub proof fn lemma_tokenizer_spec(&self)
        ensures
            forall|t: Seq<char>| #[trigger] self.spec_tokenize(t) == basic_raw_tokens(t),
            forall|ids: Seq<usize>| #[trigger] self.spec_decode(ids) == join_spaced(known_tokens(self.spec_vocab(), ids)),
    {
    }
}

proof fn lemma_frequent_prefix_len(t: Seq<(Seq<char>, usize)>, k: int, min: usize)
    requires
        0 <= k <= t.len(),
    ensures
        frequent(t.take(k), min).len() <= frequent(t, min).len(),
    decreases t.len() - k,
{
    if k < t.len() {
        lemma_frequent_prefix_len(t, k + 1, min);
        assert(t.take(k + 1).drop_last() =~= t.take(k));
    } else {
        assert(t.take(k) =~= t);
    }
}

impl Tokenizer for BasicTokenizer {
    closed spec fn spec_tokenize(&self, text: Seq<char>) -> Seq<Seq<char>> {
        basic_raw_tokens(text)
    }

    closed spec fn spec_decode(&self, token_ids: Seq<usize>) -> Seq<char> {
        join_spaced(known_tokens(self.vocab@, token_ids))
    }

    closed spec fn spec_vocab(&self) -> VocabView {
        self.vocab@
    }

    fn tokenize(&self, text: &str) -> (r: Vec<String>) {
        self.tokenize_raw(text)
    }

    fn encode(&self, text: &str) -> (r: Vec<usize>) {
        let tokens = self.tokenize(text);
        encode_with(&self.vocab, &tokens)
    }

    fn decode(&self, token_ids: &[usize]) -> (r: String) {
        let tokens = lookup_tokens(&self.vocab, token_ids);
        let ghost ts = string_views(tokens@);
        let mut out = String::new();
        let mut i: usize = 0;
        assert(ts.take(0) =~= Seq::<Seq<char>>::empty());
        while i < tokens.len()
            invariant
                i <= tokens@.len(),
                ts == string_views(tokens@),
                out@ == join_spaced(ts.take(i as int)),
            decreases tokens.len() - i,
        {
            if i > 0 {
                string_push(&mut out, ' ');
            }
            push_str(&mut out, tokens[i].as_str());
            proof {
                assert(ts.take(i + 1).drop_last() =~= ts.take(i as int));
                assert(ts.take(i + 1).last() == tokens@[i as int]@);
                if i == 0 {
                    assert(out@ =~= join_spaced(ts.take(1)));
                } else {
                    assert(out@ =~= join_spaced(ts.take(i + 1)));
                }
            }
            i = i + 1;
        }
        assert(ts.take(i as int) =~= ts);
        out
    }

    fn vocab_size(&self) -> (n: usize) {
        self.vocab.len()
    }

    fn get_vocab(&self) -> (v: &Vocab) {
        &self.vocab
    }

    fn as_vocab_mut(&mut self) -> (r: Option<&mut Vocab>)
        ensures
            r is Some,
    {
        Some(&mut self.vocab)
    }
}

} // verus!
