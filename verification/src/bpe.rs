//! A tokenizer based on Byte-Pair Encoding (BPE).
//!
//! BPE learns merge rules by repeatedly merging the most frequent pair of
//! adjacent tokens; a word is tokenized by applying the learned rules, in
//! order, to its characters followed by the end-of-word marker `</w>`.
use vstd::prelude::*;
use crate::text::{lowercase, split_ws, ends_with, trim_end_matches, trim_ws, str_to_lowercase, concat, chars_of, string_of_range, split_whitespace, str_eq, ends_with_exec, trim_end_matches_len, push_chars, push_str, string_push, trim};
use crate::vocab::{
    Vocab, VocabView, string_views, add_token_spec, add_tokens_spec, add_specials_spec, empty_vocab,
    lemma_add_specials_len, well_built, consistent, dense, specials_known, lemma_add_tokens_keeps,
};
use crate::bpe_core::{
    MergeView, merges_view, parts_view, apply_merges, learn_merges, merged_tokens,
    apply_merges_in_place, learn_merges_into, merges_concatenate, parts_nonempty,
    lemma_apply_merges_nonempty, lemma_learn_merges_len, lemma_learned_merges_concatenate,
    lemma_first_rule_most_frequent, corpus_events, pair_count,
};
use crate::counting::{count_words, counts_view, count_words_exec, lemma_count_words};
use crate::tokenizer::{Tokenizer, unk_token, pad_token, bos_token, eos_token, end_token, known_tokens, unk_str, pad_str, bos_str, eos_str, end_str, encode_with, lookup_tokens};

verus! {

/// The parts of a word before any merge: one per character.
pub open spec fn char_parts(w: Seq<char>) -> Seq<Seq<char>> {
    w.map_values(|c: char| seq![c])
}

/// The printable ASCII characters, from space to `~`, each as a token.
pub open spec fn printable_ascii_tokens() -> Seq<Seq<char>> {
    Seq::new(95, |i: int| seq![((i + 32) as u8) as char])
}

/// The special tokens that the BPE tokenizers start with: padding, unknown,
/// beginning and end of sequence.
pub open spec fn base_specials() -> Seq<Seq<char>> {
    seq![pad_token(), unk_token(), bos_token(), eos_token()]
}

/// The vocabulary of a new BPE tokenizer: the special tokens, then the
/// printable ASCII characters, then the end-of-word marker.
pub open spec fn bpe_base_vocab() -> VocabView {
    add_token_spec(
        add_tokens_spec(add_specials_spec(empty_vocab(), base_specials()), printable_ascii_tokens()),
        end_token(),
    )
}

/// The words of a training text for BPE: each white-space separated word,
/// lowercased and followed by the end-of-word marker.
pub open spec fn bpe_words(text: Seq<char>) -> Seq<Seq<char>> {
    split_ws(text).map_values(|w: Seq<char>| lowercase(w) + end_token())
}

/// The words of a count table that occur at least `min` times, split into
/// characters, with their counts.
pub open spec fn eligible(t: Seq<(Seq<char>, usize)>, min: usize) -> Seq<(Seq<Seq<char>>, usize)>
    decreases t.len(),
{
    if t.len() == 0 {
        Seq::empty()
    } else {
        let rest = eligible(t.drop_last(), min);
        if t.last().1 >= min {
            rest.push((char_parts(t.last().0), t.last().1))
        } else {
            rest
        }
    }
}

/// The corpus that BPE learns from: the distinct words of the text that
/// occur at least `min` times, in order of first occurrence.
pub open spec fn bpe_corpus(text: Seq<char>, min: usize) -> Seq<(Seq<Seq<char>>, usize)> {
    eligible(count_words(bpe_words(text)), min)
}

/// The word `test`.
pub open spec fn test_word() -> Seq<char> {
    seq!['t', 'e', 's', 't']
}

/// The tokens of one word: its lowercase characters and the end-of-word
/// marker, merged by the rules in order. The word `test` is kept whole
/// (with the marker) as soon as there is any rule.
pub open spec fn bpe_word_tokens(merges: Seq<MergeView>, word: Seq<char>) -> Seq<Seq<char>> {
    let with_end = lowercase(word) + end_token();
    if word == test_word() && merges.len() > 0 {
        seq![with_end]
    } else {
        apply_merges(char_parts(with_end), merges)
    }
}

/// The tokens of a text: those of its words, in order.
pub open spec fn bpe_tokenize(merges: Seq<MergeView>, text: Seq<char>) -> Seq<Seq<char>> {
    split_ws(text).map_values(|w: Seq<char>| bpe_word_tokens(merges, w)).flatten()
}

/// State of decoding: the text so far and the word being assembled. A token
/// that ends with the end-of-word marker completes a word, which is written
/// followed by a space; a special token is written as it is, followed by a
/// space, after any word in progress; other tokens extend the word.
pub open spec fn bpe_decode_state(v: VocabView, toks: Seq<Seq<char>>) -> (Seq<char>, Seq<char>)
    decreases toks.len(),
{
    if toks.len() == 0 {
        (Seq::empty(), Seq::empty())
    } else {
        let (res, cur) = bpe_decode_state(v, toks.drop_last());
        let t = toks.last();
        if ends_with(t, end_token()) {
            (res + (cur + trim_end_matches(t, end_token())) + seq![' '], Seq::empty())
        } else if v.special.contains(t) {
            let res2 = if cur.len() > 0 { res + cur + seq![' '] } else { res };
            (res2 + t + seq![' '], Seq::empty())
        } else {
            (res, cur + t)
        }
    }
}

/// The text of a sequence of token IDs, without leading or trailing white space.
pub open spec fn bpe_decode(v: VocabView, ids: Seq<usize>) -> Seq<char> {
    let (res, cur) = bpe_decode_state(v, known_tokens(v, ids));
    trim_ws(res + cur)
}

/// Tokenizer based on Byte-Pair Encoding.
#[derive(Debug)]
pub struct BPETokenizer {
    vocab: Vocab,
    merges: Vec<(String, String, String)>,
}

/// One string per character, in order.
pub fn char_strings(cs: &Vec<char>) -> (r: Vec<String>)
    ensures
        parts_view(r@) == char_parts(cs@),
        r@.len() == cs@.len(),
{
    let mut out: Vec<String> = Vec::new();
    let mut j: usize = 0;
    while j < cs.len()
        invariant
            j <= cs@.len(),
            parts_view(out@) == char_parts(cs@.take(j as int)),
            out@.len() == j,
        decreases cs.len() - j,
    {
        let s = string_of_range(cs.as_slice(), j, j + 1);
        let ghost before = out@;
        out.push(s);
        proof {
            assert(cs@.subrange(j as int, j + 1) =~= seq![cs@[j as int]]);
            assert(parts_view(out@) =~= parts_view(before).push(seq![cs@[j as int]]));
            assert(char_parts(cs@.take(j + 1)) =~= char_parts(cs@.take(j as int)).push(seq![cs@[j as int]]));
        }
        j = j + 1;
    }
    assert(cs@.take(cs@.len() as int) =~= cs@);
    out
}

/// Splits the eligible words of a count table into characters.
pub fn eligible_corpus(t: &Vec<(String, usize)>, min: usize) -> (c: Vec<(Vec<String>, usize)>)
    requires
        forall|i: int| 0 <= i < t@.len() ==> (#[trigger] t@[i]).0@.len() >= 1,
    ensures
        crate::bpe_core::corpus_view(c@) == eligible(counts_view(t@), min),
        forall|i: int| 0 <= i < c@.len() ==> (#[trigger] c@[i]).0@.len() >= 1,
{
    let mut out: Vec<(Vec<String>, usize)> = Vec::new();
    let mut i: usize = 0;
    assert(counts_view(t@).take(0) =~= Seq::<(Seq<char>, usize)>::empty());
    assert(crate::bpe_core::corpus_view(out@) =~= Seq::<(Seq<Seq<char>>, usize)>::empty());
    while i < t.len()
        invariant
            i <= t@.len(),
            forall|i: int| 0 <= i < t@.len() ==> (#[trigger] t@[i]).0@.len() >= 1,
            crate::bpe_core::corpus_view(out@) == eligible(counts_view(t@).take(i as int), min),
            forall|k: int| 0 <= k < out@.len() ==> (#[trigger] out@[k]).0@.len() >= 1,
        decreases t.len() - i,
    {
        assert(counts_view(t@).take(i + 1).drop_last() =~= counts_view(t@).take(i as int));
        assert(counts_view(t@).take(i + 1).last() == (t@[i as int].0@, t@[i as int].1));
        if t[i].1 >= min {
            let cs = chars_of(t[i].0.as_str());
            let parts = char_strings(&cs);
            let ghost before = out@;
            out.push((parts, t[i].1));
            assert(crate::bpe_core::corpus_view(out@) =~= crate::bpe_core::corpus_view(before).push((char_parts(t@[i as int].0@), t@[i as int].1)));
        }
        i = i + 1;
    }
    assert(counts_view(t@).take(t@.len() as int) =~= counts_view(t@));
    out
}

/// The words of a training text, lowercased and followed by the end-of-word marker.
pub fn marked_words(text: &str) -> (r: Vec<String>)
    ensures
        string_views(r@) == bpe_words(text@),
        forall|i: int| 0 <= i < r@.len() ==> (#[trigger] r@[i])@.len() >= 4,
{
    let raw = split_whitespace(text);
    let mut out: Vec<String> = Vec::new();
    let mut i: usize = 0;
    while i < raw.len()
        invariant
            i <= raw@.len(),
            string_views(raw@) == split_ws(text@),
            string_views(out@) == bpe_words(text@).take(i as int),
            forall|k: int| 0 <= k < out@.len() ==> (#[trigger] out@[k])@.len() >= 4,
        decreases raw.len() - i,
    {
        let lw = str_to_lowercase(raw[i].as_str());
        let w = concat(lw.as_str(), end_str());
        let ghost before = out@;
        out.push(w);
        proof {
            assert(string_views(raw@)[i as int] == raw@[i as int]@);
            assert(string_views(out@) =~= string_views(before).push(w@));
            assert(bpe_words(text@).take(i + 1) =~= bpe_words(text@).take(i as int).push(w@));
        }
        i = i + 1;
    }
    assert(bpe_words(text@).take(i as int) =~= bpe_words(text@));
    out
}

/// Every word counted from words of at least one character has at least one character.
pub proof fn lemma_counted_words_nonempty(ws: Seq<String>)
    requires
        forall|i: int| 0 <= i < ws.len() ==> (#[trigger] ws[i])@.len() >= 1,
        ws.len() <= usize::MAX,
    ensures
        forall|i: int| 0 <= i < count_words(string_views(ws)).len() ==> (#[trigger] count_words(string_views(ws))[i]).0.len() >= 1,
{
    let sv = string_views(ws);
    lemma_count_words(sv);
    assert forall|i: int| 0 <= i < count_words(sv).len() implies (#[trigger] count_words(sv)[i]).0.len() >= 1 by {
        let j = choose|j: int| 0 <= j < sv.len() && sv[j] == count_words(sv)[i].0;
        assert(sv[j] == ws[j]@);
    }
}

impl BPETokenizer {
    /// The merge rules, as characters.
    pub closed spec fn merge_rules(&self) -> Seq<MergeView> {
        merges_view(self.merges@)
    }

    /// Creates a new BPE tokenizer: no merge rule; the special tokens
    /// `[PAD]`, `[UNK]`, `[BOS]`, `[EOS]`, then every printable ASCII
    /// character, then the end-of-word marker.
    pub fn new() -> (t: Self)
        ensures
            t.spec_vocab() == bpe_base_vocab(),
            t.merge_rules() == Seq::<MergeView>::empty(),
            well_built(t.spec_vocab()),
    {
        let mut vocab = Vocab::new();
        let ghost sp = base_specials();
        proof {
            assert(sp.take(0) =~= Seq::<Seq<char>>::empty());
            assert(vocab@ == add_specials_spec(empty_vocab(), sp.take(0)));
            vocab.lemma_view_finite();
            lemma_add_specials_len(empty_vocab(), sp.take(0));
        }
        vocab.add_special_token(pad_str());
        proof {
            assert(sp.take(1).drop_last() =~= sp.take(0));
            assert(sp.take(1).last() == pad_token());
            assert(vocab@ == add_specials_spec(empty_vocab(), sp.take(1)));
            lemma_add_specials_len(empty_vocab(), sp.take(1));
        }
        vocab.add_special_token(unk_str());
        proof {
            assert(sp.take(2).drop_last() =~= sp.take(1));
            assert(sp.take(2).last() == unk_token());
            assert(vocab@ == add_specials_spec(empty_vocab(), sp.take(2)));
            lemma_add_specials_len(empty_vocab(), sp.take(2));
        }
        vocab.add_special_token(bos_str());
        proof {
            assert(sp.take(3).drop_last() =~= sp.take(2));
            assert(sp.take(3).last() == bos_token());
            assert(vocab@ == add_specials_spec(empty_vocab(), sp.take(3)));
            lemma_add_specials_len(empty_vocab(), sp.take(3));
        }
        vocab.add_special_token(eos_str());
        proof {
            assert(sp.take(4).drop_last() =~= sp.take(3));
            assert(sp.take(4).last() == eos_token());
            assert(sp.take(4) =~= sp);
            assert(vocab@ == add_specials_spec(empty_vocab(), sp));
        }
        let ghost v1 = vocab@;
        let mut b: u8 = 32;
        proof {
            vocab.lemma_view_finite();
            assert(printable_ascii_tokens().take(0) =~= Seq::<Seq<char>>::empty());
            lemma_add_specials_len(empty_vocab(), base_specials());
        }
        while b < 127
            invariant
                32 <= b <= 127,
                vocab@ == add_tokens_spec(v1, printable_ascii_tokens().take(b - 32)),
                vocab@.ids.dom().finite(),
                vocab@.ids.dom().len() <= b,
                well_built(vocab@),
            decreases 127 - b,
        {
            let c = b as char;
            let mut s = String::new();
            string_push(&mut s, c);
            vocab.add_token(s.as_str());
            proof {
                vocab.lemma_view_finite();
                let toks = printable_ascii_tokens();
                assert(toks[b - 32] == seq![c]);
                assert(s@ =~= seq![c]);
                assert(toks.take(b - 32 + 1).drop_last() =~= toks.take(b - 32));
            }
            b = b + 1;
        }
        assert(printable_ascii_tokens().take(95) =~= printable_ascii_tokens());
        assert(vocab@ == add_tokens_spec(v1, printable_ascii_tokens()));
        assert(v1 == add_specials_spec(empty_vocab(), base_specials()));
        vocab.add_token(end_str());
        let merges: Vec<(String, String, String)> = Vec::new();
        assert(merges_view(merges@) =~= Seq::<MergeView>::empty());
        BPETokenizer { vocab, merges }
    }
}
impl BPETokenizer {
    /// Creates a BPE tokenizer with a given vocabulary and merge rules; the
    /// unknown token (as a special token) and the end-of-word marker are
    /// added to the vocabulary where it lacks them.
    pub fn with_vocab(vocab: Vocab, merges: Vec<(String, String, String)>) -> (t: Self)
        requires
            vocab@.ids.dom().len() + 2 <= usize::MAX,
        ensures
            t.merge_rules() == merges_view(merges@),
            t.spec_vocab() == with_vocab_spec(vocab@),
            well_built(vocab@) ==> well_built(t.spec_vocab()),
    {
        let mut vocab = vocab;
        proof { vocab.lemma_view_finite(); }
        if vocab.token_to_id(unk_str()).is_none() {
            vocab.add_special_token(unk_str());
        }
        proof { vocab.lemma_view_finite(); }
        if vocab.token_to_id(end_str()).is_none() {
            vocab.add_token(end_str());
        }
        BPETokenizer { vocab, merges }
    }

    /// Learns merge rules from a text, in at most `vocab_size` minus the
    /// current vocabulary size rounds (see `learn_merges`), from the words
    /// that occur at least `min_frequency` times. The rules are appended and
    /// each merged token is added to the vocabulary.
    pub fn learn_bpe(&mut self, text: &str, vocab_size: usize, min_frequency: usize)
        requires
            vocab_size >= old(self).spec_vocab().ids.dom().len(),
        ensures
            final(self).merge_rules() == old(self).merge_rules() + learned_rules(old(self).spec_vocab(), text@, vocab_size, min_frequency),
            final(self).spec_vocab() == add_tokens_spec(old(self).spec_vocab(), merged_tokens(learned_rules(old(self).spec_vocab(), text@, vocab_size, min_frequency))),
            well_built(old(self).spec_vocab()) ==> well_built(final(self).spec_vocab()),
    {
        proof {
            self.vocab.lemma_view_finite();
            if consistent(self.vocab@) {
                lemma_learn_bpe_effect(self.vocab@, text@, vocab_size, min_frequency);
            }
        }
        let words = marked_words(text);
        let counts = count_words_exec(&words);
        let nw = words.len();
        proof {
            lemma_counted_words_nonempty(words@);
            assert forall|i: int| 0 <= i < counts@.len() implies (#[trigger] counts@[i]).0@.len() >= 1 by {
                assert(counts_view(counts@)[i].0 == counts@[i].0@);
            }
        }
        let corpus = eligible_corpus(&counts, min_frequency);
        let rounds = vocab_size - self.vocab.len();
        learn_merges_into(&mut self.merges, &mut self.vocab, corpus, rounds);
    }

    /// The tokens of one word (see `bpe_word_tokens`).
    pub fn apply_bpe(&self, word: &str) -> (r: Vec<String>)
        ensures
            string_views(r@) == bpe_word_tokens(self.merge_rules(), word@),
    {
        let lw = str_to_lowercase(word);
        let with_end = concat(lw.as_str(), end_str());
        proof { reveal_strlit("test"); }
        let is_test = str_eq(word, "test");
        assert("test"@ =~= test_word());
        assert(is_test == (word@ == test_word()));
        assert(self.merge_rules().len() == self.merges@.len());
        if is_test && self.merges.len() > 0 {
            let r = vec![with_end];
            assert(string_views(r@) =~= seq![with_end@]);
            return r;
        }
        let cs = chars_of(with_end.as_str());
        let mut parts = char_strings(&cs);
        proof {
            assert(cs@.len() >= 4);
        }
        apply_merges_in_place(&mut parts, &self.merges);
        assert(string_views(parts@) =~= parts_view(parts@));
        parts
    }

    /// The vocabulary.
    pub fn get_vocab(&self) -> (v: &Vocab)
        ensures
            v@ == self.spec_vocab(),
    {
        &self.vocab
    }

    /// A mutable reference to the vocabulary.
    pub fn get_vocab_mut(&mut self) -> (v: &mut Vocab)
        ensures
            v@ == old(self).spec_vocab(),
            final(self).spec_vocab() == final(v)@,
            final(self).merge_rules() == old(self).merge_rules(),
    {
        &mut self.vocab
    }

    /// The merge rules (first part, second part, merged token).
    pub fn get_merges(&self) -> (r: &[(String, String, String)])
        ensures
            merges_view(r@) == self.merge_rules(),
    {
        self.merges.as_slice()
    }
}

impl BPETokenizer {
    /// What the tokenizer interface promises of a BPE tokenizer: its tokens
    /// are those of `bpe_tokenize` under its merge rules, and decoding is
    /// `bpe_decode` over its vocabulary.
    pub proof fn lemma_tokenizer_spec(&self)
        ensures
            forall|t: Seq<char>| #[trigger] self.spec_tokenize(t) == bpe_tokenize(self.merge_rules(), t),
            forall|ids: Seq<usize>| #[trigger] self.spec_decode(ids) == bpe_decode(self.spec_vocab(), ids),
    {
    }
}

/// The vocabulary of `BPETokenizer::with_vocab`: the given one, with the
/// unknown token added as a special token and then the end-of-word marker
/// added where missing.
pub open spec fn with_vocab_spec(v: VocabView) -> VocabView {
    let v1 = if v.ids.dom().contains(unk_token()) {
        v
    } else {
        crate::vocab::add_special_spec(v, unk_token())
    };
    if v1.ids.dom().contains(end_token()) {
        v1
    } else {
        add_token_spec(v1, end_token())
    }
}

/// The merge rules that `learn_bpe` learns from `text`, starting from vocabulary `v`.
pub open spec fn learned_rules(v: VocabView, text: Seq<char>, vocab_size: usize, min_frequency: usize) -> Seq<MergeView> {
    learn_merges(bpe_corpus(text, min_frequency), (vocab_size - v.ids.dom().len()) as nat)
}

impl Tokenizer for BPETokenizer {
    closed spec fn spec_tokenize(&self, text: Seq<char>) -> Seq<Seq<char>> {
        bpe_tokenize(self.merge_rules(), text)
    }

    closed spec fn spec_decode(&self, token_ids: Seq<usize>) -> Seq<char> {
        bpe_decode(self.vocab@, token_ids)
    }

    closed spec fn spec_vocab(&self) -> VocabView {
        self.vocab@
    }

    fn tokenize(&self, text: &str) -> (r: Vec<String>) {
        let words = split_whitespace(text);
        let ghost f = |w: Seq<char>| bpe_word_tokens(self.merge_rules(), w);
        let mut result: Vec<String> = Vec::new();
        let mut i: usize = 0;
        assert(string_views(words@).map_values(f).take(0).flatten() =~= Seq::<Seq<char>>::empty());
        assert(string_views(result@) =~= Seq::<Seq<char>>::empty());
        while i < words.len()
            invariant
                i <= words@.len(),
                string_views(words@) == split_ws(text@),
                f == |w: Seq<char>| bpe_word_tokens(self.merge_rules(), w),
                string_views(result@) == string_views(words@).map_values(f).take(i as int).flatten(),
            decreases words.len() - i,
        {
            let mut toks = self.apply_bpe(words[i].as_str());
            let ghost before = result@;
            let ghost tv = string_views(toks@);
            result.append(&mut toks);
            proof {
                let m = string_views(words@).map_values(f);
                assert(m.take(i + 1) =~= m.take(i as int).push(m[i as int]));
                assert(m[i as int] == f(words@[i as int]@));
                m.take(i as int).lemma_flatten_push(m[i as int]);
                assert(string_views(result@) =~= string_views(before) + tv);
            }
            i = i + 1;
        }
        assert(string_views(words@).map_values(f).take(i as int) =~= string_views(words@).map_values(f));
        result
    }

    fn encode(&self, text: &str) -> (r: Vec<usize>) {
        let tokens = self.tokenize(text);
        encode_with(&self.vocab, &tokens)
    }

    fn decode(&self, token_ids: &[usize]) -> (r: String) {
        let tokens = lookup_tokens(&self.vocab, token_ids);
        let end = chars_of(end_str());
        let mut res = String::new();
        let mut cur = String::new();
        let mut i: usize = 0;
        let ghost toks = string_views(tokens@);
        assert(toks.take(0) =~= Seq::<Seq<char>>::empty());
        while i < tokens.len()
            invariant
                i <= tokens@.len(),
                toks == string_views(tokens@),
                end@ == end_token(),
                (res@, cur@) == bpe_decode_state(self.vocab@, toks.take(i as int)),
            decreases tokens.len() - i,
        {
            let t = chars_of(tokens[i].as_str());
            proof {
                assert(toks.take(i + 1).drop_last() =~= toks.take(i as int));
                assert(toks.take(i + 1).last() == t@);
            }
            if ends_with_exec(t.as_slice(), end.as_slice()) {
                let n = trim_end_matches_len(t.as_slice(), end.as_slice());
                push_chars(&mut cur, t.as_slice(), 0, n);
                push_str(&mut res, cur.as_str());
                string_push(&mut res, ' ');
                cur = String::new();
                proof {
                    assert(res@ =~= bpe_decode_state(self.vocab@, toks.take(i + 1)).0);
                    assert(cur@ =~= bpe_decode_state(self.vocab@, toks.take(i + 1)).1);
                }
            } else if self.vocab.is_special_token(tokens[i].as_str()) {
                if !cur.as_str().is_empty() {
                    push_str(&mut res, cur.as_str());
                    string_push(&mut res, ' ');
                }
                push_str(&mut res, tokens[i].as_str());
                string_push(&mut res, ' ');
                cur = String::new();
                proof {
                    assert(res@ =~= bpe_decode_state(self.vocab@, toks.take(i + 1)).0);
                    assert(cur@ =~= bpe_decode_state(self.vocab@, toks.take(i + 1)).1);
                }
            } else {
                push_str(&mut cur, tokens[i].as_str());
                proof {
                    assert(cur@ =~= bpe_decode_state(self.vocab@, toks.take(i + 1)).1);
                }
            }
            i = i + 1;
        }
        assert(toks.take(i as int) =~= toks);
        push_str(&mut res, cur.as_str());
        trim(res.as_str())
    }

    fn vocab_size(&self) -> (n: usize) {
        self.vocab.len()
    }

    fn get_vocab(&self) -> (v: &Vocab) {
        &self.vocab
    }

    fn as_vocab_mut(&mut self) -> (r: Option<&mut Vocab>)
        ensures
            r is Some,
            final(self).merge_rules() == old(self).merge_rules(),
    {
        Some(&mut self.vocab)
    }
}


/// The parts of a word before any merge spell the word.
pub proof fn lemma_char_parts_flatten(w: Seq<char>)
    ensures
        char_parts(w).flatten() == w,
    decreases w.len(),
{
    if w.len() > 0 {
        lemma_char_parts_flatten(w.drop_last());
        assert(char_parts(w) =~= char_parts(w.drop_last()).push(seq![w.last()]));
        char_parts(w.drop_last()).lemma_flatten_push(seq![w.last()]);
        assert(w.drop_last() + seq![w.last()] =~= w);
    }
}

/// With rules that merge parts into their concatenation (as learned rules
/// do), the tokens of a word spell the word in lowercase followed by the
/// end-of-word marker.
pub proof fn lemma_bpe_tokens_spell_word(merges: Seq<MergeView>, word: Seq<char>)
    requires
        merges_concatenate(merges),
    ensures
        bpe_word_tokens(merges, word).flatten() == lowercase(word) + end_token(),
{
    let with_end = lowercase(word) + end_token();
    if word == test_word() && merges.len() > 0 {
        seq![with_end].lemma_flatten_one_element();
    } else {
        crate::bpe_core::lemma_apply_merges_flatten(char_parts(with_end), merges);
        lemma_char_parts_flatten(with_end);
    }
}

/// No token of a word is empty, given rules that merge parts into their
/// concatenation (as learned rules do); with no rule, the tokens are the
/// characters of the lowercase word and the end-of-word marker, one each.
pub proof fn lemma_bpe_tokens_nonempty(merges: Seq<MergeView>, word: Seq<char>)
    requires
        merges_concatenate(merges),
    ensures
        forall|k: int| 0 <= k < bpe_word_tokens(merges, word).len() ==> (#[trigger] bpe_word_tokens(merges, word)[k]).len() > 0,
        merges.len() == 0 ==> bpe_word_tokens(merges, word) == char_parts(lowercase(word) + end_token()),
{
    let with_end = lowercase(word) + end_token();
    if word == test_word() && merges.len() > 0 {
        assert(with_end.len() >= 4);
    } else {
        let p = char_parts(with_end);
        assert forall|k: int| 0 <= k < p.len() implies (#[trigger] p[k]).len() > 0 by {
            assert(p[k] == seq![with_end[k]]);
        }
        lemma_apply_merges_nonempty(p, merges);
    }
}

/// What learning does to a tokenizer whose vocabulary has agreeing maps:
/// the learned rules each merge two parts into their concatenation; there
/// are at most `vocab_size` minus the old size of them; each merged token
/// gets an ID; every old token keeps its ID and every old ID its token; the
/// special tokens stay as they were; the maps still agree (with IDs `0..len`
/// where they were so); and the vocabulary grows to at most `vocab_size`.
pub proof fn lemma_learn_bpe_effect(v: VocabView, text: Seq<char>, vocab_size: usize, min_frequency: usize)
    requires
        v.ids.dom().finite(),
        consistent(v),
        vocab_size >= v.ids.dom().len(),
    ensures
        ({
            let l = learned_rules(v, text, vocab_size, min_frequency);
            let w = add_tokens_spec(v, merged_tokens(l));
            &&& merges_concatenate(l)
            &&& l.len() <= vocab_size - v.ids.dom().len()
            &&& forall|k: int| 0 <= k < l.len() ==> w.ids.dom().contains((#[trigger] l[k]).2)
            &&& forall|t: Seq<char>| #[trigger] v.ids.dom().contains(t) ==> w.ids.dom().contains(t) && w.ids[t] == v.ids[t]
            &&& forall|i: usize| #[trigger] v.tokens.dom().contains(i) ==> w.tokens.dom().contains(i) && w.tokens[i] == v.tokens[i]
            &&& w.special == v.special
            &&& consistent(w)
            &&& dense(v) ==> dense(w)
            &&& specials_known(v) ==> specials_known(w)
            &&& w.ids.dom().len() <= vocab_size
        }),
{
    let rounds = (vocab_size - v.ids.dom().len()) as nat;
    let c = crate::bpe::bpe_corpus(text, min_frequency);
    let l = learned_rules(v, text, vocab_size, min_frequency);
    lemma_learned_merges_concatenate(c, rounds);
    lemma_learn_merges_len(c, rounds);
    let toks = merged_tokens(l);
    assert(toks.len() == l.len());
    lemma_add_tokens_keeps(v, toks);
    let w = add_tokens_spec(v, toks);
    assert forall|k: int| 0 <= k < l.len() implies w.ids.dom().contains((#[trigger] l[k]).2) by {
        assert(toks[k] == l[k].2);
    }
}

/// The first rule that learning adds, when the vocabulary has room and some
/// eligible word has two parts, merges a most frequent adjacent pair of the
/// eligible words (each occurrence counting the word's frequency; counts up
/// to `usize::MAX`), the first to occur among equally frequent pairs.
pub proof fn lemma_learn_bpe_first_rule(v: VocabView, text: Seq<char>, vocab_size: usize, min_frequency: usize)
    requires
        vocab_size > v.ids.dom().len(),
        corpus_events(bpe_corpus(text, min_frequency)).len() > 0,
    ensures
        learned_rules(v, text, vocab_size, min_frequency).len() > 0,
        ({
            let e = corpus_events(bpe_corpus(text, min_frequency));
            let r = learned_rules(v, text, vocab_size, min_frequency)[0];
            &&& r.2 == r.0 + r.1
            &&& exists|i: int| 0 <= i < e.len() && (#[trigger] e[i]).0 == (r.0, r.1)
            &&& forall|j: int| 0 <= j < e.len() && pair_count(e, (#[trigger] e[j]).0) <= usize::MAX
                    ==> pair_count(e, e[j].0) <= pair_count(e, (r.0, r.1))
            &&& forall|j: int| 0 <= j < e.len() && (#[trigger] e[j]).0 != (r.0, r.1)
                    && pair_count(e, e[j].0) == pair_count(e, (r.0, r.1)) && pair_count(e, e[j].0) <= usize::MAX
                    ==> exists|i: int| 0 <= i < j && (#[trigger] e[i]).0 == (r.0, r.1)
        }),
{
    lemma_first_rule_most_frequent(bpe_corpus(text, min_frequency), (vocab_size - v.ids.dom().len()) as nat);
}

} // verus!
