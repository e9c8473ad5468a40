//! A WordPiece-style BPE tokenizer that keeps word boundaries: spaces and
//! punctuation become tokens of their own (`[SPACE]`, `[,]`, ...), and BPE
//! merges apply within words only.
use vstd::prelude::*;
use crate::text::{lowercase, white_space, alphanumeric, lower_char, ends_with, trim_end_matches, trim_end_ws, str_to_lowercase, concat, chars_of, char_is_whitespace, char_is_alphanumeric, char_lower_first, ends_with_exec, trim_end_matches_len, push_chars, push_str, string_push, trim_end, string_of, str_eq};
use crate::vocab::{
    Vocab, VocabView, string_views, add_token_spec, add_tokens_spec, add_specials_spec, empty_vocab,
    lemma_add_tokens_len, lemma_add_specials_len, well_built, consistent, dense, specials_known, lemma_add_tokens_keeps,
};
use crate::bpe_core::{
    MergeView, merges_view, parts_view, apply_merges, learn_merges, merged_tokens,
    apply_merges_in_place, learn_merges_into, merges_concatenate, lemma_learned_merges_concatenate,
    lemma_learn_merges_len,
};
use crate::counting::{count_words, counts_view, count_words_exec};
use crate::bpe::{char_parts, eligible, char_strings, eligible_corpus};
use crate::decimal::{decimal, push_decimal};
use crate::basic_tokenizer::join_spaced;
use crate::tokenizer::{
    Tokenizer, unk_token, pad_token, bos_token, eos_token, end_token, known_tokens, unk_str,
    pad_str, bos_str, eos_str, end_str, encode_with, lookup_tokens,
};

verus! {

/// The space token, `[SPACE]`.
pub open spec fn space_token() -> Seq<char> {
    seq!['[', 'S', 'P', 'A', 'C', 'E', ']']
}

pub fn space_str() -> (s: &'static str)
    ensures
        s@ == space_token(),
{
    proof {
        reveal_strlit("[SPACE]");
    }
    "[SPACE]"
}

/// The punctuation marks that become tokens of their own, in the order in
/// which they enter the vocabulary.
pub open spec fn punct_list() -> Seq<char> {
    seq![
        '.', ',', '!', '?', ':', ';', '\'', '"', '(', ')', '[', ']', '{', '}', '-', '_', '+', '=',
        '/', '\\', '|', '<', '>', '@', '#', '$', '%', '^', '&', '*',
    ]
}

/// Whether a character is one of the punctuation marks.
pub open spec fn wp_punct(c: char) -> bool {
    c == '.' || c == ',' || c == '!' || c == '?' || c == ':' || c == ';' || c == '\'' || c == '"'
        || c == '(' || c == ')' || c == '[' || c == ']' || c == '{' || c == '}' || c == '-' || c == '_'
        || c == '+' || c == '=' || c == '/' || c == '\\' || c == '|' || c == '<' || c == '>' || c == '@'
        || c == '#' || c == '$' || c == '%' || c == '^' || c == '&' || c == '*'
}

/// Whether a character is one of the punctuation marks.
pub fn is_wp_punct(c: char) -> (b: bool)
    ensures
        b == wp_punct(c),
{
    c == '.' || c == ',' || c == '!' || c == '?' || c == ':' || c == ';' || c == '\'' || c == '"'
        || c == '(' || c == ')' || c == '[' || c == ']' || c == '{' || c == '}' || c == '-' || c == '_'
        || c == '+' || c == '=' || c == '/' || c == '\\' || c == '|' || c == '<' || c == '>' || c == '@'
        || c == '#' || c == '$' || c == '%' || c == '^' || c == '&' || c == '*'
}

/// Whether a character may stand in a word.
pub fn is_word_char(c: char) -> (b: bool)
    ensures
        b == word_char(c),
{
    char_is_alphanumeric(c) || c == '\'' || c == '-' || c == '_'
}

/// The token of a punctuation mark: the mark in square brackets.
pub open spec fn punct_token(c: char) -> Seq<char> {
    seq!['[', c, ']']
}

/// Characters that may stand in a word: letters and digits (and the
/// apostrophe, hyphen and underscore).
pub open spec fn word_char(c: char) -> bool {
    alphanumeric(c) || c == '\'' || c == '-' || c == '_'
}

/// The lowercase form of a word character: the first character of its
/// lowercase mapping.
pub open spec fn lower_first(c: char) -> char {
    match lower_char(c) {
        Some(l) => l,
        None => c,
    }
}

/// The printable ASCII characters among the first `n` from space on, that
/// are not punctuation marks, each as a token.
pub open spec fn ascii_non_punct(n: nat) -> Seq<Seq<char>>
    decreases n,
{
    if n == 0 {
        Seq::empty()
    } else {
        let r = ascii_non_punct((n - 1) as nat);
        let c = ((31 + n) as u8) as char;
        if wp_punct(c) {
            r
        } else {
            r.push(seq![c])
        }
    }
}

/// The special tokens a WordPiece tokenizer starts with.
pub open spec fn wp_base_specials() -> Seq<Seq<char>> {
    seq![pad_token(), unk_token(), bos_token(), eos_token(), space_token()]
}

/// The vocabulary of a new WordPiece tokenizer: the special tokens, the
/// punctuation tokens (special too), the printable ASCII characters that are
/// not punctuation, then the end-of-word marker.
pub open spec fn wp_base_vocab() -> VocabView {
    add_token_spec(
        add_tokens_spec(
            add_specials_spec(
                add_specials_spec(empty_vocab(), wp_base_specials()),
                punct_list().map_values(|c: char| punct_token(c)),
            ),
            ascii_non_punct(95),
        ),
        end_token(),
    )
}

/// Appends a word to a token list if it is nonempty.
pub open spec fn flush(toks: Seq<Seq<char>>, cur: Seq<char>) -> Seq<Seq<char>> {
    if cur.len() > 0 {
        toks.push(cur)
    } else {
        toks
    }
}

/// State of pre-tokenization: the tokens so far and the word being read.
/// White space gives `[SPACE]`, a punctuation mark its bracketed token, a
/// word character (lowercased) extends the word; other characters are
/// dropped.
pub open spec fn wp_pre_state(t: Seq<char>) -> (Seq<Seq<char>>, Seq<char>)
    decreases t.len(),
{
    if t.len() == 0 {
        (Seq::empty(), Seq::empty())
    } else {
        let (toks, cur) = wp_pre_state(t.drop_last());
        let c = t.last();
        if white_space(c) {
            (flush(toks, cur).push(space_token()), Seq::empty())
        } else if wp_punct(c) {
            (flush(toks, cur).push(punct_token(c)), Seq::empty())
        } else if word_char(c) {
            (toks, cur.push(lower_first(c)))
        } else {
            (toks, cur)
        }
    }
}

/// The pre-tokens of a text: words, `[SPACE]` and punctuation tokens.
pub open spec fn wp_pre_tokenize(t: Seq<char>) -> Seq<Seq<char>> {
    flush(wp_pre_state(t).0, wp_pre_state(t).1)
}

/// Whether a token starts with `[` and ends with `]`.
pub open spec fn is_bracketed(t: Seq<char>) -> bool {
    t.len() > 0 && t[0] == '[' && t.last() == ']'
}

/// Tokens that neither start with `[` nor end with `]`, each followed by
/// the end-of-word marker.
pub open spec fn word_pretokens(ts: Seq<Seq<char>>) -> Seq<Seq<char>>
    decreases ts.len(),
{
    if ts.len() == 0 {
        Seq::empty()
    } else {
        let rest = word_pretokens(ts.drop_last());
        let t = ts.last();
        if !(t.len() > 0 && t[0] == '[') && !(t.len() > 0 && t.last() == ']') {
            rest.push(t + end_token())
        } else {
            rest
        }
    }
}

/// The words that BPE learns from in a text.
pub open spec fn wp_words(text: Seq<char>) -> Seq<Seq<char>> {
    word_pretokens(wp_pre_tokenize(text))
}

/// The characters of a word that may stand in a word.
pub open spec fn filter_word_chars(w: Seq<char>) -> Seq<char>
    decreases w.len(),
{
    if w.len() == 0 {
        Seq::empty()
    } else {
        let rest = filter_word_chars(w.drop_last());
        if word_char(w.last()) {
            rest.push(w.last())
        } else {
            rest
        }
    }
}

/// Whether every character may stand in a word.
pub open spec fn all_word_chars(t: Seq<char>) -> bool {
    forall|i: int| 0 <= i < t.len() ==> word_char(#[trigger] t[i])
}

/// Whether a token survives the final check of `apply_bpe`.
pub open spec fn keeps_token(t: Seq<char>) -> bool {
    is_bracketed(t) || ends_with(t, end_token()) || all_word_chars(t)
}

/// The tokens that survive the final check of `apply_bpe`, in order.
pub open spec fn kept_tokens(ts: Seq<Seq<char>>) -> Seq<Seq<char>>
    decreases ts.len(),
{
    if ts.len() == 0 {
        Seq::empty()
    } else {
        let rest = kept_tokens(ts.drop_last());
        if keeps_token(ts.last()) {
            rest.push(ts.last())
        } else {
            rest
        }
    }
}

/// The tokens of one pre-token: a bracketed token stays whole; otherwise
/// its word characters, lowercased and followed by the end-of-word marker,
/// are merged by the rules in order, and only tokens that pass the final
/// check are kept. A pre-token without word characters gives no token.
pub open spec fn wp_word_tokens(merges: Seq<MergeView>, word: Seq<char>) -> Seq<Seq<char>> {
    if is_bracketed(word) {
        seq![word]
    } else {
        let f = filter_word_chars(word);
        if f.len() == 0 {
            Seq::empty()
        } else {
            kept_tokens(apply_merges(char_parts(lowercase(f) + end_token()), merges))
        }
    }
}

/// The tokens of a pre-token within a text.
pub open spec fn wp_pretoken_tokens(merges: Seq<MergeView>, t: Seq<char>) -> Seq<Seq<char>> {
    if is_bracketed(t) {
        seq![t]
    } else if t.len() > 0 {
        wp_word_tokens(merges, t)
    } else {
        Seq::empty()
    }
}

/// The tokens of a text.
pub open spec fn wp_tokenize(merges: Seq<MergeView>, text: Seq<char>) -> Seq<Seq<char>> {
    wp_pre_tokenize(text).map_values(|t: Seq<char>| wp_pretoken_tokens(merges, t)).flatten()
}

/// A bracketed token with something between the brackets: punctuation.
pub open spec fn is_punct_token(t: Seq<char>) -> bool {
    is_bracketed(t) && t.len() > 2
}

/// State of decoding after `i` tokens: the text so far, the word being
/// assembled, and whether the text ends with a space written for `[SPACE]`
/// or after a word.
pub open spec fn wp_decode_state(v: VocabView, toks: Seq<Seq<char>>, i: nat) -> (Seq<char>, Seq<char>, bool)
    decreases i,
{
    if i == 0 || i > toks.len() {
        (Seq::empty(), Seq::empty(), false)
    } else {
        let (res, cur, lws) = wp_decode_state(v, toks, (i - 1) as nat);
        let t = toks[i - 1];
        let has_next = i < toks.len();
        let next_is_punct = has_next && is_punct_token(toks[i as int]);
        let next_not_space = !has_next || toks[i as int] != space_token();
        if t == space_token() {
            if !lws {
                ((res + cur).push(' '), Seq::empty(), true)
            } else {
                (res + cur, Seq::empty(), lws)
            }
        } else if is_punct_token(t) {
            (res + cur + t.subrange(1, t.len() - 1), Seq::empty(), false)
        } else if ends_with(t, end_token()) {
            let word = cur + trim_end_matches(t, end_token());
            if !next_is_punct && next_not_space {
                ((res + word).push(' '), Seq::empty(), true)
            } else {
                (res + word, Seq::empty(), false)
            }
        } else if v.special.contains(t) {
            (res, cur, lws)
        } else if all_word_chars(t) {
            (res, cur + t, lws)
        } else {
            (res, cur, lws)
        }
    }
}

/// The text of a sequence of token IDs, without trailing white space.
pub open spec fn wp_decode(v: VocabView, ids: Seq<usize>) -> Seq<char> {
    let toks = known_tokens(v, ids);
    let (res, cur, _lws) = wp_decode_state(v, toks, toks.len());
    trim_end_ws(res + cur)
}

/// The placeholder token number `i`: `[PLACEHOLDER_i]`.
pub open spec fn placeholder(i: nat) -> Seq<char> {
    seq!['[', 'P', 'L', 'A', 'C', 'E', 'H', 'O', 'L', 'D', 'E', 'R', '_'] + decimal(i) + seq![']']
}

/// The vocabulary after growing towards `size` tokens: when it has fewer,
/// placeholders `[PLACEHOLDER_0]`, `[PLACEHOLDER_1]`, ... are added, one
/// per missing token; otherwise it is unchanged.
pub open spec fn grown_vocab(v: VocabView, size: usize) -> VocabView {
    if v.ids.dom().len() < size {
        add_tokens_spec(v, Seq::new((size - v.ids.dom().len()) as nat, |i: int| placeholder(i as nat)))
    } else {
        v
    }
}

/// The distinct IDs below `limit` among `ids`, in order of first
/// occurrence, each with its number of occurrences.
pub open spec fn id_counts(ids: Seq<usize>, limit: usize) -> Seq<(usize, usize)>
    decreases ids.len(),
{
    if ids.len() == 0 {
        Seq::empty()
    } else {
        let t = id_counts(ids.drop_last(), limit);
        let x = ids.last();
        if x >= limit {
            t
        } else {
            let k = find_id_count(t, x);
            if k >= 0 {
                t.update(k, (x, (t[k].1 + 1) as usize))
            } else {
                t.push((x, 1usize))
            }
        }
    }
}

/// Position of an ID in a count table, or -1.
pub open spec fn find_id_count(t: Seq<(usize, usize)>, x: usize) -> int
    decreases t.len(),
{
    if t.len() == 0 {
        -1
    } else if t.last().0 == x {
        t.len() - 1
    } else {
        find_id_count(t.drop_last(), x)
    }
}

proof fn lemma_id_counts(ids: Seq<usize>, limit: usize)
    ensures
        forall|i: int| 0 <= i < id_counts(ids, limit).len() ==> (#[trigger] id_counts(ids, limit)[i]).1 <= ids.len(),
        forall|i: int| 0 <= i < id_counts(ids, limit).len() ==> (#[trigger] id_counts(ids, limit)[i]).0 < limit,
    decreases ids.len(),
{
    if ids.len() > 0 {
        lemma_id_counts(ids.drop_last(), limit);
        let t = id_counts(ids.drop_last(), limit);
        let x = ids.last();
        lemma_find_id_count(t, x);
        if x < limit {
            let k = find_id_count(t, x);
            assert forall|i: int| 0 <= i < id_counts(ids, limit).len() implies (#[trigger] id_counts(ids, limit)[i]).1 <= ids.len() by {
                if k >= 0 && i != k {
                    assert(id_counts(ids, limit)[i] == t[i]);
                } else if k < 0 && i < t.len() {
                    assert(id_counts(ids, limit)[i] == t[i]);
                }
            }
            assert forall|i: int| 0 <= i < id_counts(ids, limit).len() implies (#[trigger] id_counts(ids, limit)[i]).0 < limit by {
                if k >= 0 && i != k {
                    assert(id_counts(ids, limit)[i] == t[i]);
                } else if k < 0 && i < t.len() {
                    assert(id_counts(ids, limit)[i] == t[i]);
                }
            }
        }
    }
}

proof fn lemma_find_id_count(t: Seq<(usize, usize)>, x: usize)
    ensures
        -1 <= find_id_count(t, x) < t.len(),
        find_id_count(t, x) >= 0 ==> t[find_id_count(t, x)].0 == x,
    decreases t.len(),
{
    if t.len() > 0 {
        lemma_find_id_count(t.drop_last(), x);
        if find_id_count(t, x) >= 0 && t.last().0 != x {
            assert(t[find_id_count(t, x)] == t.drop_last()[find_id_count(t, x)]);
        }
    }
}

/// A string made of one character between square brackets.
fn bracketed(c: char) -> (s: String)
    ensures
        s@ == punct_token(c),
{
    let mut s = String::new();
    string_push(&mut s, '[');
    string_push(&mut s, c);
    string_push(&mut s, ']');
    assert(s@ =~= punct_token(c));
    s
}

/// Whether a token starts with `[` and ends with `]`.
fn is_bracketed_exec(t: &Vec<char>) -> (b: bool)
    ensures
        b == is_bracketed(t@),
{
    t.len() > 0 && t[0] == '[' && t[t.len() - 1] == ']'
}

/// Whether every character may stand in a word.
fn all_word_chars_exec(t: &Vec<char>) -> (b: bool)
    ensures
        b == all_word_chars(t@),
{
    let mut i: usize = 0;
    while i < t.len()
        invariant
            i <= t@.len(),
            forall|j: int| 0 <= j < i ==> word_char(#[trigger] t@[j]),
        decreases t.len() - i,
    {
        if !is_word_char(t[i]) {
            return false;
        }
        i = i + 1;
    }
    true
}

/// Tokenizer based on WordPiece-style BPE with word boundaries.
#[derive(Debug)]
pub struct WordPieceBPETokenizer {
    vocab: Vocab,
    merges: Vec<(String, String, String)>,
    repetition_penalty_bits: u32,
}

/// The bits of the default repetition penalty, 1.2 as an `f32`.
pub const DEFAULT_REPETITION_PENALTY_BITS: u32 = 0x3F99999A;

impl WordPieceBPETokenizer {
    /// The merge rules, as characters.
    pub closed spec fn merge_rules(&self) -> Seq<MergeView> {
        merges_view(self.merges@)
    }

    /// The bits of the repetition penalty (an `f32`) used in text generation.
    pub closed spec fn penalty_bits(&self) -> u32 {
        self.repetition_penalty_bits
    }

    /// Creates a new tokenizer: no merge rule, the vocabulary of `wp_base_vocab`,
    /// and the default repetition penalty.
    pub fn new() -> (t: Self)
        ensures
            t.spec_vocab() == wp_base_vocab(),
            t.merge_rules() == Seq::<MergeView>::empty(),
            t.penalty_bits() == DEFAULT_REPETITION_PENALTY_BITS,
            well_built(t.spec_vocab()),
    {
        let mut vocab = Vocab::new();
        let ghost sp = wp_base_specials();
        proof {
            assert(sp.take(0) =~= Seq::<Seq<char>>::empty());
            assert(vocab@ == add_specials_spec(empty_vocab(), sp.take(0)));
            vocab.lemma_view_finite();
        }
        vocab.add_special_token(pad_str());
        proof {
            assert(sp.take(1).drop_last() =~= sp.take(0));
            assert(sp.take(1).last() == pad_token());
            assert(vocab@ == add_specials_spec(empty_vocab(), sp.take(1)));
            lemma_add_specials_len(empty_vocab(), sp.take(1));
        }
        vocab.add_special_token(unk_str());
        proof {
            assert(sp.take(2).drop_last() =~= sp.take(1));
            assert(sp.take(2).last() == unk_token());
            assert(vocab@ == add_specials_spec(empty_vocab(), sp.take(2)));
            lemma_add_specials_len(empty_vocab(), sp.take(2));
        }
        vocab.add_special_token(bos_str());
        proof {
            assert(sp.take(3).drop_last() =~= sp.take(2));
            assert(sp.take(3).last() == bos_token());
            assert(vocab@ == add_specials_spec(empty_vocab(), sp.take(3)));
            lemma_add_specials_len(empty_vocab(), sp.take(3));
        }
        vocab.add_special_token(eos_str());
        proof {
            assert(sp.take(4).drop_last() =~= sp.take(3));
            assert(sp.take(4).last() == eos_token());
            assert(vocab@ == add_specials_spec(empty_vocab(), sp.take(4)));
            lemma_add_specials_len(empty_vocab(), sp.take(4));
        }
        vocab.add_special_token(space_str());
        proof {
            assert(sp.take(5).drop_last() =~= sp.take(4));
            assert(sp.take(5).last() == space_token());
            assert(sp.take(5) =~= sp);
            assert(vocab@ == add_specials_spec(empty_vocab(), sp));
            lemma_add_specials_len(empty_vocab(), sp);
        }
        let ghost v1 = vocab@;
        assert(v1 == add_specials_spec(empty_vocab(), wp_base_specials()));
        let punct: Vec<char> = vec![
            '.', ',', '!', '?', ':', ';', '\'', '"', '(', ')', '[', ']', '{', '}', '-', '_', '+', '=',
            '/', '\\', '|', '<', '>', '@', '#', '$', '%', '^', '&', '*',
        ];
        let ghost pt = punct_list().map_values(|c: char| punct_token(c));
        assert(punct@ =~= punct_list());
        let mut k: usize = 0;
        assert(pt.take(0) =~= Seq::<Seq<char>>::empty());
        while k < punct.len()
            invariant
                k <= punct@.len(),
                punct@ == punct_list(),
                pt == punct_list().map_values(|c: char| punct_token(c)),
                v1.ids.dom().finite(),
                v1.ids.dom().len() <= 5,
                vocab@ == add_specials_spec(v1, pt.take(k as int)),
                vocab@.ids.dom().finite(),
                vocab@.ids.dom().len() <= 5 + k,
                well_built(vocab@),
            decreases punct.len() - k,
        {
            let tok = bracketed(punct[k]);
            vocab.add_special_token(tok.as_str());
            proof {
                vocab.lemma_view_finite();
                assert(pt.take(k + 1).drop_last() =~= pt.take(k as int));
                assert(pt.take(k + 1).last() == punct_token(punct@[k as int]));
            }
            k = k + 1;
        }
        assert(pt.take(30) =~= pt);
        let ghost v2 = vocab@;
        assert(v2 == add_specials_spec(v1, pt));
        let mut b: u8 = 32;
        while b < 127
            invariant
                32 <= b <= 127,
                v2.ids.dom().finite(),
                v2.ids.dom().len() <= 35,
                vocab@ == add_tokens_spec(v2, ascii_non_punct((b - 32) as nat)),
                vocab@.ids.dom().finite(),
                vocab@.ids.dom().len() <= 35 + (b - 32),
                well_built(vocab@),
            decreases 127 - b,
        {
            let c = b as char;
            if !is_wp_punct(c) {
                let mut t = String::new();
                string_push(&mut t, c);
                vocab.add_token(t.as_str());
                proof {
                    vocab.lemma_view_finite();
                    assert(t@ =~= seq![c]);
                    let r = ascii_non_punct((b - 32) as nat);
                    assert(r.push(seq![c]).drop_last() =~= r);
                }
            }
            b = b + 1;
        }
        assert(vocab@ == add_tokens_spec(v2, ascii_non_punct(95)));
        vocab.add_token(end_str());
        let merges: Vec<(String, String, String)> = Vec::new();
        assert(merges_view(merges@) =~= Seq::<MergeView>::empty());
        WordPieceBPETokenizer { vocab, merges, repetition_penalty_bits: DEFAULT_REPETITION_PENALTY_BITS }
    }

    /// Sets the repetition penalty (given by the bits of an `f32`).
    pub fn set_repetition_penalty_bits(&mut self, bits: u32)
        ensures
            final(self).penalty_bits() == bits,
            final(self).spec_vocab() == old(self).spec_vocab(),
            final(self).merge_rules() == old(self).merge_rules(),
    {
        self.repetition_penalty_bits = bits;
    }

    /// The bits of the repetition penalty (an `f32`).
    pub fn repetition_penalty_bits(&self) -> (bits: u32)
        ensures
            bits == self.penalty_bits(),
    {
        self.repetition_penalty_bits
    }

    /// Splits a text into words, `[SPACE]` tokens and punctuation tokens (see `wp_pre_state`).
    pub fn pre_tokenize(&self, text: &str) -> (r: Vec<String>)
        ensures
            string_views(r@) == wp_pre_tokenize(text@),
    {
        let cs = chars_of(text);
        let mut toks: Vec<String> = Vec::new();
        let mut cur = String::new();
        let mut i: usize = 0;
        assert(cs@.take(0) =~= Seq::<char>::empty());
        assert(string_views(toks@) =~= Seq::<Seq<char>>::empty());
        while i < cs.len()
            invariant
                i <= cs@.len(),
                (string_views(toks@), cur@) == wp_pre_state(cs@.take(i as int)),
            decreases cs.len() - i,
        {
            let c = cs[i];
            let ghost t0 = toks@;
            let ghost c0 = cur@;
            proof {
                assert(cs@.take(i + 1).drop_last() =~= cs@.take(i as int));
                assert(cs@.take(i + 1).last() == c);
            }
            if char_is_whitespace(c) {
                if !cur.as_str().is_empty() {
                    toks.push(cur);
                    cur = String::new();
                }
                let sp = space_str().to_owned();
                toks.push(sp);
                proof {
                    assert(string_views(toks@) =~= flush(string_views(t0), c0).push(space_token()));
                    assert(cur@ =~= Seq::<char>::empty());
                }
            } else if is_wp_punct(c) {
                if !cur.as_str().is_empty() {
                    toks.push(cur);
                    cur = String::new();
                }
                toks.push(bracketed(c));
                proof {
                    assert(string_views(toks@) =~= flush(string_views(t0), c0).push(punct_token(c)));
                    assert(cur@ =~= Seq::<char>::empty());
                }
            } else if is_word_char(c) {
                let l = match char_lower_first(c) {
                    Some(l) => l,
                    None => c,
                };
                string_push(&mut cur, l);
            }
            i = i + 1;
        }
        assert(cs@.take(i as int) =~= cs@);
        if !cur.as_str().is_empty() {
            let ghost t0 = toks@;
            toks.push(cur);
            assert(string_views(toks@) =~= string_views(t0).push(wp_pre_state(text@).1));
        }
        toks
    }

    /// The tokens of one pre-token (see `wp_word_tokens`).
    pub fn apply_bpe(&self, word: &str) -> (r: Vec<String>)
        ensures
            string_views(r@) == wp_word_tokens(self.merge_rules(), word@),
    {
        let cs = chars_of(word);
        if is_bracketed_exec(&cs) {
            let r = vec![word.to_owned()];
            assert(string_views(r@) =~= seq![word@]);
            return r;
        }
        let mut filtered: Vec<char> = Vec::new();
        let mut i: usize = 0;
        assert(cs@.take(0) =~= Seq::<char>::empty());
        while i < cs.len()
            invariant
                i <= cs@.len(),
                filtered@ == filter_word_chars(cs@.take(i as int)),
            decreases cs.len() - i,
        {
            proof {
                assert(cs@.take(i + 1).drop_last() =~= cs@.take(i as int));
                assert(cs@.take(i + 1).last() == cs@[i as int]);
            }
            if is_word_char(cs[i]) {
                filtered.push(cs[i]);
            }
            i = i + 1;
        }
        assert(cs@.take(i as int) =~= cs@);
        if filtered.len() == 0 {
            let r: Vec<String> = Vec::new();
            assert(string_views(r@) =~= Seq::<Seq<char>>::empty());
            return r;
        }
        let fs = string_of(filtered.as_slice());
        let lw = str_to_lowercase(fs.as_str());
        let with_end = concat(lw.as_str(), end_str());
        let wc = chars_of(with_end.as_str());
        let mut parts = char_strings(&wc);
        apply_merges_in_place(&mut parts, &self.merges);
        let ghost merged = parts_view(parts@);
        let mut out: Vec<String> = Vec::new();
        let mut j: usize = 0;
        assert(merged.take(0) =~= Seq::<Seq<char>>::empty());
        assert(string_views(out@) =~= Seq::<Seq<char>>::empty());
        while j < parts.len()
            invariant
                j <= parts@.len(),
                merged == parts_view(parts@),
                string_views(out@) == kept_tokens(merged.take(j as int)),
            decreases parts.len() - j,
        {
            let t = chars_of(parts[j].as_str());
            proof {
                assert(merged.take(j + 1).drop_last() =~= merged.take(j as int));
                assert(merged.take(j + 1).last() == t@);
            }
            let end = chars_of(end_str());
            if is_bracketed_exec(&t) || ends_with_exec(t.as_slice(), end.as_slice()) || all_word_chars_exec(&t) {
                let ghost before = out@;
                out.push(parts[j].clone());
                assert(string_views(out@) =~= string_views(before).push(t@));
            }
            j = j + 1;
        }
        assert(merged.take(j as int) =~= merged);
        out
    }
}


/// The words of a sequence of text chunks, chunk after chunk.
pub open spec fn chunks_words(chunks: Seq<Seq<char>>) -> Seq<Seq<char>>
    decreases chunks.len(),
{
    if chunks.len() == 0 {
        Seq::empty()
    } else {
        chunks_words(chunks.drop_last()) + wp_words(chunks.last())
    }
}

/// Learning from one chunk is learning from its text: the words of a
/// single chunk are those of the text.
pub proof fn lemma_single_chunk_words(text: Seq<char>)
    ensures
        chunks_words(seq![text]) == wp_words(text),
{
    let c = seq![text];
    assert(c.drop_last() =~= Seq::<Seq<char>>::empty());
    assert(c.last() == text);
    assert(chunks_words(c.drop_last()) == Seq::<Seq<char>>::empty());
    assert(chunks_words(c) == chunks_words(c.drop_last()) + wp_words(c.last()));
    assert(Seq::<Seq<char>>::empty() + wp_words(text) =~= wp_words(text));
}

/// Splitting the chunks in two groups does not change the words learned
/// from: those of the first group followed by those of the second.
pub proof fn lemma_chunks_words_concat(a: Seq<Seq<char>>, b: Seq<Seq<char>>)
    ensures
        chunks_words(a + b) == chunks_words(a) + chunks_words(b),
    decreases b.len(),
{
    if b.len() == 0 {
        assert(a + b =~= a);
        assert(chunks_words(a) + Seq::<Seq<char>>::empty() =~= chunks_words(a));
    } else {
        lemma_chunks_words_concat(a, b.drop_last());
        assert((a + b).drop_last() =~= a + b.drop_last());
        assert((a + b).last() == b.last());
        assert(chunks_words(a) + chunks_words(b.drop_last()) + wp_words(b.last()) =~= chunks_words(a) + (chunks_words(b.drop_last()) + wp_words(b.last())));
    }
}

proof fn lemma_flush_concat(p: Seq<Seq<char>>, q: Seq<Seq<char>>, cur: Seq<char>)
    ensures
        flush(p + q, cur) == p + flush(q, cur),
{
    if cur.len() > 0 {
        assert((p + q).push(cur) =~= p + q.push(cur));
    }
}

/// Reading a text after one that ends between words (no word being read)
/// gives the pre-tokens of the first followed by those of the second.
#[verifier::spinoff_prover]
proof fn lemma_pre_state_concat(x: Seq<char>, b: Seq<char>)
    requires
        wp_pre_state(x).1.len() == 0,
    ensures
        wp_pre_state(x + b) == (wp_pre_state(x).0 + wp_pre_state(b).0, wp_pre_state(b).1),
    decreases b.len(),
{
    if b.len() == 0 {
        assert(x + b =~= x);
        assert(wp_pre_state(x).0 + Seq::<Seq<char>>::empty() =~= wp_pre_state(x).0);
    } else {
        let bd = b.drop_last();
        lemma_pre_state_concat(x, bd);
        assert((x + b).drop_last() =~= x + bd);
        assert((x + b).last() == b.last());
        let xs = wp_pre_state(x).0;
        let (bt, bc) = wp_pre_state(bd);
        lemma_flush_concat(xs, bt, bc);
        assert((xs + bt).push(space_token()) =~= xs + bt.push(space_token()));
        assert(flush(bt, bc).push(space_token()) == flush(bt, bc).push(space_token()));
        assert((xs + flush(bt, bc)).push(space_token()) =~= xs + flush(bt, bc).push(space_token()));
        assert((xs + flush(bt, bc)).push(punct_token(b.last())) =~= xs + flush(bt, bc).push(punct_token(b.last())));
    }
}

proof fn lemma_word_pretokens_concat(p: Seq<Seq<char>>, q: Seq<Seq<char>>)
    ensures
        word_pretokens(p + q) == word_pretokens(p) + word_pretokens(q),
    decreases q.len(),
{
    if q.len() == 0 {
        assert(p + q =~= p);
        assert(word_pretokens(p) + Seq::<Seq<char>>::empty() =~= word_pretokens(p));
    } else {
        lemma_word_pretokens_concat(p, q.drop_last());
        assert((p + q).drop_last() =~= p + q.drop_last());
        assert((p + q).last() == q.last());
        let t = q.last();
        assert((word_pretokens(p) + word_pretokens(q.drop_last())).push(t + end_token()) =~= word_pretokens(p) + word_pretokens(q.drop_last()).push(t + end_token()));
    }
}

/// A white-space character ends the word being read and stands as the
/// `[SPACE]` token: the pre-tokens of two texts with a white-space character
/// between them are those of the first, then `[SPACE]`, then those of the
/// second.
pub proof fn lemma_pre_tokenize_white_space(a: Seq<char>, c: char, b: Seq<char>)
    requires
        white_space(c),
    ensures
        wp_pre_tokenize(a + seq![c] + b) == wp_pre_tokenize(a) + seq![space_token()] + wp_pre_tokenize(b),
{
    let x = a + seq![c];
    assert(x.drop_last() =~= a);
    assert(x.last() == c);
    let (at, ac) = wp_pre_state(a);
    assert(wp_pre_state(x) == (flush(at, ac).push(space_token()), Seq::<char>::empty()));
    lemma_pre_state_concat(x, b);
    let (bt, bc) = wp_pre_state(b);
    let pa = wp_pre_tokenize(a);
    assert(pa == flush(at, ac));
    lemma_flush_concat(pa.push(space_token()), bt, bc);
    assert(pa.push(space_token()) =~= pa + seq![space_token()]);
}

/// A punctuation mark ends the word being read and stands as its bracketed
/// token: the pre-tokens of two texts with a punctuation mark between them
/// are those of the first, then the mark's token, then those of the second.
pub proof fn lemma_pre_tokenize_punct(a: Seq<char>, c: char, b: Seq<char>)
    requires
        !white_space(c),
        wp_punct(c),
    ensures
        wp_pre_tokenize(a + seq![c] + b) == wp_pre_tokenize(a) + seq![punct_token(c)] + wp_pre_tokenize(b),
{
    let x = a + seq![c];
    assert(x.drop_last() =~= a);
    assert(x.last() == c);
    let (at, ac) = wp_pre_state(a);
    assert(wp_pre_state(x) == (flush(at, ac).push(punct_token(c)), Seq::<char>::empty()));
    lemma_pre_state_concat(x, b);
    let (bt, bc) = wp_pre_state(b);
    let pa = wp_pre_tokenize(a);
    lemma_flush_concat(pa.push(punct_token(c)), bt, bc);
    assert(pa.push(punct_token(c)) =~= pa + seq![punct_token(c)]);
}

proof fn lemma_pre_state_same(x: Seq<char>, y: Seq<char>, b: Seq<char>)
    requires
        wp_pre_state(x) == wp_pre_state(y),
    ensures
        wp_pre_state(x + b) == wp_pre_state(y + b),
    decreases b.len(),
{
    if b.len() == 0 {
        assert(x + b =~= x);
        assert(y + b =~= y);
    } else {
        lemma_pre_state_same(x, y, b.drop_last());
        assert((x + b).drop_last() =~= x + b.drop_last());
        assert((y + b).drop_last() =~= y + b.drop_last());
        assert((x + b).last() == b.last());
        assert((y + b).last() == b.last());
    }
}

/// A character that is neither white space, nor a punctuation mark, nor a
/// word character is dropped: it neither ends nor extends a word.
pub proof fn lemma_pre_tokenize_dropped(a: Seq<char>, c: char, b: Seq<char>)
    requires
        !white_space(c),
        !wp_punct(c),
        !word_char(c),
    ensures
        wp_pre_tokenize(a + seq![c] + b) == wp_pre_tokenize(a + b),
{
    let x = a + seq![c];
    assert(x.drop_last() =~= a);
    assert(x.last() == c);
    assert(wp_pre_state(x) == wp_pre_state(a));
    lemma_pre_state_same(x, a, b);
}

/// A run of word characters is one pre-token, each character lowercased
/// (the first character of its lowercase mapping).
pub proof fn lemma_pre_tokenize_word(w: Seq<char>)
    requires
        forall|i: int| 0 <= i < w.len() ==> !white_space(#[trigger] w[i]) && !wp_punct(w[i]) && word_char(w[i]),
    ensures
        wp_pre_state(w) == (Seq::<Seq<char>>::empty(), w.map_values(|c: char| lower_first(c))),
        wp_pre_tokenize(w) == if w.len() == 0 { Seq::<Seq<char>>::empty() } else { seq![w.map_values(|c: char| lower_first(c))] },
    decreases w.len(),
{
    if w.len() > 0 {
        let d = w.drop_last();
        assert forall|i: int| 0 <= i < d.len() implies !white_space(#[trigger] d[i]) && !wp_punct(d[i]) && word_char(d[i]) by {
            assert(d[i] == w[i]);
        }
        lemma_pre_tokenize_word(d);
        assert(w[w.len() - 1] == w.last());
        assert(d.map_values(|c: char| lower_first(c)).push(lower_first(w.last())) =~= w.map_values(|c: char| lower_first(c)));
        assert(Seq::<Seq<char>>::empty().push(w.map_values(|c: char| lower_first(c))) =~= seq![w.map_values(|c: char| lower_first(c))]);
    } else {
        assert(w.map_values(|c: char| lower_first(c)) =~= Seq::<char>::empty());
    }
}

/// The words of two texts joined by a space are those of the first followed
/// by those of the second: the space ends any word and gives `[SPACE]`,
/// which is no word.
#[verifier::spinoff_prover]
pub proof fn lemma_wp_words_space_join(a: Seq<char>, b: Seq<char>)
    ensures
        wp_words(a + seq![' '] + b) == wp_words(a) + wp_words(b),
{
    lemma_wp_words_white_space_join(a, ' ', b);
}

/// The words of two texts joined by any white-space character are those of
/// the first followed by those of the second.
pub proof fn lemma_wp_words_white_space_join(a: Seq<char>, c: char, b: Seq<char>)
    requires
        white_space(c),
    ensures
        wp_words(a + seq![c] + b) == wp_words(a) + wp_words(b),
{
    lemma_pre_tokenize_white_space(a, c, b);
    let pa = wp_pre_tokenize(a);
    lemma_word_pretokens_concat(pa + seq![space_token()], wp_pre_tokenize(b));
    lemma_word_pretokens_concat(pa, seq![space_token()]);
    let sp = seq![space_token()];
    assert(sp.drop_last() =~= Seq::<Seq<char>>::empty());
    assert(sp.last() == space_token());
    assert(space_token()[0] == '[' && space_token().len() > 0);
    assert(word_pretokens(sp.drop_last()) == Seq::<Seq<char>>::empty());
    assert(word_pretokens(sp) =~= Seq::<Seq<char>>::empty());
    assert(word_pretokens(pa) + Seq::<Seq<char>>::empty() =~= word_pretokens(pa));
}

/// Learning from several chunks is learning from the chunks joined by
/// spaces: the words of the joined text are the words of the chunks, chunk
/// after chunk, so `learn_bpe_parallel(chunks)` and `learn_bpe` on the
/// joined text learn the same rules and add the same tokens.
pub proof fn lemma_chunks_words_join(chunks: Seq<Seq<char>>, v: VocabView, vocab_size: usize, min_frequency: usize)
    ensures
        wp_words(join_spaced(chunks)) == chunks_words(chunks),
        wp_learned_rules(v, wp_words(join_spaced(chunks)), vocab_size, min_frequency)
            == wp_learned_rules(v, chunks_words(chunks), vocab_size, min_frequency),
    decreases chunks.len(),
{
    if chunks.len() == 0 {
        assert(wp_pre_state(Seq::<char>::empty()) == (Seq::<Seq<char>>::empty(), Seq::<char>::empty()));
        assert(wp_pre_tokenize(Seq::<char>::empty()) =~= Seq::<Seq<char>>::empty());
        assert(wp_words(join_spaced(chunks)) =~= Seq::<Seq<char>>::empty());
    } else if chunks.len() == 1 {
        assert(chunks.drop_last() =~= Seq::<Seq<char>>::empty());
        assert(chunks_words(chunks.drop_last()) == Seq::<Seq<char>>::empty());
        assert(chunks_words(chunks) =~= wp_words(chunks[0]));
    } else {
        lemma_chunks_words_join(chunks.drop_last(), v, vocab_size, min_frequency);
        lemma_wp_words_space_join(join_spaced(chunks.drop_last()), chunks.last());
    }
}

/// The number of learning rounds: the missing vocabulary size, or none.
pub open spec fn wp_rounds(v: VocabView, vocab_size: usize) -> nat {
    if vocab_size > v.ids.dom().len() {
        (vocab_size - v.ids.dom().len()) as nat
    } else {
        0
    }
}

/// The merge rules learned from the words `words` (each followed by the
/// end-of-word marker), starting from vocabulary `v`.
pub open spec fn wp_learned_rules(v: VocabView, words: Seq<Seq<char>>, vocab_size: usize, min_frequency: usize) -> Seq<MergeView> {
    learn_merges(eligible(count_words(words), min_frequency), wp_rounds(v, vocab_size))
}

/// What learning does to a WordPiece tokenizer whose vocabulary has agreeing
/// maps: the learned rules each merge two parts into their concatenation;
/// there are no more of them than the vocabulary lacks to reach
/// `vocab_size`; each merged token gets an ID; every old token keeps its ID
/// and every old ID its token; the special tokens stay as they were; the
/// maps still agree (with IDs `0..len` where they were so); and a vocabulary
/// below `vocab_size` grows to at most `vocab_size`.
pub proof fn lemma_wp_learn_effect(v: VocabView, words: Seq<Seq<char>>, vocab_size: usize, min_frequency: usize)
    requires
        v.ids.dom().finite(),
        consistent(v),
    ensures
        ({
            let l = wp_learned_rules(v, words, vocab_size, min_frequency);
            let w = add_tokens_spec(v, merged_tokens(l));
            &&& merges_concatenate(l)
            &&& l.len() <= wp_rounds(v, vocab_size)
            &&& forall|k: int| 0 <= k < l.len() ==> w.ids.dom().contains((#[trigger] l[k]).2)
            &&& forall|t: Seq<char>| #[trigger] v.ids.dom().contains(t) ==> w.ids.dom().contains(t) && w.ids[t] == v.ids[t]
            &&& forall|i: usize| #[trigger] v.tokens.dom().contains(i) ==> w.tokens.dom().contains(i) && w.tokens[i] == v.tokens[i]
            &&& w.special == v.special
            &&& consistent(w)
            &&& dense(v) ==> dense(w)
            &&& specials_known(v) ==> specials_known(w)
            &&& v.ids.dom().len() <= vocab_size ==> w.ids.dom().len() <= vocab_size
            &&& v.ids.dom().len() > vocab_size ==> w == v
        }),
{
    let c = eligible(count_words(words), min_frequency);
    let rounds = wp_rounds(v, vocab_size);
    let l = wp_learned_rules(v, words, vocab_size, min_frequency);
    lemma_learned_merges_concatenate(c, rounds);
    lemma_learn_merges_len(c, rounds);
    let toks = merged_tokens(l);
    assert(toks.len() == l.len());
    if rounds == 0 {
        assert(toks =~= Seq::<Seq<char>>::empty());
        assert(add_tokens_spec(v, toks) == v);
    } else {
        lemma_add_tokens_keeps(v, toks);
        let w = add_tokens_spec(v, toks);
        assert forall|k: int| 0 <= k < l.len() implies w.ids.dom().contains((#[trigger] l[k]).2) by {
            assert(toks[k] == l[k].2);
        }
    }
}

/// The views of a slice of string slices.
pub open spec fn str_views(s: Seq<&str>) -> Seq<Seq<char>> {
    s.map_values(|t: &str| t@)
}

/// The words of pre-tokens that neither start with `[` nor end with `]`,
/// each followed by the end-of-word marker.
fn marked_pretokens(pre: &Vec<String>) -> (r: Vec<String>)
    ensures
        string_views(r@) == word_pretokens(string_views(pre@)),
        forall|i: int| 0 <= i < r@.len() ==> (#[trigger] r@[i])@.len() >= 1,
{
    let ghost pv = string_views(pre@);
    let mut out: Vec<String> = Vec::new();
    let mut i: usize = 0;
    assert(pv.take(0) =~= Seq::<Seq<char>>::empty());
    assert(string_views(out@) =~= Seq::<Seq<char>>::empty());
    while i < pre.len()
        invariant
            i <= pre@.len(),
            pv == string_views(pre@),
            string_views(out@) == word_pretokens(pv.take(i as int)),
            forall|k: int| 0 <= k < out@.len() ==> (#[trigger] out@[k])@.len() >= 1,
        decreases pre.len() - i,
    {
        let t = chars_of(pre[i].as_str());
        proof {
            assert(pv.take(i + 1).drop_last() =~= pv.take(i as int));
            assert(pv.take(i + 1).last() == t@);
        }
        let starts = t.len() > 0 && t[0] == '[';
        let ends = t.len() > 0 && t[t.len() - 1] == ']';
        if !starts && !ends {
            let w = concat(pre[i].as_str(), end_str());
            let ghost before = out@;
            out.push(w);
            assert(string_views(out@) =~= string_views(before).push(t@ + end_token()));
        }
        i = i + 1;
    }
    assert(pv.take(i as int) =~= pv);
    out
}

/// Position of `x` in a count table (searching from the end), if there.
fn find_id_count_exec(t: &Vec<(usize, usize)>, x: usize) -> (k: Option<usize>)
    ensures
        match k {
            Some(k) => find_id_count(t@, x) == k as int,
            None => find_id_count(t@, x) == -1,
        },
{
    let mut j: usize = t.len();
    assert(t@.take(j as int) =~= t@);
    while j > 0
        invariant
            j <= t@.len(),
            find_id_count(t@, x) == find_id_count(t@.take(j as int), x),
        decreases j,
    {
        assert(t@.take(j as int).last() == t@[j - 1]);
        if t[j - 1].0 == x {
            return Some(j - 1);
        }
        assert(t@.take(j as int).drop_last() =~= t@.take(j - 1));
        j = j - 1;
    }
    None
}

/// The distinct token IDs below `limit` among `previous_tokens`, in order of
/// first occurrence, each with its number of occurrences: the counts by
/// which a repetition penalty is applied to the scores of those tokens.
pub fn repetition_counts(previous_tokens: &[usize], limit: usize) -> (r: Vec<(usize, usize)>)
    ensures
        r@ == id_counts(previous_tokens@, limit),
{
    let ghost ids = previous_tokens@;
    let mut t: Vec<(usize, usize)> = Vec::new();
    let mut i: usize = 0;
    assert(ids.take(0) =~= Seq::<usize>::empty());
    while i < previous_tokens.len()
        invariant
            i <= ids.len(),
            ids == previous_tokens@,
            t@ == id_counts(ids.take(i as int), limit),
        decreases previous_tokens.len() - i,
    {
        let x = previous_tokens[i];
        proof {
            assert(ids.take(i + 1).drop_last() =~= ids.take(i as int));
            assert(ids.take(i + 1).last() == x);
            lemma_id_counts(ids.take(i as int), limit);
            lemma_find_id_count(t@, x);
        }
        if x < limit {
            match find_id_count_exec(&t, x) {
                Some(k) => {
                    let c = t[k].1;
                    assert(c <= i);
                    t.set(k, (x, c + 1));
                }
                None => {
                    t.push((x, 1));
                }
            }
        }
        i = i + 1;
    }
    assert(ids.take(i as int) =~= ids);
    t
}

impl WordPieceBPETokenizer {
    /// The words that BPE learns from in a text (see `wp_words`).
    fn text_words(&self, text: &str) -> (r: Vec<String>)
        ensures
            string_views(r@) == wp_words(text@),
            forall|i: int| 0 <= i < r@.len() ==> (#[trigger] r@[i])@.len() >= 1,
    {
        let pre = self.pre_tokenize(text);
        marked_pretokens(&pre)
    }

    /// Learns merge rules from the given words, as `learn_bpe` does.
    fn learn_from_words(&mut self, words: Vec<String>, vocab_size: usize, min_frequency: usize)
        requires
            forall|i: int| 0 <= i < words@.len() ==> (#[trigger] words@[i])@.len() >= 1,
        ensures
            final(self).merge_rules() == old(self).merge_rules() + wp_learned_rules(old(self).spec_vocab(), string_views(words@), vocab_size, min_frequency),
            final(self).spec_vocab() == add_tokens_spec(old(self).spec_vocab(), merged_tokens(wp_learned_rules(old(self).spec_vocab(), string_views(words@), vocab_size, min_frequency))),
            final(self).penalty_bits() == old(self).penalty_bits(),
    {
        let counts = count_words_exec(&words);
        let nw = words.len();
        proof {
            crate::bpe::lemma_counted_words_nonempty(words@);
            assert forall|i: int| 0 <= i < counts@.len() implies (#[trigger] counts@[i]).0@.len() >= 1 by {
                assert(counts_view(counts@)[i].0 == counts@[i].0@);
            }
        }
        let corpus = eligible_corpus(&counts, min_frequency);
        let len = self.vocab.len();
        let rounds = if vocab_size > len { vocab_size - len } else { 0 };
        learn_merges_into(&mut self.merges, &mut self.vocab, corpus, rounds);
    }

    /// Learns merge rules from a text: from its words (see `wp_words`) that
    /// occur at least `min_frequency` times, in at most as many rounds as the
    /// vocabulary lacks tokens to reach `vocab_size` (see `learn_merges`).
    /// The rules are appended and each merged token is added to the vocabulary.
    pub fn learn_bpe(&mut self, text: &str, vocab_size: usize, min_frequency: usize)
        ensures
            final(self).merge_rules() == old(self).merge_rules() + wp_learned_rules(old(self).spec_vocab(), wp_words(text@), vocab_size, min_frequency),
            final(self).spec_vocab() == add_tokens_spec(old(self).spec_vocab(), merged_tokens(wp_learned_rules(old(self).spec_vocab(), wp_words(text@), vocab_size, min_frequency))),
            final(self).penalty_bits() == old(self).penalty_bits(),
            well_built(old(self).spec_vocab()) ==> well_built(final(self).spec_vocab()),
    {
        proof {
            self.vocab.lemma_view_finite();
            if consistent(self.vocab@) {
                lemma_wp_learn_effect(self.vocab@, wp_words(text@), vocab_size, min_frequency);
            }
        }
        let words = self.text_words(text);
        self.learn_from_words(words, vocab_size, min_frequency);
    }

    /// Learns merge rules from several text chunks at once, as `learn_bpe`
    /// does from the words of all chunks together (see `chunks_words`).
    pub fn learn_bpe_parallel(&mut self, text_chunks: &[&str], vocab_size: usize, min_frequency: usize)
        ensures
            final(self).merge_rules() == old(self).merge_rules() + wp_learned_rules(old(self).spec_vocab(), chunks_words(str_views(text_chunks@)), vocab_size, min_frequency),
            final(self).spec_vocab() == add_tokens_spec(old(self).spec_vocab(), merged_tokens(wp_learned_rules(old(self).spec_vocab(), chunks_words(str_views(text_chunks@)), vocab_size, min_frequency))),
            final(self).penalty_bits() == old(self).penalty_bits(),
            well_built(old(self).spec_vocab()) ==> well_built(final(self).spec_vocab()),
    {
        proof {
            self.vocab.lemma_view_finite();
            if consistent(self.vocab@) {
                lemma_wp_learn_effect(self.vocab@, chunks_words(str_views(text_chunks@)), vocab_size, min_frequency);
            }
        }
        let ghost cv = str_views(text_chunks@);
        let mut all: Vec<String> = Vec::new();
        let mut i: usize = 0;
        assert(cv.take(0) =~= Seq::<Seq<char>>::empty());
        assert(string_views(all@) =~= Seq::<Seq<char>>::empty());
        while i < text_chunks.len()
            invariant
                i <= cv.len(),
                cv == str_views(text_chunks@),
                string_views(all@) == chunks_words(cv.take(i as int)),
                forall|k: int| 0 <= k < all@.len() ==> (#[trigger] all@[k])@.len() >= 1,
            decreases text_chunks.len() - i,
        {
            let mut ws = self.text_words(text_chunks[i]);
            proof {
                assert(cv.take(i + 1).drop_last() =~= cv.take(i as int));
                assert(cv.take(i + 1).last() == text_chunks@[i as int]@);
            }
            let ghost before = all@;
            let ghost wsv = ws@;
            all.append(&mut ws);
            proof {
                assert(all@ =~= before + wsv);
                assert(string_views(all@) =~= string_views(before) + string_views(wsv));
                assert forall|k: int| 0 <= k < all@.len() implies (#[trigger] all@[k])@.len() >= 1 by {
                    if k >= before.len() {
                        assert(all@[k] == wsv[k - before.len()]);
                    }
                }
            }
            i = i + 1;
        }
        assert(cv.take(i as int) =~= cv);
        self.learn_from_words(all, vocab_size, min_frequency);
    }
}


/// The placeholder token number `i`.
fn placeholder_string(i: usize) -> (s: String)
    ensures
        s@ == placeholder(i as nat),
{
    proof {
        reveal_strlit("[PLACEHOLDER_");
        reveal_strlit("]");
    }
    let mut s = "[PLACEHOLDER_".to_owned();
    push_decimal(&mut s, i);
    push_str(&mut s, "]");
    s
}

impl WordPieceBPETokenizer {
    /// Grows the vocabulary to `size` tokens with placeholders (see `grown_vocab`).
    fn grow_vocab(&mut self, size: usize)
        ensures
            final(self).spec_vocab() == grown_vocab(old(self).spec_vocab(), size),
            final(self).merge_rules() == old(self).merge_rules(),
            final(self).penalty_bits() == old(self).penalty_bits(),
    {
        let current = self.vocab.len();
        if current < size {
            let n = size - current;
            let ghost v0 = self.vocab@;
            let ghost ph = Seq::new(n as nat, |i: int| placeholder(i as nat));
            let mut i: usize = 0;
            proof {
                self.vocab.lemma_view_finite();
                assert(ph.take(0) =~= Seq::<Seq<char>>::empty());
            }
            while i < n
                invariant
                    i <= n,
                    n == size - v0.ids.dom().len(),
                    v0.ids.dom().len() < size,
                    v0.ids.dom().finite(),
                    ph == Seq::new(n as nat, |i: int| placeholder(i as nat)),
                    self.vocab@ == add_tokens_spec(v0, ph.take(i as int)),
                    self.merge_rules() == old(self).merge_rules(),
                    self.penalty_bits() == old(self).penalty_bits(),
                decreases n - i,
            {
                proof {
                    lemma_add_tokens_len(v0, ph.take(i as int));
                    self.vocab.lemma_view_finite();
                }
                let t = placeholder_string(i);
                self.vocab.add_token(t.as_str());
                proof {
                    assert(ph.take(i + 1).drop_last() =~= ph.take(i as int));
                    assert(ph.take(i + 1).last() == placeholder(i as nat));
                }
                i = i + 1;
            }
            assert(ph.take(n as int) =~= ph);
        }
    }

    /// Adjusts the vocabulary to the size a model expects: when it has fewer
    /// tokens, placeholders are added (see `grown_vocab`); a larger
    /// vocabulary is kept as it is.
    pub fn update_vocab_size(&mut self, vocab_size: usize)
        ensures
            final(self).spec_vocab() == grown_vocab(old(self).spec_vocab(), vocab_size),
            final(self).merge_rules() == old(self).merge_rules(),
            final(self).penalty_bits() == old(self).penalty_bits(),
    {
        self.grow_vocab(vocab_size);
    }

    /// Resizes the vocabulary to `new_size` tokens: when it has fewer,
    /// placeholders are added (see `grown_vocab`); it is never shrunk.
    pub fn resize_vocabulary(&mut self, new_size: usize)
        ensures
            final(self).spec_vocab() == grown_vocab(old(self).spec_vocab(), new_size),
            final(self).merge_rules() == old(self).merge_rules(),
            final(self).penalty_bits() == old(self).penalty_bits(),
    {
        self.grow_vocab(new_size);
    }

    /// The merge rules (first part, second part, merged token), in the
    /// order in which they were learned.
    pub fn get_merges(&self) -> (r: &[(String, String, String)])
        ensures
            merges_view(r@) == self.merge_rules(),
    {
        self.merges.as_slice()
    }

    /// The number of tokens in the vocabulary.
    pub fn get_vocab_size(&self) -> (n: usize)
        ensures
            n == self.spec_vocab().ids.dom().len(),
    {
        self.vocab.len()
    }
}

impl WordPieceBPETokenizer {
    /// What the tokenizer interface promises of a WordPiece tokenizer: its
    /// tokens are those of `wp_tokenize` under its merge rules, and decoding
    /// is `wp_decode` over its vocabulary.
    pub proof fn lemma_tokenizer_spec(&self)
        ensures
            forall|t: Seq<char>| #[trigger] self.spec_tokenize(t) == wp_tokenize(self.merge_rules(), t),
            forall|ids: Seq<usize>| #[trigger] self.spec_decode(ids) == wp_decode(self.spec_vocab(), ids),
    {
    }
}

impl Tokenizer for WordPieceBPETokenizer {
    closed spec fn spec_tokenize(&self, text: Seq<char>) -> Seq<Seq<char>> {
        wp_tokenize(self.merge_rules(), text)
    }

    closed spec fn spec_decode(&self, token_ids: Seq<usize>) -> Seq<char> {
        wp_decode(self.vocab@, token_ids)
    }

    closed spec fn spec_vocab(&self) -> VocabView {
        self.vocab@
    }

    fn tokenize(&self, text: &str) -> (r: Vec<String>) {
        let pre = self.pre_tokenize(text);
        let ghost f = |t: Seq<char>| wp_pretoken_tokens(self.merge_rules(), t);
        let mut result: Vec<String> = Vec::new();
        let mut i: usize = 0;
        assert(string_views(pre@).map_values(f).take(0).flatten() =~= Seq::<Seq<char>>::empty());
        assert(string_views(result@) =~= Seq::<Seq<char>>::empty());
        while i < pre.len()
            invariant
                i <= pre@.len(),
                string_views(pre@) == wp_pre_tokenize(text@),
                f == |t: Seq<char>| wp_pretoken_tokens(self.merge_rules(), t),
                string_views(result@) == string_views(pre@).map_values(f).take(i as int).flatten(),
            decreases pre.len() - i,
        {
            let cs = chars_of(pre[i].as_str());
            let ghost before = result@;
            let ghost m = string_views(pre@).map_values(f);
            proof {
                assert(m.take(i + 1) =~= m.take(i as int).push(m[i as int]));
                assert(m[i as int] == f(pre@[i as int]@));
                m.take(i as int).lemma_flatten_push(m[i as int]);
            }
            if is_bracketed_exec(&cs) {
                result.push(pre[i].clone());
                assert(string_views(result@) =~= string_views(before) + seq![cs@]);
            } else if cs.len() > 0 {
                let mut toks = self.apply_bpe(pre[i].as_str());
                let ghost tv = string_views(toks@);
                result.append(&mut toks);
                assert(string_views(result@) =~= string_views(before) + tv);
            } else {
                assert(m[i as int] =~= Seq::<Seq<char>>::empty());
                assert(string_views(result@) =~= string_views(before) + m[i as int]);
            }
            i = i + 1;
        }
        assert(string_views(pre@).map_values(f).take(i as int) =~= string_views(pre@).map_values(f));
        result
    }

    fn encode(&self, text: &str) -> (r: Vec<usize>) {
        let tokens = self.tokenize(text);
        encode_with(&self.vocab, &tokens)
    }

    fn decode(&self, token_ids: &[usize]) -> (r: String) {
        let tokens = lookup_tokens(&self.vocab, token_ids);
        let ghost toks = string_views(tokens@);
        let ghost v = self.vocab@;
        let end = chars_of(end_str());
        let mut res = String::new();
        let mut cur = String::new();
        let mut lws = false;
        let mut i: usize = 0;
        while i < tokens.len()
            invariant
                i <= tokens@.len(),
                toks == string_views(tokens@),
                toks == known_tokens(v, token_ids@),
                v == self.vocab@,
                end@ == end_token(),
                (res@, cur@, lws) == wp_decode_state(v, toks, i as nat),
            decreases tokens.len() - i,
        {
            let t = chars_of(tokens[i].as_str());
            assert(toks[i as int] == t@);
            let has_next = i + 1 < tokens.len();
            let next_is_punct = if has_next {
                let nt = chars_of(tokens[i + 1].as_str());
                assert(toks[i + 1] == nt@);
                is_bracketed_exec(&nt) && nt.len() > 2
            } else {
                false
            };
            let next_not_space = if has_next {
                assert(toks[i + 1] == tokens@[i + 1]@);
                !str_eq(tokens[i + 1].as_str(), space_str())
            } else {
                true
            };
            if str_eq(tokens[i].as_str(), space_str()) {
                push_str(&mut res, cur.as_str());
                cur = String::new();
                if !lws {
                    string_push(&mut res, ' ');
                    lws = true;
                }
            } else if is_bracketed_exec(&t) && t.len() > 2 {
                push_str(&mut res, cur.as_str());
                cur = String::new();
                push_chars(&mut res, t.as_slice(), 1, t.len() - 1);
                lws = false;
            } else if ends_with_exec(t.as_slice(), end.as_slice()) {
                let n = trim_end_matches_len(t.as_slice(), end.as_slice());
                push_chars(&mut cur, t.as_slice(), 0, n);
                push_str(&mut res, cur.as_str());
                cur = String::new();
                if !next_is_punct && next_not_space {
                    string_push(&mut res, ' ');
                    lws = true;
                } else {
                    lws = false;
                }
            } else if self.vocab.is_special_token(tokens[i].as_str()) {
            } else if all_word_chars_exec(&t) {
                push_str(&mut cur, tokens[i].as_str());
            }
            proof {
                let st = wp_decode_state(v, toks, (i + 1) as nat);
                assert(res@ =~= st.0);
                assert(cur@ =~= st.1);
            }
            i = i + 1;
        }
        push_str(&mut res, cur.as_str());
        trim_end(res.as_str())
    }

    fn vocab_size(&self) -> (n: usize) {
        self.vocab.len()
    }

    fn get_vocab(&self) -> (v: &Vocab) {
        &self.vocab
    }

    fn as_vocab_mut(&mut self) -> (r: Option<&mut Vocab>)
        ensures
            r is Some,
            final(self).merge_rules() == old(self).merge_rules(),
            final(self).penalty_bits() == old(self).penalty_bits(),
    {
        Some(&mut self.vocab)
    }
}

} // verus!
