//! The interface that the tokenizers share, and the parts of encoding and
//! decoding that they have in common.
use vstd::prelude::*;
use crate::vocab::{Vocab, VocabView, string_views};

verus! {

/// The unknown token, `[UNK]`.
pub open spec fn unk_token() -> Seq<char> {
    seq!['[', 'U', 'N', 'K', ']']
}

/// The padding token, `[PAD]`.
pub open spec fn pad_token() -> Seq<char> {
    seq!['[', 'P', 'A', 'D', ']']
}

/// The beginning-of-sequence token, `[BOS]`.
pub open spec fn bos_token() -> Seq<char> {
    seq!['[', 'B', 'O', 'S', ']']
}

/// The end-of-sequence token, `[EOS]`.
pub open spec fn eos_token() -> Seq<char> {
    seq!['[', 'E', 'O', 'S', ']']
}

/// The end-of-word marker, `</w>`.
pub open spec fn end_token() -> Seq<char> {
    seq!['<', '/', 'w', '>']
}

pub fn unk_str() -> (s: &'static str)
    ensures
        s@ == unk_token(),
{
    proof {
        reveal_strlit("[UNK]");
    }
    "[UNK]"
}

pub fn pad_str() -> (s: &'static str)
    ensures
        s@ == pad_token(),
{
    proof {
        reveal_strlit("[PAD]");
    }
    "[PAD]"
}

pub fn bos_str() -> (s: &'static str)
    ensures
        s@ == bos_token(),
{
    proof {
        reveal_strlit("[BOS]");
    }
    "[BOS]"
}

pub fn eos_str() -> (s: &'static str)
    ensures
        s@ == eos_token(),
{
    proof {
        reveal_strlit("[EOS]");
    }
    "[EOS]"
}

pub fn end_str() -> (s: &'static str)
    ensures
        s@ == end_token(),
{
    proof {
        reveal_strlit("</w>");
    }
    "</w>"
}

/// The IDs of tokens: a token's own ID when it is in the vocabulary, the ID
/// of the unknown token otherwise.
pub open spec fn encode_tokens(v: VocabView, toks: Seq<Seq<char>>) -> Seq<usize> {
    toks.map_values(|t: Seq<char>| if v.ids.dom().contains(t) { v.ids[t] } else { v.ids[unk_token()] })
}

/// The tokens of the IDs that the vocabulary knows, in order; unknown IDs
/// are skipped.
pub open spec fn known_tokens(v: VocabView, ids: Seq<usize>) -> Seq<Seq<char>>
    decreases ids.len(),
{
    if ids.len() == 0 {
        Seq::empty()
    } else {
        let rest = known_tokens(v, ids.drop_last());
        if v.tokens.dom().contains(ids.last()) {
            rest.push(v.tokens[ids.last()])
        } else {
            rest
        }
    }
}

/// Interface of a tokenizer: it cuts text into tokens, turns text into token
/// IDs and back, and exposes its vocabulary.
pub trait Tokenizer: Send + Sync {
    /// The tokens of a text.
    spec fn spec_tokenize(&self, text: Seq<char>) -> Seq<Seq<char>>;

    /// The text of a sequence of token IDs.
    spec fn spec_decode(&self, token_ids: Seq<usize>) -> Seq<char>;

    /// The vocabulary.
    spec fn spec_vocab(&self) -> VocabView;

    /// Tokenizes a string into a list of tokens.
    fn tokenize(&self, text: &str) -> (r: Vec<String>)
        ensures
            string_views(r@) == self.spec_tokenize(text@),
    ;

    /// Transforms text into a list of token IDs: each token's ID, or that of
    /// the unknown token when the vocabulary lacks it.
    fn encode(&self, text: &str) -> (r: Vec<usize>)
        requires
            self.spec_vocab().ids.dom().contains(unk_token()),
        ensures
            r@ == encode_tokens(self.spec_vocab(), self.spec_tokenize(text@)),
    ;

    /// Transforms a list of token IDs into text.
    fn decode(&self, token_ids: &[usize]) -> (r: String)
        ensures
            r@ == self.spec_decode(token_ids@),
    ;

    /// The size of the vocabulary.
    fn vocab_size(&self) -> (n: usize)
        ensures
            n == self.spec_vocab().ids.dom().len(),
    ;

    /// The vocabulary.
    fn get_vocab(&self) -> (v: &Vocab)
        ensures
            v@ == self.spec_vocab(),
    ;

    /// A mutable reference to the vocabulary, where the tokenizer offers one.
    fn as_vocab_mut(&mut self) -> (r: Option<&mut Vocab>)
        ensures
            r matches Some(v) ==> v@ == old(self).spec_vocab() && final(self).spec_vocab() == final(v)@,
            r is None ==> final(self).spec_vocab() == old(self).spec_vocab(),
    {
        None
    }
}

/// The IDs of tokens, with the unknown token's ID for those the vocabulary lacks.
pub fn encode_with(vocab: &Vocab, tokens: &Vec<String>) -> (r: Vec<usize>)
    requires
        vocab@.ids.dom().contains(unk_token()),
    ensures
        r@ == encode_tokens(vocab@, string_views(tokens@)),
{
    let unk_id = match vocab.token_to_id(unk_str()) {
        Some(id) => id,
        None => 0,
    };
    let mut out: Vec<usize> = Vec::new();
    let mut i: usize = 0;
    while i < tokens.len()
        invariant
            i <= tokens@.len(),
            vocab@.ids.dom().contains(unk_token()),
            unk_id == vocab@.ids[unk_token()],
            out@ == encode_tokens(vocab@, string_views(tokens@)).take(i as int),
        decreases tokens.len() - i,
    {
        let id = match vocab.token_to_id(tokens[i].as_str()) {
            Some(id) => id,
            None => unk_id,
        };
        out.push(id);
        proof {
            assert(string_views(tokens@)[i as int] == tokens@[i as int]@);
            assert(encode_tokens(vocab@, string_views(tokens@)).take(i + 1) =~= encode_tokens(vocab@, string_views(tokens@)).take(i as int).push(id));
        }
        i = i + 1;
    }
    assert(encode_tokens(vocab@, string_views(tokens@)).take(i as int) =~= encode_tokens(vocab@, string_views(tokens@)));
    out
}

/// The tokens of the IDs that the vocabulary knows, in order.
pub fn lookup_tokens(vocab: &Vocab, ids: &[usize]) -> (r: Vec<String>)
    ensures
        string_views(r@) == known_tokens(vocab@, ids@),
{
    let mut out: Vec<String> = Vec::new();
    let mut i: usize = 0;
    assert(ids@.take(0) =~= Seq::<usize>::empty());
    assert(string_views(out@) =~= Seq::<Seq<char>>::empty());
    while i < ids.len()
        invariant
            i <= ids@.len(),
            string_views(out@) == known_tokens(vocab@, ids@.take(i as int)),
        decreases ids.len() - i,
    {
        assert(ids@.take(i + 1).drop_last() =~= ids@.take(i as int));
        assert(ids@.take(i + 1).last() == ids@[i as int]);
        match vocab.id_to_token(ids[i]) {
            Some(t) => {
                let ghost before = out@;
                out.push(t.to_owned());
                assert(string_views(out@) =~= string_views(before).push(t@));
            }
            None => {}
        }
        i = i + 1;
    }
    assert(ids@.take(ids@.len() as int) =~= ids@);
    out
}

} // verus!
