//! The vocabulary of a tokenizer: a mapping between tokens and their IDs,
//! and the set of special tokens.
use vstd::prelude::*;
use crate::assoc::{assoc, keys_unique, has_key, lookup, lemma_assoc_dom, lemma_assoc_finite, lemma_assoc_len, lemma_assoc_index, lemma_assoc_update, lemma_keys_unique_push};
use crate::decimal::{decimal, parse_usize, is_digit, push_decimal, parse_usize_chars, lemma_parse_decimal, lemma_decimal_digits};
use crate::text::{chars_of, push_str, str_eq, string_of_range};

verus! {

/// What a vocabulary stands for: the token-to-ID map, the ID-to-token map and
/// the set of special tokens.
pub struct VocabView {
    pub ids: Map<Seq<char>, usize>,
    pub tokens: Map<usize, Seq<char>>,
    pub special: Set<Seq<char>>,
}

/// A vocabulary for a tokenizer.
///
/// It stores the mapping between tokens and their IDs in both directions, and
/// which tokens are special (padding, unknown and the like).
#[derive(Debug)]
pub struct Vocab {
    token_ids: Vec<(String, usize)>,
    id_tokens: Vec<(usize, String)>,
    special_tokens: Vec<String>,
}

pub open spec fn token_pairs(s: Seq<(String, usize)>) -> Seq<(Seq<char>, usize)> {
    s.map_values(|p: (String, usize)| (p.0@, p.1))
}

pub open spec fn id_pairs(s: Seq<(usize, String)>) -> Seq<(usize, Seq<char>)> {
    s.map_values(|p: (usize, String)| (p.0, p.1@))
}

pub open spec fn string_views(s: Seq<String>) -> Seq<Seq<char>> {
    s.map_values(|w: String| w@)
}

/// The vocabulary obtained by adding `token` as `Vocab::add_token` does.
pub open spec fn add_token_spec(v: VocabView, token: Seq<char>) -> VocabView {
    if v.ids.dom().contains(token) {
        v
    } else {
        let id = v.ids.dom().len() as usize;
        VocabView { ids: v.ids.insert(token, id), tokens: v.tokens.insert(id, token), special: v.special }
    }
}

/// The ID that `Vocab::add_token` returns for `token`.
pub open spec fn add_token_id(v: VocabView, token: Seq<char>) -> usize {
    if v.ids.dom().contains(token) {
        v.ids[token]
    } else {
        v.ids.dom().len() as usize
    }
}

/// The vocabulary obtained by adding `token` as `Vocab::add_special_token` does.
pub open spec fn add_special_spec(v: VocabView, token: Seq<char>) -> VocabView {
    VocabView { special: v.special.insert(token), ..add_token_spec(v, token) }
}

/// The vocabulary after adding each token of `toks` as a special token, in order.
pub open spec fn add_specials_spec(v: VocabView, toks: Seq<Seq<char>>) -> VocabView
    decreases toks.len(),
{
    if toks.len() == 0 {
        v
    } else {
        add_special_spec(add_specials_spec(v, toks.drop_last()), toks.last())
    }
}

/// The empty vocabulary.
pub open spec fn empty_vocab() -> VocabView {
    VocabView { ids: Map::empty(), tokens: Map::empty(), special: Set::empty() }
}

/// The vocabulary after adding each token of `toks` in order.
pub open spec fn add_tokens_spec(v: VocabView, toks: Seq<Seq<char>>) -> VocabView
    decreases toks.len(),
{
    if toks.len() == 0 {
        v
    } else {
        add_token_spec(add_tokens_spec(v, toks.drop_last()), toks.last())
    }
}

/// Adding tokens adds at most one key each.
pub proof fn lemma_add_tokens_len(v: VocabView, toks: Seq<Seq<char>>)
    requires
        v.ids.dom().finite(),
    ensures
        add_tokens_spec(v, toks).ids.dom().finite(),
        add_tokens_spec(v, toks).ids.dom().len() <= v.ids.dom().len() + toks.len(),
    decreases toks.len(),
{
    if toks.len() > 0 {
        lemma_add_tokens_len(v, toks.drop_last());
    }
}

/// Adding special tokens adds at most one key each.
pub proof fn lemma_add_specials_len(v: VocabView, toks: Seq<Seq<char>>)
    requires
        v.ids.dom().finite(),
    ensures
        add_specials_spec(v, toks).ids.dom().finite(),
        add_specials_spec(v, toks).ids.dom().len() <= v.ids.dom().len() + toks.len(),
    decreases toks.len(),
{
    if toks.len() > 0 {
        lemma_add_specials_len(v, toks.drop_last());
    }
}

/// A vocabulary whose two maps agree: every token's ID maps back to it.
pub open spec fn consistent(v: VocabView) -> bool {
    &&& forall|t: Seq<char>| #[trigger] v.ids.dom().contains(t) ==> v.tokens.dom().contains(v.ids[t]) && v.tokens[v.ids[t]] == t
    &&& forall|i: usize| #[trigger] v.tokens.dom().contains(i) ==> v.ids.dom().contains(v.tokens[i]) && v.ids[v.tokens[i]] == i
    &&& forall|i: usize| #[trigger] v.tokens.dom().contains(i) ==> i < v.ids.dom().len()
}

impl View for Vocab {
    type V = VocabView;

    closed spec fn view(&self) -> VocabView {
        VocabView {
            ids: assoc(token_pairs(self.token_ids@)),
            tokens: assoc(id_pairs(self.id_tokens@)),
            special: string_views(self.special_tokens@).to_set(),
        }
    }
}

impl Vocab {
    #[verifier::type_invariant]
    spec fn well_formed(self) -> bool {
        &&& keys_unique(token_pairs(self.token_ids@))
        &&& keys_unique(id_pairs(self.id_tokens@))
        &&& string_views(self.special_tokens@).no_duplicates()
        &&& self.token_ids@.len() <= usize::MAX
    }

    /// The maps of a vocabulary are finite and the token map has as many keys
    /// as there are entries.
    proof fn lemma_sizes(&self)
        requires
            self.well_formed(),
        ensures
            self@.ids.dom().finite(),
            self@.tokens.dom().finite(),
            self@.ids.dom().len() == self.token_ids@.len(),
    {
        lemma_assoc_len(token_pairs(self.token_ids@));
        lemma_assoc_finite(id_pairs(self.id_tokens@));
    }

    /// The maps of a vocabulary are finite.
    pub proof fn lemma_view_finite(&self)
        ensures
            self@.ids.dom().finite(),
            self@.tokens.dom().finite(),
    {
        lemma_assoc_finite(token_pairs(self.token_ids@));
        lemma_assoc_finite(id_pairs(self.id_tokens@));
    }

    /// Adding a token (as a regular or a special one) to a vocabulary that
    /// may take it keeps the maps in agreement, the IDs `0..len`, and the
    /// special tokens known, each where it held.
    proof fn lemma_keeps_agreement(&self, t: Seq<char>)
        requires
            self@.ids.dom().contains(t) || self@.ids.dom().len() < usize::MAX,
        ensures
            consistent(self@) ==> consistent(add_token_spec(self@, t)) && consistent(add_special_spec(self@, t)),
            dense(self@) ==> dense(add_token_spec(self@, t)) && dense(add_special_spec(self@, t)),
            specials_known(self@) ==> specials_known(add_token_spec(self@, t)) && specials_known(add_special_spec(self@, t)),
    {
        self.lemma_view_finite();
        let v = self@;
        if !v.ids.dom().contains(t) {
            if consistent(v) {
                lemma_add_token_consistent(v, t);
            }
            if dense(v) {
                lemma_add_token_dense(v, t);
            }
        }
    }

    /// Creates a new empty vocabulary.
    pub fn new() -> (v: Self)
        ensures
            v@ == empty_vocab(),
            consistent(v@),
            dense(v@),
            specials_known(v@),
    {
        proof {
            lemma_empty_consistent();
            assert(empty_vocab().ids.dom() =~= Set::<Seq<char>>::empty());
        }
        let v = Vocab { token_ids: Vec::new(), id_tokens: Vec::new(), special_tokens: Vec::new() };
        assert(token_pairs(v.token_ids@) =~= Seq::empty());
        assert(id_pairs(v.id_tokens@) =~= Seq::empty());
        assert(string_views(v.special_tokens@) =~= Seq::empty());
        assert(string_views(v.special_tokens@).to_set() =~= Set::empty());
        v
    }

    /// Index of the entry for `key` in the token map.
    fn find_token(&self, key: &String) -> (r: Option<usize>)
        ensures
            match r {
                Some(i) => i < self.token_ids@.len() && self.token_ids@[i as int].0@ == key@,
                None => !has_key(token_pairs(self.token_ids@), key@),
            },
    {
        let mut i: usize = 0;
        while i < self.token_ids.len()
            invariant
                i <= self.token_ids@.len(),
                forall|j: int| 0 <= j < i ==> self.token_ids@[j].0@ != key@,
            decreases self.token_ids.len() - i,
        {
            if self.token_ids[i].0 == *key {
                return Some(i);
            }
            i = i + 1;
        }
        proof {
            if has_key(token_pairs(self.token_ids@), key@) {
                let j = choose|j: int| 0 <= j < token_pairs(self.token_ids@).len() && (#[trigger] token_pairs(self.token_ids@)[j]).0 == key@;
                assert(token_pairs(self.token_ids@)[j].0 == self.token_ids@[j].0@);
            }
        }
        None
    }

    /// Index of the entry for `id` in the ID map.
    fn find_id(&self, id: usize) -> (r: Option<usize>)
        ensures
            match r {
                Some(i) => i < self.id_tokens@.len() && self.id_tokens@[i as int].0 == id,
                None => !has_key(id_pairs(self.id_tokens@), id),
            },
    {
        let mut i: usize = 0;
        while i < self.id_tokens.len()
            invariant
                i <= self.id_tokens@.len(),
                forall|j: int| 0 <= j < i ==> self.id_tokens@[j].0 != id,
            decreases self.id_tokens.len() - i,
        {
            if self.id_tokens[i].0 == id {
                return Some(i);
            }
            i = i + 1;
        }
        proof {
            if has_key(id_pairs(self.id_tokens@), id) {
                let j = choose|j: int| 0 <= j < id_pairs(self.id_tokens@).len() && (#[trigger] id_pairs(self.id_tokens@)[j]).0 == id;
                assert(id_pairs(self.id_tokens@)[j].0 == self.id_tokens@[j].0);
            }
        }
        None
    }

    /// Sets the token of `id`, replacing an earlier one.
    fn set_id_token(&mut self, id: usize, token: String)
        ensures
            final(self)@.tokens == old(self)@.tokens.insert(id, token@),
            final(self)@.ids == old(self)@.ids,
            final(self)@.special == old(self)@.special,
            final(self).token_ids@.len() == old(self).token_ids@.len(),
    {
        proof { use_type_invariant(&*self); }
        match self.find_id(id) {
            Some(i) => {
                proof {
                    assert(id_pairs(self.id_tokens@)[i as int].0 == id);
                    lemma_assoc_update(id_pairs(self.id_tokens@), i as int, token@);
                    assert(id_pairs(self.id_tokens@.update(i as int, (id, token))) =~= id_pairs(self.id_tokens@).update(i as int, (id, token@)));
                }
                let mut entries: Vec<(usize, String)> = Vec::new();
                std::mem::swap(&mut entries, &mut self.id_tokens);
                entries.set(i, (id, token));
                self.id_tokens = entries;
                assert(id_pairs(self.id_tokens@) =~= id_pairs(old(self).id_tokens@).update(i as int, (id, token@)));
                assert(self@.tokens == old(self)@.tokens.insert(id, token@));
            }
            None => {
                proof {
                    lemma_keys_unique_push(id_pairs(self.id_tokens@), id, token@);
                    assert(id_pairs(self.id_tokens@.push((id, token))) =~= id_pairs(self.id_tokens@).push((id, token@)));
                }
                let mut entries: Vec<(usize, String)> = Vec::new();
                std::mem::swap(&mut entries, &mut self.id_tokens);
                entries.push((id, token));
                self.id_tokens = entries;
                assert(id_pairs(self.id_tokens@).drop_last() =~= id_pairs(old(self).id_tokens@));
            }
        }
    }

    /// Sets the ID of `token`, replacing an earlier one.
    fn set_token_id(&mut self, token: String, id: usize)
        requires
            old(self)@.ids.dom().contains(token@) || old(self).token_ids@.len() < usize::MAX,
        ensures
            final(self)@.ids == old(self)@.ids.insert(token@, id),
            final(self)@.tokens == old(self)@.tokens,
            final(self)@.special == old(self)@.special,
            final(self).token_ids@.len() <= old(self).token_ids@.len() + 1,
    {
        proof { use_type_invariant(&*self); }
        match self.find_token(&token) {
            Some(i) => {
                proof {
                    assert(token_pairs(self.token_ids@)[i as int].0 == token@);
                    lemma_assoc_update(token_pairs(self.token_ids@), i as int, id);
                    assert(token_pairs(self.token_ids@.update(i as int, (token, id))) =~= token_pairs(self.token_ids@).update(i as int, (token@, id)));
                }
                let mut entries: Vec<(String, usize)> = Vec::new();
                std::mem::swap(&mut entries, &mut self.token_ids);
                entries.set(i, (token, id));
                self.token_ids = entries;
            }
            None => {
                proof {
                    lemma_keys_unique_push(token_pairs(self.token_ids@), token@, id);
                    assert(token_pairs(self.token_ids@.push((token, id))) =~= token_pairs(self.token_ids@).push((token@, id)));
                    lemma_assoc_dom(token_pairs(self.token_ids@), token@);
                }
                let mut entries: Vec<(String, usize)> = Vec::new();
                std::mem::swap(&mut entries, &mut self.token_ids);
                entries.push((token, id));
                self.token_ids = entries;
                assert(token_pairs(self.token_ids@).drop_last() =~= token_pairs(old(self).token_ids@));
            }
        }
    }

    /// Adds a token to the vocabulary.
    ///
    /// If the token is already there its ID is returned and nothing changes;
    /// otherwise the token gets the next ID, the number of tokens so far.
    pub fn add_token(&mut self, token: &str) -> (id: usize)
        requires
            old(self)@.ids.dom().contains(token@) || old(self)@.ids.dom().len() < usize::MAX,
        ensures
            id == add_token_id(old(self)@, token@),
            final(self)@ == add_token_spec(old(self)@, token@),
            consistent(old(self)@) ==> consistent(final(self)@),
            dense(old(self)@) ==> dense(final(self)@),
            specials_known(old(self)@) ==> specials_known(final(self)@),
    {
        proof {
            use_type_invariant(&*self);
            self.lemma_sizes();
            self.lemma_keeps_agreement(token@);
        }
        let key = token.to_owned();
        match self.find_token(&key) {
            Some(i) => {
                proof {
                    lemma_assoc_index(token_pairs(self.token_ids@), i as int);
                }
                self.token_ids[i].1
            }
            None => {
                proof {
                    lemma_assoc_dom(token_pairs(self.token_ids@), key@);
                }
                let id = self.token_ids.len();
                self.set_token_id(key.clone(), id);
                self.set_id_token(id, key);
                id
            }
        }
    }

    /// Adds a special token: it gets an ID as with `add_token` and is marked special.
    pub fn add_special_token(&mut self, token: &str) -> (id: usize)
        requires
            old(self)@.ids.dom().contains(token@) || old(self)@.ids.dom().len() < usize::MAX,
        ensures
            id == add_token_id(old(self)@, token@),
            final(self)@ == add_special_spec(old(self)@, token@),
            consistent(old(self)@) ==> consistent(final(self)@),
            dense(old(self)@) ==> dense(final(self)@),
            specials_known(old(self)@) ==> specials_known(final(self)@),
    {
        proof {
            self.lemma_keeps_agreement(token@);
        }
        let id = self.add_token(token);
        self.insert_special(token.to_owned());
        id
    }

    /// Marks a token as special (the token maps are unchanged).
    fn insert_special(&mut self, key: String)
        ensures
            final(self)@.special == old(self)@.special.insert(key@),
            final(self)@.ids == old(self)@.ids,
            final(self)@.tokens == old(self)@.tokens,
            final(self).token_ids@.len() == old(self).token_ids@.len(),
    {
        proof { use_type_invariant(&*self); }
        let mut i: usize = 0;
        let mut found = false;
        while i < self.special_tokens.len()
            invariant
                i <= self.special_tokens@.len(),
                found ==> string_views(self.special_tokens@).contains(key@),
                !found ==> forall|j: int| 0 <= j < i ==> self.special_tokens@[j]@ != key@,
            decreases self.special_tokens.len() - i,
        {
            if self.special_tokens[i] == key {
                found = true;
                assert(string_views(self.special_tokens@)[i as int] == key@);
            }
            i = i + 1;
        }
        if found {
            assert(string_views(self.special_tokens@).to_set() =~= string_views(self.special_tokens@).to_set().insert(key@));
        } else {
            proof {
                let sv = string_views(self.special_tokens@);
                assert(!sv.contains(key@)) by {
                    if sv.contains(key@) {
                        let j = choose|j: int| 0 <= j < sv.len() && sv[j] == key@;
                        assert(sv[j] == self.special_tokens@[j]@);
                    }
                }
                assert(string_views(self.special_tokens@.push(key)) =~= sv.push(key@));
                assert(sv.push(key@).no_duplicates()) by {
                    assert forall|a: int, b: int| 0 <= a < sv.push(key@).len() && 0 <= b < sv.push(key@).len() && a != b implies sv.push(key@)[a] != sv.push(key@)[b] by {
                        if a < sv.len() && b < sv.len() {
                            assert(sv.push(key@)[a] == sv[a] && sv.push(key@)[b] == sv[b]);
                        } else if a < sv.len() {
                            assert(sv.push(key@)[a] == sv[a]);
                            assert(sv.contains(sv[a]));
                        } else {
                            assert(sv.push(key@)[b] == sv[b]);
                            assert(sv.contains(sv[b]));
                        }
                    }
                }
                sv.lemma_push_to_set_commute(key@);
            }
            let mut entries: Vec<String> = Vec::new();
            std::mem::swap(&mut entries, &mut self.special_tokens);
            entries.push(key);
            self.special_tokens = entries;
        }
    }

    /// The ID of a token, if the token is in the vocabulary.
    pub fn token_to_id(&self, token: &str) -> (r: Option<usize>)
        ensures
            r == lookup(self@.ids, token@),
    {
        proof { use_type_invariant(self); }
        let key = token.to_owned();
        match self.find_token(&key) {
            Some(i) => {
                proof { lemma_assoc_index(token_pairs(self.token_ids@), i as int); }
                Some(self.token_ids[i].1)
            }
            None => {
                proof { lemma_assoc_dom(token_pairs(self.token_ids@), key@); }
                None
            }
        }
    }

    /// The token with a given ID, if there is one.
    pub fn id_to_token(&self, id: usize) -> (r: Option<&str>)
        ensures
            match r {
                Some(t) => self@.tokens.dom().contains(id) && t@ == self@.tokens[id],
                None => !self@.tokens.dom().contains(id),
            },
    {
        proof { use_type_invariant(self); }
        match self.find_id(id) {
            Some(i) => {
                proof { lemma_assoc_index(id_pairs(self.id_tokens@), i as int); }
                Some(self.id_tokens[i].1.as_str())
            }
            None => {
                proof { lemma_assoc_dom(id_pairs(self.id_tokens@), id); }
                None
            }
        }
    }

    /// Whether a token is a special token.
    pub fn is_special_token(&self, token: &str) -> (r: bool)
        ensures
            r == self@.special.contains(token@),
    {
        let key = token.to_owned();
        let mut i: usize = 0;
        while i < self.special_tokens.len()
            invariant
                i <= self.special_tokens@.len(),
                key@ == token@,
                forall|j: int| 0 <= j < i ==> self.special_tokens@[j]@ != key@,
            decreases self.special_tokens.len() - i,
        {
            if self.special_tokens[i] == key {
                assert(string_views(self.special_tokens@)[i as int] == key@);
                assert(string_views(self.special_tokens@).contains(key@));
                assert(string_views(self.special_tokens@).to_set().contains(key@));
                return true;
            }
            i = i + 1;
        }
        proof {
            let sv = string_views(self.special_tokens@);
            if sv.to_set().contains(key@) {
                let j = choose|j: int| 0 <= j < sv.len() && sv[j] == key@;
                assert(sv[j] == self.special_tokens@[j]@);
            }
        }
        false
    }

    /// The number of tokens in the vocabulary (special tokens included).
    pub fn len(&self) -> (n: usize)
        ensures
            n == self@.ids.dom().len(),
    {
        proof {
            use_type_invariant(self);
            self.lemma_sizes();
        }
        self.token_ids.len()
    }

    /// A copy of the vocabulary.
    pub fn clone(&self) -> (r: Vocab)
        ensures
            r@ == self@,
    {
        proof { use_type_invariant(self); }
        let mut token_ids: Vec<(String, usize)> = Vec::new();
        let mut i: usize = 0;
        while i < self.token_ids.len()
            invariant
                i <= self.token_ids@.len(),
                token_pairs(token_ids@) == token_pairs(self.token_ids@).take(i as int),
            decreases self.token_ids.len() - i,
        {
            let ghost before = token_ids@;
            let t = self.token_ids[i].0.clone();
            token_ids.push((t, self.token_ids[i].1));
            assert(token_pairs(token_ids@) =~= token_pairs(before).push(token_pairs(self.token_ids@)[i as int]));
            assert(token_pairs(self.token_ids@).take(i + 1) =~= token_pairs(self.token_ids@).take(i as int).push(token_pairs(self.token_ids@)[i as int]));
            i = i + 1;
        }
        let mut id_tokens: Vec<(usize, String)> = Vec::new();
        let mut j: usize = 0;
        while j < self.id_tokens.len()
            invariant
                j <= self.id_tokens@.len(),
                id_pairs(id_tokens@) == id_pairs(self.id_tokens@).take(j as int),
            decreases self.id_tokens.len() - j,
        {
            let ghost before = id_tokens@;
            let t = self.id_tokens[j].1.clone();
            id_tokens.push((self.id_tokens[j].0, t));
            assert(id_pairs(id_tokens@) =~= id_pairs(before).push(id_pairs(self.id_tokens@)[j as int]));
            assert(id_pairs(self.id_tokens@).take(j + 1) =~= id_pairs(self.id_tokens@).take(j as int).push(id_pairs(self.id_tokens@)[j as int]));
            j = j + 1;
        }
        let mut special_tokens: Vec<String> = Vec::new();
        let mut k: usize = 0;
        while k < self.special_tokens.len()
            invariant
                k <= self.special_tokens@.len(),
                string_views(special_tokens@) == string_views(self.special_tokens@).take(k as int),
            decreases self.special_tokens.len() - k,
        {
            let ghost before = special_tokens@;
            let t = self.special_tokens[k].clone();
            special_tokens.push(t);
            assert(string_views(special_tokens@) =~= string_views(before).push(string_views(self.special_tokens@)[k as int]));
            assert(string_views(self.special_tokens@).take(k + 1) =~= string_views(self.special_tokens@).take(k as int).push(string_views(self.special_tokens@)[k as int]));
            k = k + 1;
        }
        assert(token_pairs(token_ids@) =~= token_pairs(self.token_ids@));
        assert(id_pairs(id_tokens@) =~= id_pairs(self.id_tokens@));
        assert(string_views(special_tokens@) =~= string_views(self.special_tokens@));
        Vocab { token_ids, id_tokens, special_tokens }
    }

    /// Whether the vocabulary holds no token.
    pub fn is_empty(&self) -> (b: bool)
        ensures
            b == (self@.ids.dom().len() == 0),
    {
        proof {
            use_type_invariant(self);
            self.lemma_sizes();
        }
        self.token_ids.len() == 0
    }
}


// ---------------------------------------------------------------------------
// The file format: one line per token
// ---------------------------------------------------------------------------

/// The marker that starts the line of a special token, `<special>`.
pub open spec fn special_marker() -> Seq<char> {
    seq!['<', 's', 'p', 'e', 'c', 'i', 'a', 'l', '>']
}

/// The line of a regular token: the token, a tab and its ID.
pub open spec fn regular_line(t: Seq<char>, id: usize) -> Seq<char> {
    t + seq!['\t'] + decimal(id as nat)
}

/// The line of a special token: the marker, a tab, the token, a tab and its ID.
pub open spec fn special_line(t: Seq<char>, id: usize) -> Seq<char> {
    special_marker() + seq!['\t'] + t + seq!['\t'] + decimal(id as nat)
}

/// The lines of the tokens of `entries` that are not special, in order.
pub open spec fn regular_lines(entries: Seq<(Seq<char>, usize)>, special: Set<Seq<char>>) -> Seq<Seq<char>>
    decreases entries.len(),
{
    if entries.len() == 0 {
        Seq::empty()
    } else {
        let r = regular_lines(entries.drop_last(), special);
        if special.contains(entries.last().0) {
            r
        } else {
            r.push(regular_line(entries.last().0, entries.last().1))
        }
    }
}

/// The lines of the special tokens that have an ID, in order.
pub open spec fn special_lines(specials: Seq<Seq<char>>, ids: Map<Seq<char>, usize>) -> Seq<Seq<char>>
    decreases specials.len(),
{
    if specials.len() == 0 {
        Seq::empty()
    } else {
        let r = special_lines(specials.drop_last(), ids);
        if ids.dom().contains(specials.last()) {
            r.push(special_line(specials.last(), ids[specials.last()]))
        } else {
            r
        }
    }
}

/// State of splitting at tabs: the fields so far and the field being read.
pub open spec fn tab_state(l: Seq<char>) -> (Seq<Seq<char>>, Seq<char>)
    decreases l.len(),
{
    if l.len() == 0 {
        (Seq::empty(), Seq::empty())
    } else {
        let (done, cur) = tab_state(l.drop_last());
        if l.last() == '\t' {
            (done.push(cur), Seq::empty())
        } else {
            (done, cur.push(l.last()))
        }
    }
}

/// The fields of a line separated by tabs (`str::split('\t')`).
pub open spec fn split_tabs(l: Seq<char>) -> Seq<Seq<char>> {
    tab_state(l).0.push(tab_state(l).1)
}

/// A number read as `str::parse::<usize>` does, or 0.
pub open spec fn id_or_zero(s: Seq<char>) -> usize {
    match parse_usize(s) {
        Some(v) => v,
        None => 0,
    }
}

/// The vocabulary with token `t` given ID `id` in both maps.
pub open spec fn set_entry(v: VocabView, t: Seq<char>, id: usize) -> VocabView {
    VocabView { ids: v.ids.insert(t, id), tokens: v.tokens.insert(id, t), special: v.special }
}

/// The effect of one line of a vocabulary file: two fields give a token
/// and its ID; three fields, the first being `<special>`, give a special
/// token and its ID; other lines are ignored. An ID that does not read as
/// a number counts as 0.
pub open spec fn load_line(v: VocabView, line: Seq<char>) -> VocabView {
    let p = split_tabs(line);
    if p.len() == 2 {
        set_entry(v, p[0], id_or_zero(p[1]))
    } else if p.len() == 3 && p[0] == special_marker() {
        let w = set_entry(v, p[1], id_or_zero(p[2]));
        VocabView { special: w.special.insert(p[1]), ..w }
    } else {
        v
    }
}

/// The vocabulary after the lines, in order, starting from `v`.
pub open spec fn load_from(v: VocabView, lines: Seq<Seq<char>>) -> VocabView
    decreases lines.len(),
{
    if lines.len() == 0 {
        v
    } else {
        load_line(load_from(v, lines.drop_last()), lines.last())
    }
}

/// The vocabulary that a file with these lines holds.
pub open spec fn load_lines(lines: Seq<Seq<char>>) -> VocabView {
    load_from(empty_vocab(), lines)
}

/// Whether a token holds no tab.
pub open spec fn no_tabs(t: Seq<char>) -> bool {
    forall|i: int| 0 <= i < t.len() ==> t[i] != '\t'
}

/// Whether every special token has an ID.
pub open spec fn specials_known(v: VocabView) -> bool {
    forall|s: Seq<char>| #[trigger] v.special.contains(s) ==> v.ids.dom().contains(s)
}

/// Whether no token holds a tab.
pub open spec fn tokens_without_tabs(v: VocabView) -> bool {
    forall|t: Seq<char>| #[trigger] v.ids.dom().contains(t) ==> no_tabs(t)
}

/// The fields of a line, split at tabs (see `split_tabs`).
pub fn split_tabs_exec(line: &str) -> (r: Vec<String>)
    ensures
        string_views(r@) == split_tabs(line@),
{
    let cs = chars_of(line);
    let mut done: Vec<String> = Vec::new();
    let mut start: usize = 0;
    let mut i: usize = 0;
    assert(cs@.take(0) =~= Seq::<char>::empty());
    assert(string_views(done@) =~= Seq::<Seq<char>>::empty());
    while i < cs.len()
        invariant
            start <= i <= cs@.len(),
            string_views(done@) == tab_state(cs@.take(i as int)).0,
            cs@.subrange(start as int, i as int) == tab_state(cs@.take(i as int)).1,
        decreases cs.len() - i,
    {
        proof {
            assert(cs@.take(i + 1).drop_last() =~= cs@.take(i as int));
            assert(cs@.take(i + 1).last() == cs@[i as int]);
        }
        if cs[i] == '\t' {
            let f = string_of_range(cs.as_slice(), start, i);
            let ghost before = done@;
            done.push(f);
            assert(string_views(done@) =~= string_views(before).push(f@));
            start = i + 1;
            assert(cs@.subrange(start as int, i + 1) =~= Seq::<char>::empty());
        } else {
            assert(cs@.subrange(start as int, i + 1) =~= cs@.subrange(start as int, i as int).push(cs@[i as int]));
        }
        i = i + 1;
    }
    assert(cs@.take(i as int) =~= line@);
    let f = string_of_range(cs.as_slice(), start, i);
    let ghost before = done@;
    done.push(f);
    assert(string_views(done@) =~= string_views(before).push(f@));
    done
}

/// A number read as `str::parse::<usize>` does, or 0.
fn parse_id(s: &String) -> (id: usize)
    ensures
        id == id_or_zero(s@),
{
    let cs = chars_of(s.as_str());
    match parse_usize_chars(cs.as_slice()) {
        Some(v) => v,
        None => 0,
    }
}

impl Vocab {
    /// The token entries in the order in which the vocabulary keeps them.
    pub closed spec fn entries(&self) -> Seq<(Seq<char>, usize)> {
        token_pairs(self.token_ids@)
    }

    /// The special tokens in the order in which the vocabulary keeps them.
    pub closed spec fn special_order(&self) -> Seq<Seq<char>> {
        string_views(self.special_tokens@)
    }

    /// The lines of the file that holds the vocabulary: first a line per
    /// regular token (`token<TAB>id`), then a line per special token that
    /// has an ID (`<special><TAB>token<TAB>id`). Reading them back with
    /// `from_lines` gives the same vocabulary when its two maps agree,
    /// every special token has an ID and no token holds a tab.
    pub fn to_lines(&self) -> (r: Vec<String>)
        ensures
            string_views(r@) == regular_lines(self.entries(), self@.special) + special_lines(self.special_order(), self@.ids),
            consistent(self@) && specials_known(self@) && tokens_without_tabs(self@) ==> load_lines(string_views(r@)) == self@,
    {
        proof { use_type_invariant(self); }
        let ghost e = self.entries();
        let mut out: Vec<String> = Vec::new();
        let mut i: usize = 0;
        assert(e.take(0) =~= Seq::<(Seq<char>, usize)>::empty());
        assert(string_views(out@) =~= Seq::<Seq<char>>::empty());
        while i < self.token_ids.len()
            invariant
                i <= self.token_ids@.len(),
                e == self.entries(),
                e == token_pairs(self.token_ids@),
                string_views(out@) == regular_lines(e.take(i as int), self@.special),
            decreases self.token_ids.len() - i,
        {
            proof {
                assert(e.take(i + 1).drop_last() =~= e.take(i as int));
                assert(e.take(i + 1).last() == (self.token_ids@[i as int].0@, self.token_ids@[i as int].1));
            }
            if !self.is_special_token(self.token_ids[i].0.as_str()) {
                proof {
                    reveal_strlit("\t");
                    assert("\t"@ =~= seq!['\t']);
                }
                let mut line = self.token_ids[i].0.clone();
                push_str(&mut line, "\t");
                push_decimal(&mut line, self.token_ids[i].1);
                let ghost before = out@;
                out.push(line);
                assert(string_views(out@) =~= string_views(before).push(line@));
                assert(line@ =~= regular_line(self.token_ids@[i as int].0@, self.token_ids@[i as int].1));
            }
            i = i + 1;
        }
        assert(e.take(i as int) =~= e);
        let ghost reg = string_views(out@);
        let ghost sp = self.special_order();
        let mut k: usize = 0;
        assert(sp.take(0) =~= Seq::<Seq<char>>::empty());
        assert(string_views(out@) =~= reg + special_lines(sp.take(0), self@.ids));
        while k < self.special_tokens.len()
            invariant
                k <= self.special_tokens@.len(),
                sp == self.special_order(),
                sp == string_views(self.special_tokens@),
                string_views(out@) == reg + special_lines(sp.take(k as int), self@.ids),
            decreases self.special_tokens.len() - k,
        {
            proof {
                assert(sp.take(k + 1).drop_last() =~= sp.take(k as int));
                assert(sp.take(k + 1).last() == self.special_tokens@[k as int]@);
            }
            match self.token_to_id(self.special_tokens[k].as_str()) {
                Some(id) => {
                    proof {
                        reveal_strlit("\t");
                        reveal_strlit("<special>");
                        assert("\t"@ =~= seq!['\t']);
                        assert("<special>"@ =~= special_marker());
                    }
                    let mut line = "<special>".to_owned();
                    push_str(&mut line, "\t");
                    push_str(&mut line, self.special_tokens[k].as_str());
                    push_str(&mut line, "\t");
                    push_decimal(&mut line, id);
                    let ghost before = out@;
                    out.push(line);
                    assert(string_views(out@) =~= string_views(before).push(line@));
                    assert(line@ =~= special_line(self.special_tokens@[k as int]@, id));
                    assert((reg + special_lines(sp.take(k as int), self@.ids)).push(line@) =~= reg + special_lines(sp.take(k as int), self@.ids).push(line@));
                }
                None => {}
            }
            k = k + 1;
        }
        assert(sp.take(k as int) =~= sp);
        proof {
            if consistent(self@) && specials_known(self@) && tokens_without_tabs(self@) {
                lemma_load_saved(e, sp, self@);
            }
        }
        out
    }

    /// Reads a vocabulary from the lines of its file (see `load_line`).
    pub fn from_lines(lines: &[String]) -> (v: Vocab)
        ensures
            v@ == load_lines(string_views(lines@)),
    {
        let mut vocab = Vocab::new();
        let ghost lv = string_views(lines@);
        let mut i: usize = 0;
        proof {
            use_type_invariant(&vocab);
            vocab.lemma_sizes();
            assert(lv.take(0) =~= Seq::<Seq<char>>::empty());
        }
        while i < lines.len()
            invariant
                i <= lines@.len(),
                lv == string_views(lines@),
                vocab@ == load_lines(lv.take(i as int)),
                vocab.token_ids@.len() <= i,
            decreases lines.len() - i,
        {
            proof {
                reveal_strlit("<special>");
                assert(lv.take(i + 1).drop_last() =~= lv.take(i as int));
                assert(lv.take(i + 1).last() == lines@[i as int]@);
            }
            let parts = split_tabs_exec(lines[i].as_str());
            proof {
                assert(string_views(parts@).len() == parts@.len());
            }
            if parts.len() == 2 {
                let id = parse_id(&parts[1]);
                assert(string_views(parts@)[0] == parts@[0]@);
                assert(string_views(parts@)[1] == parts@[1]@);
                vocab.set_token_id(parts[0].clone(), id);
                vocab.set_id_token(id, parts[0].clone());
            } else if parts.len() == 3 && str_eq(parts[0].as_str(), "<special>") {
                let id = parse_id(&parts[2]);
                assert(string_views(parts@)[0] == parts@[0]@);
                assert(string_views(parts@)[1] == parts@[1]@);
                assert(string_views(parts@)[2] == parts@[2]@);
                assert("<special>"@ =~= special_marker());
                vocab.set_token_id(parts[1].clone(), id);
                vocab.set_id_token(id, parts[1].clone());
                vocab.insert_special(parts[1].clone());
            } else {
                proof {
                    if parts.len() == 3 {
                        assert(string_views(parts@)[0] == parts@[0]@);
                        assert("<special>"@ =~= special_marker());
                    }
                }
            }
            i = i + 1;
        }
        assert(lv.take(i as int) =~= lv);
        vocab
    }
}

// ---------------------------------------------------------------------------
// Reading back what was written
// ---------------------------------------------------------------------------

/// The ID map sends distinct tokens to distinct IDs.
pub open spec fn injective(ids: Map<Seq<char>, usize>) -> bool {
    forall|a: Seq<char>, b: Seq<char>| #[trigger] ids.dom().contains(a) && #[trigger] ids.dom().contains(b) && ids[a] == ids[b] ==> a == b
}

/// `m` agrees with `ids` on its keys.
pub open spec fn submap_of(m: Map<Seq<char>, usize>, ids: Map<Seq<char>, usize>) -> bool {
    forall|t: Seq<char>| #[trigger] m.dom().contains(t) ==> ids.dom().contains(t) && m[t] == ids[t]
}

/// The two maps are inverse to each other.
pub open spec fn paired(ids: Map<Seq<char>, usize>, tokens: Map<usize, Seq<char>>) -> bool {
    &&& forall|t: Seq<char>| #[trigger] ids.dom().contains(t) ==> tokens.dom().contains(ids[t]) && tokens[ids[t]] == t
    &&& forall|i: usize| #[trigger] tokens.dom().contains(i) ==> ids.dom().contains(tokens[i]) && ids[tokens[i]] == i
}

proof fn lemma_split_no_tab(p: Seq<char>, b: Seq<char>)
    requires
        no_tabs(b),
    ensures
        tab_state(p + b) == (tab_state(p).0, tab_state(p).1 + b),
    decreases b.len(),
{
    if b.len() == 0 {
        assert(p + b =~= p);
        assert(tab_state(p).1 + b =~= tab_state(p).1);
    } else {
        lemma_split_no_tab(p, b.drop_last());
        assert((p + b).drop_last() =~= p + b.drop_last());
        assert((p + b).last() == b.last());
        assert(tab_state(p).1 + b =~= (tab_state(p).1 + b.drop_last()).push(b.last()));
    }
}

proof fn lemma_split_tab(p: Seq<char>)
    ensures
        tab_state(p.push('\t')) == (tab_state(p).0.push(tab_state(p).1), Seq::<char>::empty()),
{
    assert(p.push('\t').drop_last() =~= p);
}

proof fn lemma_decimal_no_tabs(n: nat)
    ensures
        no_tabs(decimal(n)),
{
    lemma_decimal_digits(n);
    assert forall|i: int| 0 <= i < decimal(n).len() implies decimal(n)[i] != '\t' by {
        assert(is_digit(decimal(n)[i]));
    }
}

proof fn lemma_marker_no_tabs()
    ensures
        no_tabs(special_marker()),
{
}

proof fn lemma_load_regular_line(v: VocabView, t: Seq<char>, id: usize)
    requires
        no_tabs(t),
    ensures
        load_line(v, regular_line(t, id)) == set_entry(v, t, id),
{
    let d = decimal(id as nat);
    lemma_decimal_no_tabs(id as nat);
    lemma_split_no_tab(Seq::<char>::empty(), t);
    assert(Seq::<char>::empty() + t =~= t);
    lemma_split_tab(t);
    lemma_split_no_tab(t.push('\t'), d);
    assert(regular_line(t, id) =~= t.push('\t') + d);
    assert(tab_state(Seq::<char>::empty()).1 + t =~= t);
    let p = split_tabs(regular_line(t, id));
    assert(Seq::<Seq<char>>::empty().push(t) =~= seq![t]);
    assert(Seq::<char>::empty() + d =~= d);
    assert(p =~= seq![t, d]);
    lemma_parse_decimal(id);
}

proof fn lemma_load_special_line(v: VocabView, t: Seq<char>, id: usize)
    requires
        no_tabs(t),
    ensures
        load_line(v, special_line(t, id)) == (VocabView { special: v.special.insert(t), ..set_entry(v, t, id) }),
{
    let m = special_marker();
    let d = decimal(id as nat);
    lemma_decimal_no_tabs(id as nat);
    lemma_marker_no_tabs();
    lemma_split_no_tab(Seq::<char>::empty(), m);
    assert(Seq::<char>::empty() + m =~= m);
    assert(tab_state(Seq::<char>::empty()).1 + m =~= m);
    lemma_split_tab(m);
    lemma_split_no_tab(m.push('\t'), t);
    assert(Seq::<char>::empty() + t =~= t);
    lemma_split_tab(m.push('\t') + t);
    lemma_split_no_tab((m.push('\t') + t).push('\t'), d);
    assert(Seq::<char>::empty() + d =~= d);
    assert(special_line(t, id) =~= (m.push('\t') + t).push('\t') + d);
    let p = split_tabs(special_line(t, id));
    assert(Seq::<Seq<char>>::empty().push(m) =~= seq![m]);
    assert(seq![m].push(t) =~= seq![m, t]);
    assert(p =~= seq![m, t, d]);
    lemma_parse_decimal(id);
}

proof fn lemma_load_concat(v: VocabView, a: Seq<Seq<char>>, b: Seq<Seq<char>>)
    ensures
        load_from(v, a + b) == load_from(load_from(v, a), b),
    decreases b.len(),
{
    if b.len() == 0 {
        assert(a + b =~= a);
    } else {
        lemma_load_concat(v, a, b.drop_last());
        assert((a + b).drop_last() =~= a + b.drop_last());
        assert((a + b).last() == b.last());
    }
}

proof fn lemma_insert_pairing(ids_part: Map<Seq<char>, usize>, tokens_part: Map<usize, Seq<char>>, ids: Map<Seq<char>, usize>, t: Seq<char>)
    requires
        submap_of(ids_part, ids),
        paired(ids_part, tokens_part),
        injective(ids),
        ids.dom().contains(t),
    ensures
        submap_of(ids_part.insert(t, ids[t]), ids),
        paired(ids_part.insert(t, ids[t]), tokens_part.insert(ids[t], t)),
{
    let id = ids[t];
    let i2 = ids_part.insert(t, id);
    let t2 = tokens_part.insert(id, t);
    assert forall|u: Seq<char>| #[trigger] i2.dom().contains(u) implies t2.dom().contains(i2[u]) && t2[i2[u]] == u by {
        if u != t {
            assert(ids_part.dom().contains(u));
            assert(ids_part[u] == ids[u]);
            if ids[u] == id {
                assert(ids.dom().contains(u) && ids.dom().contains(t));
            }
        }
    }
    assert forall|i: usize| #[trigger] t2.dom().contains(i) implies i2.dom().contains(t2[i]) && i2[t2[i]] == i by {
        if i != id {
            assert(tokens_part.dom().contains(i));
            let u = tokens_part[i];
            assert(ids_part.dom().contains(u) && ids_part[u] == i);
            if u == t {
                assert(ids_part[t] == ids[t]);
            }
        }
    }
}

/// The regular lines of the first `k` entries load into a part of the
/// vocabulary: every non-special entry among them, with the maps paired.
proof fn lemma_load_regular(e: Seq<(Seq<char>, usize)>, v: VocabView, k: int)
    requires
        keys_unique(e),
        v.ids == assoc(e),
        consistent(v),
        tokens_without_tabs(v),
        0 <= k <= e.len(),
    ensures
        ({
            let w = load_lines(regular_lines(e.take(k), v.special));
            &&& w.special == Set::<Seq<char>>::empty()
            &&& submap_of(w.ids, v.ids)
            &&& paired(w.ids, w.tokens)
            &&& forall|j: int| 0 <= j < k && !v.special.contains(#[trigger] e[j].0) ==> w.ids.dom().contains(e[j].0)
        }),
    decreases k,
{
    if k == 0 {
        assert(e.take(0) =~= Seq::<(Seq<char>, usize)>::empty());
        assert(empty_vocab().ids =~= Map::<Seq<char>, usize>::empty());
    } else {
        lemma_load_regular(e, v, k - 1);
        let prev = load_lines(regular_lines(e.take(k - 1), v.special));
        assert(e.take(k).drop_last() =~= e.take(k - 1));
        assert(e.take(k).last() == e[k - 1]);
        let t = e[k - 1].0;
        let id = e[k - 1].1;
        lemma_assoc_index(e, k - 1);
        assert(v.ids.dom().contains(t) && v.ids[t] == id);
        assert(injective(v.ids)) by {
            assert forall|a: Seq<char>, b: Seq<char>| #[trigger] v.ids.dom().contains(a) && #[trigger] v.ids.dom().contains(b) && v.ids[a] == v.ids[b] implies a == b by {
                assert(v.tokens[v.ids[a]] == a);
                assert(v.tokens[v.ids[b]] == b);
            }
        }
        if !v.special.contains(t) {
            let lines = regular_lines(e.take(k), v.special);
            assert(lines.drop_last() == regular_lines(e.take(k - 1), v.special));
            assert(lines.last() == regular_line(t, id));
            lemma_load_regular_line(prev, t, id);
            lemma_insert_pairing(prev.ids, prev.tokens, v.ids, t);
            let w = load_lines(lines);
            assert(w == set_entry(prev, t, id));
            assert forall|j: int| 0 <= j < k && !v.special.contains(#[trigger] e[j].0) implies w.ids.dom().contains(e[j].0) by {
                if j < k - 1 {
                    assert(prev.ids.dom().contains(e[j].0));
                }
            }
        }
    }
}

/// The special lines of the first `k` special tokens, loaded after the
/// regular lines, keep the maps paired and add each special token that has
/// an ID.
proof fn lemma_load_special(base: VocabView, sp: Seq<Seq<char>>, v: VocabView, k: int)
    requires
        submap_of(base.ids, v.ids),
        paired(base.ids, base.tokens),
        base.special == Set::<Seq<char>>::empty(),
        consistent(v),
        tokens_without_tabs(v),
        0 <= k <= sp.len(),
    ensures
        ({
            let w = load_from(base, special_lines(sp.take(k), v.ids));
            &&& submap_of(w.ids, v.ids)
            &&& paired(w.ids, w.tokens)
            &&& forall|t: Seq<char>| #[trigger] base.ids.dom().contains(t) ==> w.ids.dom().contains(t)
            &&& forall|j: int| 0 <= j < k && v.ids.dom().contains(#[trigger] sp[j]) ==> w.ids.dom().contains(sp[j])
            &&& forall|s: Seq<char>| #[trigger] w.special.contains(s) <==> exists|j: int| 0 <= j < k && sp[j] == s && v.ids.dom().contains(s)
        }),
    decreases k,
{
    if k == 0 {
        assert(sp.take(0) =~= Seq::<Seq<char>>::empty());
        assert(special_lines(sp.take(0), v.ids) =~= Seq::<Seq<char>>::empty());
    } else {
        lemma_load_special(base, sp, v, k - 1);
        let prev = load_from(base, special_lines(sp.take(k - 1), v.ids));
        assert(sp.take(k).drop_last() =~= sp.take(k - 1));
        assert(sp.take(k).last() == sp[k - 1]);
        let s = sp[k - 1];
        let w = load_from(base, special_lines(sp.take(k), v.ids));
        if v.ids.dom().contains(s) {
            let id = v.ids[s];
            let lines = special_lines(sp.take(k), v.ids);
            assert(lines.drop_last() == special_lines(sp.take(k - 1), v.ids));
            assert(lines.last() == special_line(s, id));
            lemma_load_special_line(prev, s, id);
            assert(injective(v.ids)) by {
                assert forall|a: Seq<char>, b: Seq<char>| #[trigger] v.ids.dom().contains(a) && #[trigger] v.ids.dom().contains(b) && v.ids[a] == v.ids[b] implies a == b by {
                    assert(v.tokens[v.ids[a]] == a);
                    assert(v.tokens[v.ids[b]] == b);
                }
            }
            lemma_insert_pairing(prev.ids, prev.tokens, v.ids, s);
            assert(w.special == prev.special.insert(s));
            assert forall|j: int| 0 <= j < k && v.ids.dom().contains(#[trigger] sp[j]) implies w.ids.dom().contains(sp[j]) by {
                if j < k - 1 {
                    assert(prev.ids.dom().contains(sp[j]));
                }
            }
            assert forall|x: Seq<char>| #[trigger] w.special.contains(x) <==> exists|j: int| 0 <= j < k && sp[j] == x && v.ids.dom().contains(x) by {
                if w.special.contains(x) && x != s {
                    assert(prev.special.contains(x));
                    let j = choose|j: int| 0 <= j < k - 1 && sp[j] == x && v.ids.dom().contains(x);
                    assert(0 <= j < k && sp[j] == x);
                }
                if exists|j: int| 0 <= j < k && sp[j] == x && v.ids.dom().contains(x) {
                    let j = choose|j: int| 0 <= j < k && sp[j] == x && v.ids.dom().contains(x);
                    if j < k - 1 {
                        assert(prev.special.contains(x));
                    }
                }
            }
        } else {
            assert(special_lines(sp.take(k), v.ids) == special_lines(sp.take(k - 1), v.ids));
            assert forall|j: int| 0 <= j < k && v.ids.dom().contains(#[trigger] sp[j]) implies w.ids.dom().contains(sp[j]) by {
                if j < k - 1 {
                    assert(prev.ids.dom().contains(sp[j]));
                }
            }
            assert forall|x: Seq<char>| #[trigger] w.special.contains(x) <==> exists|j: int| 0 <= j < k && sp[j] == x && v.ids.dom().contains(x) by {
                if exists|j: int| 0 <= j < k && sp[j] == x && v.ids.dom().contains(x) {
                    let j = choose|j: int| 0 <= j < k && sp[j] == x && v.ids.dom().contains(x);
                    if j < k - 1 {
                        assert(prev.special.contains(x));
                    }
                }
            }
        }
    }
}

/// Loading the lines written for a vocabulary gives the vocabulary back,
/// when its maps agree, its special tokens have IDs and no token holds a tab.
proof fn lemma_load_saved(e: Seq<(Seq<char>, usize)>, sp: Seq<Seq<char>>, v: VocabView)
    requires
        keys_unique(e),
        v.ids == assoc(e),
        v.special == sp.to_set(),
        consistent(v),
        specials_known(v),
        tokens_without_tabs(v),
    ensures
        load_lines(regular_lines(e, v.special) + special_lines(sp, v.ids)) == v,
{
    lemma_load_regular(e, v, e.len() as int);
    assert(e.take(e.len() as int) =~= e);
    let base = load_lines(regular_lines(e, v.special));
    lemma_load_special(base, sp, v, sp.len() as int);
    assert(sp.take(sp.len() as int) =~= sp);
    lemma_load_concat(empty_vocab(), regular_lines(e, v.special), special_lines(sp, v.ids));
    let w = load_from(base, special_lines(sp, v.ids));
    assert forall|t: Seq<char>| #[trigger] v.ids.dom().contains(t) implies w.ids.dom().contains(t) by {
        lemma_assoc_dom(e, t);
        let j = choose|j: int| 0 <= j < e.len() && (#[trigger] e[j]).0 == t;
        if v.special.contains(t) {
            assert(sp.contains(t));
            let q = choose|q: int| 0 <= q < sp.len() && sp[q] == t;
            assert(w.ids.dom().contains(sp[q]));
        } else {
            assert(base.ids.dom().contains(e[j].0));
        }
    }
    assert(w.ids =~= v.ids);
    assert forall|i: usize| #[trigger] w.tokens.dom().contains(i) <==> v.tokens.dom().contains(i) by {
        if v.tokens.dom().contains(i) {
            let t = v.tokens[i];
            assert(v.ids.dom().contains(t) && v.ids[t] == i);
        }
        if w.tokens.dom().contains(i) {
            let t = w.tokens[i];
            assert(w.ids.dom().contains(t) && w.ids[t] == i);
        }
    }
    assert forall|i: usize| #[trigger] w.tokens.dom().contains(i) implies w.tokens[i] == v.tokens[i] by {
        let t = w.tokens[i];
        assert(v.ids[t] == i);
        assert(v.tokens[v.ids[t]] == t);
    }
    assert(w.tokens =~= v.tokens);
    assert forall|s: Seq<char>| #[trigger] w.special.contains(s) <==> v.special.contains(s) by {
        if v.special.contains(s) {
            assert(sp.contains(s));
            let q = choose|q: int| 0 <= q < sp.len() && sp[q] == s;
            assert(v.ids.dom().contains(s));
        }
    }
    assert(w.special =~= v.special);
}


/// The empty vocabulary has agreeing maps and no special token.
pub proof fn lemma_empty_consistent()
    ensures
        consistent(empty_vocab()),
        specials_known(empty_vocab()),
{
}

/// Adding a token keeps the two maps in agreement (the new token gets the
/// next ID, which no token had) and keeps every special token known.
pub proof fn lemma_add_token_consistent(v: VocabView, t: Seq<char>)
    requires
        consistent(v),
        v.ids.dom().finite(),
        v.ids.dom().len() < usize::MAX,
    ensures
        consistent(add_token_spec(v, t)),
        specials_known(v) ==> specials_known(add_token_spec(v, t)),
        add_token_spec(v, t).ids.dom().finite(),
{
    if !v.ids.dom().contains(t) {
        let id = v.ids.dom().len() as usize;
        let w = add_token_spec(v, t);
        assert(!v.tokens.dom().contains(id));
        assert(w.ids.dom() =~= v.ids.dom().insert(t));
        assert(w.ids.dom().len() == v.ids.dom().len() + 1);
        assert forall|u: Seq<char>| #[trigger] w.ids.dom().contains(u) implies w.tokens.dom().contains(w.ids[u]) && w.tokens[w.ids[u]] == u by {
            if u != t {
                assert(v.tokens.dom().contains(v.ids[u]));
                assert(v.ids[u] != id);
            }
        }
        assert forall|i: usize| #[trigger] w.tokens.dom().contains(i) implies w.ids.dom().contains(w.tokens[i]) && w.ids[w.tokens[i]] == i by {
            if i != id {
                assert(v.ids.dom().contains(v.tokens[i]));
                assert(v.tokens[i] != t);
            }
        }
    }
}

/// Adding a special token keeps the two maps in agreement and every
/// special token known.
pub proof fn lemma_add_special_consistent(v: VocabView, t: Seq<char>)
    requires
        consistent(v),
        v.ids.dom().finite(),
        v.ids.dom().len() < usize::MAX,
    ensures
        consistent(add_special_spec(v, t)),
        specials_known(v) ==> specials_known(add_special_spec(v, t)),
        add_special_spec(v, t).ids.dom().finite(),
{
    lemma_add_token_consistent(v, t);
}


/// After adding a token, looking it up gives the ID that adding returned;
/// adding it again changes nothing and returns the same ID; a new token
/// grows the vocabulary by one and takes the next ID.
pub proof fn lemma_add_then_lookup(v: VocabView, t: Seq<char>)
    requires
        v.ids.dom().finite(),
    ensures
        add_token_spec(v, t).ids.dom().contains(t),
        add_token_spec(v, t).ids[t] == add_token_id(v, t),
        add_token_spec(add_token_spec(v, t), t) == add_token_spec(v, t),
        add_token_id(add_token_spec(v, t), t) == add_token_id(v, t),
        !v.ids.dom().contains(t) ==> add_token_spec(v, t).ids.dom().len() == v.ids.dom().len() + 1,
        v.ids.dom().contains(t) ==> add_token_spec(v, t) == v,
        add_token_spec(v, t).special == v.special,
        !v.ids.dom().contains(t) ==> add_token_spec(v, t).tokens[add_token_id(v, t)] == t,
        !v.ids.dom().contains(t) ==> forall|u: Seq<char>| u != t ==> (#[trigger] add_token_spec(v, t).ids.dom().contains(u) <==> v.ids.dom().contains(u)) && (v.ids.dom().contains(u) ==> add_token_spec(v, t).ids[u] == v.ids[u]),
        !v.ids.dom().contains(t) ==> forall|i: usize| i != add_token_id(v, t) ==> (#[trigger] add_token_spec(v, t).tokens.dom().contains(i) <==> v.tokens.dom().contains(i)) && (v.tokens.dom().contains(i) ==> add_token_spec(v, t).tokens[i] == v.tokens[i]),
        consistent(v) ==> add_token_spec(v, t).tokens.dom().contains(add_token_id(v, t)) && add_token_spec(v, t).tokens[add_token_id(v, t)] == t,
        v.ids.dom().len() < usize::MAX && !v.ids.dom().contains(t) ==> add_token_id(v, t) == v.ids.dom().len(),
{
}

/// A special token, once added, is special and has an ID: its own when it
/// was there (nothing else changes), the next one otherwise; the other
/// tokens keep their special flags.
pub proof fn lemma_add_special_marks(v: VocabView, t: Seq<char>)
    ensures
        add_special_spec(v, t).special.contains(t),
        add_special_spec(v, t).ids.dom().contains(t),
        add_special_spec(v, t).ids[t] == add_token_id(v, t),
        forall|u: Seq<char>| u != t ==> (#[trigger] add_special_spec(v, t).special.contains(u) <==> v.special.contains(u)),
        v.ids.dom().contains(t) ==> add_special_spec(v, t).ids == v.ids && add_special_spec(v, t).tokens == v.tokens,
{
}

/// The IDs in use are exactly `0..len`.
pub open spec fn dense(v: VocabView) -> bool {
    forall|i: usize| #[trigger] v.tokens.dom().contains(i) <==> (i as int) < v.ids.dom().len()
}

/// A vocabulary as `new`, `add_token` and `add_special_token` build it: its
/// maps agree, its IDs are `0..len`, and its special tokens have IDs.
pub open spec fn well_built(v: VocabView) -> bool {
    consistent(v) && dense(v) && specials_known(v)
}

/// Adding a token to a vocabulary whose IDs are `0..len` keeps them so.
pub proof fn lemma_add_token_dense(v: VocabView, t: Seq<char>)
    requires
        dense(v),
        v.ids.dom().finite(),
        v.ids.dom().len() < usize::MAX,
    ensures
        dense(add_token_spec(v, t)),
        dense(add_special_spec(v, t)),
{
    if !v.ids.dom().contains(t) {
        assert(add_token_spec(v, t).ids.dom() =~= v.ids.dom().insert(t));
    }
}

/// Adding tokens in order gives each of them an ID, keeps every token that
/// was there with its ID and every ID that was in use with its token, keeps
/// the special tokens, and keeps the maps in agreement with IDs `0..len`.
#[verifier::spinoff_prover]
pub proof fn lemma_add_tokens_keeps(v: VocabView, toks: Seq<Seq<char>>)
    requires
        v.ids.dom().finite(),
        consistent(v),
        v.ids.dom().len() + toks.len() <= usize::MAX,
    ensures
        forall|k: int| 0 <= k < toks.len() ==> add_tokens_spec(v, toks).ids.dom().contains(#[trigger] toks[k]),
        forall|t: Seq<char>| #[trigger] v.ids.dom().contains(t) ==> add_tokens_spec(v, toks).ids.dom().contains(t) && add_tokens_spec(v, toks).ids[t] == v.ids[t],
        forall|i: usize| #[trigger] v.tokens.dom().contains(i) ==> add_tokens_spec(v, toks).tokens.dom().contains(i) && add_tokens_spec(v, toks).tokens[i] == v.tokens[i],
        add_tokens_spec(v, toks).special == v.special,
        consistent(add_tokens_spec(v, toks)),
        dense(v) ==> dense(add_tokens_spec(v, toks)),
        specials_known(v) ==> specials_known(add_tokens_spec(v, toks)),
        add_tokens_spec(v, toks).ids.dom().finite(),
        add_tokens_spec(v, toks).ids.dom().len() <= v.ids.dom().len() + toks.len(),
    decreases toks.len(),
{
    if toks.len() > 0 {
        let p = toks.drop_last();
        lemma_add_tokens_keeps(v, p);
        let w = add_tokens_spec(v, p);
        let t = toks.last();
        lemma_add_tokens_len(v, p);
        let r = add_token_spec(w, t);
        if !w.ids.dom().contains(t) {
            let id = w.ids.dom().len() as usize;
            assert(!w.tokens.dom().contains(id));
            assert(r.ids.dom() =~= w.ids.dom().insert(t));
            assert forall|u: Seq<char>| #[trigger] r.ids.dom().contains(u) implies r.tokens.dom().contains(r.ids[u]) && r.tokens[r.ids[u]] == u by {
                if u != t {
                    assert(w.tokens.dom().contains(w.ids[u]));
                }
            }
            assert forall|i: usize| #[trigger] r.tokens.dom().contains(i) implies r.ids.dom().contains(r.tokens[i]) && r.ids[r.tokens[i]] == i by {
                if i != id {
                    assert(w.ids.dom().contains(w.tokens[i]));
                    assert(w.tokens[i] != t);
                }
            }
            if dense(v) {
                lemma_add_token_dense(w, t);
            }
            if specials_known(v) {
                lemma_add_token_consistent(w, t);
            }
        }
        assert forall|k: int| 0 <= k < toks.len() implies r.ids.dom().contains(#[trigger] toks[k]) by {
            if k < toks.len() - 1 {
                assert(toks[k] == p[k]);
            }
        }
    }
}

/// A sequence of additions: each token, and whether it is added as a special token.
pub open spec fn add_all(v: VocabView, ops: Seq<(Seq<char>, bool)>) -> VocabView
    decreases ops.len(),
{
    if ops.len() == 0 {
        v
    } else {
        let w = add_all(v, ops.drop_last());
        if ops.last().1 {
            add_special_spec(w, ops.last().0)
        } else {
            add_token_spec(w, ops.last().0)
        }
    }
}

/// Every vocabulary built from an empty one by `add_token` and
/// `add_special_token` has its two maps inverse to each other, IDs exactly
/// `0..len`, and its special tokens among its tokens.
pub proof fn lemma_built_vocab(ops: Seq<(Seq<char>, bool)>)
    requires
        ops.len() < usize::MAX,
    ensures
        consistent(add_all(empty_vocab(), ops)),
        dense(add_all(empty_vocab(), ops)),
        specials_known(add_all(empty_vocab(), ops)),
        add_all(empty_vocab(), ops).ids.dom().finite(),
        add_all(empty_vocab(), ops).ids.dom().len() <= ops.len(),
    decreases ops.len(),
{
    if ops.len() == 0 {
        assert(empty_vocab().ids.dom() =~= Set::<Seq<char>>::empty());
    } else {
        let p = ops.drop_last();
        lemma_built_vocab(p);
        let w = add_all(empty_vocab(), p);
        let t = ops.last().0;
        lemma_add_token_consistent(w, t);
        lemma_add_special_consistent(w, t);
        lemma_add_token_dense(w, t);
        if !w.ids.dom().contains(t) {
            assert(add_token_spec(w, t).ids.dom() =~= w.ids.dom().insert(t));
        }
    }
}

} // verus!
