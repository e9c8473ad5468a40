//! Text processors: normalisations applied to raw text before tokenization.
use vstd::prelude::*;
use crate::text::{
    lowercase, trim_ws, str_to_lowercase, trim, white_space, split_ws, split_ws_state, all_words, no_ws,
    lemma_split_ws_words, lemma_trim_ws_frame, lemma_split_ws_state_concat,
    lemma_split_ws_state_word,
};
use crate::basic_tokenizer::join_spaced;

verus! {

/// The text with every maximal run of white space (Unicode `White_Space`,
/// see `white_space`) replaced by one space.
pub open spec fn collapse_ws(t: Seq<char>) -> Seq<char>
    decreases t.len(),
{
    if t.len() == 0 {
        Seq::empty()
    } else {
        let c = collapse_ws(t.drop_last());
        if white_space(t.last()) {
            if t.len() >= 2 && white_space(t[t.len() - 2]) {
                c
            } else {
                c.push(' ')
            }
        } else {
            c.push(t.last())
        }
    }
}

/// Replaces every match of the regular expression `\s+` with one space
/// (`regex::Regex::new(r"\s+")` and `Regex::replace_all`). The pattern is a
/// constant that compiles; `\s` is the Unicode `White_Space` class, and the
/// greedy, non-overlapping matches are exactly the maximal runs of white
/// space, so the result is `collapse_ws` of the text.
#[verifier::external_body]
fn replace_whitespace_runs(text: &str) -> (r: String)
    ensures
        r@ == collapse_ws(text@),
{
    let re = regex::Regex::new(r"\s+").unwrap();
    re.replace_all(text, " ").to_string()
}

/// Interface for text processors.
pub trait TextProcessor: Send + Sync {
    /// What `process` makes of a text.
    spec fn spec_process(&self, text: Seq<char>) -> Seq<char>;

    /// Processes a text string.
    fn process(&self, text: &str) -> (r: String)
        ensures
            r@ == self.spec_process(text@),
    ;
}

/// Text processor that lowercases and normalizes white space, each if asked.
pub struct BasicTextProcessor {
    lowercase: bool,
    normalize_whitespace: bool,
}

/// What a basic processor makes of a text: lowercased if asked; then, if
/// asked, runs of white space collapsed to one space and the ends trimmed.
pub open spec fn basic_process(lower: bool, normalize: bool, text: Seq<char>) -> Seq<char> {
    let t = if lower { lowercase(text) } else { text };
    if normalize {
        trim_ws(collapse_ws(t))
    } else {
        t
    }
}

impl BasicTextProcessor {
    /// Creates a new basic text processor.
    pub fn new(lowercase: bool, normalize_whitespace: bool) -> (p: Self)
        ensures
            p.lowercases() == lowercase,
            p.normalizes_whitespace() == normalize_whitespace,
    {
        Self { lowercase, normalize_whitespace }
    }

    /// Whether the processor lowercases.
    pub closed spec fn lowercases(&self) -> bool {
        self.lowercase
    }

    /// Whether the processor normalizes white space.
    pub closed spec fn normalizes_whitespace(&self) -> bool {
        self.normalize_whitespace
    }
}

impl TextProcessor for BasicTextProcessor {
    open spec fn spec_process(&self, text: Seq<char>) -> Seq<char> {
        basic_process(self.lowercases(), self.normalizes_whitespace(), text)
    }

    fn process(&self, text: &str) -> (r: String) {
        let mut processed = text.to_owned();
        if self.lowercase {
            processed = str_to_lowercase(processed.as_str());
        }
        if self.normalize_whitespace {
            processed = replace_whitespace_runs(processed.as_str());
            processed = trim(processed.as_str());
        }
        processed
    }
}

/// A sequence of processors applied in order.
pub open spec fn run_processors<P: TextProcessor>(ps: Seq<P>, text: Seq<char>) -> Seq<char>
    decreases ps.len(),
{
    if ps.len() == 0 {
        text
    } else {
        ps.last().spec_process(run_processors(ps.drop_last(), text))
    }
}

/// Processor that executes a sequence of transformations on text.
pub struct CompositeTextProcessor<P = BasicTextProcessor> {
    processors: Vec<P>,
}

impl<P: TextProcessor> CompositeTextProcessor<P> {
    /// The processors of the chain, in order.
    pub closed spec fn stages(&self) -> Seq<P> {
        self.processors@
    }

    /// Creates a new empty composite processor.
    pub fn new() -> (c: Self)
        ensures
            c.stages() == Seq::<P>::empty(),
    {
        Self { processors: Vec::new() }
    }

    /// Adds a processor to the end of the chain.
    pub fn add_processor(self, processor: P) -> (c: Self)
        ensures
            c.stages() == self.stages().push(processor),
    {
        let mut processors = self.processors;
        processors.push(processor);
        Self { processors }
    }
}

impl<P: TextProcessor> TextProcessor for CompositeTextProcessor<P> {
    open spec fn spec_process(&self, text: Seq<char>) -> Seq<char> {
        run_processors(self.stages(), text)
    }

    fn process(&self, text: &str) -> (r: String) {
        let mut processed = text.to_owned();
        let mut i: usize = 0;
        while i < self.processors.len()
            invariant
                i <= self.processors@.len(),
                processed@ == run_processors(self.processors@.take(i as int), text@),
            decreases self.processors.len() - i,
        {
            processed = self.processors[i].process(processed.as_str());
            assert(self.processors@.take(i + 1).drop_last() =~= self.processors@.take(i as int));
            i = i + 1;
        }
        assert(self.processors@.take(i as int) =~= self.processors@);
        processed
    }
}

/// A space where the text starts with white space.
pub open spec fn lead_space(t: Seq<char>) -> Seq<char> {
    if t.len() > 0 && white_space(t[0]) { seq![' '] } else { Seq::empty() }
}

/// A space where the text ends with white space.
pub open spec fn trail_space(t: Seq<char>) -> Seq<char> {
    if t.len() > 0 && white_space(t.last()) { seq![' '] } else { Seq::empty() }
}

proof fn lemma_join_push(ws: Seq<Seq<char>>, w: Seq<char>)
    ensures
        join_spaced(ws.push(w)) == if ws.len() == 0 { w } else { join_spaced(ws) + seq![' '] + w },
{
    assert(ws.push(w).drop_last() =~= ws);
    if ws.len() == 0 {
        assert(ws.push(w)[0] == w);
    }
}

/// Words joined with spaces start and end with a character of a word.
proof fn lemma_join_ends(ws: Seq<Seq<char>>)
    requires
        all_words(ws),
        ws.len() > 0,
    ensures
        join_spaced(ws).len() > 0,
        !white_space(join_spaced(ws)[0]),
        !white_space(join_spaced(ws).last()),
    decreases ws.len(),
{
    assert(ws[0].len() > 0 && no_ws(ws[0]));
    assert(!white_space(ws[0][0]));
    if ws.len() > 1 {
        let d = ws.drop_last();
        assert forall|i: int| 0 <= i < d.len() implies (#[trigger] d[i]).len() > 0 && no_ws(d[i]) by {
            assert(d[i] == ws[i]);
        }
        lemma_join_ends(d);
        let w = ws.last();
        assert(ws[ws.len() - 1] == w);
        assert(w.len() > 0 && no_ws(w));
        assert(!white_space(w[w.len() - 1]));
        let j = join_spaced(ws);
        assert(j == join_spaced(d) + seq![' '] + w);
        assert(j[0] == join_spaced(d)[0]);
        assert(j.last() == w.last());
    } else {
        assert(ws[ws.len() - 1] == ws[0]);
        assert(ws[0][ws[0].len() - 1] == ws[0].last());
    }
}

/// Collapsing white space keeps the words of a text, joined by single
/// spaces, with one space before them where the text starts with white space
/// and one after them where it ends so; a text of white space only becomes
/// one space, or stays empty.
#[verifier::spinoff_prover]
proof fn lemma_collapse_split(t: Seq<char>)
    ensures
        split_ws(t).len() == 0 ==> collapse_ws(t) == (if t.len() == 0 { Seq::<char>::empty() } else { seq![' '] }),
        split_ws(t).len() > 0 ==> collapse_ws(t) == lead_space(t) + join_spaced(split_ws(t)) + trail_space(t),
        split_ws_state(t).1.len() > 0 ==> !white_space(t.last()),
        split_ws_state(t).1.len() == 0 && t.len() > 0 ==> white_space(t.last()),
    decreases t.len(),
{
    if t.len() > 0 {
        let d = t.drop_last();
        lemma_collapse_split(d);
        let c = t.last();
        let (done, cur) = split_ws_state(d);
        let cd = collapse_ws(d);
        assert(t.len() >= 2 ==> t[t.len() - 2] == d.last());
        assert(d.len() > 0 ==> t[0] == d[0]);
        assert(d.len() > 0 ==> lead_space(t) == lead_space(d));
        if white_space(c) {
            assert(trail_space(t) == seq![' ']);
            if cur.len() > 0 {
                assert(split_ws(t) == done.push(cur));
                assert(split_ws(d) == done.push(cur));
                assert(trail_space(d) == Seq::<char>::empty());
                assert(cd == lead_space(d) + join_spaced(done.push(cur)) + Seq::<char>::empty());
                assert(collapse_ws(t) == cd.push(' '));
                assert(cd.push(' ') =~= lead_space(t) + join_spaced(split_ws(t)) + trail_space(t));
            } else {
                assert(split_ws(t) == done);
                assert(split_ws(d) == done);
                if d.len() == 0 {
                    assert(split_ws_state(d).0 == Seq::<Seq<char>>::empty());
                    assert(collapse_ws(t) == cd.push(' '));
                    assert(collapse_ws(t) =~= seq![' ']);
                } else {
                    assert(white_space(d.last()));
                    assert(collapse_ws(t) == cd);
                    if done.len() > 0 {
                        assert(trail_space(d) == seq![' ']);
                    }
                }
            }
        } else {
            assert(trail_space(t) == Seq::<char>::empty());
            assert(split_ws(t) == done.push(cur.push(c)));
            assert(collapse_ws(t) == cd.push(c));
            if cur.len() > 0 {
                assert(split_ws(d) == done.push(cur));
                assert(trail_space(d) == Seq::<char>::empty());
                lemma_join_push(done, cur);
                lemma_join_push(done, cur.push(c));
                if done.len() == 0 {
                    assert(cd.push(c) =~= lead_space(t) + join_spaced(split_ws(t)) + trail_space(t));
                } else {
                    assert(cd.push(c) =~= lead_space(t) + join_spaced(split_ws(t)) + trail_space(t));
                }
            } else {
                assert(split_ws(d) == done);
                lemma_join_push(done, seq![c]);
                assert(cur.push(c) =~= seq![c]);
                if done.len() == 0 {
                    if d.len() == 0 {
                        assert(lead_space(t) == Seq::<char>::empty());
                    } else {
                        assert(white_space(d[0])) by {
                            lemma_all_ws_first(d);
                        }
                        assert(lead_space(t) == seq![' ']);
                    }
                    assert(cd.push(c) =~= lead_space(t) + join_spaced(split_ws(t)) + trail_space(t));
                } else {
                    assert(d.len() > 0);
                    assert(white_space(d.last()));
                    assert(trail_space(d) == seq![' ']);
                    assert(cd.push(c) =~= lead_space(t) + join_spaced(split_ws(t)) + trail_space(t));
                }
            }
        }
    }
}

/// A nonempty text with no word starts with white space.
proof fn lemma_all_ws_first(d: Seq<char>)
    requires
        d.len() > 0,
        split_ws_state(d).0.len() == 0,
        split_ws_state(d).1.len() == 0,
    ensures
        white_space(d[0]),
    decreases d.len(),
{
    let dd = d.drop_last();
    let (done, cur) = split_ws_state(dd);
    if !white_space(d.last()) {
        assert(split_ws_state(d).1 == cur.push(d.last()));
    } else if cur.len() > 0 {
        assert(split_ws_state(d).0 == done.push(cur));
    } else if dd.len() > 0 {
        lemma_all_ws_first(dd);
        assert(d[0] == dd[0]);
    }
}

/// Normalizing white space as the basic processor does (collapsing each run
/// of white space to one space, then trimming) gives the words of the text
/// (`str::split_whitespace`) joined by single spaces.
pub proof fn lemma_normalize_is_join(t: Seq<char>)
    ensures
        trim_ws(collapse_ws(t)) == join_spaced(split_ws(t)),
{
    lemma_collapse_split(t);
    lemma_split_ws_words(t);
    let ws = split_ws(t);
    if ws.len() == 0 {
        let e = Seq::<char>::empty();
        if t.len() == 0 {
            lemma_trim_ws_frame(e, e, e);
            assert(e + e + e =~= e);
        } else {
            lemma_trim_ws_frame(seq![' '], e, e);
            assert(seq![' '] + e + e =~= seq![' ']);
        }
        assert(join_spaced(ws) == e);
    } else {
        lemma_join_ends(ws);
        lemma_trim_ws_frame(lead_space(t), join_spaced(ws), trail_space(t));
    }
}

/// What the basic processor makes of a text, when it normalizes white space:
/// the words of the (lowercased, if asked) text joined by single spaces.
pub proof fn lemma_basic_process_words(lower: bool, text: Seq<char>)
    ensures
        basic_process(lower, true, text) == join_spaced(split_ws(if lower { lowercase(text) } else { text })),
{
    lemma_normalize_is_join(if lower { lowercase(text) } else { text });
}

/// Splitting words joined by single spaces gives the words back.
#[verifier::spinoff_prover]
pub proof fn lemma_split_join(ws: Seq<Seq<char>>)
    requires
        all_words(ws),
    ensures
        split_ws(join_spaced(ws)) == ws,
    decreases ws.len(),
{
    if ws.len() > 0 {
        let d = ws.drop_last();
        let w = ws.last();
        assert(ws[ws.len() - 1] == w);
        assert(w.len() > 0 && no_ws(w));
        lemma_split_ws_state_word(w);
        if d.len() == 0 {
            assert(join_spaced(ws) == w);
            assert(ws =~= seq![w]);
        } else {
            assert forall|i: int| 0 <= i < d.len() implies (#[trigger] d[i]).len() > 0 && no_ws(d[i]) by {
                assert(d[i] == ws[i]);
            }
            lemma_split_join(d);
            let x = join_spaced(d) + seq![' '];
            lemma_join_ends(d);
            lemma_collapse_split(join_spaced(d));
            let (dd, dc) = split_ws_state(join_spaced(d));
            assert(x.drop_last() =~= join_spaced(d));
            assert(x.last() == ' ');
            assert(white_space(' '));
            assert(dc.len() > 0);
            assert(split_ws_state(x) == (dd.push(dc), Seq::<char>::empty()));
            assert(dd.push(dc) == d);
            lemma_split_ws_state_concat(x, w);
            assert(join_spaced(ws) == x + w);
            assert(split_ws_state(join_spaced(ws)) == (d + Seq::<Seq<char>>::empty(), w));
            assert(d + Seq::<Seq<char>>::empty() =~= d);
            assert(d.push(w) =~= ws);
        }
    }
}

/// Processing twice gives what processing once gives, for a processor that
/// does not lowercase.
pub proof fn lemma_basic_process_idempotent(normalize: bool, text: Seq<char>)
    ensures
        basic_process(false, normalize, basic_process(false, normalize, text)) == basic_process(false, normalize, text),
{
    if normalize {
        let ws = split_ws(text);
        lemma_normalize_is_join(text);
        lemma_split_ws_words(text);
        lemma_normalize_is_join(join_spaced(ws));
        lemma_split_join(ws);
    }
}

} // verus!
