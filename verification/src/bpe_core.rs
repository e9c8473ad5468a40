//! The byte-pair-encoding machinery shared by the BPE tokenizers: applying
//! merge rules to the parts of a word, counting adjacent pairs over a corpus,
//! and learning merge rules one round at a time.
use vstd::prelude::*;
use crate::text::concat;
use crate::vocab::{Vocab, VocabView, add_tokens_spec, add_token_spec, lemma_add_tokens_len};

verus! {

/// A merge rule as characters: the first part, the second part and the merged token.
pub type MergeView = (Seq<char>, Seq<char>, Seq<char>);

/// The characters of the parts of a word.
pub open spec fn parts_view(p: Seq<String>) -> Seq<Seq<char>> {
    p.map_values(|s: String| s@)
}

/// The characters of merge rules.
pub open spec fn merges_view(ms: Seq<(String, String, String)>) -> Seq<MergeView> {
    ms.map_values(|m: (String, String, String)| (m.0@, m.1@, m.2@))
}

/// One left-to-right pass of a merge rule from position `i`: wherever the
/// part `f` is directly followed by `s`, the two become `m`; scanning
/// resumes at the merged part.
pub open spec fn merge_scan(p: Seq<Seq<char>>, i: int, f: Seq<char>, s: Seq<char>, m: Seq<char>) -> Seq<Seq<char>>
    decreases 2 * p.len() - i,
{
    if i < 0 || i + 1 >= p.len() {
        p
    } else if p[i] == f && p[i + 1] == s {
        merge_scan(p.update(i, m).remove(i + 1), i, f, s, m)
    } else {
        merge_scan(p, i + 1, f, s, m)
    }
}

/// A merge rule applied to the parts of a word.
pub open spec fn merge_parts(p: Seq<Seq<char>>, rule: MergeView) -> Seq<Seq<char>> {
    merge_scan(p, 0, rule.0, rule.1, rule.2)
}

/// Merge rules applied in order to the parts of a word.
pub open spec fn apply_merges(p: Seq<Seq<char>>, ms: Seq<MergeView>) -> Seq<Seq<char>>
    decreases ms.len(),
{
    if ms.len() == 0 {
        p
    } else {
        merge_parts(apply_merges(p, ms.drop_last()), ms.last())
    }
}

/// Every merge rule merges its two parts into their concatenation.
pub open spec fn merges_concatenate(ms: Seq<MergeView>) -> bool {
    forall|k: int| 0 <= k < ms.len() ==> (#[trigger] ms[k]).2 == ms[k].0 + ms[k].1
}

proof fn lemma_merge_scan_len(p: Seq<Seq<char>>, i: int, f: Seq<char>, s: Seq<char>, m: Seq<char>)
    requires
        p.len() >= 1,
    ensures
        merge_scan(p, i, f, s, m).len() >= 1,
        merge_scan(p, i, f, s, m).len() <= p.len(),
    decreases 2 * p.len() - i,
{
    if i < 0 || i + 1 >= p.len() {
    } else if p[i] == f && p[i + 1] == s {
        lemma_merge_scan_len(p.update(i, m).remove(i + 1), i, f, s, m);
    } else {
        lemma_merge_scan_len(p, i + 1, f, s, m);
    }
}

proof fn lemma_flatten_two(a: Seq<char>, b: Seq<char>)
    ensures
        seq![a, b].flatten() == a + b,
{
    assert(seq![a, b].drop_first() =~= seq![b]);
    seq![b].lemma_flatten_one_element();
}

proof fn lemma_flatten_one(a: Seq<char>)
    ensures
        seq![a].flatten() == a,
{
    seq![a].lemma_flatten_one_element();
}

/// Merging two adjacent parts into their concatenation keeps the characters.
proof fn lemma_merge_step_flatten(p: Seq<Seq<char>>, i: int, m: Seq<char>)
    requires
        0 <= i,
        i + 1 < p.len(),
        m == p[i] + p[i + 1],
    ensures
        p.update(i, m).remove(i + 1).flatten() == p.flatten(),
{
    let pre = p.subrange(0, i);
    let post = p.subrange(i + 2, p.len() as int);
    assert(p =~= pre + seq![p[i], p[i + 1]] + post);
    assert(p.update(i, m).remove(i + 1) =~= pre + seq![m] + post);
    vstd::seq_lib::lemma_flatten_concat(pre + seq![p[i], p[i + 1]], post);
    vstd::seq_lib::lemma_flatten_concat(pre, seq![p[i], p[i + 1]]);
    vstd::seq_lib::lemma_flatten_concat(pre + seq![m], post);
    vstd::seq_lib::lemma_flatten_concat(pre, seq![m]);
    lemma_flatten_two(p[i], p[i + 1]);
    lemma_flatten_one(m);
    assert(pre.flatten() + (p[i] + p[i + 1]) + post.flatten() =~= pre.flatten() + m + post.flatten());
}

/// A merge pass whose merged token is the concatenation keeps the characters.
pub proof fn lemma_merge_scan_flatten(p: Seq<Seq<char>>, i: int, f: Seq<char>, s: Seq<char>, m: Seq<char>)
    requires
        m == f + s,
    ensures
        merge_scan(p, i, f, s, m).flatten() == p.flatten(),
    decreases 2 * p.len() - i,
{
    if i < 0 || i + 1 >= p.len() {
    } else if p[i] == f && p[i + 1] == s {
        lemma_merge_step_flatten(p, i, m);
        lemma_merge_scan_flatten(p.update(i, m).remove(i + 1), i, f, s, m);
    } else {
        lemma_merge_scan_flatten(p, i + 1, f, s, m);
    }
}

/// Applying merge rules that concatenate keeps the characters of a word.
pub proof fn lemma_apply_merges_flatten(p: Seq<Seq<char>>, ms: Seq<MergeView>)
    requires
        merges_concatenate(ms),
    ensures
        apply_merges(p, ms).flatten() == p.flatten(),
    decreases ms.len(),
{
    if ms.len() > 0 {
        assert forall|k: int| 0 <= k < ms.drop_last().len() implies (#[trigger] ms.drop_last()[k]).2 == ms.drop_last()[k].0 + ms.drop_last()[k].1 by {
            assert(ms.drop_last()[k] == ms[k]);
        }
        lemma_apply_merges_flatten(p, ms.drop_last());
        assert(ms[ms.len() - 1] == ms.last());
        lemma_merge_scan_flatten(apply_merges(p, ms.drop_last()), 0, ms.last().0, ms.last().1, ms.last().2);
    }
}

/// Whether no part is empty.
pub open spec fn parts_nonempty(p: Seq<Seq<char>>) -> bool {
    forall|k: int| 0 <= k < p.len() ==> (#[trigger] p[k]).len() > 0
}

proof fn lemma_merge_scan_nonempty(p: Seq<Seq<char>>, i: int, f: Seq<char>, s: Seq<char>, m: Seq<char>)
    requires
        parts_nonempty(p),
        m == f + s,
    ensures
        parts_nonempty(merge_scan(p, i, f, s, m)),
    decreases 2 * p.len() - i,
{
    if i < 0 || i + 1 >= p.len() {
    } else if p[i] == f && p[i + 1] == s {
        let q = p.update(i, m).remove(i + 1);
        assert(p[i].len() > 0);
        assert forall|k: int| 0 <= k < q.len() implies (#[trigger] q[k]).len() > 0 by {
            if k < i {
                assert(q[k] == p[k]);
            } else if k == i {
                assert(q[k] == m);
            } else {
                assert(q[k] == p[k + 1]);
            }
        }
        lemma_merge_scan_nonempty(q, i, f, s, m);
    } else {
        lemma_merge_scan_nonempty(p, i + 1, f, s, m);
    }
}

/// Applying merge rules that concatenate never makes a part empty.
pub proof fn lemma_apply_merges_nonempty(p: Seq<Seq<char>>, ms: Seq<MergeView>)
    requires
        parts_nonempty(p),
        merges_concatenate(ms),
    ensures
        parts_nonempty(apply_merges(p, ms)),
    decreases ms.len(),
{
    if ms.len() > 0 {
        assert forall|k: int| 0 <= k < ms.drop_last().len() implies (#[trigger] ms.drop_last()[k]).2 == ms.drop_last()[k].0 + ms.drop_last()[k].1 by {
            assert(ms.drop_last()[k] == ms[k]);
        }
        lemma_apply_merges_nonempty(p, ms.drop_last());
        assert(ms[ms.len() - 1] == ms.last());
        lemma_merge_scan_nonempty(apply_merges(p, ms.drop_last()), 0, ms.last().0, ms.last().1, ms.last().2);
    }
}

/// Applying merge rules leaves a word at least one part.
pub proof fn lemma_apply_merges_len(p: Seq<Seq<char>>, ms: Seq<MergeView>)
    requires
        p.len() >= 1,
    ensures
        apply_merges(p, ms).len() >= 1,
    decreases ms.len(),
{
    if ms.len() > 0 {
        lemma_apply_merges_len(p, ms.drop_last());
        lemma_merge_scan_len(apply_merges(p, ms.drop_last()), 0, ms.last().0, ms.last().1, ms.last().2);
    }
}

/// Whether the parts at positions `j` and `j + 1` are `f` and `s`.
pub open spec fn pair_at(p: Seq<Seq<char>>, j: int, f: Seq<char>, s: Seq<char>) -> bool {
    0 <= j && j + 1 < p.len() && p[j] == f && p[j + 1] == s
}

proof fn lemma_merge_scan_no_pair(p: Seq<Seq<char>>, i: int, f: Seq<char>, s: Seq<char>, m: Seq<char>)
    requires
        0 <= i,
        m != s,
        forall|j: int| j < i ==> !#[trigger] pair_at(p, j, f, s),
    ensures
        forall|j: int| !#[trigger] pair_at(merge_scan(p, i, f, s, m), j, f, s),
    decreases 2 * p.len() - i,
{
    let r = merge_scan(p, i, f, s, m);
    if i + 1 >= p.len() {
        assert(r == p);
        assert forall|j: int| !#[trigger] pair_at(r, j, f, s) by {
            if pair_at(r, j, f, s) {
                assert(pair_at(p, j, f, s));
            }
        }
    } else if p[i] == f && p[i + 1] == s {
        let q = p.update(i, m).remove(i + 1);
        assert forall|j: int| j < i implies !#[trigger] pair_at(q, j, f, s) by {
            if pair_at(q, j, f, s) {
                assert(q[j] == p[j]);
                if j + 1 < i {
                    assert(q[j + 1] == p[j + 1]);
                    assert(pair_at(p, j, f, s));
                } else {
                    assert(q[j + 1] == m);
                }
            }
        }
        lemma_merge_scan_no_pair(q, i, f, s, m);
        assert(r == merge_scan(q, i, f, s, m));
    } else {
        assert forall|j: int| j < i + 1 implies !#[trigger] pair_at(p, j, f, s) by {}
        lemma_merge_scan_no_pair(p, i + 1, f, s, m);
        assert(r == merge_scan(p, i + 1, f, s, m));
    }
}

/// A merge rule merges every occurrence of its pair: once it is applied, no
/// part equal to its first part is directly followed by one equal to its
/// second (unless the merged token equals the second part, as no rule that
/// concatenates two nonempty parts does).
pub proof fn lemma_merge_parts_leaves_no_pair(p: Seq<Seq<char>>, rule: MergeView)
    requires
        rule.2 != rule.1,
    ensures
        forall|j: int| 0 <= j && j + 1 < merge_parts(p, rule).len()
            ==> !(#[trigger] merge_parts(p, rule)[j] == rule.0 && merge_parts(p, rule)[j + 1] == rule.1),
{
    lemma_merge_scan_no_pair(p, 0, rule.0, rule.1, rule.2);
    let r = merge_parts(p, rule);
    assert forall|j: int| 0 <= j && j + 1 < r.len() implies !(#[trigger] r[j] == rule.0 && r[j + 1] == rule.1) by {
        assert(!pair_at(r, j, rule.0, rule.1));
    }
}

proof fn lemma_merge_scan_shift(x: Seq<char>, p: Seq<Seq<char>>, i: int, f: Seq<char>, s: Seq<char>, m: Seq<char>)
    requires
        0 <= i,
    ensures
        merge_scan(seq![x] + p, i + 1, f, s, m) == seq![x] + merge_scan(p, i, f, s, m),
    decreases 2 * p.len() - i,
{
    let xp = seq![x] + p;
    if i + 1 >= p.len() {
    } else {
        assert(xp[i + 1] == p[i] && xp[i + 2] == p[i + 1]);
        if p[i] == f && p[i + 1] == s {
            let q = p.update(i, m).remove(i + 1);
            assert(xp.update(i + 1, m).remove(i + 2) =~= seq![x] + q);
            lemma_merge_scan_shift(x, q, i, f, s, m);
        } else {
            lemma_merge_scan_shift(x, p, i + 1, f, s, m);
        }
    }
}

/// A merge rule works from the left: when the first two parts are its pair
/// they merge first (and the merged part may merge again with what
/// follows); otherwise the first part stays and the rule applies to the rest.
pub proof fn lemma_merge_parts_from_left(x: Seq<char>, p: Seq<Seq<char>>, rule: MergeView)
    ensures
        p.len() > 0 && x == rule.0 && p[0] == rule.1 ==> merge_parts(seq![x] + p, rule) == merge_parts(seq![rule.2] + p.drop_first(), rule),
        !(p.len() > 0 && x == rule.0 && p[0] == rule.1) ==> merge_parts(seq![x] + p, rule) == seq![x] + merge_parts(p, rule),
{
    let xp = seq![x] + p;
    if p.len() > 0 && x == rule.0 && p[0] == rule.1 {
        assert(xp[0] == x && xp[1] == p[0]);
        assert(xp.update(0, rule.2).remove(1) =~= seq![rule.2] + p.drop_first());
    } else {
        if p.len() > 0 {
            assert(xp[0] == x && xp[1] == p[0]);
        } else {
            assert(xp.len() == 1);
            assert(merge_parts(xp, rule) == xp);
            assert(merge_parts(p, rule) == p);
        }
        lemma_merge_scan_shift(x, p, 0, rule.0, rule.1, rule.2);
    }
}

/// After merge rules are applied to a word, the pair of the last rule occurs
/// nowhere in it.
pub proof fn lemma_apply_merges_last_pair_gone(p: Seq<Seq<char>>, ms: Seq<MergeView>)
    requires
        ms.len() > 0,
        ms.last().2 != ms.last().1,
    ensures
        forall|j: int| 0 <= j && j + 1 < apply_merges(p, ms).len()
            ==> !(#[trigger] apply_merges(p, ms)[j] == ms.last().0 && apply_merges(p, ms)[j + 1] == ms.last().1),
{
    lemma_merge_parts_leaves_no_pair(apply_merges(p, ms.drop_last()), ms.last());
}

/// Applies one merge rule to the parts of a word, in place.
pub fn merge_in_place(parts: &mut Vec<String>, f: &String, s: &String, m: &String)
    requires
        old(parts)@.len() >= 1,
    ensures
        parts_view(final(parts)@) == merge_scan(parts_view(old(parts)@), 0, f@, s@, m@),
        final(parts)@.len() >= 1,
        m@ != s@ ==> forall|j: int| 0 <= j && j + 1 < final(parts)@.len()
            ==> !((#[trigger] final(parts)@[j])@ == f@ && final(parts)@[j + 1]@ == s@),
{
    let mut i: usize = 0;
    proof {
        lemma_merge_scan_len(parts_view(parts@), 0, f@, s@, m@);
        if m@ != s@ {
            lemma_merge_scan_no_pair(parts_view(parts@), 0, f@, s@, m@);
        }
    }
    let ghost r = merge_scan(parts_view(parts@), 0, f@, s@, m@);
    while i < parts.len() - 1
        invariant
            parts@.len() >= 1,
            i < parts@.len(),
            merge_scan(parts_view(parts@), i as int, f@, s@, m@) == merge_scan(parts_view(old(parts)@), 0, f@, s@, m@),
            r == merge_scan(parts_view(old(parts)@), 0, f@, s@, m@),
            m@ != s@ ==> forall|j: int| !#[trigger] pair_at(r, j, f@, s@),
        decreases 2 * parts@.len() - i,
    {
        let ghost before = parts_view(parts@);
        if parts[i] == *f && parts[i + 1] == *s {
            parts.set(i, m.clone());
            parts.remove(i + 1);
            assert(parts_view(parts@) =~= before.update(i as int, m@).remove(i + 1));
        } else {
            i = i + 1;
        }
    }
    proof {
        assert(parts_view(parts@) == r);
        assert forall|j: int| 0 <= j && j + 1 < parts@.len() && m@ != s@
            implies !((#[trigger] parts@[j])@ == f@ && parts@[j + 1]@ == s@) by {
            assert(r[j] == parts@[j]@);
            assert(r[j + 1] == parts@[j + 1]@);
            assert(!pair_at(r, j, f@, s@));
        }
    }
}

/// Applies merge rules in order to the parts of a word, in place.
pub fn apply_merges_in_place(parts: &mut Vec<String>, merges: &Vec<(String, String, String)>)
    requires
        old(parts)@.len() >= 1,
    ensures
        parts_view(final(parts)@) == apply_merges(parts_view(old(parts)@), merges_view(merges@)),
        final(parts)@.len() >= 1,
{
    let mut k: usize = 0;
    while k < merges.len()
        invariant
            k <= merges@.len(),
            parts@.len() >= 1,
            parts_view(parts@) == apply_merges(parts_view(old(parts)@), merges_view(merges@).take(k as int)),
        decreases merges.len() - k,
    {
        let rule = &merges[k];
        merge_in_place(parts, &rule.0, &rule.1, &rule.2);
        proof {
            let mv = merges_view(merges@);
            assert(mv.take(k + 1).drop_last() =~= mv.take(k as int));
            assert(mv.take(k + 1).last() == mv[k as int]);
        }
        k = k + 1;
    }
    assert(merges_view(merges@).take(merges@.len() as int) =~= merges_view(merges@));
}

// ---------------------------------------------------------------------------
// Counting adjacent pairs
// ---------------------------------------------------------------------------

/// A pair of adjacent parts.
pub type PairView = (Seq<char>, Seq<char>);

/// The adjacent pairs of a word's parts, each weighted by the word's count.
pub open spec fn word_events(p: Seq<Seq<char>>, c: usize) -> Seq<(PairView, usize)> {
    if p.len() < 2 {
        Seq::empty()
    } else {
        Seq::new((p.len() - 1) as nat, |j: int| ((p[j], p[j + 1]), c))
    }
}

/// The weighted adjacent pairs of a corpus of words, word after word.
pub open spec fn corpus_events(corpus: Seq<(Seq<Seq<char>>, usize)>) -> Seq<(PairView, usize)>
    decreases corpus.len(),
{
    if corpus.len() == 0 {
        Seq::empty()
    } else {
        corpus_events(corpus.drop_last()) + word_events(corpus.last().0, corpus.last().1)
    }
}

/// Position of a pair in a tally, or -1.
pub open spec fn find_pair(t: Seq<(PairView, usize)>, pr: PairView) -> int
    decreases t.len(),
{
    if t.len() == 0 {
        -1
    } else if t.last().0 == pr {
        t.len() - 1
    } else {
        find_pair(t.drop_last(), pr)
    }
}

/// Adds counts with saturation at `usize::MAX`.
pub open spec fn sat_add(a: usize, b: usize) -> usize {
    if a + b > usize::MAX {
        usize::MAX
    } else {
        (a + b) as usize
    }
}

/// The distinct pairs of a sequence of weighted pairs, in order of first
/// occurrence, each with its total weight.
pub open spec fn tally(e: Seq<(PairView, usize)>) -> Seq<(PairView, usize)>
    decreases e.len(),
{
    if e.len() == 0 {
        Seq::empty()
    } else {
        tally_step(tally(e.drop_last()), e.last())
    }
}

/// Adds one weighted pair to a tally.
pub open spec fn tally_step(t: Seq<(PairView, usize)>, x: (PairView, usize)) -> Seq<(PairView, usize)> {
    let k = find_pair(t, x.0);
    if k >= 0 {
        t.update(k, (x.0, sat_add(t[k].1, x.1)))
    } else {
        t.push(x)
    }
}

/// Position of the first entry with the highest count.
pub open spec fn best_index(t: Seq<(PairView, usize)>) -> int
    decreases t.len(),
{
    if t.len() <= 1 {
        0
    } else {
        let b = best_index(t.drop_last());
        if t.last().1 > t[b].1 {
            t.len() - 1
        } else {
            b
        }
    }
}

proof fn lemma_find_pair(t: Seq<(PairView, usize)>, pr: PairView)
    ensures
        -1 <= find_pair(t, pr) < t.len(),
        find_pair(t, pr) >= 0 ==> t[find_pair(t, pr)].0 == pr,
        find_pair(t, pr) == -1 ==> forall|j: int| 0 <= j < t.len() ==> (#[trigger] t[j]).0 != pr,
    decreases t.len(),
{
    if t.len() > 0 {
        lemma_find_pair(t.drop_last(), pr);
        if t.last().0 != pr && find_pair(t, pr) == -1 {
            assert forall|j: int| 0 <= j < t.len() implies (#[trigger] t[j]).0 != pr by {
                if j < t.len() - 1 {
                    assert(t[j] == t.drop_last()[j]);
                }
            }
        }
        if find_pair(t, pr) >= 0 && t.last().0 != pr {
            assert(t[find_pair(t, pr)] == t.drop_last()[find_pair(t, pr)]);
        }
    }
}

/// The entry at `best_index` has the highest count of the tally, and every
/// entry before it a lower one.
pub proof fn lemma_best_index(t: Seq<(PairView, usize)>)
    requires
        t.len() > 0,
    ensures
        0 <= best_index(t) < t.len(),
        forall|j: int| 0 <= j < t.len() ==> (#[trigger] t[j]).1 <= t[best_index(t)].1,
        forall|j: int| 0 <= j < best_index(t) ==> (#[trigger] t[j]).1 < t[best_index(t)].1,
    decreases t.len(),
{
    if t.len() > 1 {
        let d = t.drop_last();
        lemma_best_index(d);
        assert forall|j: int| 0 <= j < t.len() - 1 implies (#[trigger] t[j]) == d[j] by {}
    }
}

/// How many times a pair occurs in weighted pairs, each occurrence counting its weight.
pub open spec fn pair_count(e: Seq<(PairView, usize)>, pr: PairView) -> int
    decreases e.len(),
{
    if e.len() == 0 {
        0
    } else {
        pair_count(e.drop_last(), pr) + if e.last().0 == pr { e.last().1 as int } else { 0int }
    }
}

/// `n`, or `usize::MAX` where `n` is larger.
pub open spec fn capped(n: int) -> int {
    if n > usize::MAX { usize::MAX as int } else { n }
}

proof fn lemma_pair_count_nonneg(e: Seq<(PairView, usize)>, pr: PairView)
    ensures
        pair_count(e, pr) >= 0,
    decreases e.len(),
{
    if e.len() > 0 {
        lemma_pair_count_nonneg(e.drop_last(), pr);
    }
}

/// The tally holds each pair of the weighted pairs once, in order of first
/// occurrence, with its total weight (capped at `usize::MAX`), and no other pair.
#[verifier::spinoff_prover]
pub proof fn lemma_tally_counts(e: Seq<(PairView, usize)>)
    ensures
        forall|i: int, j: int| 0 <= i < j < tally(e).len() ==> (#[trigger] tally(e)[i]).0 != (#[trigger] tally(e)[j]).0,
        forall|k: int| 0 <= k < tally(e).len() ==> (#[trigger] tally(e)[k]).1 == capped(pair_count(e, tally(e)[k].0)),
        forall|j: int| 0 <= j < e.len() ==> find_pair(tally(e), (#[trigger] e[j]).0) >= 0,
        forall|k: int| 0 <= k < tally(e).len() ==> exists|j: int| 0 <= j < e.len() && (#[trigger] e[j]).0 == (#[trigger] tally(e)[k]).0,
        forall|pr: PairView| find_pair(tally(e), pr) < 0 ==> #[trigger] pair_count(e, pr) == 0,
    decreases e.len(),
{
    if e.len() > 0 {
        let d = e.drop_last();
        let x = e.last();
        lemma_tally_counts(d);
        let t = tally(d);
        let k = find_pair(t, x.0);
        lemma_find_pair(t, x.0);
        let u = tally(e);
        assert(u == tally_step(t, x));
        assert forall|pr: PairView| #![trigger pair_count(e, pr)] pair_count(e, pr) == pair_count(d, pr) + if x.0 == pr { x.1 as int } else { 0int } by {}
        if k >= 0 {
            assert(u == t.update(k, (x.0, sat_add(t[k].1, x.1))));
            lemma_pair_count_nonneg(d, x.0);
            assert(u[k].1 == capped(pair_count(e, u[k].0)));
            assert forall|i: int| 0 <= i < u.len() implies (#[trigger] u[i]).1 == capped(pair_count(e, u[i].0)) by {
                if i != k {
                    assert(t[i].0 != t[k].0);
                }
            }
            assert forall|i: int, j: int| 0 <= i < j < u.len() implies (#[trigger] u[i]).0 != (#[trigger] u[j]).0 by {
                assert(t[i].0 != t[j].0);
            }
            assert forall|i: int| 0 <= i < u.len() implies exists|j: int| 0 <= j < e.len() && (#[trigger] e[j]).0 == (#[trigger] u[i]).0 by {
                assert(u[i].0 == t[i].0);
                let j0 = choose|j: int| 0 <= j < d.len() && (#[trigger] d[j]).0 == t[i].0;
                assert(e[j0] == d[j0]);
            }
        } else {
            assert(u == t.push(x));
            assert forall|i: int| 0 <= i < u.len() implies (#[trigger] u[i]).1 == capped(pair_count(e, u[i].0)) by {
                if i < t.len() {
                    assert(u[i] == t[i]);
                } else {
                    assert(pair_count(d, x.0) == 0);
                }
            }
            assert forall|i: int, j: int| 0 <= i < j < u.len() implies (#[trigger] u[i]).0 != (#[trigger] u[j]).0 by {
                if j < t.len() {
                    assert(t[i].0 != t[j].0);
                } else {
                    assert(u[i] == t[i]);
                }
            }
            assert forall|i: int| 0 <= i < u.len() implies exists|j: int| 0 <= j < e.len() && (#[trigger] e[j]).0 == (#[trigger] u[i]).0 by {
                if i < t.len() {
                    assert(u[i] == t[i]);
                    let j0 = choose|j: int| 0 <= j < d.len() && (#[trigger] d[j]).0 == t[i].0;
                    assert(e[j0] == d[j0]);
                } else {
                    assert(e[e.len() - 1] == x);
                }
            }
        }
        lemma_find_pair(u, x.0);
        assert forall|j: int| 0 <= j < e.len() implies find_pair(u, (#[trigger] e[j]).0) >= 0 by {
            if j < e.len() - 1 {
                assert(e[j] == d[j]);
                lemma_find_pair(t, d[j].0);
                let kk = find_pair(t, d[j].0);
                lemma_find_pair(u, d[j].0);
                if find_pair(u, d[j].0) < 0 {
                    assert(u[kk].0 == t[kk].0);
                }
            }
        }
        assert forall|pr: PairView| find_pair(u, pr) < 0 implies #[trigger] pair_count(e, pr) == 0 by {
            lemma_find_pair(u, pr);
            lemma_find_pair(t, pr);
            if find_pair(t, pr) >= 0 {
                let kk = find_pair(t, pr);
                assert(u[kk].0 == t[kk].0);
            }
        }
    }
}

proof fn lemma_tally_unique(e: Seq<(PairView, usize)>)
    ensures
        forall|i: int, j: int| 0 <= i < j < tally(e).len() ==> (#[trigger] tally(e)[i]).0 != (#[trigger] tally(e)[j]).0,
{
    lemma_tally_counts(e);
}

proof fn lemma_tally_covers(e: Seq<(PairView, usize)>)
    ensures
        forall|j: int| 0 <= j < e.len() ==> find_pair(tally(e), (#[trigger] e[j]).0) >= 0,
{
    lemma_tally_counts(e);
}

proof fn lemma_tally_occurs(e: Seq<(PairView, usize)>)
    ensures
        forall|k: int| 0 <= k < tally(e).len() ==> exists|j: int| 0 <= j < e.len() && (#[trigger] e[j]).0 == (#[trigger] tally(e)[k]).0,
{
    lemma_tally_counts(e);
}

proof fn lemma_find_unique(t: Seq<(PairView, usize)>, k: int)
    requires
        forall|i: int, j: int| 0 <= i < j < t.len() ==> (#[trigger] t[i]).0 != (#[trigger] t[j]).0,
        0 <= k < t.len(),
    ensures
        find_pair(t, t[k].0) == k,
{
    lemma_find_pair(t, t[k].0);
    let f = find_pair(t, t[k].0);
    if f != k {
        if f < k {
            assert(t[f].0 != t[k].0);
        } else {
            assert(t[k].0 != t[f].0);
        }
    }
}

/// Adding a weighted pair to a tally keeps the pairs already there, in place.
proof fn lemma_step_prefix(t: Seq<(PairView, usize)>, x: (PairView, usize))
    ensures
        tally_step(t, x).len() >= t.len(),
        forall|k: int| 0 <= k < t.len() ==> (#[trigger] tally_step(t, x)[k]).0 == t[k].0,
{
    lemma_find_pair(t, x.0);
}

/// One step of `lemma_tally_order`: from the order of the tally without the
/// last weighted pair to that of the whole tally.
#[verifier::spinoff_prover]
proof fn lemma_tally_order_step(e: Seq<(PairView, usize)>, j: int, k: int)
    requires
        e.len() > 0,
        0 <= j < e.len(),
        0 <= k <= find_pair(tally(e), e[j].0),
        forall|jj: int, kk: int|
            #![trigger e.drop_last()[jj], tally(e.drop_last())[kk]]
            0 <= jj < e.drop_last().len() && 0 <= kk <= find_pair(tally(e.drop_last()), e.drop_last()[jj].0)
                ==> exists|i: int| 0 <= i <= jj && (#[trigger] e.drop_last()[i]).0 == tally(e.drop_last())[kk].0,
    ensures
        exists|i: int| 0 <= i <= j && (#[trigger] e[i]).0 == tally(e)[k].0,
{
    let d = e.drop_last();
    let t = tally(d);
    let u = tally(e);
    assert(u == tally_step(t, e.last()));
    lemma_find_pair(u, e[j].0);
    if j == e.len() - 1 {
        lemma_tally_occurs(e);
        assert(u[k] == u[k]);
        let i0 = choose|i: int| 0 <= i < e.len() && (#[trigger] e[i]).0 == u[k].0;
        assert(i0 <= j);
    } else {
        assert(e[j] == d[j]);
        lemma_tally_covers(d);
        assert(find_pair(t, d[j].0) >= 0);
        let kk = find_pair(t, d[j].0);
        lemma_find_pair(t, d[j].0);
        lemma_step_prefix(t, e.last());
        assert(u[kk].0 == t[kk].0);
        lemma_tally_unique(e);
        lemma_find_unique(u, kk);
        assert(k <= kk);
        assert(u[k].0 == t[k].0);
        assert(d[j] == d[j] && t[k] == t[k]);
        let i0 = choose|i: int| 0 <= i <= j && (#[trigger] d[i]).0 == t[k].0;
        assert(e[i0] == d[i0]);
    }
}

/// A pair that the tally holds at or before the position of some
/// occurrence's pair has occurred at or before that occurrence.
proof fn lemma_tally_order(e: Seq<(PairView, usize)>)
    ensures
        forall|j: int, k: int|
            #![trigger e[j], tally(e)[k]]
            0 <= j < e.len() && 0 <= k <= find_pair(tally(e), e[j].0) ==> exists|i: int| 0 <= i <= j && (#[trigger] e[i]).0 == tally(e)[k].0,
    decreases e.len(),
{
    if e.len() > 0 {
        lemma_tally_order(e.drop_last());
        assert forall|j: int, k: int|
            #![trigger e[j], tally(e)[k]]
            0 <= j < e.len() && 0 <= k <= find_pair(tally(e), e[j].0) implies exists|i: int| 0 <= i <= j && (#[trigger] e[i]).0 == tally(e)[k].0 by {
            lemma_tally_order_step(e, j, k);
        }
    }
}

/// Index of a pair in a tally.
fn find_pair_exec(t: &Vec<((String, String), usize)>, a: &String, b: &String) -> (r: Option<usize>)
    ensures
        match r {
            Some(k) => k as int == find_pair(tally_view(t@), (a@, b@)),
            None => find_pair(tally_view(t@), (a@, b@)) == -1,
        },
{
    let mut k = t.len();
    assert(tally_view(t@).take(k as int) =~= tally_view(t@));
    while k > 0
        invariant
            k <= t@.len(),
            find_pair(tally_view(t@), (a@, b@)) == find_pair(tally_view(t@).take(k as int), (a@, b@)),
        decreases k,
    {
        let ghost tk = tally_view(t@).take(k as int);
        assert(tk.last() == tally_view(t@)[k - 1]);
        if t[k - 1].0.0 == *a && t[k - 1].0.1 == *b {
            return Some(k - 1);
        }
        assert(tk.drop_last() =~= tally_view(t@).take(k - 1));
        k = k - 1;
    }
    None
}

/// The characters of a tally.
pub open spec fn tally_view(t: Seq<((String, String), usize)>) -> Seq<(PairView, usize)> {
    t.map_values(|e: ((String, String), usize)| ((e.0.0@, e.0.1@), e.1))
}

/// The characters of a corpus of words with counts.
pub open spec fn corpus_view(c: Seq<(Vec<String>, usize)>) -> Seq<(Seq<Seq<char>>, usize)> {
    c.map_values(|e: (Vec<String>, usize)| (parts_view(e.0@), e.1))
}

/// Adds one weighted pair to a tally, in place.
fn tally_add(t: &mut Vec<((String, String), usize)>, a: &String, b: &String, c: usize)
    ensures
        tally_view(final(t)@) == tally_step(tally_view(old(t)@), ((a@, b@), c)),
{
    proof {
        lemma_find_pair(tally_view(t@), (a@, b@));
    }
    match find_pair_exec(t, a, b) {
        Some(k) => {
            let n = t[k].1.saturating_add(c);
            let entry = ((t[k].0.0.clone(), t[k].0.1.clone()), n);
            t.set(k, entry);
            assert(tally_view(t@) =~= tally_view(old(t)@).update(k as int, ((a@, b@), sat_add(tally_view(old(t)@)[k as int].1, c))));
        }
        None => {
            t.push(((a.clone(), b.clone()), c));
            assert(tally_view(t@) =~= tally_view(old(t)@).push(((a@, b@), c)));
        }
    }
}

/// Tallies the weighted adjacent pairs of a corpus.
pub fn count_pairs(corpus: &Vec<(Vec<String>, usize)>) -> (t: Vec<((String, String), usize)>)
    ensures
        tally_view(t@) == tally(corpus_events(corpus_view(corpus@))),
{
    let mut t: Vec<((String, String), usize)> = Vec::new();
    let mut w: usize = 0;
    assert(corpus_view(corpus@).take(0) =~= Seq::<(Seq<Seq<char>>, usize)>::empty());
    assert(tally_view(t@) =~= Seq::<(PairView, usize)>::empty());
    while w < corpus.len()
        invariant
            w <= corpus@.len(),
            tally_view(t@) == tally(corpus_events(corpus_view(corpus@).take(w as int))),
        decreases corpus.len() - w,
    {
        let parts = &corpus[w].0;
        let c = corpus[w].1;
        let ghost before = corpus_events(corpus_view(corpus@).take(w as int));
        let ghost ev = word_events(parts_view(parts@), c);
        if parts.len() >= 2 {
            let mut j: usize = 0;
            while j < parts.len() - 1
                invariant
                    parts@.len() >= 2,
                    j <= parts@.len() - 1,
                    ev == word_events(parts_view(parts@), c),
                    tally_view(t@) == tally(before + ev.take(j as int)),
                decreases parts.len() - 1 - j,
            {
                tally_add(&mut t, &parts[j], &parts[j + 1], c);
                proof {
                    assert((before + ev.take(j + 1)).drop_last() =~= before + ev.take(j as int));
                    assert((before + ev.take(j + 1)).last() == ev[j as int]);
                }
                j = j + 1;
            }
            assert(ev.take(j as int) =~= ev);
        } else {
            assert(ev =~= Seq::<(PairView, usize)>::empty());
            assert(before + ev.take(0) =~= before);
        }
        proof {
            let cv = corpus_view(corpus@);
            assert(cv.take(w + 1).drop_last() =~= cv.take(w as int));
            assert(cv.take(w + 1).last() == cv[w as int]);
            assert(before + ev.take(ev.len() as int) =~= before + ev);
        }
        w = w + 1;
    }
    assert(corpus_view(corpus@).take(corpus@.len() as int) =~= corpus_view(corpus@));
    t
}

/// Index of the first pair with the highest count.
pub fn best_pair_index(t: &Vec<((String, String), usize)>) -> (k: usize)
    requires
        t@.len() > 0,
    ensures
        k as int == best_index(tally_view(t@)),
        k < t@.len(),
{
    let mut b: usize = 0;
    let mut i: usize = 1;
    assert(tally_view(t@).take(1).len() == 1);
    while i < t.len()
        invariant
            1 <= i <= t@.len(),
            b < i,
            b as int == best_index(tally_view(t@).take(i as int)),
        decreases t.len() - i,
    {
        proof {
            let tv = tally_view(t@);
            assert(tv.take(i + 1).drop_last() =~= tv.take(i as int));
            assert(tv.take(i + 1)[b as int] == tv[b as int]);
        }
        if t[i].1 > t[b].1 {
            b = i;
        }
        i = i + 1;
    }
    assert(tally_view(t@).take(i as int) =~= tally_view(t@));
    b
}

// ---------------------------------------------------------------------------
// Learning merge rules
// ---------------------------------------------------------------------------

/// A merge rule applied to every word of a corpus.
pub open spec fn merge_corpus(corpus: Seq<(Seq<Seq<char>>, usize)>, rule: MergeView) -> Seq<(Seq<Seq<char>>, usize)> {
    corpus.map_values(|e: (Seq<Seq<char>>, usize)| (merge_parts(e.0, rule), e.1))
}

/// The merge rules learned from a corpus in at most `rounds` rounds: each
/// round takes the most frequent adjacent pair (the first one met among
/// equally frequent pairs), merges it into the concatenation of its parts
/// everywhere, and stops early when no word has two parts left.
pub open spec fn learn_merges(corpus: Seq<(Seq<Seq<char>>, usize)>, rounds: nat) -> Seq<MergeView>
    decreases rounds,
{
    if rounds == 0 {
        Seq::empty()
    } else {
        let t = tally(corpus_events(corpus));
        if t.len() == 0 {
            Seq::empty()
        } else {
            let pr = t[best_index(t)].0;
            let rule = (pr.0, pr.1, pr.0 + pr.1);
            seq![rule] + learn_merges(merge_corpus(corpus, rule), (rounds - 1) as nat)
        }
    }
}

/// At most one rule is learned per round.
pub proof fn lemma_learn_merges_len(corpus: Seq<(Seq<Seq<char>>, usize)>, rounds: nat)
    ensures
        learn_merges(corpus, rounds).len() <= rounds,
    decreases rounds,
{
    if rounds > 0 {
        let t = tally(corpus_events(corpus));
        if t.len() > 0 {
            let pr = t[best_index(t)].0;
            let rule = (pr.0, pr.1, pr.0 + pr.1);
            lemma_learn_merges_len(merge_corpus(corpus, rule), (rounds - 1) as nat);
        }
    }
}

/// The first rule learned from a corpus with an adjacent pair merges a most
/// frequent pair into its concatenation: the pair occurs in the corpus, no
/// adjacent pair occurs more often (each occurrence counting the frequency of
/// its word; counts up to `usize::MAX`), and of two equally frequent pairs it
/// is the one that occurs first.
#[verifier::spinoff_prover]
pub proof fn lemma_first_rule_most_frequent(corpus: Seq<(Seq<Seq<char>>, usize)>, rounds: nat)
    requires
        rounds > 0,
        corpus_events(corpus).len() > 0,
    ensures
        learn_merges(corpus, rounds).len() > 0,
        ({
            let e = corpus_events(corpus);
            let r = learn_merges(corpus, rounds)[0];
            &&& r.2 == r.0 + r.1
            &&& exists|i: int| 0 <= i < e.len() && (#[trigger] e[i]).0 == (r.0, r.1)
            &&& forall|j: int| 0 <= j < e.len() && pair_count(e, (#[trigger] e[j]).0) <= usize::MAX
                    ==> pair_count(e, e[j].0) <= pair_count(e, (r.0, r.1))
            &&& forall|j: int| 0 <= j < e.len() && (#[trigger] e[j]).0 != (r.0, r.1)
                    && pair_count(e, e[j].0) == pair_count(e, (r.0, r.1)) && pair_count(e, e[j].0) <= usize::MAX
                    ==> exists|i: int| 0 <= i < j && (#[trigger] e[i]).0 == (r.0, r.1)
        }),
{
    let e = corpus_events(corpus);
    let t = tally(e);
    lemma_tally_counts(e);
    lemma_tally_order(e);
    assert(e[0] == e[0]);
    lemma_find_pair(t, e[0].0);
    let b = best_index(t);
    lemma_best_index(t);
    let pr = t[b].0;
    let rule = (pr.0, pr.1, pr.0 + pr.1);
    assert(learn_merges(corpus, rounds) == seq![rule] + learn_merges(merge_corpus(corpus, rule), (rounds - 1) as nat));
    let r = learn_merges(corpus, rounds)[0];
    assert(r == rule);
    assert((r.0, r.1) == pr);
    assert(t[b] == t[b]);
    assert forall|j: int| 0 <= j < e.len() && pair_count(e, (#[trigger] e[j]).0) <= usize::MAX
        implies pair_count(e, e[j].0) <= pair_count(e, (r.0, r.1)) by {
        lemma_find_pair(t, e[j].0);
        let k = find_pair(t, e[j].0);
        assert(t[k].1 <= t[b].1);
    }
    assert forall|j: int| 0 <= j < e.len() && (#[trigger] e[j]).0 != (r.0, r.1)
        && pair_count(e, e[j].0) == pair_count(e, (r.0, r.1)) && pair_count(e, e[j].0) <= usize::MAX
        implies exists|i: int| 0 <= i < j && (#[trigger] e[i]).0 == (r.0, r.1) by {
        lemma_find_pair(t, e[j].0);
        let k = find_pair(t, e[j].0);
        assert(t[k].1 == t[b].1);
        assert(k != b);
        assert(!(k < b));
        assert(e[j] == e[j] && t[b] == t[b]);
        let i0 = choose|i: int| 0 <= i <= j && (#[trigger] e[i]).0 == t[b].0;
        assert(i0 != j);
    }
}

/// Every rule that BPE learns merges its two parts into their concatenation.
pub proof fn lemma_learned_merges_concatenate(corpus: Seq<(Seq<Seq<char>>, usize)>, rounds: nat)
    ensures
        merges_concatenate(learn_merges(corpus, rounds)),
    decreases rounds,
{
    if rounds > 0 {
        let t = tally(corpus_events(corpus));
        if t.len() > 0 {
            let pr = t[best_index(t)].0;
            let rule = (pr.0, pr.1, pr.0 + pr.1);
            let rest = learn_merges(merge_corpus(corpus, rule), (rounds - 1) as nat);
            lemma_learned_merges_concatenate(merge_corpus(corpus, rule), (rounds - 1) as nat);
            let all = seq![rule] + rest;
            assert forall|k: int| 0 <= k < all.len() implies (#[trigger] all[k]).2 == all[k].0 + all[k].1 by {
                if k > 0 {
                    assert(all[k] == rest[k - 1]);
                }
            }
        }
    }
}

/// Rules that concatenate stay so when more such rules are appended.
pub proof fn lemma_merges_concatenate_append(a: Seq<MergeView>, b: Seq<MergeView>)
    requires
        merges_concatenate(a),
        merges_concatenate(b),
    ensures
        merges_concatenate(a + b),
{
    assert forall|k: int| 0 <= k < (a + b).len() implies (#[trigger] (a + b)[k]).2 == (a + b)[k].0 + (a + b)[k].1 by {
        if k < a.len() {
            assert((a + b)[k] == a[k]);
        } else {
            assert((a + b)[k] == b[k - a.len()]);
        }
    }
}

/// The merged tokens of merge rules.
pub open spec fn merged_tokens(ms: Seq<MergeView>) -> Seq<Seq<char>> {
    ms.map_values(|m: MergeView| m.2)
}

proof fn lemma_add_tokens_push(v: VocabView, toks: Seq<Seq<char>>, t: Seq<char>)
    ensures
        add_tokens_spec(v, toks.push(t)) == add_token_spec(add_tokens_spec(v, toks), t),
{
    assert(toks.push(t).drop_last() =~= toks);
}

/// Learns merge rules from a corpus in at most `rounds` rounds, appending
/// them to `merges` and adding each merged token to `vocab`.
pub fn learn_merges_into(
    merges: &mut Vec<(String, String, String)>,
    vocab: &mut Vocab,
    corpus: Vec<(Vec<String>, usize)>,
    rounds: usize,
)
    requires
        old(vocab)@.ids.dom().len() + rounds <= usize::MAX,
        forall|i: int| 0 <= i < corpus@.len() ==> (#[trigger] corpus@[i]).0@.len() >= 1,
    ensures
        merges_view(final(merges)@) == merges_view(old(merges)@) + learn_merges(corpus_view(corpus@), rounds as nat),
        final(vocab)@ == add_tokens_spec(old(vocab)@, merged_tokens(learn_merges(corpus_view(corpus@), rounds as nat))),
{
    let mut corpus = corpus;
    let ghost c0 = corpus_view(corpus@);
    let ghost mut learned: Seq<MergeView> = Seq::empty();
    proof {
        vocab.lemma_view_finite();
        assert(merges_view(merges@) =~= merges_view(old(merges)@) + learned);
        assert(merged_tokens(learned) =~= Seq::<Seq<char>>::empty());
    }
    let mut r: usize = 0;
    while r < rounds
        invariant_except_break
            r <= rounds,
        invariant
            old(vocab)@.ids.dom().len() + rounds <= usize::MAX,
            old(vocab)@.ids.dom().finite(),
            forall|i: int| 0 <= i < corpus@.len() ==> (#[trigger] corpus@[i]).0@.len() >= 1,
            learned.len() == r,
            learn_merges(c0, rounds as nat) == learned + learn_merges(corpus_view(corpus@), (rounds - r) as nat),
            merges_view(merges@) == merges_view(old(merges)@) + learned,
            vocab@ == add_tokens_spec(old(vocab)@, merged_tokens(learned)),
        ensures
            learn_merges(c0, rounds as nat) == learned,
            merges_view(merges@) == merges_view(old(merges)@) + learned,
            vocab@ == add_tokens_spec(old(vocab)@, merged_tokens(learned)),
        decreases rounds - r,
    {
        let t = count_pairs(&corpus);
        if t.len() == 0 {
            assert(learn_merges(corpus_view(corpus@), (rounds - r) as nat) =~= Seq::<MergeView>::empty());
            assert(learned + Seq::<MergeView>::empty() =~= learned);
            break;
        }
        let k = best_pair_index(&t);
        let first = t[k].0.0.clone();
        let second = t[k].0.1.clone();
        let merged = concat(first.as_str(), second.as_str());
        let ghost rule: MergeView = (first@, second@, merged@);
        proof {
            assert(tally_view(t@)[k as int].0 == (first@, second@));
            lemma_add_tokens_len(old(vocab)@, merged_tokens(learned));
            assert(merged_tokens(learned).len() == r);
        }
        vocab.add_token(merged.as_str());
        let mut w: usize = 0;
        let ghost cv_before = corpus_view(corpus@);
        while w < corpus.len()
            invariant
                w <= corpus@.len(),
                rule == (first@, second@, merged@),
                corpus@.len() == cv_before.len(),
                forall|i: int| 0 <= i < corpus@.len() ==> (#[trigger] corpus@[i]).0@.len() >= 1,
                forall|i: int| 0 <= i < w ==> (#[trigger] corpus_view(corpus@)[i]) == merge_corpus(cv_before, rule)[i],
                forall|i: int| w <= i < corpus@.len() ==> (#[trigger] corpus_view(corpus@)[i]) == cv_before[i],
            decreases corpus.len() - w,
        {
            assert(corpus_view(corpus@)[w as int] == cv_before[w as int]);
            assert(corpus_view(corpus@)[w as int].0 == parts_view(corpus@[w as int].0@));
            let ghost pre_swap = corpus@;
            let mut entry = (Vec::new(), 0usize);
            std::mem::swap(&mut entry, &mut corpus[w]);
            assert(entry == pre_swap[w as int]);
            assert(parts_view(entry.0@) == cv_before[w as int].0);
            assert(entry.1 == cv_before[w as int].1);
            let ghost pv0 = parts_view(entry.0@);
            merge_in_place(&mut entry.0, &first, &second, &merged);
            assert(parts_view(entry.0@) == merge_scan(pv0, 0, first@, second@, merged@));
            assert(rule.0 == first@ && rule.1 == second@ && rule.2 == merged@);
            assert(parts_view(entry.0@) == merge_parts(cv_before[w as int].0, rule));
            assert(merge_corpus(cv_before, rule)[w as int] == (merge_parts(cv_before[w as int].0, rule), cv_before[w as int].1));
            corpus.set(w, entry);
            proof {
                assert(corpus@ == pre_swap.update(w as int, entry));
                assert forall|i: int| 0 <= i < w + 1 implies (#[trigger] corpus_view(corpus@)[i]) == merge_corpus(cv_before, rule)[i] by {
                    if i < w {
                        assert(corpus@[i] == pre_swap[i]);
                        assert(corpus_view(pre_swap)[i] == merge_corpus(cv_before, rule)[i]);
                    } else {
                        assert(corpus@[i] == entry);
                    }
                }
                assert forall|i: int| w + 1 <= i < corpus@.len() implies (#[trigger] corpus_view(corpus@)[i]) == cv_before[i] by {
                    assert(corpus@[i] == pre_swap[i]);
                    assert(corpus_view(pre_swap)[i] == cv_before[i]);
                }
            }
            w = w + 1;
        }
        proof {
            assert(corpus_view(corpus@) =~= merge_corpus(cv_before, rule));
            assert(learn_merges(cv_before, (rounds - r) as nat) =~= seq![rule] + learn_merges(corpus_view(corpus@), (rounds - r - 1) as nat));
            assert(learned.push(rule) + learn_merges(corpus_view(corpus@), (rounds - (r + 1)) as nat) =~= learned + (seq![rule] + learn_merges(corpus_view(corpus@), (rounds - r - 1) as nat)));
            lemma_add_tokens_push(old(vocab)@, merged_tokens(learned), merged@);
            assert(merged_tokens(learned.push(rule)) =~= merged_tokens(learned).push(merged@));
            learned = learned.push(rule);
        }
        let ghost prev = merges@;
        merges.push((first, second, merged));
        assert(merges_view(merges@) =~= merges_view(prev).push(rule));
        assert(merges_view(merges@) =~= merges_view(old(merges)@) + learned);
        r = r + 1;
    }
    proof {
        if r == rounds {
            assert(learned + Seq::<MergeView>::empty() =~= learned);
        }
    }
}

} // verus!
