//! Counting the occurrences of words, in order of first occurrence.
use vstd::prelude::*;
use crate::vocab::string_views;

verus! {

/// Position of a word in a count table, or -1.
pub open spec fn find_word(t: Seq<(Seq<char>, usize)>, w: Seq<char>) -> int
    decreases t.len(),
{
    if t.len() == 0 {
        -1
    } else if t.last().0 == w {
        t.len() - 1
    } else {
        find_word(t.drop_last(), w)
    }
}

/// The distinct words of `ws` in order of first occurrence, each with the
/// number of times it occurs.
pub open spec fn count_words(ws: Seq<Seq<char>>) -> Seq<(Seq<char>, usize)>
    decreases ws.len(),
{
    if ws.len() == 0 {
        Seq::empty()
    } else {
        let t = count_words(ws.drop_last());
        let k = find_word(t, ws.last());
        if k >= 0 {
            t.update(k, (ws.last(), (t[k].1 + 1) as usize))
        } else {
            t.push((ws.last(), 1usize))
        }
    }
}

/// The number of occurrences of `w` in `ws`.
pub open spec fn occurrences(ws: Seq<Seq<char>>, w: Seq<char>) -> nat
    decreases ws.len(),
{
    if ws.len() == 0 {
        0
    } else {
        occurrences(ws.drop_last(), w) + if ws.last() == w { 1nat } else { 0nat }
    }
}

pub proof fn lemma_find_word(t: Seq<(Seq<char>, usize)>, w: Seq<char>)
    ensures
        -1 <= find_word(t, w) < t.len(),
        find_word(t, w) >= 0 ==> t[find_word(t, w)].0 == w,
        find_word(t, w) == -1 ==> forall|j: int| 0 <= j < t.len() ==> (#[trigger] t[j]).0 != w,
    decreases t.len(),
{
    if t.len() > 0 {
        lemma_find_word(t.drop_last(), w);
        if t.last().0 != w && find_word(t, w) == -1 {
            assert forall|j: int| 0 <= j < t.len() implies (#[trigger] t[j]).0 != w by {
                if j < t.len() - 1 {
                    assert(t[j] == t.drop_last()[j]);
                }
            }
        }
        if find_word(t, w) >= 0 && t.last().0 != w {
            assert(t[find_word(t, w)] == t.drop_last()[find_word(t, w)]);
        }
    }
}

/// Each entry of the table is a word of `ws` with its number of occurrences;
/// each word of `ws` has an entry, and no word has two.
pub proof fn lemma_count_words(ws: Seq<Seq<char>>)
    requires
        ws.len() <= usize::MAX,
    ensures
        count_words(ws).len() <= ws.len(),
        forall|i: int| 0 <= i < count_words(ws).len() ==> (#[trigger] count_words(ws)[i]).1 == occurrences(ws, count_words(ws)[i].0),
        forall|i: int| 0 <= i < count_words(ws).len() ==> ws.contains((#[trigger] count_words(ws)[i]).0),
        forall|i: int| 0 <= i < count_words(ws).len() ==> 1 <= (#[trigger] count_words(ws)[i]).1 <= ws.len(),
        forall|i: int, j: int| 0 <= i < j < count_words(ws).len() ==> (#[trigger] count_words(ws)[i]).0 != (#[trigger] count_words(ws)[j]).0,
        forall|w: Seq<char>| ws.contains(w) ==> find_word(count_words(ws), w) >= 0,
    decreases ws.len(),
{
    if ws.len() > 0 {
        let p = ws.drop_last();
        let x = ws.last();
        lemma_count_words(p);
        let t = count_words(p);
        lemma_find_word(t, x);
        let k = find_word(t, x);
        let t2 = count_words(ws);
        assert forall|w: Seq<char>| #[trigger] occurrences(ws, w) == occurrences(p, w) + if x == w { 1nat } else { 0nat } by {}
        assert forall|i: int| 0 <= i < t2.len() implies (#[trigger] t2[i]).1 == occurrences(ws, t2[i].0) by {
            if k >= 0 {
                if i == k {
                    assert(t[k].1 == occurrences(p, x));
                    assert(t[k].1 <= p.len());
                } else {
                    assert(t2[i] == t[i]);
                    assert(t[i].0 != x);
                }
            } else {
                if i < t.len() {
                    assert(t2[i] == t[i]);
                    assert(t[i].0 != x);
                } else {
                    assert(!p.contains(x)) by {
                        if p.contains(x) {
                            assert(find_word(t, x) >= 0);
                        }
                    }
                    lemma_occurrences_absent(p, x);
                }
            }
        }
        assert forall|i: int| 0 <= i < t2.len() implies ws.contains((#[trigger] t2[i]).0) by {
            if k >= 0 && i == k {
                assert(ws[ws.len() - 1] == x);
            } else if k < 0 && i == t.len() {
                assert(ws[ws.len() - 1] == x);
            } else {
                assert(t2[i] == t[i]);
                let j = choose|j: int| 0 <= j < p.len() && p[j] == t[i].0;
                assert(ws[j] == p[j]);
            }
        }
        assert forall|i: int| 0 <= i < t2.len() implies 1 <= (#[trigger] t2[i]).1 <= ws.len() by {
            lemma_occurrences_bound(ws, t2[i].0);
            if k >= 0 && i == k {
            } else if k < 0 && i == t.len() {
            } else {
                assert(t2[i] == t[i]);
            }
        }
        assert forall|i: int, j: int| 0 <= i < j < t2.len() implies (#[trigger] t2[i]).0 != (#[trigger] t2[j]).0 by {
            if k >= 0 {
                if i != k {
                    assert(t2[i] == t[i]);
                }
                if j != k {
                    assert(t2[j] == t[j]);
                }
            } else {
                assert(t2[i] == t[i]);
                if j < t.len() {
                    assert(t2[j] == t[j]);
                }
            }
        }
        assert forall|w: Seq<char>| ws.contains(w) implies find_word(t2, w) >= 0 by {
            lemma_find_word(t2, w);
            if find_word(t2, w) == -1 {
                if w == x {
                    if k >= 0 {
                        assert(t2[k].0 == x);
                    } else {
                        assert(t2[t.len() as int].0 == x);
                    }
                } else {
                    let j = choose|j: int| 0 <= j < ws.len() && ws[j] == w;
                    assert(p[j] == ws[j]);
                    assert(p.contains(w));
                    lemma_find_word(t, w);
                    let m = find_word(t, w);
                    assert(t[m].0 == w);
                    if k >= 0 && m == k {
                    } else {
                        assert(t2[m] == t[m]);
                    }
                }
            }
        }
    }
}

proof fn lemma_occurrences_absent(ws: Seq<Seq<char>>, w: Seq<char>)
    requires
        !ws.contains(w),
    ensures
        occurrences(ws, w) == 0,
    decreases ws.len(),
{
    if ws.len() > 0 {
        assert(!ws.drop_last().contains(w)) by {
            if ws.drop_last().contains(w) {
                let j = choose|j: int| 0 <= j < ws.drop_last().len() && ws.drop_last()[j] == w;
                assert(ws[j] == w);
            }
        }
        assert(ws[ws.len() - 1] != w);
        lemma_occurrences_absent(ws.drop_last(), w);
    }
}

proof fn lemma_occurrences_bound(ws: Seq<Seq<char>>, w: Seq<char>)
    ensures
        occurrences(ws, w) <= ws.len(),
        ws.contains(w) ==> occurrences(ws, w) >= 1,
    decreases ws.len(),
{
    if ws.len() > 0 {
        lemma_occurrences_bound(ws.drop_last(), w);
        if ws.contains(w) && ws.last() != w {
            let j = choose|j: int| 0 <= j < ws.len() && ws[j] == w;
            assert(ws.drop_last()[j] == w);
        }
    }
}

/// The characters of a count table.
pub open spec fn counts_view(t: Seq<(String, usize)>) -> Seq<(Seq<char>, usize)> {
    t.map_values(|e: (String, usize)| (e.0@, e.1))
}

/// Counts the occurrences of words, in order of first occurrence.
pub fn count_words_exec(ws: &Vec<String>) -> (t: Vec<(String, usize)>)
    ensures
        counts_view(t@) == count_words(string_views(ws@)),
{
    let mut t: Vec<(String, usize)> = Vec::new();
    let mut i: usize = 0;
    assert(string_views(ws@).take(0) =~= Seq::<Seq<char>>::empty());
    assert(counts_view(t@) =~= Seq::<(Seq<char>, usize)>::empty());
    while i < ws.len()
        invariant
            i <= ws@.len(),
            counts_view(t@) == count_words(string_views(ws@).take(i as int)),
        decreases ws.len() - i,
    {
        let ghost pre = string_views(ws@).take(i as int);
        let ghost cur = string_views(ws@).take(i + 1);
        assert(cur.drop_last() =~= pre);
        assert(cur.last() == ws@[i as int]@);
        proof {
            lemma_count_words(cur);
            lemma_count_words(pre);
            lemma_find_word(counts_view(t@), ws@[i as int]@);
        }
        let mut k = t.len();
        assert(counts_view(t@).take(k as int) =~= counts_view(t@));
        while k > 0
            invariant
                k <= t@.len(),
                i < ws@.len(),
                find_word(counts_view(t@), ws@[i as int]@) == find_word(counts_view(t@).take(k as int), ws@[i as int]@),
            ensures
                k <= t@.len(),
                i < ws@.len(),
                find_word(counts_view(t@), ws@[i as int]@) == find_word(counts_view(t@).take(k as int), ws@[i as int]@),
                k > 0 ==> t@[k - 1].0@ == ws@[i as int]@,
            decreases k,
        {
            let ghost tk = counts_view(t@).take(k as int);
            assert(tk.last() == counts_view(t@)[k - 1]);
            if t[k - 1].0 == ws[i] {
                break;
            }
            assert(tk.drop_last() =~= counts_view(t@).take(k - 1));
            k = k - 1;
        }
        if k > 0 {
            let idx = k - 1;
            assert(counts_view(t@).take(k as int).last() == counts_view(t@)[idx as int]);
            assert(find_word(counts_view(t@), ws@[i as int]@) == idx);
            assert(counts_view(t@)[idx as int].1 <= pre.len());
            let n = t[idx].1 + 1;
            let w = t[idx].0.clone();
            t.set(idx, (w, n));
        } else {
            assert(counts_view(t@).take(0) =~= Seq::<(Seq<char>, usize)>::empty());
            t.push((ws[i].clone(), 1));
        }
        assert(counts_view(t@) =~= count_words(cur));
        i = i + 1;
    }
    assert(string_views(ws@).take(ws@.len() as int) =~= string_views(ws@));
    t
}

} // verus!
