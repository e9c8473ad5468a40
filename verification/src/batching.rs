//! Preparing token sequences for training: batches of equal-length input
//! sequences with their target rows, and validation windows whose target is
//! the input shifted by one token.
use vstd::prelude::*;

verus! {

/// The views of a list of token sequences.
pub open spec fn token_rows(v: Seq<Vec<usize>>) -> Seq<Seq<usize>> {
    v.map_values(|r: Vec<usize>| r@)
}

/// The sequences of `inputs` at the positions of `indices`, in order,
/// skipping positions past the end.
pub open spec fn selected(inputs: Seq<Seq<usize>>, indices: Seq<usize>) -> Seq<Seq<usize>>
    decreases indices.len(),
{
    if indices.len() == 0 {
        Seq::empty()
    } else {
        let r = selected(inputs, indices.drop_last());
        if indices.last() < inputs.len() {
            r.push(inputs[indices.last() as int])
        } else {
            r
        }
    }
}

/// The smallest length among `rows`, and at most `cap`.
pub open spec fn min_len(rows: Seq<Seq<usize>>, cap: nat) -> nat
    decreases rows.len(),
{
    if rows.len() == 0 {
        cap
    } else {
        let m = min_len(rows.drop_last(), cap);
        if rows.last().len() < m {
            rows.last().len()
        } else {
            m
        }
    }
}

/// The target row of width `width` for position `idx`: the target
/// sequence's tokens, padded with zeros (all zeros past the end of `targets`).
pub open spec fn target_row(targets: Seq<Seq<usize>>, idx: usize, width: nat) -> Seq<usize> {
    Seq::new(width, |j: int| if idx < targets.len() && j < targets[idx as int].len() { targets[idx as int][j] } else { 0usize })
}

/// The batch for `indices`: the selected input sequences cut to the length
/// of the shortest (and to at most `max_len`), and one target row per
/// index; nothing when no sequence is selected or the common length is
/// below 4.
pub open spec fn batch_spec(inputs: Seq<Seq<usize>>, targets: Seq<Seq<usize>>, indices: Seq<usize>, max_len: nat) -> (Seq<Seq<usize>>, Seq<Seq<usize>>) {
    let sel = selected(inputs, indices);
    let m = min_len(sel, max_len);
    if sel.len() == 0 || m < 4 {
        (Seq::empty(), Seq::empty())
    } else {
        (sel.map_values(|s: Seq<usize>| s.take(m as int)), indices.map_values(|i: usize| target_row(targets, i, m)))
    }
}

proof fn lemma_min_len(rows: Seq<Seq<usize>>, cap: nat)
    ensures
        min_len(rows, cap) <= cap,
        forall|k: int| 0 <= k < rows.len() ==> min_len(rows, cap) <= #[trigger] rows[k].len(),
    decreases rows.len(),
{
    if rows.len() > 0 {
        lemma_min_len(rows.drop_last(), cap);
        assert forall|k: int| 0 <= k < rows.len() implies min_len(rows, cap) <= #[trigger] rows[k].len() by {
            if k < rows.len() - 1 {
                assert(rows[k] == rows.drop_last()[k]);
            }
        }
    }
}

/// Prepares a batch (see `batch_spec`): the input sequences, all of the
/// same length, and the target matrix as rows.
pub fn prepare_batch(
    inputs: &[Vec<usize>],
    targets: &[Vec<usize>],
    batch_indices: &[usize],
    max_sequence_length: usize,
) -> (r: (Vec<Vec<usize>>, Vec<Vec<usize>>))
    ensures
        (token_rows(r.0@), token_rows(r.1@)) == batch_spec(token_rows(inputs@), token_rows(targets@), batch_indices@, max_sequence_length as nat),
{
    let ghost iv = token_rows(inputs@);
    let ghost tv = token_rows(targets@);
    let ghost idx = batch_indices@;
    let mut sel: Vec<Vec<usize>> = Vec::new();
    let mut k: usize = 0;
    assert(idx.take(0) =~= Seq::<usize>::empty());
    assert(token_rows(sel@) =~= Seq::<Seq<usize>>::empty());
    while k < batch_indices.len()
        invariant
            k <= idx.len(),
            idx == batch_indices@,
            iv == token_rows(inputs@),
            token_rows(sel@) == selected(iv, idx.take(k as int)),
        decreases batch_indices.len() - k,
    {
        assert(idx.take(k + 1).drop_last() =~= idx.take(k as int));
        assert(idx.take(k + 1).last() == idx[k as int]);
        let i = batch_indices[k];
        if i < inputs.len() {
            let ghost before = sel@;
            sel.push(inputs[i].clone());
            assert(token_rows(sel@) =~= token_rows(before).push(iv[i as int]));
        }
        k = k + 1;
    }
    assert(idx.take(k as int) =~= idx);
    let ghost sv = token_rows(sel@);
    let mut m = max_sequence_length;
    let mut q: usize = 0;
    assert(sv.take(0) =~= Seq::<Seq<usize>>::empty());
    while q < sel.len()
        invariant
            q <= sv.len(),
            sv == token_rows(sel@),
            m == min_len(sv.take(q as int), max_sequence_length as nat),
        decreases sel.len() - q,
    {
        assert(sv.take(q + 1).drop_last() =~= sv.take(q as int));
        assert(sv.take(q + 1).last() == sel@[q as int]@);
        if sel[q].len() < m {
            m = sel[q].len();
        }
        q = q + 1;
    }
    assert(sv.take(q as int) =~= sv);
    if sel.len() == 0 || m < 4 {
        let a: Vec<Vec<usize>> = Vec::new();
        let b: Vec<Vec<usize>> = Vec::new();
        assert(token_rows(a@) =~= Seq::<Seq<usize>>::empty());
        assert(token_rows(b@) =~= Seq::<Seq<usize>>::empty());
        return (a, b);
    }
    proof {
        lemma_min_len(sv, max_sequence_length as nat);
    }
    let mut cut: Vec<Vec<usize>> = Vec::new();
    let mut p: usize = 0;
    while p < sel.len()
        invariant
            p <= sv.len(),
            sv == token_rows(sel@),
            m == min_len(sv, max_sequence_length as nat),
            forall|k: int| 0 <= k < sv.len() ==> m <= #[trigger] sv[k].len(),
            token_rows(cut@) == sv.map_values(|s: Seq<usize>| s.take(m as int)).take(p as int),
        decreases sel.len() - p,
    {
        assert(m <= sv[p as int].len());
        let row = take_prefix(&sel[p], m);
        let ghost before = cut@;
        cut.push(row);
        assert(token_rows(cut@) =~= token_rows(before).push(sv[p as int].take(m as int)));
        assert(sv.map_values(|s: Seq<usize>| s.take(m as int)).take(p + 1) =~= sv.map_values(|s: Seq<usize>| s.take(m as int)).take(p as int).push(sv[p as int].take(m as int)));
        p = p + 1;
    }
    assert(sv.map_values(|s: Seq<usize>| s.take(m as int)).take(p as int) =~= sv.map_values(|s: Seq<usize>| s.take(m as int)));
    let mut rows: Vec<Vec<usize>> = Vec::new();
    let mut b: usize = 0;
    while b < batch_indices.len()
        invariant
            b <= idx.len(),
            idx == batch_indices@,
            tv == token_rows(targets@),
            token_rows(rows@) == idx.map_values(|i: usize| target_row(tv, i, m as nat)).take(b as int),
        decreases batch_indices.len() - b,
    {
        let row = target_row_exec(targets, batch_indices[b], m);
        let ghost before = rows@;
        rows.push(row);
        assert(token_rows(rows@) =~= token_rows(before).push(target_row(tv, idx[b as int], m as nat)));
        assert(idx.map_values(|i: usize| target_row(tv, i, m as nat)).take(b + 1) =~= idx.map_values(|i: usize| target_row(tv, i, m as nat)).take(b as int).push(target_row(tv, idx[b as int], m as nat)));
        b = b + 1;
    }
    assert(idx.map_values(|i: usize| target_row(tv, i, m as nat)).take(b as int) =~= idx.map_values(|i: usize| target_row(tv, i, m as nat)));
    (cut, rows)
}

/// The first `n` tokens of a sequence.
fn take_prefix(s: &Vec<usize>, n: usize) -> (r: Vec<usize>)
    requires
        n <= s@.len(),
    ensures
        r@ == s@.take(n as int),
{
    let mut r: Vec<usize> = Vec::new();
    let mut j: usize = 0;
    while j < n
        invariant
            j <= n <= s@.len(),
            r@ == s@.take(j as int),
        decreases n - j,
    {
        r.push(s[j]);
        j = j + 1;
        assert(r@ =~= s@.take(j as int));
    }
    r
}

/// The target row of width `width` for position `idx` (see `target_row`).
fn target_row_exec(targets: &[Vec<usize>], idx: usize, width: usize) -> (r: Vec<usize>)
    ensures
        r@ == target_row(token_rows(targets@), idx, width as nat),
{
    let ghost tv = token_rows(targets@);
    let mut r: Vec<usize> = Vec::new();
    let mut j: usize = 0;
    while j < width
        invariant
            j <= width,
            tv == token_rows(targets@),
            r@ == target_row(tv, idx, j as nat),
        decreases width - j,
    {
        let x = if idx < targets.len() && j < targets[idx].len() { targets[idx][j] } else { 0 };
        r.push(x);
        j = j + 1;
        assert(r@ =~= target_row(tv, idx, j as nat));
    }
    r
}

/// The validation windows of width `w` from position `i` on: the tokens
/// `[i, i + w)` as input and `[i + 1, i + w + 1)` as target, then the
/// windows from `i + w`, while `i + w` is before the end.
pub open spec fn windows_from(tokens: Seq<usize>, w: nat, i: nat) -> Seq<(Seq<usize>, Seq<usize>)>
    decreases tokens.len() - i,
    when w > 0
{
    if i + w < tokens.len() {
        seq![(tokens.subrange(i as int, (i + w) as int), tokens.subrange((i + 1) as int, (i + w + 1) as int))] + windows_from(tokens, w, i + w)
    } else {
        Seq::empty()
    }
}

/// The validation pairs of a token sequence: windows of 16, then 32, then
/// 64 tokens, each with its target shifted by one token.
pub open spec fn validation_pairs(tokens: Seq<usize>) -> Seq<(Seq<usize>, Seq<usize>)> {
    windows_from(tokens, 16, 0) + windows_from(tokens, 32, 0) + windows_from(tokens, 64, 0)
}

/// Appends the windows of width `w` (see `windows_from`).
fn push_windows(tokens: &Vec<usize>, w: usize, inputs: &mut Vec<Vec<usize>>, targets: &mut Vec<Vec<usize>>)
    requires
        w > 0,
        old(inputs)@.len() == old(targets)@.len(),
    ensures
        final(inputs)@.len() == final(targets)@.len(),
        token_rows(final(inputs)@) == token_rows(old(inputs)@) + windows_from(tokens@, w as nat, 0).map_values(|p: (Seq<usize>, Seq<usize>)| p.0),
        token_rows(final(targets)@) == token_rows(old(targets)@) + windows_from(tokens@, w as nat, 0).map_values(|p: (Seq<usize>, Seq<usize>)| p.1),
{
    let ghost all = windows_from(tokens@, w as nat, 0);
    let ghost i0 = token_rows(inputs@);
    let ghost t0 = token_rows(targets@);
    let mut i: usize = 0;
    let ghost mut done: Seq<(Seq<usize>, Seq<usize>)> = Seq::empty();
    assert(all =~= done + windows_from(tokens@, w as nat, 0));
    assert(token_rows(inputs@) =~= i0 + done.map_values(|p: (Seq<usize>, Seq<usize>)| p.0));
    assert(token_rows(targets@) =~= t0 + done.map_values(|p: (Seq<usize>, Seq<usize>)| p.1));
    while w < tokens.len() - i
        invariant
            w > 0,
            i <= tokens@.len(),
            all == windows_from(tokens@, w as nat, 0),
            all == done + windows_from(tokens@, w as nat, i as nat),
            inputs@.len() == targets@.len(),
            token_rows(inputs@) == i0 + done.map_values(|p: (Seq<usize>, Seq<usize>)| p.0),
            token_rows(targets@) == t0 + done.map_values(|p: (Seq<usize>, Seq<usize>)| p.1),
        decreases tokens.len() - i,
    {
        let input = slice_vec(tokens, i, i + w);
        let target = slice_vec(tokens, i + 1, i + w + 1);
        let ghost pair = (input@, target@);
        let ghost bi = inputs@;
        let ghost bt = targets@;
        inputs.push(input);
        targets.push(target);
        proof {
            assert(windows_from(tokens@, w as nat, i as nat) == seq![pair] + windows_from(tokens@, w as nat, (i + w) as nat));
            assert(done + windows_from(tokens@, w as nat, i as nat) =~= done.push(pair) + windows_from(tokens@, w as nat, (i + w) as nat));
            assert(done.push(pair).map_values(|p: (Seq<usize>, Seq<usize>)| p.0) =~= done.map_values(|p: (Seq<usize>, Seq<usize>)| p.0).push(pair.0));
            assert(done.push(pair).map_values(|p: (Seq<usize>, Seq<usize>)| p.1) =~= done.map_values(|p: (Seq<usize>, Seq<usize>)| p.1).push(pair.1));
            assert(token_rows(inputs@) =~= token_rows(bi).push(pair.0));
            assert(token_rows(targets@) =~= token_rows(bt).push(pair.1));
            done = done.push(pair);
        }
        i = i + w;
    }
    proof {
        assert(windows_from(tokens@, w as nat, i as nat) =~= Seq::<(Seq<usize>, Seq<usize>)>::empty());
        assert(all =~= done);
    }
}

/// The tokens `[from, to)` of a sequence.
fn slice_vec(s: &Vec<usize>, from: usize, to: usize) -> (r: Vec<usize>)
    requires
        from <= to <= s@.len(),
    ensures
        r@ == s@.subrange(from as int, to as int),
{
    let mut r: Vec<usize> = Vec::new();
    let mut j = from;
    while j < to
        invariant
            from <= j <= to <= s@.len(),
            r@ == s@.subrange(from as int, j as int),
        decreases to - j,
    {
        r.push(s[j]);
        j = j + 1;
        assert(r@ =~= s@.subrange(from as int, j as int));
    }
    r
}

/// Appends the validation pairs of a token sequence (see `validation_pairs`):
/// each input to `inputs` and its target to `targets`.
pub fn prepare_validation_data(tokens: &Vec<usize>, inputs: &mut Vec<Vec<usize>>, targets: &mut Vec<Vec<usize>>)
    requires
        old(inputs)@.len() == old(targets)@.len(),
    ensures
        final(inputs)@.len() == final(targets)@.len(),
        token_rows(final(inputs)@) == token_rows(old(inputs)@) + validation_pairs(tokens@).map_values(|p: (Seq<usize>, Seq<usize>)| p.0),
        token_rows(final(targets)@) == token_rows(old(targets)@) + validation_pairs(tokens@).map_values(|p: (Seq<usize>, Seq<usize>)| p.1),
{
    let ghost i0 = token_rows(inputs@);
    let ghost t0 = token_rows(targets@);
    push_windows(tokens, 16, inputs, targets);
    push_windows(tokens, 32, inputs, targets);
    push_windows(tokens, 64, inputs, targets);
    proof {
        let a = windows_from(tokens@, 16, 0);
        let b = windows_from(tokens@, 32, 0);
        let c = windows_from(tokens@, 64, 0);
        let f0 = |p: (Seq<usize>, Seq<usize>)| p.0;
        let f1 = |p: (Seq<usize>, Seq<usize>)| p.1;
        assert((a + b + c).map_values(f0) =~= a.map_values(f0) + b.map_values(f0) + c.map_values(f0));
        assert((a + b + c).map_values(f1) =~= a.map_values(f1) + b.map_values(f1) + c.map_values(f1));
        assert(token_rows(inputs@) =~= i0 + (a + b + c).map_values(f0));
        assert(token_rows(targets@) =~= t0 + (a + b + c).map_values(f1));
    }
}

/// Every validation pair has an input of its window's width and a target
/// that is the input shifted by one token: the target's token `j` is the
/// input's token `j + 1`, and its last token follows the input.
pub proof fn lemma_windows_shifted(tokens: Seq<usize>, w: nat, i: nat, k: int)
    requires
        w > 0,
        0 <= k < windows_from(tokens, w, i).len(),
    ensures
        windows_from(tokens, w, i)[k].0.len() == w,
        windows_from(tokens, w, i)[k].1.len() == w,
        forall|j: int| 0 <= j < w - 1 ==> windows_from(tokens, w, i)[k].1[j] == #[trigger] windows_from(tokens, w, i)[k].0[j + 1],
    decreases tokens.len() - i,
{
    if i + w < tokens.len() {
        if k > 0 {
            lemma_windows_shifted(tokens, w, i + w, k - 1);
            assert(windows_from(tokens, w, i)[k] == windows_from(tokens, w, i + w)[k - 1]);
        }
    }
}

} // verus!
