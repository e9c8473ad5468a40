//! Attention masks: for each sequence of a batch and each position `i`,
//! which positions `j` the position may attend to (`true`) or not (`false`).
use vstd::prelude::*;

verus! {

/// The view of the rows of a matrix.
pub open spec fn rows_view(rows: Seq<Vec<bool>>) -> Seq<Seq<bool>> {
    rows.map_values(|row: Vec<bool>| row@)
}

/// The view of a mask: batch, then row, then column.
pub open spec fn mask_view(m: Seq<Vec<Vec<bool>>>) -> Seq<Seq<Seq<bool>>> {
    m.map_values(|rows: Vec<Vec<bool>>| rows_view(rows@))
}

proof fn lemma_rows_push(rows: Seq<Vec<bool>>, row: Vec<bool>)
    ensures
        rows_view(rows.push(row)) == rows_view(rows).push(row@),
{
    assert(rows_view(rows.push(row)) =~= rows_view(rows).push(row@));
}

proof fn lemma_mask_push(m: Seq<Vec<Vec<bool>>>, rows: Vec<Vec<bool>>)
    ensures
        mask_view(m.push(rows)) == mask_view(m).push(rows_view(rows@)),
{
    assert(mask_view(m.push(rows)) =~= mask_view(m).push(rows_view(rows@)));
}

/// A causal entry: position `i` may attend to `j` when `j <= i`.
pub open spec fn causal_entry(i: int, j: int) -> bool {
    j <= i
}

/// A padding entry: both positions lie within the valid length.
pub open spec fn padding_entry(valid: int, i: int, j: int) -> bool {
    i < valid && j < valid
}

/// A combined entry: within the valid length, and not in the future.
pub open spec fn combined_entry(valid: int, i: int, j: int) -> bool {
    i < valid && j < valid && j <= i
}

/// The causal mask for `n` positions: a batch of one `n`×`n` lower-triangular matrix.
pub open spec fn causal_mask(n: nat) -> Seq<Seq<Seq<bool>>> {
    seq![Seq::new(n, |i: int| Seq::new(n, |j: int| causal_entry(i, j)))]
}

/// The padding mask for `n` positions, one matrix per valid length.
pub open spec fn padding_mask(n: nat, valid_lens: Seq<usize>) -> Seq<Seq<Seq<bool>>> {
    Seq::new(valid_lens.len(), |b: int| Seq::new(n, |i: int| Seq::new(n, |j: int| padding_entry(valid_lens[b] as int, i, j))))
}

/// The combined (causal and padding) mask for `n` positions, one matrix per valid length.
pub open spec fn combined_mask(n: nat, valid_lens: Seq<usize>) -> Seq<Seq<Seq<bool>>> {
    Seq::new(valid_lens.len(), |b: int| Seq::new(n, |i: int| Seq::new(n, |j: int| combined_entry(valid_lens[b] as int, i, j))))
}

/// The row of `n` entries of which the first `k` are `true`.
fn prefix_row(n: usize, k: usize) -> (r: Vec<bool>)
    ensures
        r@ == Seq::new(n as nat, |j: int| j < k),
{
    let mut r: Vec<bool> = Vec::new();
    let mut j: usize = 0;
    while j < n
        invariant
            j <= n,
            r@ == Seq::new(j as nat, |x: int| x < k),
        decreases n - j,
    {
        r.push(j < k);
        j = j + 1;
        assert(r@ =~= Seq::new(j as nat, |x: int| x < k));
    }
    r
}

/// Creates a causal mask for `seq_len` positions: a batch of one matrix
/// whose entry `(i, j)` is `true` on and below the diagonal.
pub fn create_causal_mask(seq_len: usize) -> (m: Vec<Vec<Vec<bool>>>)
    ensures
        mask_view(m@) == causal_mask(seq_len as nat),
{
    let mut rows: Vec<Vec<bool>> = Vec::new();
    let mut i: usize = 0;
    let ghost target = Seq::new(seq_len as nat, |i: int| Seq::new(seq_len as nat, |j: int| causal_entry(i, j)));
    while i < seq_len
        invariant
            i <= seq_len,
            target == Seq::new(seq_len as nat, |i: int| Seq::new(seq_len as nat, |j: int| causal_entry(i, j))),
            rows_view(rows@) == target.take(i as int),
        decreases seq_len - i,
    {
        let row = prefix_row(seq_len, i + 1);
        assert(row@ =~= target[i as int]);
        let ghost before = rows@;
        rows.push(row);
        proof {
            lemma_rows_push(before, row);
            assert(target.take(i + 1) =~= target.take(i as int).push(target[i as int]));
        }
        i = i + 1;
    }
    assert(target.take(seq_len as int) =~= target);
    let m = vec![rows];
    assert(mask_view(m@) =~= causal_mask(seq_len as nat));
    m
}

/// Whether every valid length fits in `n` positions (or there are none).
pub open spec fn lens_fit(n: usize, valid_lens: Seq<usize>) -> bool {
    n == 0 || forall|b: int| 0 <= b < valid_lens.len() ==> valid_lens[b] <= n
}

/// Creates a padding mask: for each valid length `v`, the matrix whose
/// entry `(i, j)` is `true` when both `i` and `j` are below `v`.
pub fn create_padding_mask(seq_len: usize, valid_lens: &[usize]) -> (m: Vec<Vec<Vec<bool>>>)
    requires
        lens_fit(seq_len, valid_lens@),
    ensures
        mask_view(m@) == padding_mask(seq_len as nat, valid_lens@),
{
    let ghost target = padding_mask(seq_len as nat, valid_lens@);
    let mut m: Vec<Vec<Vec<bool>>> = Vec::new();
    let mut b: usize = 0;
    while b < valid_lens.len()
        invariant
            b <= valid_lens@.len(),
            lens_fit(seq_len, valid_lens@),
            target == padding_mask(seq_len as nat, valid_lens@),
            mask_view(m@) == target.take(b as int),
        decreases valid_lens.len() - b,
    {
        let v = valid_lens[b];
        let ghost tb = target[b as int];
        let mut rows: Vec<Vec<bool>> = Vec::new();
        let mut i: usize = 0;
        while i < seq_len
            invariant
                i <= seq_len,
                b < valid_lens@.len(),
                v == valid_lens@[b as int],
                lens_fit(seq_len, valid_lens@),
                tb == Seq::new(seq_len as nat, |i: int| Seq::new(seq_len as nat, |j: int| padding_entry(v as int, i, j))),
                rows_view(rows@) == tb.take(i as int),
            decreases seq_len - i,
        {
            let row = if i < v { prefix_row(seq_len, v) } else { prefix_row(seq_len, 0) };
            assert(row@ =~= tb[i as int]);
            let ghost before = rows@;
            rows.push(row);
            proof {
                lemma_rows_push(before, row);
                assert(tb.take(i + 1) =~= tb.take(i as int).push(tb[i as int]));
            }
            i = i + 1;
        }
        assert(tb.take(seq_len as int) =~= tb);
        let ghost before = m@;
        m.push(rows);
        proof {
            lemma_mask_push(before, rows);
            assert(target.take(b + 1) =~= target.take(b as int).push(target[b as int]));
        }
        b = b + 1;
    }
    assert(target.take(valid_lens@.len() as int) =~= target);
    m
}

/// Creates a combined mask: for each valid length `v`, the matrix whose
/// entry `(i, j)` is `true` when `j <= i` and both are below `v`.
pub fn create_combined_mask(seq_len: usize, valid_lens: &[usize]) -> (m: Vec<Vec<Vec<bool>>>)
    ensures
        mask_view(m@) == combined_mask(seq_len as nat, valid_lens@),
{
    let ghost target = combined_mask(seq_len as nat, valid_lens@);
    let mut m: Vec<Vec<Vec<bool>>> = Vec::new();
    let mut b: usize = 0;
    while b < valid_lens.len()
        invariant
            b <= valid_lens@.len(),
            target == combined_mask(seq_len as nat, valid_lens@),
            mask_view(m@) == target.take(b as int),
        decreases valid_lens.len() - b,
    {
        let v = valid_lens[b];
        let ghost tb = target[b as int];
        let mut rows: Vec<Vec<bool>> = Vec::new();
        let mut i: usize = 0;
        while i < seq_len
            invariant
                i <= seq_len,
                b < valid_lens@.len(),
                v == valid_lens@[b as int],
                tb == Seq::new(seq_len as nat, |i: int| Seq::new(seq_len as nat, |j: int| combined_entry(v as int, i, j))),
                rows_view(rows@) == tb.take(i as int),
            decreases seq_len - i,
        {
            let row = if i < v { prefix_row(seq_len, i + 1) } else { prefix_row(seq_len, 0) };
            assert(row@ =~= tb[i as int]);
            let ghost before = rows@;
            rows.push(row);
            proof {
                lemma_rows_push(before, row);
                assert(tb.take(i + 1) =~= tb.take(i as int).push(tb[i as int]));
            }
            i = i + 1;
        }
        assert(tb.take(seq_len as int) =~= tb);
        let ghost before = m@;
        m.push(rows);
        proof {
            lemma_mask_push(before, rows);
            assert(target.take(b + 1) =~= target.take(b as int).push(target[b as int]));
        }
        b = b + 1;
    }
    assert(target.take(valid_lens@.len() as int) =~= target);
    m
}

/// The combined mask is the causal mask and the padding mask together:
/// each entry is `true` exactly when it is `true` in both.
pub proof fn lemma_combined_is_causal_and_padding(n: nat, valid_lens: Seq<usize>, b: int, i: int, j: int)
    requires
        0 <= b < valid_lens.len(),
        0 <= i < n,
        0 <= j < n,
    ensures
        combined_mask(n, valid_lens)[b][i][j] == (causal_mask(n)[0][i][j] && padding_mask(n, valid_lens)[b][i][j]),
{
}

/// Every row of a padding or combined mask at a position past the valid
/// length is all `false`: padding attends to nothing.
pub proof fn lemma_padding_rows_empty(n: nat, valid_lens: Seq<usize>, b: int, i: int, j: int)
    requires
        0 <= b < valid_lens.len(),
        valid_lens[b] <= i < n,
        0 <= j < n,
    ensures
        !padding_mask(n, valid_lens)[b][i][j],
        !combined_mask(n, valid_lens)[b][i][j],
{
}

} // verus!
