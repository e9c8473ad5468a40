//! Splitting a dataset: into training, validation and test sets, or into
//! the folds of a k-fold cross-validation. The items are taken in the order
//! of an index sequence, which is either `0, 1, ..., n - 1` or a random
//! permutation of it.
use vstd::prelude::*;
use rand::seq::SliceRandom;

verus! {

/// The divisions of a dataset.
pub struct DatasetSplit<T> {
    pub train: Vec<T>,
    pub validation: Vec<T>,
    pub test: Vec<T>,
}

/// The indices `0, 1, ..., n - 1`.
pub open spec fn identity_indices(n: nat) -> Seq<usize> {
    Seq::new(n, |i: int| i as usize)
}

/// Whether every index is below `n`.
pub open spec fn indices_below(indices: Seq<usize>, n: nat) -> bool {
    forall|i: int| 0 <= i < indices.len() ==> #[trigger] indices[i] < n
}

/// Whether `out` holds, in order, clones of the items at positions
/// `indices[from]`, ..., `indices[to - 1]` of `data`.
pub open spec fn picked<T: Clone>(data: Seq<T>, indices: Seq<usize>, from: int, to: int, out: Seq<T>) -> bool {
    &&& out.len() == to - from
    &&& forall|q: int| from <= q < to ==> cloned(data[indices[q] as int], #[trigger] out[q - from])
}

/// The thread-local random number generator of the `rand` crate.
#[verifier::external_type_specification]
#[verifier::external_body]
pub struct ExThreadRng(rand::rngs::ThreadRng);

/// `rand::thread_rng`: a handle to the thread-local random number
/// generator. Nothing is stated of its state.
#[verifier::external_body]
fn thread_rng() -> (r: rand::rngs::ThreadRng) {
    rand::thread_rng()
}

/// `SliceRandom::shuffle` of the `rand` crate: the source performs a
/// Fisher-Yates shuffle, a sequence of swaps, so the result is a
/// permutation of the input. Which permutation comes out depends on the
/// generator and is not stated.
#[verifier::external_body]
fn shuffle_indices(v: &mut Vec<usize>, rng: &mut rand::rngs::ThreadRng)
    ensures
        final(v)@.len() == old(v)@.len(),
        final(v)@.to_multiset() == old(v)@.to_multiset(),
{
    v.shuffle(rng);
}

/// The indices `0, 1, ..., n - 1`.
fn identity_vec(n: usize) -> (r: Vec<usize>)
    ensures
        r@ == identity_indices(n as nat),
{
    let mut r: Vec<usize> = Vec::new();
    let mut i: usize = 0;
    while i < n
        invariant
            i <= n,
            r@ == identity_indices(i as nat),
        decreases n - i,
    {
        r.push(i);
        i = i + 1;
        assert(r@ =~= identity_indices(i as nat));
    }
    r
}

/// The order in which the items of a dataset of `n` items are taken: the
/// indices `0, ..., n - 1`, randomly permuted when `shuffle` is set.
pub fn dataset_indices(n: usize, shuffle: bool) -> (r: Vec<usize>)
    ensures
        r@.len() == n,
        indices_below(r@, n as nat),
        r@.to_multiset() == identity_indices(n as nat).to_multiset(),
        !shuffle ==> r@ == identity_indices(n as nat),
{
    let mut r = identity_vec(n);
    if shuffle {
        let mut rng = thread_rng();
        shuffle_indices(&mut r, &mut rng);
    }
    proof {
        let id = identity_indices(n as nat);
        assert forall|i: int| 0 <= i < r@.len() implies #[trigger] r@[i] < n by {
            r@.to_multiset_ensures();
            id.to_multiset_ensures();
            assert(r@.contains(r@[i]));
            assert(r@.to_multiset().count(r@[i]) > 0);
            assert(id.to_multiset().count(r@[i]) > 0);
            assert(id.contains(r@[i]));
            let j = choose|j: int| 0 <= j < id.len() && id[j] == r@[i];
            assert(id[j] == j as usize);
        }
    }
    r
}

/// Whether `idx` is an order in which to take `n` items: a permutation of
/// `0, 1, ..., n - 1`.
pub open spec fn is_order(idx: Seq<usize>, n: nat) -> bool {
    &&& idx.len() == n
    &&& indices_below(idx, n)
    &&& idx.to_multiset() == identity_indices(n).to_multiset()
}

/// Appends clones of the items at positions `indices[from..to]` of `data`.
fn push_picked<T: Clone>(out: &mut Vec<T>, data: &[T], indices: &[usize], from: usize, to: usize)
    requires
        from <= to <= indices@.len(),
        indices_below(indices@, data@.len()),
    ensures
        final(out)@.len() == old(out)@.len() + (to - from),
        forall|q: int| 0 <= q < old(out)@.len() ==> #[trigger] final(out)@[q] == old(out)@[q],
        forall|q: int| from <= q < to ==> cloned(data@[indices@[q] as int], #[trigger] final(out)@[old(out)@.len() + q - from]),
{
    let ghost start = out@.len();
    let mut i = from;
    while i < to
        invariant
            from <= i <= to <= indices@.len(),
            indices_below(indices@, data@.len()),
            start == old(out)@.len(),
            out@.len() == start + (i - from),
            forall|q: int| 0 <= q < start ==> #[trigger] out@[q] == old(out)@[q],
            forall|q: int| from <= q < i ==> cloned(data@[indices@[q] as int], #[trigger] out@[start + q - from]),
        decreases to - i,
    {
        let x = indices[i];
        assert(x < data@.len());
        let item = data[x].clone();
        out.push(item);
        assert(out@[start + i - from] == item);
        i = i + 1;
    }
}

/// Splits `data` in the order of `indices`: the first `train_size` items
/// go to training, the next `validation_size` to validation, and the next
/// `min(n - train_size - validation_size, test_size)` to test.
pub fn split_by_sizes<T: Clone>(
    data: &[T],
    indices: &[usize],
    train_size: usize,
    validation_size: usize,
    test_size: usize,
) -> (s: DatasetSplit<T>)
    requires
        indices@.len() == data@.len(),
        indices_below(indices@, data@.len()),
        train_size + validation_size <= data@.len(),
    ensures
        ({
            let a = train_size as int;
            let b = a + validation_size;
            let t = if data@.len() - b < test_size { data@.len() - b } else { test_size as int };
            &&& picked(data@, indices@, 0, a, s.train@)
            &&& picked(data@, indices@, a, b, s.validation@)
            &&& picked(data@, indices@, b, b + t, s.test@)
        }),
{
    let n = data.len();
    let rest = n - train_size - validation_size;
    let t = if rest < test_size { rest } else { test_size };
    let mut train: Vec<T> = Vec::new();
    push_picked(&mut train, data, indices, 0, train_size);
    let mut validation: Vec<T> = Vec::new();
    push_picked(&mut validation, data, indices, train_size, train_size + validation_size);
    let mut test: Vec<T> = Vec::new();
    let b = train_size + validation_size;
    push_picked(&mut test, data, indices, b, b + t);
    proof {
        assert forall|q: int| 0 <= q < train_size implies cloned(data@[indices@[q] as int], #[trigger] train@[q - 0]) by {
            assert(train@[0 + q - 0] == train@[q - 0]);
        }
        assert forall|q: int| train_size <= q < b implies cloned(data@[indices@[q] as int], #[trigger] validation@[q - train_size]) by {
            assert(validation@[0 + q - train_size] == validation@[q - train_size]);
        }
        assert forall|q: int| b <= q < b + t implies cloned(data@[indices@[q] as int], #[trigger] test@[q - b]) by {
            assert(test@[0 + q - b] == test@[q - b]);
        }
    }
    DatasetSplit { train, validation, test }
}

/// Splits a dataset into training, validation and test sets of the given
/// sizes (see `split_by_sizes`), taking the items in a random order when
/// `shuffle` is set and in their own order otherwise.
pub fn split_dataset_by_sizes<T: Clone>(
    data: &[T],
    train_size: usize,
    validation_size: usize,
    test_size: usize,
    shuffle: bool,
) -> (s: DatasetSplit<T>)
    requires
        train_size + validation_size <= data@.len(),
    ensures
        ({
            let a = train_size as int;
            let b = a + validation_size;
            let t = if data@.len() - b < test_size { data@.len() - b } else { test_size as int };
            &&& s.train@.len() == a
            &&& s.validation@.len() == validation_size
            &&& s.test@.len() == t
            &&& !shuffle ==> picked(data@, identity_indices(data@.len()), 0, a, s.train@)
            &&& !shuffle ==> picked(data@, identity_indices(data@.len()), a, b, s.validation@)
            &&& !shuffle ==> picked(data@, identity_indices(data@.len()), b, b + t, s.test@)
            &&& exists|idx: Seq<usize>| #[trigger] is_order(idx, data@.len())
                && picked(data@, idx, 0, a, s.train@)
                && picked(data@, idx, a, b, s.validation@)
                && picked(data@, idx, b, b + t, s.test@)
        }),
{
    let indices = dataset_indices(data.len(), shuffle);
    let s = split_by_sizes(data, indices.as_slice(), train_size, validation_size, test_size);
    assert(is_order(indices@, data@.len()));
    s
}

/// The positions `[start, end)` of the validation part of fold `f` of `k`
/// over `n` items: folds of `n / k` items each, the last one taking the rest.
pub open spec fn fold_bounds(n: nat, k: nat, f: nat) -> (int, int) {
    let size = n / k;
    ((f * size) as int, if f == k - 1 { n as int } else { ((f + 1) * size) as int })
}

/// Whether `fold` is fold `f` of `k` over `data` taken in the order of
/// `indices`: the validation set is the fold's part, the training set the
/// items before it followed by those after it.
pub open spec fn is_fold<T: Clone>(data: Seq<T>, indices: Seq<usize>, k: nat, f: nat, fold: (Vec<T>, Vec<T>)) -> bool {
    let n = indices.len();
    let (s, e) = fold_bounds(n, k, f);
    let train = fold.0@;
    &&& picked(data, indices, s, e, fold.1@)
    &&& train.len() == n - (e - s)
    &&& picked(data, indices, 0, s, train.subrange(0, s))
    &&& picked(data, indices, e, n as int, train.subrange(s, train.len() as int))
}

proof fn lemma_fold_bounds(n: nat, k: nat, f: nat)
    requires
        k >= 2,
        f < k,
    ensures
        0 <= fold_bounds(n, k, f).0 <= fold_bounds(n, k, f).1 <= n,
        f + 1 < k ==> fold_bounds(n, k, f).1 == fold_bounds(n, k, f + 1).0,
{
    let size = n / k;
    assert(f * size <= k * size) by (nonlinear_arith)
        requires
            f < k,
    ;
    assert((f + 1) * size <= k * size) by (nonlinear_arith)
        requires
            f < k,
    ;
    assert(k * size <= n) by (nonlinear_arith)
        requires
            size == n / k,
            k >= 2,
    ;
    assert(f * size <= (f + 1) * size) by (nonlinear_arith);
    assert(0 <= f * size) by (nonlinear_arith);
}

/// The folds of a k-fold cross-validation over `data` taken in the order of
/// `indices` (see `is_fold`).
pub fn k_fold_split_with<T: Clone>(data: &[T], indices: &[usize], k: usize) -> (folds: Vec<(Vec<T>, Vec<T>)>)
    requires
        k >= 2,
        indices@.len() == data@.len(),
        indices_below(indices@, data@.len()),
    ensures
        folds@.len() == k,
        forall|f: int| 0 <= f < k ==> is_fold(data@, indices@, k as nat, f as nat, #[trigger] folds@[f]),
{
    let n = data.len();
    let fold_size = n / k;
    let mut folds: Vec<(Vec<T>, Vec<T>)> = Vec::new();
    let mut f: usize = 0;
    while f < k
        invariant
            k >= 2,
            f <= k,
            n == data@.len(),
            fold_size == n / k,
            indices@.len() == data@.len(),
            indices_below(indices@, data@.len()),
            folds@.len() == f,
            forall|g: int| 0 <= g < f ==> is_fold(data@, indices@, k as nat, g as nat, #[trigger] folds@[g]),
        decreases k - f,
    {
        proof {
            lemma_fold_bounds(n as nat, k as nat, f as nat);
        }
        let ghost bounds = fold_bounds(n as nat, k as nat, f as nat);
        assert(f * fold_size <= n) by (nonlinear_arith)
            requires
                f * fold_size == bounds.0,
                bounds.0 <= n,
        ;
        let val_start = f * fold_size;
        let val_end = if f == k - 1 {
            n
        } else {
            assert((f + 1) * fold_size == bounds.1);
            (f + 1) * fold_size
        };
        let mut train: Vec<T> = Vec::new();
        let mut val: Vec<T> = Vec::new();
        push_picked(&mut train, data, indices, 0, val_start);
        let ghost head = train@;
        push_picked(&mut train, data, indices, val_end, n);
        push_picked(&mut val, data, indices, val_start, val_end);
        proof {
            let t = train@;
            assert(t.subrange(0, val_start as int) =~= head);
            assert forall|q: int| 0 <= q < val_start implies cloned(data@[indices@[q] as int], #[trigger] t.subrange(0, val_start as int)[q - 0]) by {
                assert(t.subrange(0, val_start as int)[q - 0] == head[0 + q - 0]);
            }
            assert forall|q: int| val_end <= q < n implies cloned(data@[indices@[q] as int], #[trigger] t.subrange(val_start as int, t.len() as int)[q - val_end]) by {
                assert(t.subrange(val_start as int, t.len() as int)[q - val_end] == t[val_start + q - val_end]);
            }
            assert forall|q: int| val_start <= q < val_end implies cloned(data@[indices@[q] as int], #[trigger] val@[q - val_start]) by {
                assert(val@[0 + q - val_start] == val@[q - val_start]);
            }
            assert(bounds.0 == val_start && bounds.1 == val_end);
            assert(is_fold(data@, indices@, k as nat, f as nat, (train, val)));
        }
        let ghost prev = folds@;
        folds.push((train, val));
        proof {
            assert forall|g: int| 0 <= g < f + 1 implies is_fold(data@, indices@, k as nat, g as nat, #[trigger] folds@[g]) by {
                if g < f {
                    assert(folds@[g] == prev[g]);
                }
            }
        }
        f = f + 1;
    }
    folds
}

/// Divides a dataset into `k` folds for cross-validation: fold `f` has the
/// items of its part as validation set and all others as training set (see
/// `is_fold`), the items being taken in a random order when `shuffle` is set.
pub fn k_fold_split<T: Clone>(data: &[T], k: usize, shuffle: bool) -> (folds: Vec<(Vec<T>, Vec<T>)>)
    requires
        k >= 2,
    ensures
        folds@.len() == k,
        forall|f: int| 0 <= f < k ==> (#[trigger] folds@[f]).1@.len() == fold_bounds(data@.len(), k as nat, f as nat).1 - fold_bounds(data@.len(), k as nat, f as nat).0,
        forall|f: int| 0 <= f < k ==> (#[trigger] folds@[f]).0@.len() + folds@[f].1@.len() == data@.len(),
        !shuffle ==> forall|f: int| 0 <= f < k ==> is_fold(data@, identity_indices(data@.len()), k as nat, f as nat, #[trigger] folds@[f]),
        exists|idx: Seq<usize>| #[trigger] is_order(idx, data@.len())
            && forall|f: int| 0 <= f < k ==> is_fold(data@, idx, k as nat, f as nat, #[trigger] folds@[f]),
{
    let indices = dataset_indices(data.len(), shuffle);
    let folds = k_fold_split_with(data, indices.as_slice(), k);
    assert(is_order(indices@, data@.len()));
    proof {
        assert forall|f: int| 0 <= f < k implies (#[trigger] folds@[f]).1@.len() == fold_bounds(data@.len(), k as nat, f as nat).1 - fold_bounds(data@.len(), k as nat, f as nat).0 by {
            assert(is_fold(data@, indices@, k as nat, f as nat, folds@[f]));
        }
        assert forall|f: int| 0 <= f < k implies (#[trigger] folds@[f]).0@.len() + folds@[f].1@.len() == data@.len() by {
            assert(is_fold(data@, indices@, k as nat, f as nat, folds@[f]));
            lemma_fold_bounds(data@.len(), k as nat, f as nat);
        }
    }
    folds
}

/// The validation parts of the folds cover the positions `0..n` without
/// gap or overlap: the first starts at 0, each ends where the next starts,
/// the last ends at `n`, and none is reversed. So every item is in the
/// validation set of exactly one fold.
pub proof fn lemma_folds_partition(n: nat, k: nat)
    requires
        k >= 2,
    ensures
        fold_bounds(n, k, 0).0 == 0,
        fold_bounds(n, k, (k - 1) as nat).1 == n,
        forall|f: nat| f < k ==> 0 <= (#[trigger] fold_bounds(n, k, f)).0 <= fold_bounds(n, k, f).1 <= n,
        forall|f: nat| f + 1 < k ==> (#[trigger] fold_bounds(n, k, f)).1 == fold_bounds(n, k, f + 1).0,
{
    assert forall|f: nat| f < k implies 0 <= (#[trigger] fold_bounds(n, k, f)).0 <= fold_bounds(n, k, f).1 <= n by {
        lemma_fold_bounds(n, k, f);
    }
    assert forall|f: nat| f + 1 < k implies (#[trigger] fold_bounds(n, k, f)).1 == fold_bounds(n, k, f + 1).0 by {
        lemma_fold_bounds(n, k, f);
    }
}

} // verus!
