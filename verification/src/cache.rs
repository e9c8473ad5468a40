//! Hardware cache parameters and the batch size that they suggest.
use vstd::prelude::*;
use crate::text::{trim_ws, chars_of, trim};
use crate::decimal::{parse_usize, parse_usize_chars};

verus! {

/// Cache sizes of the processor, in bytes.
pub struct CacheParameters {
    /// L1 cache size in bytes
    pub l1_size: usize,
    /// L2 cache size in bytes
    pub l2_size: usize,
    /// L3 cache size in bytes
    pub l3_size: usize,
    /// Cache line size in bytes
    pub line_size: usize,
}

impl Default for CacheParameters {
    /// Conservative parameters that suit most processors: 32 KB of L1,
    /// 256 KB of L2, 8 MB of L3 and 64-byte lines.
    fn default() -> (c: Self)
        ensures
            c.l1_size == 32 * 1024,
            c.l2_size == 256 * 1024,
            c.l3_size == 8 * 1024 * 1024,
            c.line_size == 64,
    {
        CacheParameters { l1_size: 32 * 1024, l2_size: 256 * 1024, l3_size: 8 * 1024 * 1024, line_size: 64 }
    }
}

/// The number and the multiplier of a cache size as the system reports it:
/// after trimming, a final `K` multiplies by 1024 and a final `M` by
/// 1024 * 1024; the rest is read as `str::parse::<usize>` does.
pub open spec fn cache_size_parts(s: Seq<char>) -> (Option<usize>, nat) {
    let t = trim_ws(s);
    if t.len() > 0 && t.last() == 'K' {
        (parse_usize(t.drop_last()), 1024)
    } else if t.len() > 0 && t.last() == 'M' {
        (parse_usize(t.drop_last()), 1024 * 1024)
    } else {
        (parse_usize(t), 1)
    }
}

/// The size in bytes that a cache size text stands for, if it is one.
pub open spec fn cache_size(s: Seq<char>) -> Option<int> {
    match cache_size_parts(s).0 {
        Some(v) => Some(v * cache_size_parts(s).1),
        None => None,
    }
}

/// Whether the size that a cache size text stands for fits in `usize`.
pub open spec fn cache_size_fits(s: Seq<char>) -> bool {
    match cache_size(s) {
        Some(v) => v <= usize::MAX,
        None => true,
    }
}

proof fn lemma_fits_by_division(v: nat, m: nat, max: nat)
    requires
        m > 0,
    ensures
        (v <= max / m) <==> (v * m <= max),
{
    let q = max / m;
    let r = max % m;
    vstd::arithmetic::div_mod::lemma_fundamental_div_mod(max as int, m as int);
    assert(max == m * q + r);
    assert(0 <= r < m);
    assert((v <= q) <==> (v * m <= m * q + r)) by (nonlinear_arith)
        requires
            m > 0,
            0 <= r < m,
    ;
}

/// Whether the size of a cache size text fits in `usize` (see `cache_size_fits`).
pub fn cache_size_in_range(contents: &str) -> (b: bool)
    ensures
        b == cache_size_fits(contents@),
{
    let t = trim(contents);
    let cs = chars_of(t.as_str());
    let n = cs.len();
    let (digits_end, mult): (usize, usize) = if n > 0 && cs[n - 1] == 'K' {
        (n - 1, 1024)
    } else if n > 0 && cs[n - 1] == 'M' {
        (n - 1, 1024 * 1024)
    } else {
        (n, 1)
    };
    assert(cs@.subrange(0, digits_end as int) =~= if digits_end < n { cs@.drop_last() } else { cs@ });
    match parse_usize_chars(&cs.as_slice()[0..digits_end]) {
        Some(v) => {
            proof {
                lemma_fits_by_division(v as nat, mult as nat, usize::MAX as nat);
            }
            v <= usize::MAX / mult
        }
        None => true,
    }
}

/// Reads a cache size as the system reports it (see `cache_size`): `None`
/// where the text is not a number with an optional `K` or `M` suffix.
pub fn parse_cache_size(contents: &str) -> (r: Option<usize>)
    requires
        cache_size_fits(contents@),
    ensures
        match cache_size(contents@) {
            Some(v) => r == Some(v as usize),
            None => r is None,
        },
{
    let t = trim(contents);
    let cs = chars_of(t.as_str());
    let n = cs.len();
    let (digits_end, mult): (usize, usize) = if n > 0 && cs[n - 1] == 'K' {
        (n - 1, 1024)
    } else if n > 0 && cs[n - 1] == 'M' {
        (n - 1, 1024 * 1024)
    } else {
        (n, 1)
    };
    assert(cs@.subrange(0, digits_end as int) =~= if digits_end < n { cs@.drop_last() } else { cs@ });
    match parse_usize_chars(&cs.as_slice()[0..digits_end]) {
        Some(v) => {
            assert(v * mult <= usize::MAX);
            Some(v * mult)
        }
        None => None,
    }
}

/// The batch size for a model: as many sequences as fit in the available
/// cache, where a sequence takes `model_dim * seq_len * element_size`
/// bytes, kept between 16 and 1024.
pub open spec fn optimal_batch(available_cache: nat, seq_memory: nat) -> nat {
    let fit = available_cache / seq_memory;
    if fit < 16 {
        16
    } else if fit > 1024 {
        1024
    } else {
        fit
    }
}

/// The batch size that suits the available cache (see `optimal_batch`).
pub fn optimal_batch_size(available_cache: usize, model_dim: usize, seq_len: usize, element_size: usize) -> (b: usize)
    requires
        model_dim * seq_len * element_size <= usize::MAX,
        model_dim * seq_len * element_size > 0,
    ensures
        b == optimal_batch(available_cache as nat, (model_dim * seq_len * element_size) as nat),
        16 <= b <= 1024,
{
    assert(model_dim * seq_len <= model_dim * seq_len * element_size) by (nonlinear_arith)
        requires
            model_dim * seq_len * element_size > 0,
    ;
    let seq_memory = model_dim * seq_len * element_size;
    let fit = available_cache / seq_memory;
    if fit < 16 {
        16
    } else if fit > 1024 {
        1024
    } else {
        fit
    }
}

} // verus!
