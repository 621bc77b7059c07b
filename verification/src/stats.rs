use vstd::prelude::*;

verus! {

/// The nearest rank of `p_milli` per mille in a sample of `len` values: the
/// least rank `k` with `k / len` at or above `p_milli / 1000`, kept within
/// `1..=len`.
pub open spec fn nearest_rank(len: int, p_milli: int) -> int {
    let k = (len * p_milli + 999) / 1000;
    if k < 1 {
        1
    } else if k > len {
        len
    } else {
        k
    }
}

/// The value at rank `p_milli` per mille of an ascending sample: 500 is the
/// median, 990 the 99th percentile, 999 the 99.9th. Zero for an empty sample.
pub fn percentile(sorted: &[u64], p_milli: usize) -> (value: u64)
    requires
        sorted@.len() * p_milli <= usize::MAX,
    ensures
        sorted@.len() == 0 ==> value == 0,
        sorted@.len() > 0 ==> value == sorted@[nearest_rank(sorted@.len() as int, p_milli as int) - 1],
{
    if sorted.len() == 0 {
        return 0;
    }
    let scaled = sorted.len() * p_milli;
    let idx = (scaled.saturating_sub(1) / 1000).min(sorted.len() - 1);
    proof {
        let x = scaled as int;
        if x >= 1 {
            assert((x + 999) / 1000 == (x - 1) / 1000 + 1) by (nonlinear_arith)
                requires
                    x >= 1,
            ;
        } else {
            assert((x + 999) / 1000 == 0) by (nonlinear_arith)
                requires
                    x == 0,
            ;
        }
    }
    sorted[idx]
}

/// The nearest rank is the least rank whose share of the sample reaches
/// `p_milli` per mille, kept within `1..=len`: ranks below it fall short,
/// and it reaches the share unless it is the last rank.
pub proof fn law_nearest_rank(len: int, p_milli: int)
    requires
        len > 0,
        p_milli >= 0,
    ensures
        1 <= nearest_rank(len, p_milli) <= len,
        nearest_rank(len, p_milli) < len ==> nearest_rank(len, p_milli) * 1000 >= len * p_milli,
        nearest_rank(len, p_milli) > 1 ==> (nearest_rank(len, p_milli) - 1) * 1000 < len * p_milli,
{
    let x = len * p_milli;
    assert(x >= 0) by (nonlinear_arith)
        requires
            x == len * p_milli,
            len > 0,
            p_milli >= 0,
    ;
    let k = (x + 999) / 1000;
    assert(k * 1000 >= x && (k > 0 ==> (k - 1) * 1000 < x)) by (nonlinear_arith)
        requires
            x >= 0,
            k == (x + 999) / 1000,
    ;
}

} // verus!
