//! The percentile argument and its rank arithmetic, shared by both
//! backend kinds so that the valid range is enforced uniformly.

use vstd::prelude::*;
use vstd::arithmetic::div_mod::{lemma_div_is_ordered, lemma_div_multiples_vanish_fancy};
use vstd::arithmetic::mul::{lemma_mul_inequality, lemma_mul_upper_bound};

verus! {

/// A percentile argument is expressed in hundredths of a percent: the
/// whole range runs from 0 to 10_000 inclusive, 5_000 asks for the
/// median, and a fractional percentile such as 99.99 is written 9_999.
/// Arguments outside the range always fail; they are never clamped.
pub const PERCENTILE_SCALE: i64 = 10_000;

/// The accepted percentile range: 0 to 100 percent inclusive.
pub open spec fn valid_percentile(p: i64) -> bool {
    0 <= p <= PERCENTILE_SCALE
}

/// How many observations, out of `total` recorded ones, must lie at or
/// below the answer to a query for percentile `p`: `p` per ten-thousand
/// of the total, rounded up, and never less than one, so that percentile
/// zero asks for the smallest observation.
pub open spec fn rank_count(p: int, total: int) -> int {
    let c = (p * total + (PERCENTILE_SCALE - 1)) / (PERCENTILE_SCALE as int);
    if c < 1 {
        1
    } else {
        c
    }
}

/// For a valid percentile and a positive total, the rank itself lies
/// between one and the total.
pub proof fn lemma_rank_count_bounds(p: int, total: int)
    requires
        0 <= p <= PERCENTILE_SCALE,
        total >= 1,
    ensures
        1 <= rank_count(p, total) <= total,
{
    let s = PERCENTILE_SCALE as int;
    lemma_mul_inequality(p, s, total);
    lemma_div_is_ordered(p * total + (s - 1), s * total + (s - 1), s);
    lemma_div_multiples_vanish_fancy(total, s - 1, s);
}

/// Executable form of `rank_count`, for totals far below the overflow
/// limit of the accumulator.
pub(crate) fn rank_count_exec(p: i64, total: u128) -> (c: u128)
    requires
        valid_percentile(p),
        1 <= total,
        total <= 0x4000_0000_0000_0000_0000_0000_0000u128,
    ensures
        c as int == rank_count(p as int, total as int),
        1 <= c <= total,
{
    proof {
        lemma_rank_count_bounds(p as int, total as int);
        lemma_mul_upper_bound(
            p as int,
            PERCENTILE_SCALE as int,
            total as int,
            0x4000_0000_0000_0000_0000_0000_0000,
        );
    }
    let num = (p as u128) * total + 9_999;
    let c = num / 10_000;
    if c < 1 {
        1
    } else {
        c
    }
}

} // verus!
