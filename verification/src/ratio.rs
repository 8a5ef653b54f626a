//! Win-rate ratio, kept in thousandths so the value stays exact.
//!
//! A relationship's win rate is `wins / matches` rounded to three decimal
//! places. The library carries it as an integer number of thousandths
//! (`0 ..= 1000`); a rate of `0.25` is `250`.
use vstd::prelude::*;

verus! {

/// `wins / matches` rounded half-up to the nearest thousandth, as a
/// mathematical value: `floor((2000 * wins + matches) / (2 * matches))`.
pub open spec fn rate_millis_spec(wins: int, matches_count: int) -> int
    recommends
        matches_count > 0,
{
    (2000 * wins + matches_count) / (2 * matches_count)
}

/// Computes the win rate in thousandths.
pub fn rate_millis(wins: u64, matches_count: u64) -> (r: u32)
    requires
        matches_count > 0,
        wins <= matches_count,
    ensures
        r == rate_millis_spec(wins as int, matches_count as int),
        r <= 1000,
{
    let num: u128 = 2000 * (wins as u128) + (matches_count as u128);
    let den: u128 = 2 * (matches_count as u128);
    let q: u128 = num / den;
    proof {
        let w = wins as int;
        let m = matches_count as int;
        assert((2000 * w + m) / (2 * m) <= 1000) by (nonlinear_arith)
            requires
                0 < m,
                0 <= w <= m,
        ;
        assert(0 <= (2000 * w + m) / (2 * m)) by (nonlinear_arith)
            requires
                0 < m,
                0 <= w,
        ;
    }
    q as u32
}

} // verus!
