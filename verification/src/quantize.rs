//! Quantizing a coverage measure into an integer percentage.

use vstd::prelude::*;
use vstd::arithmetic::div_mod::lemma_div_is_ordered;

verus! {

/// Above this total the divisor is rescaled instead of the numerator, so
/// that no intermediate product can leave the unsigned 64-bit range.  The
/// threshold and the choice of which operand to scale are load-bearing:
/// they decide the exact rounding of every emitted percentage.
pub const SCALE_LIMIT: u64 = 10000;

/// The emitted percentage for a station that was reachable for `available`
/// out of `total` observed time units, `0 < total` and
/// `available <= total`.  Both divisions are floor divisions.
pub open spec fn quantize_spec(available: int, total: int) -> int {
    if total > SCALE_LIMIT {
        available / (total / 100)
    } else {
        (available * 100) / total
    }
}

/// The percentage always lands in `[0, 100]`.
pub proof fn lemma_quantize_bounds(available: int, total: int)
    requires
        0 < total,
        0 <= available <= total,
    ensures
        0 <= quantize_spec(available, total) <= 100,
{
    if total > SCALE_LIMIT {
        let d = total / 100;
        assert(100 <= d <= total) by (nonlinear_arith)
            requires
                total > 10000,
                d == total / 100,
        ;
        assert(available / d <= total / d) by {
            lemma_div_is_ordered(available, total, d);
        }
        assert(total / d <= 100) by (nonlinear_arith)
            requires
                total > 10000,
                d == total / 100,
        ;
        assert(available / d >= 0) by (nonlinear_arith)
            requires
                available >= 0,
                d > 0,
        ;
    } else {
        assert(0 <= (available * 100) / total <= 100) by (nonlinear_arith)
            requires
                0 < total,
                0 <= available <= total,
        ;
    }
}

/// Raising `available` while `total` stays fixed never lowers the
/// percentage.
pub proof fn lemma_quantize_monotonic(a1: int, a2: int, total: int)
    requires
        0 < total,
        0 <= a1 <= a2,
    ensures
        quantize_spec(a1, total) <= quantize_spec(a2, total),
{
    if total > SCALE_LIMIT {
        let d = total / 100;
        assert(d > 0) by (nonlinear_arith)
            requires
                total > 10000,
                d == total / 100,
        ;
        lemma_div_is_ordered(a1, a2, d);
    } else {
        assert(a1 * 100 <= a2 * 100) by (nonlinear_arith)
            requires
                a1 <= a2,
        ;
        lemma_div_is_ordered(a1 * 100, a2 * 100, total);
    }
}

/// Turns a station's coverage measure into its percentage, exactly as
/// [`quantize_spec`] states it.
pub fn quantize(available: u64, total: u64) -> (percent: u8)
    requires
        0 < total,
        available <= total,
    ensures
        percent == quantize_spec(available as int, total as int),
        percent <= 100,
{
    proof {
        lemma_quantize_bounds(available as int, total as int);
    }
    if total > SCALE_LIMIT {
        let divisor = total / 100;
        assert(divisor == total as int / 100);
        (available / divisor) as u8
    } else {
        assert(available * 100 <= 100 * SCALE_LIMIT) by (nonlinear_arith)
            requires
                available <= total <= 10000,
        ;
        ((available * 100) / total) as u8
    }
}

} // verus!
