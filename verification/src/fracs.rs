//! Exact comparison of non-negative fractions, without forming products:
//! the continued-fraction descent keeps every intermediate value within the
//! operands' own range.

use vstd::prelude::*;

verus! {

/// `n1 / d1` is at most `n2 / d2`, for positive denominators.
pub open spec fn frac_le_spec(n1: int, d1: int, n2: int, d2: int) -> bool {
    n1 * d2 <= n2 * d1
}

/// Decides `n1 / d1 <= n2 / d2` exactly.
pub fn frac_le(n1: u128, d1: u128, n2: u128, d2: u128) -> (r: bool)
    requires
        d1 > 0,
        d2 > 0,
    ensures
        r == frac_le_spec(n1 as int, d1 as int, n2 as int, d2 as int),
    decreases d1 + d2,
{
    let q1 = n1 / d1;
    let r1 = n1 % d1;
    let q2 = n2 / d2;
    let r2 = n2 % d2;
    proof {
        vstd::arithmetic::div_mod::lemma_fundamental_div_mod(n1 as int, d1 as int);
        vstd::arithmetic::div_mod::lemma_fundamental_div_mod(n2 as int, d2 as int);
    }
    if q1 < q2 {
        proof {
            assert(n1 * d2 <= n2 * d1) by (nonlinear_arith)
                requires
                    n1 == d1 * (q1 as int) + r1,
                    n2 == d2 * (q2 as int) + r2,
                    0 <= r1 < d1,
                    0 <= r2 < d2,
                    q1 + 1 <= q2,
                    d1 > 0,
                    d2 > 0,
            ;
            assert(frac_le_spec(n1 as int, d1 as int, n2 as int, d2 as int));
        }
        true
    } else if q1 > q2 {
        proof {
            assert(n1 * d2 > n2 * d1) by (nonlinear_arith)
                requires
                    n1 == d1 * (q1 as int) + r1,
                    n2 == d2 * (q2 as int) + r2,
                    0 <= r1 < d1,
                    0 <= r2 < d2,
                    q2 + 1 <= q1,
                    d1 > 0,
                    d2 > 0,
            ;
            assert(!frac_le_spec(n1 as int, d1 as int, n2 as int, d2 as int));
        }
        false
    } else {
        proof {
            assert((n1 * d2 <= n2 * d1) == (r1 * d2 <= r2 * d1)) by (nonlinear_arith)
                requires
                    n1 == d1 * (q1 as int) + r1,
                    n2 == d2 * (q2 as int) + r2,
                    q1 == q2,
                    d1 > 0,
                    d2 > 0,
            ;
        }
        if r2 == 0 {
            proof {
                assert((r1 * d2 <= 0) == (r1 == 0)) by (nonlinear_arith)
                    requires
                        r1 >= 0,
                        d2 > 0,
                ;
                assert(r2 * d1 == 0) by (nonlinear_arith)
                    requires
                        r2 == 0,
                ;
                assert(frac_le_spec(n1 as int, d1 as int, n2 as int, d2 as int) == (r1 == 0));
            }
            r1 == 0
        } else if r1 == 0 {
            proof {
                assert(r2 * d1 >= 0) by (nonlinear_arith)
                    requires
                        r2 >= 0,
                        d1 > 0,
                ;
                assert(r1 * d2 == 0) by (nonlinear_arith)
                    requires
                        r1 == 0,
                ;
                assert(frac_le_spec(n1 as int, d1 as int, n2 as int, d2 as int));
            }
            true
        } else {
            let res = frac_le(d2, r2, d1, r1);
            proof {
                assert((d2 as int * (r1 as int) <= d1 as int * (r2 as int)) == ((r1 as int) * (
                d2 as int) <= (r2 as int) * (d1 as int))) by (nonlinear_arith);
                assert(frac_le_spec(n1 as int, d1 as int, n2 as int, d2 as int) == res);
            }
            res
        }
    }
}

/// `n / d` rounded to thousandths, half away from zero, held to a machine
/// word.
pub open spec fn permille_spec(n: int, d: int) -> int {
    let m = (2000 * n + d) / (2 * d);
    if m <= u64::MAX {
        m
    } else {
        u64::MAX as int
    }
}

/// Rounds `n / d` to thousandths.
pub fn permille(n: u128, d: u128) -> (r: u64)
    requires
        1 <= d <= 0x10_0000_0000_0000_0000_0000_0000,
        n <= 0x10_0000_0000_0000_0000_0000_0000,
    ensures
        r as int == permille_spec(n as int, d as int),
{
    let m = (2000 * n + d) / (2 * d);
    if m > 0xFFFF_FFFF_FFFF_FFFFu128 {
        u64::MAX
    } else {
        m as u64
    }
}

/// Decides `n1 / d1 >= n2 / d2` exactly.
pub fn frac_ge_of(n1: u128, d1: u128, n2: u128, d2: u128) -> (r: bool)
    requires
        d1 > 0,
        d2 > 0,
    ensures
        r == (n1 as int * d2 as int >= n2 as int * d1 as int),
{
    frac_le(n2, d2, n1, d1)
}

} // verus!
