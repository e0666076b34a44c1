//! Win/loss counters and their ratio-based total order.

use core::cmp::Ordering;
use vstd::prelude::*;
use vstd::std_specs::cmp::PartialOrdSpec;

verus! {

/// Paired win/loss counters for one cohort, with a ratio-based order:
/// ratios are compared by cross-multiplication, ties broken by sample size.
#[derive(Debug, Clone, Copy)]
pub struct WinRatio {
    pub wins: u32,
    pub looses: u32,
}

impl View for WinRatio {
    type V = WinRatio;

    open spec fn view(&self) -> WinRatio {
        *self
    }
}

impl DeepView for WinRatio {
    type V = WinRatio;

    open spec fn deep_view(&self) -> WinRatio {
        *self
    }
}

/// A product of two 32-bit values always fits in 64 bits.
pub proof fn lemma_u32_mul_fits(a: u64, b: u64)
    requires
        a <= u32::MAX,
        b <= u32::MAX,
    ensures
        a * b <= 0xFFFF_FFFE_0000_0001,
{
    assert(a * b <= 0xFFFF_FFFF * 0xFFFF_FFFF) by (nonlinear_arith)
        requires
            a <= 0xFFFF_FFFF && b <= 0xFFFF_FFFF,
    ;
}

impl WinRatio {
    /// Number of games recorded.
    pub open spec fn total_spec(self) -> int {
        self.wins + self.looses
    }

    /// The win percentage as an exact fraction `(numerator, denominator)`;
    /// by convention the ratio counts as a full 1 when there are no losses,
    /// including the empty `0/0` counter.
    pub open spec fn percent_spec(self) -> (int, int) {
        if self.looses == 0 {
            (1int, 1int)
        } else {
            (self.wins as int, self.total_spec())
        }
    }

    /// `self` sorts strictly below `other`: a smaller win/loss ratio by
    /// cross-multiplication, or the same ratio from fewer games.
    pub open spec fn lt_spec(self, other: WinRatio) -> bool {
        ||| self.wins * other.looses < other.wins * self.looses
        ||| (self.wins * other.looses == other.wins * self.looses
            && self.total_spec() < other.total_spec())
    }

    /// The total order used by every leaderboard, as a three-way comparison.
    pub open spec fn cmp_spec(self, other: WinRatio) -> Ordering {
        if self.lt_spec(other) {
            Ordering::Less
        } else if other.lt_spec(self) {
            Ordering::Greater
        } else {
            Ordering::Equal
        }
    }

    /// Record one more game with the given outcome.
    pub fn add_score(&mut self, win: bool)
        requires
            win ==> old(self).wins < u32::MAX,
            !win ==> old(self).looses < u32::MAX,
        ensures
            final(self).wins == old(self).wins + (if win { 1int } else { 0int }),
            final(self).looses == old(self).looses + (if win { 0int } else { 1int }),
    {
        if win {
            self.wins = self.wins + 1;
        } else {
            self.looses = self.looses + 1;
        }
    }

    pub fn total(&self) -> (r: u32)
        requires
            self.total_spec() <= u32::MAX,
        ensures
            r == self.total_spec(),
    {
        self.wins + self.looses
    }

    /// The win percentage as an exact fraction `(numerator, denominator)`.
    pub fn percent(&self) -> (r: (u64, u64))
        ensures
            (r.0 as int, r.1 as int) == self.percent_spec(),
            r.1 > 0,
            r.0 <= u32::MAX,
            r.1 <= 0x1_FFFF_FFFFu64,
    {
        if self.looses == 0 {
            (1, 1)
        } else {
            ((self.wins as u64), (self.wins as u64) + (self.looses as u64))
        }
    }

    /// Element-wise sum of two counters.
    pub fn add(self, other: WinRatio) -> (r: WinRatio)
        requires
            self.wins + other.wins <= u32::MAX,
            self.looses + other.looses <= u32::MAX,
        ensures
            r.wins == self.wins + other.wins,
            r.looses == self.looses + other.looses,
    {
        WinRatio { wins: self.wins + other.wins, looses: self.looses + other.looses }
    }

    pub open spec fn sub_spec(self, other: WinRatio) -> Option<WinRatio> {
        if self.wins < other.wins || self.looses < other.looses {
            None
        } else {
            Some(WinRatio {
                wins: (self.wins - other.wins) as u32,
                looses: (self.looses - other.looses) as u32,
            })
        }
    }

    /// Element-wise difference, defined only when `self` dominates `other`
    /// in both components.
    pub fn sub(self, other: WinRatio) -> (r: Option<WinRatio>)
        ensures
            r == self.sub_spec(other),
    {
        if self.wins < other.wins || self.looses < other.looses {
            return None;
        }
        Some(WinRatio { wins: self.wins - other.wins, looses: self.looses - other.looses })
    }

    /// Three-way comparison in the leaderboard order.
    pub fn cmp_to(&self, other: &WinRatio) -> (r: Ordering)
        ensures
            r == self.cmp_spec(*other),
    {
        proof {
            lemma_u32_mul_fits(self.wins as u64, other.looses as u64);
            lemma_u32_mul_fits(other.wins as u64, self.looses as u64);
        }
        let a = (self.wins as u64) * (other.looses as u64);
        let b = (other.wins as u64) * (self.looses as u64);
        if a < b {
            Ordering::Less
        } else if a > b {
            Ordering::Greater
        } else {
            let ta = (self.wins as u64) + (self.looses as u64);
            let tb = (other.wins as u64) + (other.looses as u64);
            if ta < tb {
                Ordering::Less
            } else if ta > tb {
                Ordering::Greater
            } else {
                Ordering::Equal
            }
        }
    }
}

impl Default for WinRatio {
    /// The empty counter.
    fn default() -> (r: WinRatio)
        ensures
            r.wins == 0 && r.looses == 0,
    {
        WinRatio { wins: 0, looses: 0 }
    }
}

impl PartialEq for WinRatio {
    /// Stored equality balances the cross-multiplied ratios only; sample
    /// sizes are deliberately not part of equality.
    fn eq(&self, other: &WinRatio) -> bool {
        proof {
            lemma_u32_mul_fits(self.looses as u64, other.wins as u64);
            lemma_u32_mul_fits(self.wins as u64, other.looses as u64);
        }
        (self.looses as u64) * (other.wins as u64) == (self.wins as u64) * (other.looses as u64)
    }
}

impl vstd::std_specs::cmp::PartialEqSpecImpl for WinRatio {
    open spec fn obeys_eq_spec() -> bool {
        true
    }

    open spec fn eq_spec(&self, other: &WinRatio) -> bool {
        self.looses * other.wins == self.wins * other.looses
    }
}

impl PartialOrd for WinRatio {
    fn partial_cmp(&self, other: &WinRatio) -> Option<Ordering> {
        Some(self.cmp_to(other))
    }
}

impl vstd::std_specs::cmp::PartialOrdSpecImpl for WinRatio {
    open spec fn obeys_partial_cmp_spec() -> bool {
        true
    }

    open spec fn partial_cmp_spec(&self, other: &WinRatio) -> Option<Ordering> {
        Some(self.cmp_spec(*other))
    }
}

/// Law: the leaderboard order ties only identical counters; any other pair
/// is strictly ordered.
pub proof fn lemma_winratio_order_ties(a: WinRatio, b: WinRatio)
    ensures
        (a.cmp_spec(b) == Ordering::Equal) <==> (a == b),
{
    if a.cmp_spec(b) == Ordering::Equal {
        assert(a.wins * b.looses == b.wins * a.looses);
        assert(a.total_spec() == b.total_spec());
        assert(a.wins == b.wins && a.looses == b.looses) by (nonlinear_arith)
            requires
                a.wins * b.looses == b.wins * a.looses,
                a.wins + a.looses == b.wins + b.looses,
                a.wins >= 0 && a.looses >= 0 && b.wins >= 0 && b.looses >= 0,
        ;
    }
}

/// Law: the order is antisymmetric; swapping the sides flips the outcome.
pub proof fn lemma_winratio_order_flip(a: WinRatio, b: WinRatio)
    ensures
        (a.cmp_spec(b) == Ordering::Less) <==> (b.cmp_spec(a) == Ordering::Greater),
{
}

/// Law: `a` compares strictly below `b` exactly when cross-multiplication of
/// the win/loss ratios says so, with equal cross-products decided by the
/// total number of games.
pub proof fn lemma_winratio_order(a: WinRatio, b: WinRatio)
    ensures
        (a.partial_cmp_spec(&b) == Some(Ordering::Less)) <==> (a.wins * b.looses
            < b.wins * a.looses || (a.wins * b.looses == b.wins * a.looses && a.total_spec()
            < b.total_spec())),
{
}


/// `x` does not sort below `y`: a larger cross-multiplied ratio, or the
/// same ratio from at least as many games.
pub open spec fn ge_spec(x: WinRatio, y: WinRatio) -> bool {
    ||| x.wins * y.looses > y.wins * x.looses
    ||| (x.wins * y.looses == y.wins * x.looses && x.total_spec() >= y.total_spec())
}

proof fn lemma_cmp_is_ge(a: WinRatio, b: WinRatio)
    ensures
        (a.cmp_spec(b) != Ordering::Greater) == ge_spec(b, a),
{
}

/// Law: the leaderboard order is total; of any two counters one is at
/// least the other.
pub proof fn lemma_winratio_order_total(a: WinRatio, b: WinRatio)
    ensures
        a.cmp_spec(b) != Ordering::Greater || b.cmp_spec(a) != Ordering::Greater,
{
}

/// Law: the leaderboard order is transitive.
pub proof fn lemma_winratio_order_trans(a: WinRatio, b: WinRatio, c: WinRatio)
    requires
        a.cmp_spec(b) != Ordering::Greater,
        b.cmp_spec(c) != Ordering::Greater,
    ensures
        a.cmp_spec(c) != Ordering::Greater,
{
    lemma_cmp_is_ge(a, b);
    lemma_cmp_is_ge(b, c);
    lemma_cmp_is_ge(a, c);
    lemma_ge_trans(c, b, a);
}

/// Transitivity of `ge_spec`, by cases on the zero counters.
proof fn lemma_ge_trans(c: WinRatio, b: WinRatio, a: WinRatio)
    requires
        ge_spec(b, a),
        ge_spec(c, b),
    ensures
        ge_spec(c, a),
{
    let wa = a.wins as int;
    let la = a.looses as int;
    let wb = b.wins as int;
    let lb = b.looses as int;
    let wc = c.wins as int;
    let lc = c.looses as int;
    if wb == 0 && lb == 0 {
        // b is the empty counter: it only stays above the empty counter.
        assert(wb * la == wa * lb) by (nonlinear_arith)
            requires
                wb == 0 && lb == 0,
        ;
        assert(a.total_spec() == 0);
        assert(wc * la == wa * lc) by (nonlinear_arith)
            requires
                wa == 0 && la == 0,
        ;
    } else if wa == 0 && la == 0 {
        // Everything is at least the empty counter.
        assert(wc * la == wa * lc) by (nonlinear_arith)
            requires
                wa == 0 && la == 0,
        ;
    } else if wc == 0 && lc == 0 {
        // c at least b forces b to be the empty counter too.
        assert(wc * lb == wb * lc) by (nonlinear_arith)
            requires
                wc == 0 && lc == 0,
        ;
        assert(b.total_spec() <= 0);
        assert(false);
    } else if lb > 0 {
        assert(wc * lb * la >= wb * lc * la) by (nonlinear_arith)
            requires
                wc * lb >= wb * lc,
                la >= 0,
        ;
        assert(wb * la * lc >= wa * lb * lc) by (nonlinear_arith)
            requires
                wb * la >= wa * lb,
                lc >= 0,
        ;
        assert(wc * lb * la == wc * la * lb && wb * lc * la == wb * la * lc && wa * lb * lc == wa
            * lc * lb) by (nonlinear_arith);
        assert(wc * la * lb >= wa * lc * lb);
        assert(wc * la >= wa * lc) by (nonlinear_arith)
            requires
                wc * la * lb >= wa * lc * lb,
                lb > 0,
        ;
        if wc * la == wa * lc {
            // End-to-end equality: both sides of the chain must balance.
            if lc == 0 {
                // c is all wins, so a must be too, and then b as well;
                // that contradicts a positive loss count on b.
                assert(wc > 0);
                assert(la == 0) by (nonlinear_arith)
                    requires
                        wc * la == wa * lc,
                        lc == 0,
                        wc > 0,
                ;
                assert(wa > 0);
                assert(wb * la == 0 && wa * lb > 0) by (nonlinear_arith)
                    requires
                        la == 0,
                        wa > 0,
                        lb > 0,
                ;
                assert(false);
            } else if la == 0 {
                assert(wa > 0);
                assert(wc * la == 0 && wa * lc > 0) by (nonlinear_arith)
                    requires
                        la == 0,
                        wa > 0,
                        lc > 0,
                ;
                assert(false);
            } else {
                assert(wc * la * lb == wa * lc * lb) by (nonlinear_arith)
                    requires
                        wc * la == wa * lc,
                ;
                assert(wb * la == wa * lb) by (nonlinear_arith)
                    requires
                        wc * lb * la >= wb * lc * la,
                        wb * la * lc >= wa * lb * lc,
                        wc * la * lb == wa * lc * lb,
                        wb * la >= wa * lb,
                        lc > 0,
                        la > 0,
                        lb > 0,
                ;
                assert(wc * lb == wb * lc) by (nonlinear_arith)
                    requires
                        wc * lb * la >= wb * lc * la,
                        wb * la * lc >= wa * lb * lc,
                        wc * la * lb == wa * lc * lb,
                        wc * lb >= wb * lc,
                        lc > 0,
                        la > 0,
                        lb > 0,
                ;
                assert(b.total_spec() >= a.total_spec());
                assert(c.total_spec() >= b.total_spec());
            }
        }
    } else {
        // b has no losses and at least one win.
        assert(wb > 0);
        assert(wb * lc <= 0 ==> lc == 0) by (nonlinear_arith)
            requires
                wb > 0,
                lc >= 0,
        ;
        assert(wc * lb == 0) by (nonlinear_arith)
            requires
                lb == 0,
        ;
        assert(lc == 0);
        assert(wc > 0);
        if wb * la > wa * lb {
            assert(la > 0) by (nonlinear_arith)
                requires
                    wb * la > wa * lb,
                    lb == 0,
                    la >= 0,
            ;
            assert(wc * la > wa * lc) by (nonlinear_arith)
                requires
                    wc > 0,
                    la > 0,
                    lc == 0,
                    wa >= 0,
            ;
        } else {
            assert(wb * la == wa * lb);
            assert(la == 0) by (nonlinear_arith)
                requires
                    wb * la == wa * lb,
                    lb == 0,
                    wb > 0,
                    la >= 0,
            ;
            assert(wc * la == wa * lc) by (nonlinear_arith)
                requires
                    la == 0,
                    lc == 0,
            ;
            assert(b.total_spec() >= a.total_spec());
            assert(c.total_spec() >= b.total_spec());
        }
    }
}

} // verus!
