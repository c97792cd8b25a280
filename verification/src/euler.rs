//! Interval bookkeeping for the adaptive cubic-to-spiral fitter.
//!
//! The fitter walks the parameter range `[0, 1]` of a cubic with a candidate
//! interval `[t0 * dt, (t0 + 1) * dt]` where `dt` is always a power-of-two
//! fraction: it halves the interval when the fit error is too large and,
//! after accepting an interval, steps forward and re-merges previously
//! halved siblings.  Because every bound is a dyadic rational, the running
//! lower bound reaches one *exactly*; this module carries that argument.
//!
//! The cursor stores `t0` and the exponent `e` with `dt == 2^-e`.  All
//! positions are reasoned about scaled by `2^63`, so that a position is the
//! exact natural number `t0 * 2^(63 - e)` and the full range is `2^63`.

use vstd::prelude::*;
use vstd::arithmetic::power2::pow2;
use vstd::arithmetic::power2::lemma_pow2_adds;
use vstd::arithmetic::power2::lemma_pow2_pos;
use vstd::arithmetic::power2::lemma_pow2_strictly_increases;
use vstd::arithmetic::power2::lemma2_to64;
use vstd::arithmetic::power2::lemma2_to64_rest;
use vstd::bits::lemma_u64_pow2_no_overflow;
use vstd::bits::lemma_u64_shl_is_mul;

verus! {

/// Largest usable exponent: positions scaled by `2^63` must fit in `u64`.
pub const MAX_EXP: u32 = 63;

/// The fitter's position in `[0, 1]`: the candidate interval is
/// `[t0 * 2^-e, (t0 + 1) * 2^-e]`.
pub struct DyadicCursor {
    t0: u64,
    e: u32,
}

impl DyadicCursor {
    /// The interval numerator `t0`.
    pub closed spec fn t0(&self) -> u64 {
        self.t0
    }

    /// The interval width exponent: the width is `2^-e`.
    pub closed spec fn exp(&self) -> u32 {
        self.e
    }

    /// The exponent is in range and the interval start lies in `[0, 1]`.
    pub open spec fn wf(&self) -> bool {
        self.exp() <= MAX_EXP && self.t0() <= pow2(self.exp() as nat)
    }

    /// The interval's lower bound, scaled by `2^63`.
    pub open spec fn lower_scaled(&self) -> nat {
        (self.t0() as nat) * pow2((MAX_EXP - self.exp()) as nat)
    }

    /// The interval's width, scaled by `2^63`.
    pub open spec fn width_scaled(&self) -> nat {
        pow2((MAX_EXP - self.exp()) as nat)
    }

    /// The whole range has been covered: the lower bound is exactly one.
    pub open spec fn is_done(&self) -> bool {
        self.t0() == pow2(self.exp() as nat)
    }

    /// Start at the whole range `[0, 1]`.
    pub fn new() -> (r: DyadicCursor)
        ensures
            r.wf(),
            r.t0() == 0,
            r.exp() == 0,
            r.lower_scaled() == 0,
            !r.is_done(),
    {
        proof {
            lemma2_to64();
        }
        DyadicCursor { t0: 0, e: 0 }
    }

    /// The interval numerator, for evaluating `t0 * dt` numerically.
    pub fn numerator(&self) -> (r: u64)
        ensures
            r == self.t0(),
    {
        self.t0
    }

    /// The width exponent, for evaluating `dt == 2^-e` numerically.
    pub fn exponent(&self) -> (r: u32)
        ensures
            r == self.exp(),
    {
        self.e
    }

    /// Whether the lower bound has reached one exactly.
    pub fn done(&self) -> (r: bool)
        requires
            self.wf(),
        ensures
            r == self.is_done(),
    {
        proof {
            lemma_u64_pow2_no_overflow(self.e as nat);
            lemma_u64_shl_is_mul(1u64, self.e as u64);
        }
        self.t0 == 1u64 << (self.e as u64)
    }

    /// Halve the candidate interval in place, keeping the lower bound.
    pub fn subdivide(&mut self)
        requires
            old(self).wf(),
            old(self).exp() < MAX_EXP,
        ensures
            final(self).wf(),
            final(self).t0() == 2 * old(self).t0(),
            final(self).exp() == old(self).exp() + 1,
            final(self).lower_scaled() == old(self).lower_scaled(),
            2 * final(self).width_scaled() == old(self).width_scaled(),
            final(self).is_done() == old(self).is_done(),
    {
        proof {
            lemma_pow2_adds(1, (MAX_EXP - self.e - 1) as nat);
            lemma_pow2_adds(1, self.e as nat);
            lemma2_to64();
            assert(self.t0 * pow2((MAX_EXP - self.e) as nat) == (2 * self.t0) * pow2(
                (MAX_EXP - self.e - 1) as nat,
            )) by (nonlinear_arith)
                requires
                    pow2((MAX_EXP - self.e) as nat) == 2 * pow2((MAX_EXP - self.e - 1) as nat),
            ;
            assert(self.t0 <= pow2(self.e as nat) ==> 2 * self.t0 <= pow2((self.e + 1) as nat));
            assert(self.t0 * pow2((MAX_EXP - self.e) as nat) <= pow2(self.e as nat) * pow2(
                (MAX_EXP - self.e) as nat,
            )) by (nonlinear_arith)
                requires
                    self.t0 <= pow2(self.e as nat),
            ;
            lemma_pow2_adds(self.e as nat, (MAX_EXP - self.e) as nat);
            if self.e + 1 < 63 {
                lemma_pow2_strictly_increases((self.e + 1) as nat, 63);
            }
            lemma2_to64_rest();
            assert(2 * self.t0 <= pow2(63));
        }
        self.t0 = 2 * self.t0;
        self.e = self.e + 1;
    }

    /// Accept the candidate interval and step past it, re-merging intervals
    /// whenever the new start is an even multiple of the width.  The lower
    /// bound advances by exactly the accepted interval's width.
    pub fn advance(&mut self)
        requires
            old(self).wf(),
            !old(self).is_done(),
        ensures
            final(self).wf(),
            final(self).lower_scaled() == old(self).lower_scaled() + old(self).width_scaled(),
            final(self).lower_scaled() > old(self).lower_scaled(),
    {
        proof {
            lemma_pow2_pos((MAX_EXP - self.e) as nat);
            lemma_pow2_pos(self.e as nat);
            if self.t0 + 1 > pow2(self.e as nat) {
                assert(false);
            }
            if self.e < 63 {
                lemma_pow2_strictly_increases(self.e as nat, 63);
            }
            lemma2_to64();
            lemma2_to64_rest();
            assert(self.t0 + 1 <= pow2(63));
            lemma_scaled_in_range((self.t0 + 1) as u64, self.e);
        }
        let ghost target: nat = ((self.t0 + 1) * pow2((MAX_EXP - self.e) as nat)) as nat;
        self.t0 = self.t0 + 1;
        while self.t0 % 2 == 0
            invariant
                self.e <= MAX_EXP,
                1 <= self.t0 <= pow2(self.e as nat),
                self.t0 * pow2((MAX_EXP - self.e) as nat) == target,
            decreases self.t0,
        {
            proof {
                lemma_pow2_pos(self.e as nat);
                lemma2_to64();
                if self.e == 0 {
                    // then t0 <= 1, contradicting an even t0 >= 1
                    assert(false);
                }
                lemma_pow2_adds(1, (MAX_EXP - self.e) as nat);
                lemma_pow2_adds(1, (self.e - 1) as nat);
                assert((self.t0 / 2) * pow2((MAX_EXP - self.e + 1) as nat) == self.t0 * pow2(
                    (MAX_EXP - self.e) as nat,
                )) by (nonlinear_arith)
                    requires
                        self.t0 % 2 == 0,
                        self.t0 >= 1,
                        pow2((MAX_EXP - self.e + 1) as nat) == 2 * pow2((MAX_EXP - self.e) as nat),
                ;
                assert(self.t0 / 2 <= pow2((self.e - 1) as nat)) by (nonlinear_arith)
                    requires
                        self.t0 <= pow2(self.e as nat),
                        self.t0 % 2 == 0,
                        pow2(self.e as nat) == 2 * pow2((self.e - 1) as nat),
                ;
            }
            self.t0 = self.t0 / 2;
            self.e = self.e - 1;
        }
        proof {
            let t: int = old(self).t0 as int;
            let w: int = pow2((MAX_EXP - old(self).e) as nat) as int;
            assert((t + 1) * w == t * w + w) by (nonlinear_arith);
        }
    }
}

/// A position at or below one, scaled by `2^63`, fits in 64 bits.
proof fn lemma_scaled_in_range(t0: u64, e: u32)
    requires
        e <= MAX_EXP,
        t0 <= pow2(e as nat),
    ensures
        t0 * pow2((MAX_EXP - e) as nat) <= pow2(MAX_EXP as nat),
{
    lemma_pow2_adds(e as nat, (MAX_EXP - e) as nat);
    assert(t0 * pow2((MAX_EXP - e) as nat) <= pow2(e as nat) * pow2((MAX_EXP - e) as nat))
        by (nonlinear_arith)
        requires
            t0 <= pow2(e as nat),
    ;
}

/// The candidate interval always stays inside the unit range: its upper
/// bound, scaled by `2^63`, never passes `2^63`.
pub proof fn lemma_candidate_in_range(c: DyadicCursor)
    requires
        c.wf(),
    ensures
        c.is_done() ==> c.lower_scaled() == pow2(MAX_EXP as nat),
        !c.is_done() ==> c.lower_scaled() + c.width_scaled() <= pow2(MAX_EXP as nat),
{
    lemma_pow2_pos((MAX_EXP - c.exp()) as nat);
    lemma_scaled_in_range(c.t0(), c.exp());
    lemma_done_is_exact(c);
    if !c.is_done() {
        assert((c.t0() as nat + 1) * pow2((MAX_EXP - c.exp()) as nat) <= pow2(c.exp() as nat)
            * pow2((MAX_EXP - c.exp()) as nat)) by (nonlinear_arith)
            requires
                c.t0() as nat + 1 <= pow2(c.exp() as nat),
        ;
        lemma_pow2_adds(c.exp() as nat, (MAX_EXP - c.exp()) as nat);
        assert((c.t0() as nat + 1) * pow2((MAX_EXP - c.exp()) as nat) == c.lower_scaled()
            + c.width_scaled()) by (nonlinear_arith);
    }
}

/// Exact termination of the dyadic walk: once well formed, the cursor's
/// lower bound equals one exactly when the numerator equals `2^e` — there
/// is no rounding slack anywhere in the subdivision arithmetic.
pub proof fn lemma_done_is_exact(c: DyadicCursor)
    requires
        c.wf(),
    ensures
        c.is_done() <==> c.lower_scaled() == pow2(MAX_EXP as nat),
{
    lemma_pow2_adds(c.exp() as nat, (MAX_EXP - c.exp()) as nat);
    lemma_pow2_pos((MAX_EXP - c.exp()) as nat);
    if c.lower_scaled() == pow2(MAX_EXP as nat) {
        assert(c.t0() == pow2(c.exp() as nat)) by (nonlinear_arith)
            requires
                c.t0() * pow2((MAX_EXP - c.exp()) as nat) == pow2(c.exp() as nat) * pow2(
                    (MAX_EXP - c.exp()) as nat,
                ),
                pow2((MAX_EXP - c.exp()) as nat) > 0,
        ;
    }
    if c.is_done() {
        assert(c.t0() * pow2((MAX_EXP - c.exp()) as nat) == pow2(c.exp() as nat) * pow2(
            (MAX_EXP - c.exp()) as nat,
        ));
    }
}

} // verus!
