//! Moments and spans of time, in nanoseconds.
use vstd::prelude::*;

use crate::number::Number;
use crate::single::Single;

verus! {

/// A span of time.
#[derive(Clone, Copy, Debug)]
pub struct Duration {
    pub nanos: u128,
}

impl View for Duration {
    type V = nat;

    open spec fn view(&self) -> nat {
        self.nanos as nat
    }
}

impl Duration {
    /// A span of nanoseconds as a single-precision number of seconds: whole seconds
    /// and the fraction of a second are each rounded, and so is their sum.
    pub open spec fn seconds(nanos: nat) -> Number {
        Number::whole(nanos / 1_000_000_000).plus(
            Number::whole(nanos % 1_000_000_000).over(Number::whole(1_000_000_000)),
        )
    }

    pub fn from_millis(millis: u64) -> (r: Duration)
        ensures
            r@ == millis * 1_000_000,
    {
        Duration { nanos: millis as u128 * 1_000_000 }
    }

    pub fn from_micros(micros: u64) -> (r: Duration)
        ensures
            r@ == micros * 1_000,
    {
        Duration { nanos: micros as u128 * 1_000 }
    }

    /// The whole microseconds in the span.
    pub fn as_micros(self) -> (r: u128)
        ensures
            r == self@ / 1_000,
    {
        self.nanos / 1_000
    }

    /// The seconds in the span, as a single-precision number.
    pub fn as_secs(self) -> (r: Single)
        ensures
            r@ == Duration::seconds(self@),
    {
        proof {
            Number::lemma_whole_finite((self.nanos % 1_000_000_000) as nat);
            Number::lemma_whole_finite(1_000_000_000);
        }
        let whole: Single = Single::from_whole(self.nanos / 1_000_000_000);
        let part: Single = Single::from_whole(self.nanos % 1_000_000_000);
        whole.plus(part.over(Single::from_whole(1_000_000_000)))
    }

    /// The two spans one after the other.
    pub fn plus(self, other: Duration) -> (r: Duration)
        requires
            self@ + other@ <= u128::MAX,
        ensures
            r@ == self@ + other@,
    {
        Duration { nanos: self.nanos + other.nanos }
    }
}

impl Duration {
    /// A fraction of a second is held to one part in 2^24, beside what the number of
    /// nanoseconds was rounded by, and it is at most a second.
    #[verifier::spinoff_prover]
    proof fn lemma_fraction(nanos: nat)
        requires
            nanos < 1_000_000_000,
        ensures
            ({
                let part = Number::whole(nanos);
                let ratio = part.over(Number::whole(1_000_000_000));
                &&& ratio.is_amount()
                &&& ratio == (Number::Finite { neg: false, units: ratio->units })
                &&& ratio->units <= Number::pow2(149)
                &&& nanos == 0 ==> ratio == Number::zero()
                &&& 0x100_0000 * (1_000_000_000 * ratio->units) <= 0x100_0001 * part->units
                &&& 0xff_ffff * part->units <= 0x100_0000 * (1_000_000_000 * ratio->units)
            }),
    {
        let billion: nat = 1_000_000_000;
        let p = Number::pow2(149);
        let part = Number::whole(nanos);
        let unit = Number::whole(billion);
        Number::lemma_pow2_positive(149);
        Number::lemma_whole_finite(nanos);
        Number::lemma_billion_exact();
        let x = part->units;
        let y = unit->units;
        assert(x <= y) by {
            Number::lemma_rounding_settles(billion * p, 1);
            Number::lemma_whole_finite(billion);
            assert(nanos * p <= billion * p) by (nonlinear_arith)
                requires
                    nanos <= billion,
            ;
            Number::lemma_rounding_keeps_order(nanos * p, 1, y);
        }
        let units = Number::rounded_units(x * p, y);
        assert(units <= p) by {
            Number::lemma_on_grid(1, 149);
            assert(1 * p == p);
            assert(x * p <= p * y) by (nonlinear_arith)
                requires
                    x <= y,
            ;
            Number::lemma_rounding_keeps_order(x * p, y, p);
        }
        Number::lemma_pow2_ordered(150, 277);
        assert(Number::pow2(150) == 2 * p);
        Number::lemma_rounded_held(false, x * p, y);
        if nanos == 0 {
            Number::lemma_zero_held();
            assert(0 * p == 0) by (nonlinear_arith);
            Number::lemma_rounding_keeps_order(0, 1, 0);
            assert(0 * y == 0) by (nonlinear_arith);
            Number::lemma_rounding_keeps_order(0, y, 0);
        } else {
            // It is large enough that numbers lie further than a unit apart.
            assert(p <= x) by {
                Number::lemma_on_grid(1, 149);
                assert(1 * p == p);
                assert(p <= nanos * p) by (nonlinear_arith)
                    requires
                        nanos >= 1,
                ;
                Number::lemma_rounding_keeps_order(nanos * p, 1, p);
            }
            assert((x * p) / y >= 0x100_0000) by {
                Number::lemma_some_powers();
                Number::lemma_pow2_ordered(77, 149);
                assert(y * 0x100_0000 <= x * p) by (nonlinear_arith)
                    requires
                        y == 1_000_000_000 * p,
                        x >= 0x2000_0000_0000_0000_0000,
                        p > 0,
                ;
                vstd::arithmetic::div_mod::lemma_div_is_ordered(
                    (y * 0x100_0000) as int,
                    (x * p) as int,
                    y as int,
                );
                vstd::arithmetic::div_mod::lemma_div_multiples_vanish(0x100_0000, y as int);
            }
            Number::law_rounding_is_close(x * p, y);
            assert(units * y == (billion * units) * p) by (nonlinear_arith)
                requires
                    y == billion * p,
            ;
            assert(0x100_0000 * (billion * units) <= 0x100_0001 * x) by (nonlinear_arith)
                requires
                    0x100_0000 * ((billion * units) * p) <= 0x100_0001 * (x * p),
                    p > 0,
            ;
            assert(0xff_ffff * x <= 0x100_0000 * (billion * units)) by (nonlinear_arith)
                requires
                    0xff_ffff * (x * p) <= 0x100_0000 * ((billion * units) * p),
                    p > 0,
            ;
        }
    }

    /// A span is a finite number of seconds and not a negative one; no time is zero
    /// seconds.
    pub proof fn lemma_seconds(nanos: nat)
        requires
            nanos <= u128::MAX,
        ensures
            Duration::seconds(nanos).is_amount(),
            nanos == 0 ==> Duration::seconds(nanos) == Number::zero(),
    {
        let billion: nat = 1_000_000_000;
        let whole = Number::whole(nanos / billion);
        let ratio = Number::whole(nanos % billion).over(Number::whole(billion));
        Number::lemma_whole_finite(nanos / billion);
        Duration::lemma_fraction(nanos % billion);
        Number::lemma_zero_held();
        let p = Number::pow2(149);
        let top = Number::pow2(251);
        Number::lemma_pow2_positive(251);
        Number::lemma_pow2_ordered(149, 251);
        Number::lemma_on_grid(1, 252);
        assert(Number::pow2(252) == 2 * top);
        assert(1 * Number::pow2(252) == Number::pow2(252));
        Number::lemma_pow2_ordered(253, 277);
        assert(Number::pow2(253) == 4 * top);
        let sum = whole.value() + ratio.value();
        if sum > 0 {
            Number::lemma_rounding_keeps_order(sum as nat, 1, Number::pow2(252));
            Number::lemma_rounded_held(false, sum as nat, 1);
        }
        if nanos == 0 {
            assert(0 * p == 0) by (nonlinear_arith);
            Number::lemma_rounding_keeps_order(0, 1, 0);
        }
    }

    /// The single-precision number of seconds in a span is off by at most one part in
    /// 2^22. It is counted in units of 2^-149 seconds.
    #[verifier::spinoff_prover]
    pub proof fn law_seconds_are_close(nanos: nat)
        requires
            nanos <= u128::MAX,
        ensures
            0x40_0000 * (1_000_000_000 * Duration::seconds(nanos).value()) <= 0x40_0001 * (nanos
                * Number::pow2(149)),
            0x3f_ffff * (nanos * Number::pow2(149)) <= 0x40_0000 * (1_000_000_000
                * Duration::seconds(nanos).value()),
    {
        let billion: nat = 1_000_000_000;
        let p = Number::pow2(149);
        let q = nanos / billion;
        let m = nanos % billion;
        let w = Number::whole(q)->units;
        let r = Number::whole(m).over(Number::whole(billion))->units;
        Number::lemma_whole_finite(q);
        Number::lemma_whole_finite(m);
        Number::law_whole_rounding_is_close(q * p);
        Number::law_whole_rounding_is_close(m * p);
        Duration::lemma_fraction(m);
        Number::law_whole_rounding_is_close(w + r);
        Duration::lemma_seconds(nanos);
        assert(nanos * p == billion * (q * p) + m * p) by (nonlinear_arith)
            requires
                nanos == billion * q + m,
        ;
    }
}

impl Duration {
    /// Whole seconds are that whole number, and a span is its whole seconds and the rest of
    /// it together. A part of a second is the number nearest to its nanoseconds over a
    /// billion.
    pub proof fn law_seconds_and_parts(whole: nat, part: nat)
        requires
            part < 1_000_000_000,
            whole * 1_000_000_000 + part <= u128::MAX,
        ensures
            Duration::seconds(whole * 1_000_000_000) == Number::whole(whole),
            Duration::seconds(whole * 1_000_000_000 + part) == Number::whole(whole).plus(
                Duration::seconds(part),
            ),
            Duration::seconds(part).stands_for(
                Number::whole(part).value() * Number::pow2(149),
                (1_000_000_000 * Number::pow2(149)) as nat,
            ),
    {
        let billion: nat = 1_000_000_000;
        let n = whole * billion + part;
        let p = Number::pow2(149);
        let ratio = Number::whole(part).over(Number::whole(billion));
        assert(n / billion == whole && n % billion == part);
        assert((whole * billion) / billion == whole && (whole * billion) % billion == 0);
        assert(part / billion == 0 && part % billion == part);
        Number::lemma_pow2_positive(149);
        Number::lemma_billion_exact();
        Number::lemma_whole_finite(billion);
        Number::lemma_whole_finite(whole);
        Number::lemma_whole_finite(part);
        Number::lemma_whole_exact(0);
        assert(0 * p == 0) by (nonlinear_arith);
        Duration::lemma_fraction(0);
        Duration::lemma_fraction(part);
        Number::lemma_rounding_exact(Number::whole(whole)->units);
        Number::lemma_rounding_exact(ratio->units);
        Number::whole(part).law_quotient_is_nearest(Number::whole(billion));
        assert(Number::whole(whole).plus(Number::zero()) == Number::whole(whole));
        assert(Number::zero().plus(ratio) == ratio);
    }
}

/// A moment, counted from a beginning that all moments of a program share.
#[derive(Clone, Copy, Debug)]
pub struct Instant {
    pub nanos: u128,
}

impl View for Instant {
    type V = nat;

    open spec fn view(&self) -> nat {
        self.nanos as nat
    }
}

impl Instant {
    /// The span from an earlier moment to this one; nothing if it was not earlier.
    pub fn saturating_duration_since(self, earlier: Instant) -> (r: Duration)
        ensures
            r@ == if earlier@ <= self@ {
                (self@ - earlier@) as nat
            } else {
                0
            },
    {
        if earlier.nanos <= self.nanos {
            Duration { nanos: self.nanos - earlier.nanos }
        } else {
            Duration { nanos: 0 }
        }
    }

    /// The moment that comes `span` later.
    pub fn plus(self, span: Duration) -> (r: Instant)
        requires
            self@ + span@ <= u128::MAX,
        ensures
            r@ == self@ + span@,
    {
        Instant { nanos: self.nanos + span.nanos }
    }
}

} // verus!
