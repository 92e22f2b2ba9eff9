//! The numbers that single precision (IEEE 754 binary32) can hold, and their arithmetic.
//!
//! Every finite single-precision number is a whole multiple of 2^-149, the
//! smallest positive one. [`Number`] says which multiple, so that sums, products
//! and quotients are exact until the one rounding rule, [`Number::rounded`].
use vstd::prelude::*;

verus! {


/// What a single-precision bit pattern denotes.
pub enum Number {
    /// Not a number.
    Nan,
    /// One of the two infinities.
    Infinite { neg: bool },
    /// The number `units * 2^-149`, negated if `neg`. There are two zeros.
    Finite { neg: bool, units: nat },
}

impl Number {
    /// 2 to the power `e`.
    pub open spec fn pow2(e: nat) -> nat
        decreases e,
    {
        if e == 0 {
            1
        } else {
            2 * Number::pow2((e - 1) as nat)
        }
    }

    /// The number that a bit pattern denotes: a sign bit, eight bits of exponent
    /// and twenty-three bits of fraction.
    pub open spec fn from_bits(bits: u32) -> Number {
        let neg = bits >= 0x8000_0000;
        let exponent = ((bits / 0x80_0000) % 0x100) as nat;
        let fraction = (bits % 0x80_0000) as nat;
        if exponent == 0xff {
            if fraction == 0 {
                Number::Infinite { neg }
            } else {
                Number::Nan
            }
        } else if exponent == 0 {
            Number::Finite { neg, units: fraction }
        } else {
            Number::Finite { neg, units: (0x80_0000 + fraction) * Number::pow2((exponent - 1) as nat) }
        }
    }

    /// The distance between neighbouring numbers at a magnitude of `n` units: the
    /// least power of two that leaves a quotient of at most twenty-four bits.
    pub open spec fn spacing(n: nat) -> nat
        decreases n,
    {
        if n < 0x100_0000 {
            1
        } else {
            2 * Number::spacing(n / 2)
        }
    }

    /// `num / den` rounded to the nearest integer, a tie to the even one.
    pub open spec fn half_even(num: nat, den: nat) -> nat {
        let below = num / den;
        let rest = num % den;
        if 2 * rest < den || (2 * rest == den && below % 2 == 0) {
            below
        } else {
            below + 1
        }
    }

    /// The units of the multiple of the spacing that is nearest to `num / den` units.
    pub open spec fn rounded_units(num: nat, den: nat) -> nat {
        let step = Number::spacing(num / den);
        Number::half_even(num, den * step) * step
    }

    /// The single-precision number nearest to `num / den` units: ties go to the
    /// even neighbour, and what is beyond the largest finite number is infinite.
    pub open spec fn rounded(neg: bool, num: nat, den: nat) -> Number {
        let units = Number::rounded_units(num, den);
        if units < Number::pow2(277) {
            Number::Finite { neg, units }
        } else {
            Number::Infinite { neg }
        }
    }
}

impl Number {
    /// The whole number `n`, to the nearest.
    pub open spec fn whole(n: nat) -> Number {
        Number::rounded(false, n * Number::pow2(149), 1)
    }

    /// The finite number as a signed count of units.
    pub open spec fn value(self) -> int {
        match self {
            Number::Finite { neg, units } => if neg {
                -(units as int)
            } else {
                units as int
            },
            _ => 0,
        }
    }

    /// `-self`
    pub open spec fn negated(self) -> Number {
        match self {
            Number::Nan => Number::Nan,
            Number::Infinite { neg } => Number::Infinite { neg: !neg },
            Number::Finite { neg, units } => Number::Finite { neg: !neg, units },
        }
    }

    /// `self + other`: the exact sum, rounded. Opposite infinities have no sum.
    pub open spec fn plus(self, other: Number) -> Number {
        match (self, other) {
            (Number::Nan, _) => Number::Nan,
            (_, Number::Nan) => Number::Nan,
            (Number::Infinite { neg: a }, Number::Infinite { neg: b }) => if a == b {
                self
            } else {
                Number::Nan
            },
            (Number::Infinite { .. }, Number::Finite { .. }) => self,
            (Number::Finite { .. }, Number::Infinite { .. }) => other,
            (Number::Finite { neg: a, .. }, Number::Finite { neg: b, .. }) => {
                let sum = self.value() + other.value();
                if sum == 0 {
                    Number::Finite { neg: a && b, units: 0 }
                } else if sum < 0 {
                    Number::rounded(true, (-sum) as nat, 1)
                } else {
                    Number::rounded(false, sum as nat, 1)
                }
            },
        }
    }

    /// `self - other`
    pub open spec fn minus(self, other: Number) -> Number {
        self.plus(other.negated())
    }

    /// `self * other`: the exact product, rounded. Nothing times infinity is no number.
    pub open spec fn times(self, other: Number) -> Number {
        match (self, other) {
            (Number::Nan, _) => Number::Nan,
            (_, Number::Nan) => Number::Nan,
            (Number::Infinite { neg: a }, Number::Infinite { neg: b }) => Number::Infinite {
                neg: a != b,
            },
            (Number::Infinite { neg: a }, Number::Finite { neg: b, units }) => if units == 0 {
                Number::Nan
            } else {
                Number::Infinite { neg: a != b }
            },
            (Number::Finite { neg: a, units }, Number::Infinite { neg: b }) => if units == 0 {
                Number::Nan
            } else {
                Number::Infinite { neg: a != b }
            },
            (Number::Finite { neg: a, units: x }, Number::Finite { neg: b, units: y }) =>
                Number::rounded(a != b, x * y, Number::pow2(149)),
        }
    }

    /// `self / other` for finite numbers and a divisor that is not zero: the exact
    /// quotient, rounded.
    pub open spec fn over(self, other: Number) -> Number
        recommends
            self is Finite,
            other is Finite,
            other.value() != 0,
    {
        match (self, other) {
            (Number::Finite { neg: a, units: x }, Number::Finite { neg: b, units: y }) =>
                Number::rounded(a != b, x * Number::pow2(149), y),
            _ => Number::Nan,
        }
    }

    /// `self < other`; false where one is no number.
    pub open spec fn below(self, other: Number) -> bool {
        match (self, other) {
            (Number::Nan, _) => false,
            (_, Number::Nan) => false,
            (Number::Infinite { neg: a }, Number::Infinite { neg: b }) => a && !b,
            (Number::Infinite { neg }, Number::Finite { .. }) => neg,
            (Number::Finite { .. }, Number::Infinite { neg }) => !neg,
            (Number::Finite { .. }, Number::Finite { .. }) => self.value() < other.value(),
        }
    }

    /// `self == other`; false where one is no number, and the two zeros are equal.
    pub open spec fn same(self, other: Number) -> bool {
        self !is Nan && other !is Nan && !self.below(other) && !other.below(self)
    }

    /// `self <= other`; false where one is no number.
    pub open spec fn at_most(self, other: Number) -> bool {
        self.below(other) || self.same(other)
    }

    /// The lesser of the two, or the one that is a number.
    pub open spec fn lesser(self, other: Number) -> Number {
        if other.below(self) || self is Nan {
            other
        } else {
            self
        }
    }

    /// `self` moved into `lowest..=highest`; what is no number stays so.
    pub open spec fn clamped(self, lowest: Number, highest: Number) -> Number {
        if self.below(lowest) {
            lowest
        } else if highest.below(self) {
            highest
        } else {
            self
        }
    }

    /// Zero.
    pub open spec fn zero() -> Number {
        Number::Finite { neg: false, units: 0 }
    }
}

impl Number {
    /// Powers of two are positive.
    pub proof fn lemma_pow2_positive(e: nat)
        ensures
            Number::pow2(e) > 0,
        decreases e,
    {
        if e > 0 {
            Number::lemma_pow2_positive((e - 1) as nat);
        }
    }

    /// Exponents add up under multiplication.
    pub proof fn lemma_pow2_adds(a: nat, b: nat)
        ensures
            Number::pow2(a + b) == Number::pow2(a) * Number::pow2(b),
        decreases a,
    {
        if a == 0 {
            assert(Number::pow2(0) == 1);
        } else {
            Number::lemma_pow2_adds((a - 1) as nat, b);
            assert((a + b - 1) as nat == (a - 1) as nat + b);
            assert(2 * (Number::pow2((a - 1) as nat) * Number::pow2(b)) == (2 * Number::pow2((a - 1) as nat)) * Number::pow2(b))
                by (nonlinear_arith);
        }
    }

    /// Powers of two grow with the exponent.
    pub proof fn lemma_pow2_ordered(a: nat, b: nat)
        requires
            a <= b,
        ensures
            Number::pow2(a) <= Number::pow2(b),
    {
        Number::lemma_pow2_adds(a, (b - a) as nat);
        Number::lemma_pow2_positive((b - a) as nat);
        Number::lemma_pow2_positive(a);
        assert(Number::pow2(a) * Number::pow2((b - a) as nat) >= Number::pow2(a)) by (nonlinear_arith)
            requires
                Number::pow2((b - a) as nat) >= 1,
                Number::pow2(a) >= 1,
        ;
    }

    /// The spacing at `n` units is the power of two at which the quotient first has
    /// at most twenty-four bits.
    pub proof fn lemma_spacing_is(n: nat, e: nat)
        requires
            n / Number::pow2(e) < 0x100_0000,
            e > 0 ==> n / Number::pow2((e - 1) as nat) >= 0x100_0000,
        ensures
            Number::spacing(n) == Number::pow2(e),
        decreases e,
    {
        if e == 0 {
            assert(n / Number::pow2(0) == n) by {
                vstd::arithmetic::div_mod::lemma_div_basics_2(n as int);
            }
        } else {
            let f = (e - 1) as nat;
            Number::lemma_pow2_positive(f);
            assert(n >= 0x100_0000) by {
                vstd::arithmetic::div_mod::lemma_div_is_ordered_by_denominator(
                    n as int,
                    1,
                    Number::pow2(f) as int,
                );
                vstd::arithmetic::div_mod::lemma_div_basics_2(n as int);
            }
            vstd::arithmetic::div_mod::lemma_div_denominator(n as int, 2, Number::pow2(f) as int);
            if f > 0 {
                let g = (f - 1) as nat;
                Number::lemma_pow2_positive(g);
                vstd::arithmetic::div_mod::lemma_div_denominator(n as int, 2, Number::pow2(g) as int);
            }
            Number::lemma_spacing_is(n / 2, f);
        }
    }

    /// Rounding to an integer does not depend on how the fraction is written.
    pub proof fn lemma_half_even_scales(k: nat, num: nat, den: nat)
        requires
            k > 0,
            den > 0,
        ensures
            k * den > 0,
            Number::half_even(k * num, k * den) == Number::half_even(num, den),
            (k * num) / (k * den) == num / den,
    {
        let below = num / den;
        let rest = num % den;
        vstd::arithmetic::div_mod::lemma_fundamental_div_mod(num as int, den as int);
        assert(k * den > 0) by (nonlinear_arith)
            requires
                k > 0,
                den > 0,
        ;
        assert(k * num == below * (k * den) + k * rest) by (nonlinear_arith)
            requires
                num == den * below + rest,
        ;
        assert(0 <= k * rest < k * den) by (nonlinear_arith)
            requires
                0 <= rest < den,
                k > 0,
        ;
        vstd::arithmetic::div_mod::lemma_fundamental_div_mod_converse(
            (k * num) as int,
            (k * den) as int,
            below as int,
            (k * rest) as int,
        );
        assert(2 * (k * rest) < k * den <==> 2 * rest < den) by (nonlinear_arith)
            requires
                k > 0,
        ;
        assert(2 * (k * rest) == k * den <==> 2 * rest == den) by (nonlinear_arith)
            requires
                k > 0,
        ;
    }

    /// Rounding to single precision does not depend on how the fraction is written.
    pub proof fn lemma_rounded_scales(neg: bool, k: nat, num: nat, den: nat)
        requires
            k > 0,
            den > 0,
        ensures
            Number::rounded(neg, k * num, k * den) == Number::rounded(neg, num, den),
    {
        Number::lemma_half_even_scales(k, num, den);
        let step = Number::spacing(num / den);
        Number::lemma_spacing_positive(num / den);
        assert(den * step > 0) by (nonlinear_arith)
            requires
                den > 0,
                step > 0,
        ;
        Number::lemma_half_even_scales(k, num, den * step);
        assert(k * (den * step) == (k * den) * step) by (nonlinear_arith);
    }

    /// Neighbouring numbers differ.
    pub proof fn lemma_spacing_positive(n: nat)
        ensures
            Number::spacing(n) > 0,
        decreases n,
    {
        if n >= 0x100_0000 {
            Number::lemma_spacing_positive(n / 2);
        }
    }
}

impl Number {
    /// The exponent of the spacing at `n` units.
    pub open spec fn exponent(n: nat) -> nat
        decreases n,
    {
        if n < 0x100_0000 {
            0
        } else {
            Number::exponent(n / 2) + 1
        }
    }

    /// Whether `units` is a multiple of the spacing at its own magnitude: what a
    /// mantissa of twenty-four bits can hold.
    pub open spec fn on_grid(units: nat) -> bool {
        units % Number::spacing(units) == 0
    }

    /// What the spacing at `n` is: a power of two that leaves twenty-four bits.
    pub proof fn lemma_exponent(n: nat)
        ensures
            Number::spacing(n) == Number::pow2(Number::exponent(n)),
            n / Number::spacing(n) < 0x100_0000,
            Number::exponent(n) > 0 ==> n / Number::spacing(n) >= 0x80_0000,
        decreases n,
    {
        if n >= 0x100_0000 {
            let h = n / 2;
            Number::lemma_exponent(h);
            Number::lemma_spacing_positive(h);
            vstd::arithmetic::div_mod::lemma_div_denominator(
                n as int,
                2,
                Number::spacing(h) as int,
            );
            if Number::exponent(h) == 0 {
                assert(Number::spacing(h) == 1);
                vstd::arithmetic::div_mod::lemma_div_basics_2(h as int);
            }
        } else {
            vstd::arithmetic::div_mod::lemma_div_basics_2(n as int);
        }
    }

    /// Larger magnitudes are spaced at least as widely.
    pub proof fn lemma_exponent_ordered(m: nat, n: nat)
        requires
            m <= n,
        ensures
            Number::exponent(m) <= Number::exponent(n),
        decreases n,
    {
        if m >= 0x100_0000 {
            Number::lemma_exponent_ordered(m / 2, n / 2);
        }
    }

    /// An exponent that leaves twenty-four bits is not below the exponent of the spacing.
    pub proof fn lemma_exponent_least(n: nat, e: nat)
        requires
            n / Number::pow2(e) < 0x100_0000,
        ensures
            Number::exponent(n) <= e,
        decreases e,
    {
        if e == 0 {
            vstd::arithmetic::div_mod::lemma_div_basics_2(n as int);
        } else if n >= 0x100_0000 {
            let f = (e - 1) as nat;
            Number::lemma_pow2_positive(f);
            vstd::arithmetic::div_mod::lemma_div_denominator(n as int, 2, Number::pow2(f) as int);
            Number::lemma_exponent_least(n / 2, f);
        }
    }

    /// A multiple of a power of two is a multiple of every smaller one.
    pub proof fn lemma_divisible(n: nat, e: nat, f: nat)
        requires
            f <= e,
            n % Number::pow2(e) == 0,
        ensures
            n % Number::pow2(f) == 0,
    {
        let p = Number::pow2(e);
        let q = Number::pow2(f);
        let r = Number::pow2((e - f) as nat);
        Number::lemma_pow2_adds((e - f) as nat, f);
        Number::lemma_pow2_positive(e);
        Number::lemma_pow2_positive(f);
        vstd::arithmetic::div_mod::lemma_fundamental_div_mod(n as int, p as int);
        let k = n / p;
        assert(n == (k * r) * q) by (nonlinear_arith)
            requires
                n == p * k,
                p == r * q,
        ;
        vstd::arithmetic::div_mod::lemma_mod_multiples_basic((k * r) as int, q as int);
    }

    /// Whatever a mantissa of at most twenty-four bits and an exponent make is on the grid.
    pub proof fn lemma_on_grid(m: nat, e: nat)
        requires
            m <= 0x100_0000,
        ensures
            Number::on_grid(m * Number::pow2(e)),
    {
        let n = m * Number::pow2(e);
        Number::lemma_exponent(n);
        if m == 0x100_0000 {
            assert(n == 0x80_0000 * Number::pow2(e + 1)) by {
                assert(Number::pow2(e + 1) == 2 * Number::pow2(e));
            }
            Number::lemma_pow2_positive(e + 1);
            vstd::arithmetic::div_mod::lemma_div_by_multiple(0x80_0000, Number::pow2(e + 1) as int);
            Number::lemma_exponent_least(n, e + 1);
            vstd::arithmetic::div_mod::lemma_mod_multiples_basic(
                0x80_0000,
                Number::pow2(e + 1) as int,
            );
            Number::lemma_divisible(n, e + 1, Number::exponent(n));
        } else {
            Number::lemma_pow2_positive(e);
            vstd::arithmetic::div_mod::lemma_div_by_multiple(m as int, Number::pow2(e) as int);
            Number::lemma_exponent_least(n, e);
            vstd::arithmetic::div_mod::lemma_mod_multiples_basic(m as int, Number::pow2(e) as int);
            Number::lemma_divisible(n, e, Number::exponent(n));
        }
    }

    /// No number on the grid lies strictly between the two multiples of the spacing
    /// that enclose `num / den`.
    pub proof fn lemma_neighbours(num: nat, den: nat, units: nat)
        requires
            den > 0,
            Number::on_grid(units),
        ensures
            ({
                let step = Number::spacing(num / den);
                let low = num / (den * step);
                &&& units * den <= num ==> units <= low * step
                &&& units * den > num ==> units >= (low + 1) * step
            }),
    {
        let n = num / den;
        let step = Number::spacing(n);
        let d = den * step;
        let low = num / d;
        let own = Number::spacing(units);
        let k = units / own;
        Number::lemma_exponent(n);
        Number::lemma_exponent(units);
        Number::lemma_spacing_positive(n);
        Number::lemma_spacing_positive(units);
        assert(d > 0) by (nonlinear_arith)
            requires
                d == den * step,
                den > 0,
                step > 0,
        ;
        vstd::arithmetic::div_mod::lemma_fundamental_div_mod(units as int, own as int);
        vstd::arithmetic::div_mod::lemma_fundamental_div_mod(num as int, den as int);
        vstd::arithmetic::div_mod::lemma_fundamental_div_mod(num as int, d as int);
        vstd::arithmetic::div_mod::lemma_div_denominator(num as int, den as int, step as int);
        if units * den <= num {
            assert(units <= n) by (nonlinear_arith)
                requires
                    units * den <= num,
                    num == den * n + num % den,
                    num % den < den,
                    den > 0,
            ;
            Number::lemma_exponent_ordered(units, n);
            if Number::exponent(units) == Number::exponent(n) {
                assert(k <= low) by (nonlinear_arith)
                    requires
                        units * den <= num,
                        units == step * k,
                        num == d * low + num % d,
                        num % d < d,
                        d == den * step,
                        d > 0,
                ;
                assert(units <= low * step) by (nonlinear_arith)
                    requires
                        units == step * k,
                        k <= low,
                ;
            } else {
                Number::lemma_pow2_ordered(Number::exponent(units) + 1, Number::exponent(n));
                assert(Number::pow2(Number::exponent(units) + 1) == 2 * own);
                assert(units <= low * step) by (nonlinear_arith)
                    requires
                        units == own * k,
                        k < 0x100_0000,
                        2 * own <= step,
                        low >= 0x80_0000,
                ;
            }
        } else {
            assert(n <= units) by (nonlinear_arith)
                requires
                    units * den > num,
                    num >= den * n,
                    den > 0,
            ;
            Number::lemma_exponent_ordered(n, units);
            Number::lemma_divisible(units, Number::exponent(units), Number::exponent(n));
            vstd::arithmetic::div_mod::lemma_fundamental_div_mod(units as int, step as int);
            let j = units / step;
            assert(j > low) by (nonlinear_arith)
                requires
                    units * den > num,
                    units == step * j,
                    num >= d * low,
                    d == den * step,
                    d > 0,
            ;
            assert(units >= (low + 1) * step) by (nonlinear_arith)
                requires
                    units == step * j,
                    j >= low + 1,
            ;
        }
    }

    /// Rounding does not pass a number on the grid: what is not below one is not
    /// rounded below it, and what is not above one is not rounded above it.
    pub proof fn lemma_rounding_keeps_order(num: nat, den: nat, units: nat)
        requires
            den > 0,
            Number::on_grid(units),
        ensures
            units * den <= num ==> units <= Number::rounded_units(num, den),
            num <= units * den ==> Number::rounded_units(num, den) <= units,
    {
        let step = Number::spacing(num / den);
        let d = den * step;
        let low = num / d;
        Number::lemma_neighbours(num, den, units);
        Number::lemma_spacing_positive(num / den);
        assert(low * step <= (low + 1) * step) by (nonlinear_arith);
        if units * den == num {
            assert(d > 0) by (nonlinear_arith)
                requires
                    d == den * step,
                    den > 0,
                    step > 0,
            ;
            vstd::arithmetic::div_mod::lemma_fundamental_div_mod(num as int, d as int);
            assert(num % d == 0) by (nonlinear_arith)
                requires
                    num == d * low + num % d,
                    num == units * den,
                    units <= low * step,
                    d == den * step,
                    num % d >= 0,
            ;
            assert(Number::half_even(num, d) == low);
            assert(low * step <= units) by (nonlinear_arith)
                requires
                    num == d * low,
                    num == units * den,
                    d == den * step,
                    den > 0,
            ;
        }
    }

    /// No number that single precision can hold is nearer to `num / den` than the
    /// rounded one.
    pub proof fn law_rounding_is_nearest(num: nat, den: nat, units: nat)
        requires
            den > 0,
            Number::on_grid(units),
        ensures
            ({
                let error = Number::rounded_units(num, den) * den - num;
                let other = units * den - num;
                (if error < 0 { -error } else { error }) <= (if other < 0 { -other } else { other })
            }),
    {
        let step = Number::spacing(num / den);
        let d = den * step;
        let low = num / d;
        let rest = num % d;
        Number::lemma_neighbours(num, den, units);
        Number::lemma_spacing_positive(num / den);
        assert(d > 0) by (nonlinear_arith)
            requires
                d == den * step,
                den > 0,
                step > 0,
        ;
        vstd::arithmetic::div_mod::lemma_fundamental_div_mod(num as int, d as int);
        assert((low * step) * den == num - rest) by (nonlinear_arith)
            requires
                num == d * low + rest,
                d == den * step,
        ;
        assert(((low + 1) * step) * den == num - rest + d) by (nonlinear_arith)
            requires
                num == d * low + rest,
                d == den * step,
        ;
        if units * den <= num {
            assert(units * den <= (low * step) * den) by (nonlinear_arith)
                requires
                    units <= low * step,
            ;
        } else {
            assert(units * den >= ((low + 1) * step) * den) by (nonlinear_arith)
                requires
                    units >= (low + 1) * step,
            ;
        }
    }

    /// Rounding is off by at most half the spacing.
    pub proof fn lemma_rounding_error(num: nat)
        ensures
            2 * Number::rounded_units(num, 1) <= 2 * num + Number::spacing(num),
            2 * Number::rounded_units(num, 1) + Number::spacing(num) >= 2 * num,
    {
        let step = Number::spacing(num);
        Number::lemma_spacing_positive(num);
        vstd::arithmetic::div_mod::lemma_div_basics_2(num as int);
        assert(1 * step == step);
        vstd::arithmetic::div_mod::lemma_fundamental_div_mod(num as int, step as int);
        let low = num / step;
        assert((low + 1) * step == low * step + step) by (nonlinear_arith);
        assert(low * step == step * low) by (nonlinear_arith);
    }

    /// Rounding is off by at most half a unit where numbers lie a unit apart, and
    /// elsewhere by at most one part in 2^24.
    pub proof fn law_rounding_is_close(num: nat, den: nat)
        requires
            den > 0,
        ensures
            num / den < 0x100_0000 ==> 2 * (Number::rounded_units(num, den) * den) <= 2 * num + den
                && 2 * num <= 2 * (Number::rounded_units(num, den) * den) + den,
            num / den >= 0x100_0000 ==> 0x100_0000 * (Number::rounded_units(num, den) * den)
                <= 0x100_0001 * num && 0xff_ffff * num <= 0x100_0000 * (Number::rounded_units(
                num,
                den,
            ) * den),
    {
        let n = num / den;
        let step = Number::spacing(n);
        let d = den * step;
        let low = num / d;
        let rest = num % d;
        Number::lemma_spacing_positive(n);
        assert(d > 0) by (nonlinear_arith)
            requires
                d == den * step,
                den > 0,
                step > 0,
        ;
        vstd::arithmetic::div_mod::lemma_fundamental_div_mod(num as int, d as int);
        assert((low * step) * den == num - rest) by (nonlinear_arith)
            requires
                num == d * low + rest,
                d == den * step,
        ;
        assert(((low + 1) * step) * den == num - rest + d) by (nonlinear_arith)
            requires
                num == d * low + rest,
                d == den * step,
        ;
        if n < 0x100_0000 {
            assert(den * 1 == den);
        } else {
            Number::lemma_exponent(n);
            vstd::arithmetic::div_mod::lemma_fundamental_div_mod(n as int, step as int);
            vstd::arithmetic::div_mod::lemma_fundamental_div_mod(num as int, den as int);
            assert(0x80_0000 * d <= num) by (nonlinear_arith)
                requires
                    d == den * step,
                    n == step * (n / step) + n % step,
                    n % step >= 0,
                    n / step >= 0x80_0000,
                    num == den * n + num % den,
                    num % den >= 0,
                    den > 0,
            ;
        }
    }

    /// Rounding to whole units is off by at most one part in 2^24.
    pub proof fn law_whole_rounding_is_close(num: nat)
        ensures
            0x100_0000 * Number::rounded_units(num, 1) <= 0x100_0001 * num,
            0xff_ffff * num <= 0x100_0000 * Number::rounded_units(num, 1),
    {
        let rounded = Number::rounded_units(num, 1);
        vstd::arithmetic::div_mod::lemma_div_basics_2(num as int);
        assert(rounded * 1 == rounded);
        if num < 0x100_0000 {
            Number::lemma_on_grid(num, 0);
            assert(num * Number::pow2(0) == num) by (nonlinear_arith)
                requires
                    Number::pow2(0) == 1,
            ;
            Number::lemma_rounding_exact(num);
        } else {
            Number::law_rounding_is_close(num, 1);
        }
    }

    /// What rounding gives is on the grid, so rounding it again changes nothing.
    pub proof fn lemma_rounding_settles(num: nat, den: nat)
        requires
            den > 0,
        ensures
            Number::on_grid(Number::rounded_units(num, den)),
            Number::rounded_units(Number::rounded_units(num, den), 1) == Number::rounded_units(
                num,
                den,
            ),
    {
        let n = num / den;
        let step = Number::spacing(n);
        Number::lemma_exponent(n);
        Number::lemma_spacing_positive(n);
        assert(den * step > 0) by (nonlinear_arith)
            requires
                den > 0,
                step > 0,
        ;
        vstd::arithmetic::div_mod::lemma_div_denominator(num as int, den as int, step as int);
        Number::lemma_on_grid(Number::half_even(num, den * step), Number::exponent(n));
        Number::lemma_rounding_exact(Number::rounded_units(num, den));
    }

    /// A number on the grid is rounded to itself.
    pub proof fn lemma_rounding_exact(units: nat)
        requires
            Number::on_grid(units),
        ensures
            Number::rounded_units(units, 1) == units,
    {
        assert(units * 1 == units);
        Number::lemma_rounding_keeps_order(units, 1, units);
    }
}

impl Number {
    /// Some powers of two, written out.
    pub proof fn lemma_some_powers()
        ensures
            Number::pow2(24) == 0x100_0000,
            Number::pow2(77) == 0x2000_0000_0000_0000_0000,
            Number::pow2(102) == 0x40_0000_0000_0000_0000_0000_0000,
    {
        assert(Number::pow2(25) == 0x200_0000 && Number::pow2(24) == 0x100_0000 && Number::pow2(2) == 4)
            by {
            reveal_with_fuel(Number::pow2, 26);
        }
        Number::lemma_pow2_adds(25, 25);
        Number::lemma_pow2_adds(25, 50);
        Number::lemma_pow2_adds(25, 75);
        Number::lemma_pow2_adds(2, 75);
        Number::lemma_pow2_adds(2, 100);
    }

    /// Which numbers of the form `m * 2^e` units are below `2^277` units.
    pub proof fn lemma_units_bounded(m: nat, e: nat)
        requires
            m <= 0x100_0000,
            e <= 253,
        ensures
            m * Number::pow2(e) < Number::pow2(277) <==> m < 0x100_0000 || e < 253,
    {
        assert(Number::pow2(24) == 0x100_0000) by {
            reveal_with_fuel(Number::pow2, 25);
        }
        Number::lemma_pow2_positive(e);
        Number::lemma_pow2_adds(24, 253);
        Number::lemma_pow2_adds(24, e);
        Number::lemma_pow2_ordered(e, 253);
        let p = Number::pow2(e);
        let top = Number::pow2(253);
        if m < 0x100_0000 {
            assert(m * p < 0x100_0000 * top) by (nonlinear_arith)
                requires
                    m < 0x100_0000,
                    0 < p <= top,
            ;
        } else if e < 253 {
            Number::lemma_pow2_ordered(e + 1, 253);
            assert(Number::pow2(e + 1) == 2 * p);
        }
    }

    /// Whether single precision can hold the number.
    pub open spec fn held(self) -> bool {
        self matches Number::Finite { units, .. } ==> Number::on_grid(units) && units
            < Number::pow2(277)
    }

    /// Every bit pattern denotes a number that single precision can hold.
    pub proof fn lemma_bits_held(bits: u32)
        ensures
            Number::from_bits(bits).held(),
    {
        let exponent = ((bits / 0x80_0000) % 0x100) as nat;
        let fraction = (bits % 0x80_0000) as nat;
        if exponent == 0 {
            Number::lemma_units_bounded(fraction, 0);
            Number::lemma_on_grid(fraction, 0);
            assert(fraction * Number::pow2(0) == fraction) by (nonlinear_arith)
                requires
                    Number::pow2(0) == 1,
            ;
        } else if exponent < 0xff {
            Number::lemma_units_bounded(0x80_0000 + fraction, (exponent - 1) as nat);
            Number::lemma_on_grid(0x80_0000 + fraction, (exponent - 1) as nat);
        }
    }

    /// Rounding gives a number that single precision can hold.
    pub proof fn lemma_rounded_held(neg: bool, num: nat, den: nat)
        requires
            den > 0,
        ensures
            Number::rounded(neg, num, den).held(),
    {
        Number::lemma_rounding_settles(num, den);
    }

    /// Whole numbers up to 2^100 are finite and at most 2^102, and none but zero is
    /// rounded to zero.
    pub proof fn lemma_whole_finite(n: nat)
        requires
            n <= 0x10_0000_0000_0000_0000_0000_0000,
        ensures
            Number::whole(n) is Finite,
            Number::whole(n)->units <= Number::pow2(251),
            Number::whole(n).held(),
            n > 0 ==> Number::whole(n).value() > 0,
    {
        let p = Number::pow2(149);
        Number::lemma_some_powers();
        Number::lemma_pow2_positive(149);
        Number::lemma_on_grid(1, 251);
        Number::lemma_on_grid(1, 149);
        Number::lemma_pow2_adds(102, 149);
        let top = Number::pow2(251);
        assert(1 * top == top);
        assert(n * p <= top) by (nonlinear_arith)
            requires
                n <= 0x40_0000_0000_0000_0000_0000_0000,
                top == 0x40_0000_0000_0000_0000_0000_0000 * p,
        ;
        Number::lemma_rounding_keeps_order(n * p, 1, top);
        Number::lemma_pow2_ordered(252, 277);
        Number::lemma_pow2_positive(251);
        assert(Number::pow2(252) == 2 * top);
        Number::lemma_rounded_held(false, n * p, 1);
        if n > 0 {
            assert(p <= n * p) by (nonlinear_arith)
                requires
                    n >= 1,
            ;
            assert(1 * p == p);
            Number::lemma_rounding_keeps_order(n * p, 1, p);
        }
    }

    /// A billion is held exactly.
    pub proof fn lemma_billion_exact()
        ensures
            Number::whole(1_000_000_000) == (Number::Finite {
                neg: false,
                units: 1_000_000_000 * Number::pow2(149),
            }),
    {
        let p = Number::pow2(149);
        Number::lemma_pow2_adds(9, 149);
        assert(Number::pow2(9) == 512) by {
            reveal_with_fuel(Number::pow2, 10);
        }
        Number::lemma_on_grid(1_953_125, 158);
        assert(1_953_125 * (512 * p) == 1_000_000_000 * p);
        Number::lemma_rounding_exact(1_000_000_000 * p);
        Number::lemma_whole_finite(1_000_000_000);
    }

    /// Whole numbers of up to twenty-four bits are held exactly.
    pub proof fn lemma_whole_exact(n: nat)
        requires
            n <= 0x100_0000,
        ensures
            Number::whole(n) == (Number::Finite { neg: false, units: n * Number::pow2(149) }),
    {
        Number::lemma_on_grid(n, 149);
        Number::lemma_rounding_exact(n * Number::pow2(149));
        Number::lemma_whole_finite(n);
    }
}

impl Number {
    /// Whether this is a finite number that is not negative and can be held.
    pub open spec fn is_amount(self) -> bool {
        self is Finite && self.value() >= 0 && self.held()
    }

    /// Adding what is not negative does not make a number smaller.
    pub proof fn lemma_plus_grows(self, other: Number)
        requires
            self.is_amount(),
            other !is Nan,
            Number::zero().at_most(other),
        ensures
            self.plus(other) !is Nan,
            self.at_most(self.plus(other)),
            self.plus(other).held(),
    {
        let units = self->units;
        if other is Finite {
            let sum = self.value() + other.value();
            if sum > 0 {
                Number::lemma_rounded_held(false, sum as nat, 1);
                Number::lemma_rounding_keeps_order(sum as nat, 1, units);
            } else {
                Number::lemma_zero_held();
            }
        }
    }

    /// Adding nothing changes nothing.
    pub proof fn lemma_plus_same(self, other: Number)
        requires
            self.is_amount(),
            other.same(Number::zero()),
        ensures
            self.plus(other).same(self),
    {
        Number::lemma_rounding_exact(self->units);
    }

    /// Zero can be held.
    pub proof fn lemma_zero_held()
        ensures
            Number::zero().held(),
            Number::on_grid(0),
    {
        Number::lemma_pow2_positive(277);
        assert(Number::spacing(0) == 1);
    }

    /// Taking away what is not negative and not more than is there leaves an amount
    /// that is not larger.
    pub proof fn lemma_minus_shrinks(self, other: Number)
        requires
            self.is_amount(),
            other.is_amount(),
            other.at_most(self),
        ensures
            self.minus(other).is_amount(),
            self.minus(other).at_most(self),
    {
        let units = self->units;
        Number::lemma_zero_held();
        let rest = self.value() - other.value();
        if rest > 0 {
            Number::lemma_rounded_held(false, rest as nat, 1);
            Number::lemma_rounding_keeps_order(rest as nat, 1, units);
        }
    }

    /// The product of two amounts is not negative.
    pub proof fn lemma_times_grows(self, other: Number)
        requires
            self.is_amount(),
            other.is_amount(),
        ensures
            self.times(other) !is Nan,
            Number::zero().at_most(self.times(other)),
            self.value() == 0 ==> self.times(other).same(Number::zero()),
    {
        let x = self->units;
        let y = other->units;
        Number::lemma_pow2_positive(149);
        if x == 0 || y == 0 {
            assert(x * y == 0) by (nonlinear_arith)
                requires
                    x == 0 || y == 0,
            ;
            Number::lemma_zero_held();
            Number::lemma_rounding_keeps_order(0, Number::pow2(149), 0);
            Number::lemma_pow2_positive(277);
        }
    }
}

impl Number {
    /// Below 2^24, taking away a whole number is exact.
    pub proof fn lemma_minus_whole_exact(self, n: nat)
        requires
            self.is_amount(),
            self.at_most(Number::whole(0x100_0000)),
            n <= 0x100_0000,
            Number::whole(n).at_most(self),
        ensures
            Number::whole(n).value() == n * Number::pow2(149),
            self.minus(Number::whole(n)).value() == self.value() - n * Number::pow2(149),
    {
        let p = Number::pow2(149);
        let u = self->units;
        Number::lemma_whole_exact(n);
        Number::lemma_whole_exact(0x100_0000);
        Number::lemma_pow2_positive(149);
        let rest = (u - n * p) as nat;
        if u == 0x100_0000 * p {
            assert(rest == (0x100_0000 - n) as nat * p) by (nonlinear_arith)
                requires
                    rest == 0x100_0000 * p - n * p,
                    n <= 0x100_0000,
            ;
            Number::lemma_on_grid((0x100_0000 - n) as nat, 149);
        } else {
            let e = Number::exponent(u);
            let q = Number::pow2(e);
            let r = Number::pow2((149 - e) as nat);
            vstd::arithmetic::div_mod::lemma_fundamental_div_mod(u as int, p as int);
            assert(u / p < 0x100_0000) by (nonlinear_arith)
                requires
                    u < 0x100_0000 * p,
                    u == p * (u / p) + u % p,
                    u % p >= 0,
                    p > 0,
            ;
            Number::lemma_exponent_least(u, 149);
            Number::lemma_exponent(u);
            Number::lemma_exponent(rest);
            Number::lemma_pow2_positive(e);
            Number::lemma_pow2_adds((149 - e) as nat, e);
            vstd::arithmetic::div_mod::lemma_fundamental_div_mod(u as int, q as int);
            assert(rest == (u / q - n * r) * q) by (nonlinear_arith)
                requires
                    rest == u - n * p,
                    u == q * (u / q),
                    p == r * q,
            ;
            vstd::arithmetic::div_mod::lemma_mod_multiples_basic(u / q - n * r, q as int);
            Number::lemma_exponent_ordered(rest, u);
            Number::lemma_divisible(rest, e, Number::exponent(rest));
        }
        Number::lemma_rounding_exact(rest);
    }
}

impl Number {
    /// Larger magnitudes are spaced at least as widely.
    pub proof fn lemma_spacing_ordered(m: nat, n: nat)
        requires
            m <= n,
        ensures
            Number::spacing(m) <= Number::spacing(n),
    {
        Number::lemma_exponent(m);
        Number::lemma_exponent(n);
        Number::lemma_exponent_ordered(m, n);
        Number::lemma_pow2_ordered(Number::exponent(m), Number::exponent(n));
    }

    /// A sum that stays below `highest` is rounded by at most half the spacing there.
    pub proof fn lemma_plus_error(self, other: Number, highest: Number)
        requires
            self.is_amount(),
            other.is_amount(),
            highest.is_amount(),
            self.value() + other.value() < highest.value(),
        ensures
            self.plus(other).is_amount(),
            self.plus(other).at_most(highest),
            2 * self.plus(other).value() <= 2 * (self.value() + other.value()) + Number::spacing(
                highest->units,
            ),
            2 * self.plus(other).value() + Number::spacing(highest->units) >= 2 * (self.value()
                + other.value()),
    {
        let sum = (self.value() + other.value()) as nat;
        Number::lemma_rounding_error(sum);
        Number::lemma_spacing_ordered(sum, highest->units);
        Number::lemma_rounding_keeps_order(sum, 1, highest->units);
        Number::lemma_rounded_held(false, sum, 1);
        Number::lemma_zero_held();
    }

    /// A sum that reaches `lowest` is not rounded below it.
    pub proof fn lemma_plus_reaches(self, other: Number, lowest: Number)
        requires
            self.is_amount(),
            other.is_amount(),
            lowest.is_amount(),
            self.value() + other.value() >= lowest.value(),
        ensures
            lowest.at_most(self.plus(other)),
    {
        let sum = (self.value() + other.value()) as nat;
        Number::lemma_rounding_keeps_order(sum, 1, lowest->units);
    }

    /// A difference below `highest` is rounded by at most half the spacing there.
    pub proof fn lemma_minus_error(self, other: Number, highest: Number)
        requires
            self.is_amount(),
            other.is_amount(),
            highest.is_amount(),
            other.at_most(self),
            self.at_most(highest),
        ensures
            2 * self.minus(other).value() <= 2 * (self.value() - other.value()) + Number::spacing(
                highest->units,
            ),
    {
        let rest = (self.value() - other.value()) as nat;
        self.lemma_minus_shrinks(other);
        Number::lemma_rounding_error(rest);
        Number::lemma_spacing_ordered(rest, highest->units);
    }
}

impl Number {
    /// How far `units * den` is from `num`.
    pub open spec fn distance(units: int, num: int, den: nat) -> int {
        if units * den < num {
            num - units * den
        } else {
            units * den - num
        }
    }

    /// Whether no number that single precision can hold is nearer to `num / den` units.
    pub open spec fn nearest(self, num: int, den: nat) -> bool {
        &&& self is Finite
        &&& self.held()
        &&& forall|other: Number|
            other is Finite && #[trigger] other.held() ==> Number::distance(self.value(), num, den)
                <= Number::distance(other.value(), num, den)
    }

    /// What rounding gives is nearest.
    proof fn lemma_rounded_nearest(neg: bool, num: nat, den: nat)
        requires
            den > 0,
            Number::rounded(neg, num, den) is Finite,
        ensures
            Number::rounded(neg, num, den).nearest(
                if neg {
                    -(num as int)
                } else {
                    num as int
                },
                den,
            ),
    {
        let r = Number::rounded(neg, num, den);
        let exact = if neg {
            -(num as int)
        } else {
            num as int
        };
        Number::lemma_rounded_held(neg, num, den);
        Number::lemma_zero_held();
        let units = r->units;
        assert((-(units as int)) * den == -(units * den)) by (nonlinear_arith);
        Number::law_rounding_is_nearest(num, den, 0);
        assert(0 * den == 0) by (nonlinear_arith);
        assert forall|other: Number| other is Finite && #[trigger] other.held() implies Number::distance(
            r.value(),
            exact,
            den,
        ) <= Number::distance(other.value(), exact, den) by {
            let u = other->units;
            Number::law_rounding_is_nearest(num, den, u);
            assert((-(u as int)) * den == -(u * den)) by (nonlinear_arith);
            assert(u * den >= 0) by (nonlinear_arith);
        }
    }

    /// Half-way between two numbers, rounding goes to the even multiple of the spacing.
    pub proof fn law_ties_go_to_even(num: nat, den: nat, units: nat)
        requires
            den > 0,
            Number::on_grid(units),
            units != Number::rounded_units(num, den),
            Number::distance(units as int, num as int, den) == Number::distance(
                Number::rounded_units(num, den) as int,
                num as int,
                den,
            ),
        ensures
            (Number::rounded_units(num, den) / Number::spacing(num / den)) % 2 == 0,
    {
        let step = Number::spacing(num / den);
        let d = den * step;
        let low = num / d;
        let rest = num % d;
        let half = Number::half_even(num, d);
        Number::lemma_neighbours(num, den, units);
        Number::lemma_spacing_positive(num / den);
        assert(d > 0) by (nonlinear_arith)
            requires
                d == den * step,
                den > 0,
                step > 0,
        ;
        vstd::arithmetic::div_mod::lemma_fundamental_div_mod(num as int, d as int);
        assert((low * step) * den == num - rest) by (nonlinear_arith)
            requires
                num == d * low + rest,
                d == den * step,
        ;
        assert(((low + 1) * step) * den == num - rest + d) by (nonlinear_arith)
            requires
                num == d * low + rest,
                d == den * step,
        ;
        vstd::arithmetic::div_mod::lemma_div_by_multiple(half as int, step as int);
        if units * den <= num {
            assert(units * den <= (low * step) * den) by (nonlinear_arith)
                requires
                    units <= low * step,
            ;
            if half == low {
                assert(units == low * step) by (nonlinear_arith)
                    requires
                        units * den == (low * step) * den,
                        den > 0,
                ;
            }
        } else {
            assert(units * den >= ((low + 1) * step) * den) by (nonlinear_arith)
                requires
                    units >= (low + 1) * step,
            ;
            if half == low + 1 {
                assert(units == (low + 1) * step) by (nonlinear_arith)
                    requires
                        units * den == ((low + 1) * step) * den,
                        den > 0,
                ;
            }
        }
    }

    /// What rounds to infinity is nearer to 2^128 than to the largest finite number, or in
    /// the middle; what rounds to a finite number is not beyond the middle.
    pub proof fn law_only_the_largest_is_infinite(neg: bool, num: nat, den: nat)
        requires
            den > 0,
        ensures
            Number::rounded(neg, num, den) is Infinite ==> (Number::pow2(277) - Number::pow2(252))
                * den <= num,
            Number::rounded(neg, num, den) is Finite ==> num <= (Number::pow2(277) - Number::pow2(
                252,
            )) * den,
    {
        let top = Number::pow2(277);
        let gap = Number::pow2(253);
        let half = Number::pow2(252);
        let largest = (top - gap) as nat;
        let r = Number::rounded_units(num, den);
        assert(gap == 2 * half);
        Number::lemma_pow2_adds(24, 253);
        Number::lemma_some_powers();
        Number::lemma_pow2_positive(252);
        assert(0xff_ffff * gap == largest);
        Number::lemma_on_grid(0xff_ffff, 253);
        Number::lemma_on_grid(1, 277);
        assert(1 * top == top);
        Number::lemma_rounding_settles(num, den);
        if r >= top {
            Number::law_rounding_is_nearest(num, den, largest);
            if num < (top - half) * den {
                assert(r * den >= top * den) by (nonlinear_arith)
                    requires
                        r >= top,
                ;
                assert(top * den == (top - half) * den + half * den) by (nonlinear_arith);
                assert(largest * den == (top - half) * den - half * den) by (nonlinear_arith)
                    requires
                        largest == top - 2 * half,
                ;
                assert(half * den > 0) by (nonlinear_arith)
                    requires
                        half > 0,
                        den > 0,
                ;
            }
        } else {
            Number::law_rounding_is_nearest(num, den, top);
            if num > (top - half) * den {
                assert(r <= largest) by {
                    Number::lemma_below_top(r);
                }
                assert(r * den <= largest * den) by (nonlinear_arith)
                    requires
                        r <= largest,
                ;
                assert(top * den == (top - half) * den + half * den) by (nonlinear_arith);
                assert(largest * den == (top - half) * den - half * den) by (nonlinear_arith)
                    requires
                        largest == top - 2 * half,
                ;
                assert(half * den > 0) by (nonlinear_arith)
                    requires
                        half > 0,
                        den > 0,
                ;
            }
        }
    }

    /// The largest number on the grid below 2^277 units.
    proof fn lemma_below_top(units: nat)
        requires
            Number::on_grid(units),
            units < Number::pow2(277),
        ensures
            units <= Number::pow2(277) - Number::pow2(253),
    {
        let top = Number::pow2(277);
        let gap = Number::pow2(253);
        let e = Number::exponent(units);
        let own = Number::spacing(units);
        let k = units / own;
        Number::lemma_pow2_adds(24, 253);
        Number::lemma_some_powers();
        Number::lemma_pow2_positive(253);
        Number::lemma_exponent(units);
        Number::lemma_spacing_positive(units);
        vstd::arithmetic::div_mod::lemma_fundamental_div_mod(units as int, own as int);
        vstd::arithmetic::div_mod::lemma_fundamental_div_mod(units as int, gap as int);
        assert(units / gap < 0x100_0000) by (nonlinear_arith)
            requires
                units < 0x100_0000 * gap,
                units == gap * (units / gap) + units % gap,
                units % gap >= 0,
                gap > 0,
        ;
        Number::lemma_exponent_least(units, 253);
        Number::lemma_pow2_ordered(e, 253);
        assert(units <= 0xff_ffff * gap) by (nonlinear_arith)
            requires
                units == own * k,
                k <= 0xff_ffff,
                own <= gap,
        ;
    }

    /// The distance from zero.
    pub open spec fn size(num: int) -> int {
        if num < 0 {
            -num
        } else {
            num
        }
    }

    /// Whether this is what `num / den` units become in single precision: the nearest number,
    /// or the infinity of the same sign from the middle between the largest number and 2^128.
    pub open spec fn stands_for(self, num: int, den: nat) -> bool {
        match self {
            Number::Nan => false,
            Number::Infinite { neg } => neg == (num < 0) && (Number::pow2(277) - Number::pow2(252))
                * den <= Number::size(num),
            Number::Finite { .. } => self.nearest(num, den) && Number::size(num) <= (Number::pow2(
                277,
            ) - Number::pow2(252)) * den,
        }
    }

    /// What rounding gives stands for what was rounded.
    proof fn lemma_rounded_stands(neg: bool, num: nat, den: nat)
        requires
            den > 0,
        ensures
            Number::rounded(neg, num, den).stands_for(
                if neg {
                    -(num as int)
                } else {
                    num as int
                },
                den,
            ),
    {
        Number::law_only_the_largest_is_infinite(neg, num, den);
        if Number::rounded(neg, num, den) is Finite {
            Number::lemma_rounded_nearest(neg, num, den);
        } else {
            let top = Number::pow2(277);
            let half = Number::pow2(252);
            Number::lemma_pow2_ordered(253, 277);
            Number::lemma_pow2_positive(252);
            assert(Number::pow2(253) == 2 * half);
            assert((top - half) * den > 0) by (nonlinear_arith)
                requires
                    top - half > 0,
                    den > 0,
            ;
        }
    }

    /// A sum of finite numbers is the number nearest to it, whichever comes first. A sum of
    /// nothing is negative only where both were.
    pub proof fn law_sum_is_nearest(self, other: Number)
        requires
            self is Finite,
            other is Finite,
        ensures
            self.plus(other) == other.plus(self),
            self.plus(other).stands_for(self.value() + other.value(), 1),
            self.value() + other.value() == 0 ==> self.plus(other) == (Number::Finite {
                neg: self->Finite_neg && other->Finite_neg,
                units: 0,
            }),
    {
        let sum = self.value() + other.value();
        if sum == 0 {
            Number::lemma_zero_held();
            Number::lemma_pow2_ordered(253, 277);
            Number::lemma_pow2_positive(252);
            assert(Number::pow2(253) == 2 * Number::pow2(252));
            assert(self.plus(other).held());
            assert(0 * 1 == 0int);
        } else if sum < 0 {
            Number::lemma_rounded_stands(true, (-sum) as nat, 1);
        } else {
            Number::lemma_rounded_stands(false, sum as nat, 1);
        }
    }

    /// A difference of finite numbers is the number nearest to it.
    pub proof fn law_difference_is_nearest(self, other: Number)
        requires
            self is Finite,
            other is Finite,
        ensures
            self.minus(other).stands_for(self.value() - other.value(), 1),
    {
        assert(other.negated().value() == -other.value());
        self.law_sum_is_nearest(other.negated());
    }

    /// A product of finite numbers is the number nearest to it, whichever comes first. Its
    /// exact value is counted in units of units.
    pub proof fn law_product_is_nearest(self, other: Number)
        requires
            self is Finite,
            other is Finite,
        ensures
            self.times(other) == other.times(self),
            self.times(other).stands_for(self.value() * other.value(), Number::pow2(149)),
    {
        let x = self->units;
        let y = other->units;
        Number::lemma_pow2_positive(149);
        assert(x * y == y * x) by (nonlinear_arith);
        assert((-(x as int)) * y == -(x * y)) by (nonlinear_arith);
        assert(x * (-(y as int)) == -(x * y)) by (nonlinear_arith);
        assert((-(x as int)) * (-(y as int)) == x * y) by (nonlinear_arith);
        Number::lemma_rounded_stands(
            self->Finite_neg != other->Finite_neg,
            x * y,
            Number::pow2(149),
        );
    }

    /// A quotient of amounts is the number nearest to it.
    pub proof fn law_quotient_is_nearest(self, other: Number)
        requires
            self.is_amount(),
            other.is_amount(),
            other.value() > 0,
        ensures
            self.over(other).stands_for(self.value() * Number::pow2(149), other.value() as nat),
    {
        if self->units == 0 {
            assert(0 * Number::pow2(149) == 0) by (nonlinear_arith);
        }
        Number::lemma_rounded_stands(
            self->Finite_neg != other->Finite_neg,
            self->units * Number::pow2(149),
            other->units,
        );
    }

    /// A whole number is the number nearest to it.
    pub proof fn law_whole_is_nearest(n: nat)
        ensures
            Number::whole(n).stands_for((n * Number::pow2(149)) as int, 1),
    {
        Number::lemma_rounded_stands(false, n * Number::pow2(149), 1);
    }

    /// A number that can be held stands for itself.
    pub proof fn lemma_held_stands_for_itself(self)
        requires
            self is Finite,
            self.held(),
        ensures
            self.stands_for(self.value(), 1),
    {
        Number::lemma_below_top(self->units);
        Number::lemma_pow2_positive(252);
        assert(Number::pow2(253) == 2 * Number::pow2(252));
        assert(self.value() * 1 == self.value());
    }

    /// An infinity outweighs every finite number, opposite ones have no sum, and an infinity
    /// times nothing is no number. What is no number stays so.
    pub proof fn law_infinities(self, neg: bool)
        ensures
            self is Finite ==> (Number::Infinite { neg }).plus(self) == (Number::Infinite { neg }),
            self is Finite ==> self.plus(Number::Infinite { neg }) == (Number::Infinite { neg }),
            (Number::Infinite { neg }).plus(Number::Infinite { neg }) == (Number::Infinite { neg }),
            (Number::Infinite { neg }).plus(Number::Infinite { neg: !neg }) is Nan,
            self is Finite && self.value() == 0 ==> self.times(Number::Infinite { neg }) is Nan
                && (Number::Infinite { neg }).times(self) is Nan,
            self is Finite && self.value() > 0 ==> self.times(Number::Infinite { neg })
                == (Number::Infinite { neg }) && (Number::Infinite { neg }).times(self)
                == (Number::Infinite { neg }),
            self is Finite && self.value() < 0 ==> self.times(Number::Infinite { neg })
                == (Number::Infinite { neg: !neg }) && (Number::Infinite { neg }).times(self)
                == (Number::Infinite { neg: !neg }),
            self.plus(Number::Nan) is Nan && (Number::Nan).plus(self) is Nan,
            self.minus(Number::Nan) is Nan && (Number::Nan).minus(self) is Nan,
            self.times(Number::Nan) is Nan && (Number::Nan).times(self) is Nan,
    {
    }

    /// Finite numbers are compared by their values.
    pub proof fn law_order_is_by_value(self, other: Number)
        requires
            self is Finite,
            other is Finite,
        ensures
            self.below(other) <==> self.value() < other.value(),
            self.at_most(other) <==> self.value() <= other.value(),
            self.same(other) <==> self.value() == other.value(),
    {
    }

    /// Every finite number lies between the infinities, and nothing compares with what is no
    /// number.
    pub proof fn law_order_at_the_ends(self)
        ensures
            self is Finite ==> self.below(Number::Infinite { neg: false }) && (Number::Infinite {
                neg: true,
            }).below(self) && !self.below(Number::Infinite { neg: true }) && !(Number::Infinite {
                neg: false,
            }).below(self),
            self is Infinite ==> self.same(self),
            (Number::Infinite { neg: true }).below(Number::Infinite { neg: false }),
            !(Number::Infinite { neg: false }).at_most(Number::Infinite { neg: true }),
            !self.below(Number::Nan) && !(Number::Nan).below(self),
            !self.same(Number::Nan) && !(Number::Nan).same(self),
            !self.at_most(Number::Nan) && !(Number::Nan).at_most(self),
    {
    }

    /// The order of numbers is an order, and any two of them compare.
    pub proof fn law_order_is_total(self, other: Number, third: Number)
        ensures
            self !is Nan && other !is Nan ==> self.below(other) || other.below(self) || self.same(
                other,
            ),
            self.at_most(other) && other.at_most(third) ==> self.at_most(third),
            !(self.below(other) && other.below(self)),
            !(self.below(other) && self.same(other)),
            self.same(other) <==> other.same(self),
            self.at_most(other) <==> self.below(other) || self.same(other),
    {
    }

    /// The lesser of two numbers is one of them and at most both. Where one is no number it
    /// is the other.
    pub proof fn law_lesser_is_the_lower(self, other: Number)
        ensures
            self.lesser(other) == self || self.lesser(other) == other,
            self !is Nan ==> self.lesser(other).at_most(self),
            other !is Nan ==> self.lesser(other).at_most(other),
            self is Nan ==> self.lesser(other) == other,
            other is Nan ==> self.lesser(other) == self,
    {
    }

    /// What is moved into a range lies in it, and what lay in it stays as it is.
    pub proof fn law_clamped_lies_between(self, lowest: Number, highest: Number)
        requires
            lowest.at_most(highest),
        ensures
            self !is Nan ==> lowest.at_most(self.clamped(lowest, highest)) && self.clamped(
                lowest,
                highest,
            ).at_most(highest),
            lowest.at_most(self) && self.at_most(highest) ==> self.clamped(lowest, highest) == self,
            self.below(lowest) ==> self.clamped(lowest, highest) == lowest,
            highest.below(self) ==> self.clamped(lowest, highest) == highest,
            self is Nan ==> self.clamped(lowest, highest) is Nan,
    {
    }
}

} // verus!
