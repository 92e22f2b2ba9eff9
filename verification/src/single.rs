//! Single-precision numbers, computed on their bit patterns.
use vstd::prelude::*;

use crate::number::Number;

verus! {

/// A single-precision number.
#[derive(Clone, Copy, Debug)]
pub struct Single {
    pub bits: u32,
}

impl View for Single {
    type V = Number;

    open spec fn view(&self) -> Number {
        Number::from_bits(self.bits)
    }
}

/// The numerator of `num * 2^exp / den`.
spec fn scaled_num(num: nat, exp: int) -> nat {
    if exp >= 0 {
        num * Number::pow2(exp as nat)
    } else {
        num
    }
}

/// The denominator of `num * 2^exp / den`.
spec fn scaled_den(den: nat, exp: int) -> nat {
    if exp >= 0 {
        den
    } else {
        den * Number::pow2((-exp) as nat)
    }
}

/// The sign bit and the other bits, put together.
spec fn signed_bits(neg: bool, magnitude: u32) -> u32 {
    if neg {
        (0x8000_0000 + magnitude) as u32
    } else {
        magnitude
    }
}

/// The fields of a bit pattern that was put together from a sign, an exponent
/// field and a fraction field.
proof fn lemma_fields(neg: bool, exponent: u32, fraction: u32)
    requires
        exponent <= 255,
        fraction < 0x80_0000,
    ensures
        ({
            let bits = signed_bits(neg, (exponent * 0x80_0000 + fraction) as u32);
            &&& bits >= 0x8000_0000 <==> neg
            &&& (bits / 0x80_0000) % 0x100 == exponent
            &&& bits % 0x80_0000 == fraction
        }),
{
    let bits = signed_bits(neg, (exponent * 0x80_0000 + fraction) as u32);
    let high: int = if neg { 0x100 + exponent } else { exponent as int };
    assert(bits == high * 0x80_0000 + fraction);
    assert(bits as int / 0x80_0000 == high);
}

/// The magnitude bits of `mantissa * 2^exp` units denote just that.
proof fn lemma_encoded(neg: bool, mantissa: u32, exp: u32)
    requires
        exp <= 253,
        mantissa <= 0x100_0000,
        exp > 0 ==> mantissa >= 0x80_0000,
    ensures
        exp * 0x80_0000 + mantissa <= 0x7f80_0000,
        ({
            let bits = signed_bits(neg, (exp * 0x80_0000 + mantissa) as u32);
            let units = mantissa as nat * Number::pow2(exp as nat);
            Number::from_bits(bits) == if units < Number::pow2(277) {
                Number::Finite { neg, units }
            } else {
                Number::Infinite { neg }
            }
        }),
{
    let e = exp as nat;
    let m = mantissa as nat;
    let bits = signed_bits(neg, (exp * 0x80_0000 + mantissa) as u32);
    Number::lemma_units_bounded(m, e);
    assert(Number::pow2(e + 1) == 2 * Number::pow2(e));
    if m < 0x80_0000 {
        lemma_fields(neg, 0, mantissa);
        assert(Number::pow2(0) == 1);
        assert(m * Number::pow2(e) == m) by (nonlinear_arith)
            requires
                Number::pow2(e) == 1,
        ;
        assert(Number::from_bits(bits) == Number::Finite { neg, units: m });
    } else if m < 0x100_0000 {
        lemma_fields(neg, (exp + 1) as u32, (mantissa - 0x80_0000) as u32);
        assert((exp + 1) * 0x80_0000 + (mantissa - 0x80_0000) == exp * 0x80_0000 + mantissa);
        assert(((exp + 1) - 1) as nat == e);
        assert(Number::from_bits(bits) == Number::Finite { neg, units: m * Number::pow2(e) });
    } else {
        lemma_fields(neg, (exp + 2) as u32, 0);
        assert((exp + 2) * 0x80_0000 == exp * 0x80_0000 + mantissa);
        assert(((exp + 2) - 1) as nat == e + 1);
        assert(0x80_0000 * Number::pow2(e + 1) == 0x100_0000 * Number::pow2(e));
        assert(e < 253 ==> Number::from_bits(bits) == Number::Finite { neg, units: m * Number::pow2(e) });
        assert(e == 253 ==> Number::from_bits(bits) == Number::Infinite { neg });
    }
}

/// Where `num / den` units is `n * 2^x / den` and `d` is `den` scaled up until the
/// quotient `n / d` has at most twenty-four bits, that quotient is the mantissa.
proof fn lemma_mantissa(num: nat, den: nat, n: nat, d: nat, x: nat, e: nat)
    requires
        den > 0,
        x <= e,
        num == n * Number::pow2(x),
        d == den * Number::pow2((e - x) as nat),
        n / d < 0x100_0000,
        e > 0 ==> num / (den * Number::pow2((e - 1) as nat)) >= 0x100_0000,
    ensures
        d > 0,
        Number::rounded_units(num, den) == Number::half_even(n, d) * Number::pow2(e),
        e > 0 ==> Number::half_even(n, d) >= 0x80_0000,
        Number::half_even(n, d) <= 0x100_0000,
{
    let px = Number::pow2(x);
    let pe = Number::pow2(e);
    let pd = Number::pow2((e - x) as nat);
    Number::lemma_pow2_positive(x);
    Number::lemma_pow2_positive(e);
    Number::lemma_pow2_positive((e - x) as nat);
    Number::lemma_pow2_adds((e - x) as nat, x);
    assert(d > 0) by (nonlinear_arith)
        requires
            d == den * pd,
            den > 0,
            pd > 0,
    ;
    assert(den * pe == px * d) by (nonlinear_arith)
        requires
            d == den * pd,
            pe == pd * px,
    ;
    assert(num == px * n) by (nonlinear_arith)
        requires
            num == n * px,
    ;
    Number::lemma_half_even_scales(px, n, d);
    vstd::arithmetic::div_mod::lemma_div_denominator(num as int, den as int, pe as int);
    if e > 0 {
        let ph = Number::pow2((e - 1) as nat);
        Number::lemma_pow2_positive((e - 1) as nat);
        assert(den * ph > 0) by (nonlinear_arith)
            requires
                den > 0,
                ph > 0,
        ;
        vstd::arithmetic::div_mod::lemma_div_denominator(num as int, den as int, ph as int);
        assert((den * ph) * 2 == den * pe) by (nonlinear_arith)
            requires
                pe == 2 * ph,
        ;
        vstd::arithmetic::div_mod::lemma_div_denominator(num as int, (den * ph) as int, 2);
    }
    Number::lemma_spacing_is(num / den, e);
}

/// A magnitude of less than half a unit is rounded to zero.
proof fn lemma_vanishes(neg: bool, num: nat, den: nat)
    requires
        2 * num < den,
    ensures
        Number::rounded(neg, num, den) == (Number::Finite { neg, units: 0 }),
{
    vstd::arithmetic::div_mod::lemma_basic_div(num as int, den as int);
    vstd::arithmetic::div_mod::lemma_small_mod(num, den);
    Number::lemma_pow2_positive(277);
    assert(den * Number::spacing(0) == den) by (nonlinear_arith)
        requires
            Number::spacing(0) == 1,
    ;
}

/// A mantissa of twenty-four bits at an exponent beyond the last one is infinite.
proof fn lemma_overflows(neg: bool, m: nat, e: nat)
    requires
        m >= 0x80_0000,
        e > 253,
    ensures
        m * Number::pow2(e) >= Number::pow2(277),
        Number::from_bits(signed_bits(neg, 0x7f80_0000)) == (Number::Infinite { neg }),
{
    Number::lemma_some_powers();
    assert(Number::pow2(23) == 0x80_0000) by {
        assert(Number::pow2(24) == 2 * Number::pow2(23));
    }
    Number::lemma_pow2_adds(23, 254);
    Number::lemma_pow2_ordered(254, e);
    let p = Number::pow2(e);
    let last = Number::pow2(254);
    assert(m * p >= 0x80_0000 * last) by (nonlinear_arith)
        requires
            m >= 0x80_0000,
            p >= last,
    ;
    lemma_fields(neg, 255, 0);
}

/// A quotient of at least twenty-four bits has one bit less once the divisor is doubled.
proof fn lemma_quotient_halves(n: u128, d: u128)
    requires
        0 < d,
        n / d >= 0x100_0000,
        n < 0x20_0000_0000_0000_0000_0000_0000,
    ensures
        d < 0x2000_0000_0000_0000_0000,
        n / ((2 * d) as u128) < n / d,
{
    assert(d < 0x2000_0000_0000_0000_0000) by (nonlinear_arith)
        requires
            n / d >= 0x100_0000,
            n < 0x20_0000_0000_0000_0000_0000_0000,
            d > 0,
    ;
    vstd::arithmetic::div_mod::lemma_div_denominator(n as int, d as int, 2);
}

/// If the quotient at exponent `e` still has too many bits, the next exponent is
/// not too large.
proof fn lemma_step(top: nat, dx: nat, n: nat, d: nat, x: nat, e: nat)
    requires
        dx > 0,
        x <= e,
        d == dx * Number::pow2((e - x) as nat),
        top == n * Number::pow2(x),
    ensures
        d > 0,
        d >= Number::pow2((e - x) as nat),
        2 * d == dx * Number::pow2((e + 1 - x) as nat),
        top / (dx * Number::pow2(e)) == n / d,
{
    let p = Number::pow2((e - x) as nat);
    let px = Number::pow2(x);
    let pe = Number::pow2(e);
    Number::lemma_pow2_positive((e - x) as nat);
    Number::lemma_pow2_positive(x);
    Number::lemma_pow2_adds((e - x) as nat, x);
    assert(d > 0 && d >= p) by (nonlinear_arith)
        requires
            d == dx * p,
            dx > 0,
            p > 0,
    ;
    assert((e + 1 - x) as nat == (e - x) as nat + 1);
    assert(2 * (dx * p) == dx * (2 * p)) by (nonlinear_arith);
    assert(dx * pe == px * d) by (nonlinear_arith)
        requires
            d == dx * p,
            pe == p * px,
    ;
    assert(top == px * n) by (nonlinear_arith)
        requires
            top == n * px,
    ;
    Number::lemma_half_even_scales(px, n, d);
}

impl Single {
    /// The number nearest to `n * 2^x / d` units, negated if `neg`.
    fn round_scaled(neg: bool, n: u128, d: u128, x: u32) -> (r: Single)
        requires
            n < 0x20_0000_0000_0000_0000_0000_0000,
            0 < d,
            x <= 1000,
            x > 0 ==> n >= 0x10_0000_0000_0000_0000_0000_0000 && d < 0x100_0000,
        ensures
            r@ == Number::rounded(neg, n as nat * Number::pow2(x as nat), d as nat),
    {
        let sign: u32 = if neg { 0x8000_0000 } else { 0 };
        let mut s: u128 = d;
        let mut e: u32 = x;
        let ghost top = n as nat * Number::pow2(x as nat);
        proof {
            Number::lemma_some_powers();
            lemma_step_start(n as nat, d as nat, x as nat);
        }
        while n / s >= 0x100_0000
            invariant
                x <= e <= x + 78,
                x <= 1000,
                d > 0,
                s > 0,
                s as nat == d as nat * Number::pow2((e - x) as nat),
                n < 0x20_0000_0000_0000_0000_0000_0000,
                top == n as nat * Number::pow2(x as nat),
                e > 0 ==> top / (d as nat * Number::pow2((e - 1) as nat)) >= 0x100_0000,
                Number::pow2(77) == 0x2000_0000_0000_0000_0000,
            decreases n / s,
        {
            proof {
                lemma_quotient_halves(n, s);
                lemma_step(top, d as nat, n as nat, s as nat, x as nat, e as nat);
                if e - x >= 77 {
                    Number::lemma_pow2_ordered(77, (e - x) as nat);
                }
            }
            s = 2 * s;
            e = e + 1;
        }
        proof {
            lemma_mantissa(top, d as nat, n as nat, s as nat, x as nat, e as nat);
        }
        let below: u128 = n / s;
        let rest: u128 = n % s;
        let up: bool = rest > s - rest || (rest == s - rest && below % 2 == 1);
        let mantissa: u32 = if up { below as u32 + 1 } else { below as u32 };
        assert(mantissa == Number::half_even(n as nat, s as nat));
        if e > 253 {
            proof {
                lemma_overflows(neg, mantissa as nat, e as nat);
            }
            return Single { bits: sign + 0x7f80_0000 };
        }
        proof {
            lemma_encoded(neg, mantissa, e);
        }
        Single { bits: sign + (e * 0x80_0000 + mantissa) }
    }

    /// The number nearest to `num / den * 2^exp` units, negated if `neg`.
    fn round_ratio(neg: bool, num: u128, den: u128, exp: i32) -> (r: Single)
        requires
            num < 0x10_0000_0000_0000_0000_0000_0000,
            0 < den < 0x100_0000,
            -1000 <= exp <= 1000,
        ensures
            r@ == Number::rounded(
                neg,
                scaled_num(num as nat, exp as int),
                scaled_den(den as nat, exp as int),
            ),
    {
        if exp < -101 {
            proof {
                Number::lemma_some_powers();
                Number::lemma_pow2_ordered(102, (-exp) as nat);
                let p = Number::pow2((-exp) as nat);
                assert(den as nat * p >= p) by (nonlinear_arith)
                    requires
                        den >= 1,
                ;
                lemma_vanishes(neg, num as nat, scaled_den(den as nat, exp as int));
                lemma_encoded(neg, 0, 0);
            }
            return Single { bits: if neg { 0x8000_0000 } else { 0 } };
        }
        if exp < 0 {
            let mut d: u128 = den;
            let mut e: i32 = exp;
            proof {
                Number::lemma_some_powers();
                assert(den as nat * Number::pow2(0) == den) by (nonlinear_arith)
                    requires
                        Number::pow2(0) == 1,
                ;
            }
            while e < 0
                invariant
                    -101 <= exp <= e <= 0,
                    0 < den < 0x100_0000,
                    d > 0,
                    d as nat == den as nat * Number::pow2((e - exp) as nat),
                    Number::pow2(102) == 0x40_0000_0000_0000_0000_0000_0000,
                decreases -e,
            {
                proof {
                    let k = (e - exp) as nat;
                    let p = Number::pow2(k);
                    Number::lemma_pow2_ordered(k, 102);
                    assert(d < 0x100_0000 * 0x40_0000_0000_0000_0000_0000_0000) by (nonlinear_arith)
                        requires
                            d as nat == den as nat * p,
                            den < 0x100_0000,
                            0 <= p <= 0x40_0000_0000_0000_0000_0000_0000,
                    ;
                    assert(((e + 1) - exp) as nat == k + 1);
                    assert(2 * (den as nat * p) == den as nat * (2 * p)) by (nonlinear_arith);
                }
                d = 2 * d;
                e = e + 1;
            }
            proof {
                assert(num as nat * Number::pow2(0) == num) by (nonlinear_arith)
                    requires
                        Number::pow2(0) == 1,
                ;
            }
            return Single::round_scaled(neg, num, d, 0);
        }
        let mut n: u128 = num;
        let mut e: i32 = exp;
        while e > 0 && n < 0x10_0000_0000_0000_0000_0000_0000
            invariant
                0 <= e <= 1000,
                exp >= 0,
                n < 0x20_0000_0000_0000_0000_0000_0000,
                n as nat * Number::pow2(e as nat) == num as nat * Number::pow2(exp as nat),
            decreases e,
        {
            proof {
                let t = Number::pow2((e - 1) as nat);
                assert((2 * n as nat) * t == n as nat * (2 * t)) by (nonlinear_arith);
            }
            n = 2 * n;
            e = e - 1;
        }
        Single::round_scaled(neg, n, den, e as u32)
    }
}

/// At the start a quotient of a large `n` has too many bits even at the exponent below.
proof fn lemma_step_start(n: nat, d: nat, x: nat)
    requires
        d > 0,
        x > 0 ==> n >= 0x10_0000_0000_0000_0000_0000_0000 && d < 0x100_0000,
    ensures
        d == d * Number::pow2(0),
        x > 0 ==> (n * Number::pow2(x)) / (d * Number::pow2((x - 1) as nat)) >= 0x100_0000,
{
    assert(d * Number::pow2(0) == d) by (nonlinear_arith)
        requires
            Number::pow2(0) == 1,
    ;
    if x > 0 {
        let p = Number::pow2((x - 1) as nat);
        Number::lemma_pow2_positive((x - 1) as nat);
        assert(n * (2 * p) == p * (2 * n)) by (nonlinear_arith);
        assert(d * p == p * d) by (nonlinear_arith);
        Number::lemma_half_even_scales(p, 2 * n, d);
        assert((2 * n) / d >= 0x100_0000) by (nonlinear_arith)
            requires
                n >= 0x10_0000_0000_0000_0000_0000_0000,
                0 < d < 0x100_0000,
        ;
    }
}

impl Single {
    /// Zero.
    pub fn zero() -> (r: Single)
        ensures
            r@ == Number::zero(),
    {
        Single { bits: 0 }
    }

    /// The number nearest to the whole number `n`.
    pub fn from_whole(n: u128) -> (r: Single)
        requires
            n < 0x10_0000_0000_0000_0000_0000_0000,
        ensures
            r@ == Number::whole(n as nat),
    {
        Single::round_ratio(false, n, 1, 149)
    }

    /// Whether the bits denote no number.
    pub fn is_nan(self) -> (r: bool)
        ensures
            r <==> self@ is Nan,
    {
        self.exponent() == 0xff && self.fraction() != 0
    }

    fn negative(self) -> (r: bool)
        ensures
            r <==> self.bits >= 0x8000_0000,
    {
        self.bits >= 0x8000_0000
    }

    fn exponent(self) -> (r: u32)
        ensures
            r == (self.bits / 0x80_0000) % 0x100,
    {
        (self.bits / 0x80_0000) % 0x100
    }

    fn fraction(self) -> (r: u32)
        ensures
            r == self.bits % 0x80_0000,
    {
        self.bits % 0x80_0000
    }

    /// A finite number as a mantissa and an exponent.
    fn parts(self) -> (r: (u32, u32))
        requires
            self@ is Finite,
        ensures
            r.0 < 0x100_0000,
            r.1 <= 253,
            r.1 > 0 ==> r.0 >= 0x80_0000,
            self@ == (Number::Finite {
                neg: self.bits >= 0x8000_0000,
                units: r.0 as nat * Number::pow2(r.1 as nat),
            }),
    {
        let exponent: u32 = self.exponent();
        let fraction: u32 = self.fraction();
        if exponent == 0 {
            proof {
                assert(fraction as nat * Number::pow2(0) == fraction) by (nonlinear_arith)
                    requires
                        Number::pow2(0) == 1,
                ;
            }
            (fraction, 0)
        } else {
            (0x80_0000 + fraction, exponent - 1)
        }
    }

    /// `-self`
    pub fn negated(self) -> (r: Single)
        ensures
            r@ == self@.negated(),
    {
        let ghost exponent = (self.bits / 0x80_0000) % 0x100;
        let ghost fraction = self.bits % 0x80_0000;
        proof {
            lemma_fields(true, exponent, fraction);
            lemma_fields(false, exponent, fraction);
            lemma_bits_split(self.bits);
        }
        if self.bits >= 0x8000_0000 {
            Single { bits: self.bits - 0x8000_0000 }
        } else {
            Single { bits: self.bits + 0x8000_0000 }
        }
    }

    /// `self * other`
    pub fn times(self, other: Single) -> (r: Single)
        ensures
            r@ == self@.times(other@),
    {
        let neg: bool = self.negative() != other.negative();
        let infinite: u32 = if neg { 0xff80_0000 } else { 0x7f80_0000 };
        if self.is_nan() || other.is_nan() {
            return Single { bits: 0x7fc0_0000 };
        }
        if self.exponent() == 0xff || other.exponent() == 0xff {
            proof {
                lemma_zero(self.bits);
                lemma_zero(other.bits);
                lemma_fields(neg, 0xff, 0);
            }
            if self.bits % 0x8000_0000 == 0 || other.bits % 0x8000_0000 == 0 {
                return Single { bits: 0x7fc0_0000 };
            }
            return Single { bits: infinite };
        }
        let (a, x) = self.parts();
        let (b, y) = other.parts();
        proof {
            lemma_product(a as nat, x as nat, b as nat, y as nat, neg);
            assert(0 <= a * b < 0x1_0000_0000_0000) by (nonlinear_arith)
                requires
                    0 <= a < 0x100_0000,
                    0 <= b < 0x100_0000,
            ;
        }
        Single::round_ratio(neg, a as u128 * b as u128, 1, x as i32 + y as i32 - 149)
    }
}

/// Any bit pattern is its fields put together.
proof fn lemma_bits_split(bits: u32)
    ensures
        bits == signed_bits(
            bits >= 0x8000_0000,
            (((bits / 0x80_0000) % 0x100) * 0x80_0000 + bits % 0x80_0000) as u32,
        ),
{
}

/// Only the two zeros have no bit set beside the sign.
proof fn lemma_zero(bits: u32)
    ensures
        bits % 0x8000_0000 == 0 <==> Number::from_bits(bits) is Finite && Number::from_bits(
            bits,
        )->units == 0,
{
    let exponent = (bits / 0x80_0000) % 0x100;
    let fraction = bits % 0x80_0000;
    assert(bits % 0x8000_0000 == exponent * 0x80_0000 + fraction);
    if 0 < exponent < 0xff {
        let p = Number::pow2((exponent - 1) as nat);
        Number::lemma_pow2_positive((exponent - 1) as nat);
        assert((0x80_0000 + fraction as nat) * p > 0) by (nonlinear_arith)
            requires
                p > 0,
        ;
    }
}

/// The product of two numbers given by mantissa and exponent.
proof fn lemma_product(a: nat, x: nat, b: nat, y: nat, neg: bool)
    ensures
        Number::rounded(neg, (a * Number::pow2(x)) * (b * Number::pow2(y)), Number::pow2(149))
            == Number::rounded(neg, scaled_num(a * b, x + y - 149), scaled_den(1, x + y - 149)),
{
    let px = Number::pow2(x);
    let py = Number::pow2(y);
    Number::lemma_pow2_adds(x, y);
    assert((a * px) * (b * py) == (px * py) * (a * b)) by (nonlinear_arith);
    if x + y >= 149 {
        let r = (x + y - 149) as nat;
        Number::lemma_pow2_adds(149, r);
        Number::lemma_pow2_positive(149);
        let p = Number::pow2(149);
        let q = Number::pow2(r);
        assert((p * q) * (a * b) == p * (a * b * q)) by (nonlinear_arith);
        Number::lemma_rounded_scales(neg, p, a * b * q, 1);
    } else {
        let r = (149 - x - y) as nat;
        Number::lemma_pow2_adds(x + y, r);
        Number::lemma_pow2_positive(x + y);
        Number::lemma_pow2_positive(r);
        assert(1 * Number::pow2(r) == Number::pow2(r));
        Number::lemma_rounded_scales(neg, Number::pow2(x + y), a * b, Number::pow2(r));
    }
}

/// The quotient of two numbers given by mantissa and exponent.
proof fn lemma_quotient(a: nat, x: nat, b: nat, y: nat, neg: bool)
    requires
        b > 0,
    ensures
        Number::rounded(neg, (a * Number::pow2(x)) * Number::pow2(149), b * Number::pow2(y))
            == Number::rounded(neg, scaled_num(a, x + 149 - y), scaled_den(b, x + 149 - y)),
{
    let px = Number::pow2(x);
    let py = Number::pow2(y);
    let pz = Number::pow2(149);
    Number::lemma_pow2_adds(x, 149);
    assert((a * px) * pz == a * (px * pz)) by (nonlinear_arith);
    if x + 149 >= y {
        let r = (x + 149 - y) as nat;
        let q = Number::pow2(r);
        Number::lemma_pow2_adds(y, r);
        Number::lemma_pow2_positive(y);
        assert(a * (py * q) == py * (a * q)) by (nonlinear_arith);
        assert(b * py == py * b) by (nonlinear_arith);
        Number::lemma_rounded_scales(neg, py, a * q, b);
    } else {
        let r = (y - x - 149) as nat;
        let q = Number::pow2(r);
        let p = Number::pow2(x + 149);
        Number::lemma_pow2_adds(x + 149, r);
        Number::lemma_pow2_positive(x + 149);
        Number::lemma_pow2_positive(r);
        assert(b * (p * q) == p * (b * q)) by (nonlinear_arith);
        assert(a * p == p * a) by (nonlinear_arith);
        assert(b * q > 0) by (nonlinear_arith)
            requires
                b > 0,
                q > 0,
        ;
        Number::lemma_rounded_scales(neg, p, a, b * q);
    }
}

/// The order of finite magnitudes is the order of their bits.
proof fn lemma_magnitudes_ordered(p: u32, q: u32)
    requires
        p < q < 0x7f80_0000,
    ensures
        Number::from_bits(p) is Finite,
        Number::from_bits(q) is Finite,
        Number::from_bits(p)->units < Number::from_bits(q)->units,
{
    let e = (p / 0x80_0000) as nat;
    let f = (q / 0x80_0000) as nat;
    let a = (p % 0x80_0000) as nat;
    let b = (q % 0x80_0000) as nat;
    assert((p / 0x80_0000) % 0x100 == e);
    assert((q / 0x80_0000) % 0x100 == f);
    assert(e < 0xff && f < 0xff);
    if e == f {
        assert(a < b);
        if e > 0 {
            let t = Number::pow2((e - 1) as nat);
            Number::lemma_pow2_positive((e - 1) as nat);
            assert((0x80_0000 + a) * t < (0x80_0000 + b) * t) by (nonlinear_arith)
                requires
                    a < b,
                    t > 0,
            ;
        }
    } else {
        assert(e < f);
        let u = Number::pow2((f - 1) as nat);
        Number::lemma_pow2_positive((f - 1) as nat);
        assert((0x80_0000 + b) * u >= 0x80_0000 * u) by (nonlinear_arith);
        if e == 0 {
            assert(a < 0x80_0000 * u);
        } else {
            let t = Number::pow2((e - 1) as nat);
            Number::lemma_pow2_positive((e - 1) as nat);
            Number::lemma_pow2_ordered(e, (f - 1) as nat);
            assert(Number::pow2(e) == 2 * t);
            assert((0x80_0000 + a) * t < 0x80_0000 * u) by (nonlinear_arith)
                requires
                    a < 0x80_0000,
                    0 < t,
                    2 * t <= u,
            ;
        }
    }
}

/// The sign bit does not change the magnitude.
proof fn lemma_sign_bit(bits: u32)
    ensures
        ({
            let p = (bits % 0x8000_0000) as u32;
            &&& p < 0x8000_0000
            &&& p > 0x7f80_0000 <==> Number::from_bits(bits) is Nan
            &&& p == 0x7f80_0000 <==> Number::from_bits(bits) is Infinite
            &&& p < 0x7f80_0000 <==> Number::from_bits(bits) is Finite
            &&& Number::from_bits(bits) is Finite ==> Number::from_bits(p) is Finite
                && Number::from_bits(bits) == (Number::Finite {
                neg: bits >= 0x8000_0000,
                units: Number::from_bits(p)->units,
            })
            &&& Number::from_bits(bits) is Infinite ==> Number::from_bits(bits)
                == (Number::Infinite { neg: bits >= 0x8000_0000 })
        }),
{
    let p = (bits % 0x8000_0000) as u32;
    assert(p / 0x80_0000 == (bits / 0x80_0000) % 0x100);
    assert(p % 0x80_0000 == bits % 0x80_0000);
    assert((p / 0x80_0000) % 0x100 == p / 0x80_0000);
}

impl Single {
    /// `self / other`
    pub fn over(self, other: Single) -> (r: Single)
        requires
            self@ is Finite,
            other@ is Finite,
            other@.value() != 0,
        ensures
            r@ == self@.over(other@),
    {
        let neg: bool = self.negative() != other.negative();
        let (a, x) = self.parts();
        let (b, y) = other.parts();
        proof {
            assert(b > 0) by (nonlinear_arith)
                requires
                    b as nat * Number::pow2(y as nat) != 0,
            ;
            lemma_quotient(a as nat, x as nat, b as nat, y as nat, neg);
        }
        Single::round_ratio(neg, a as u128, b as u128, x as i32 + 149 - y as i32)
    }

    /// `self < other`
    pub fn below(self, other: Single) -> (r: bool)
        ensures
            r == self@.below(other@),
    {
        if self.is_nan() || other.is_nan() {
            return false;
        }
        let p: u32 = self.bits % 0x8000_0000;
        let q: u32 = other.bits % 0x8000_0000;
        proof {
            lemma_sign_bit(self.bits);
            lemma_sign_bit(other.bits);
            lemma_zero(self.bits);
            lemma_zero(other.bits);
            if p < q && q < 0x7f80_0000 {
                lemma_magnitudes_ordered(p, q);
            }
            if q < p && p < 0x7f80_0000 {
                lemma_magnitudes_ordered(q, p);
            }
        }
        if self.negative() {
            if other.negative() {
                q < p
            } else {
                p != 0 || q != 0
            }
        } else {
            !other.negative() && p < q
        }
    }

    /// `self == other`
    pub fn same(self, other: Single) -> (r: bool)
        ensures
            r == self@.same(other@),
    {
        !self.is_nan() && !other.is_nan() && !self.below(other) && !other.below(self)
    }

    /// `self <= other`
    pub fn at_most(self, other: Single) -> (r: bool)
        ensures
            r == self@.at_most(other@),
    {
        self.below(other) || self.same(other)
    }

    /// The lesser of the two, or the one that is a number.
    pub fn lesser(self, other: Single) -> (r: Single)
        ensures
            r@ == self@.lesser(other@),
    {
        if other.below(self) || self.is_nan() {
            other
        } else {
            self
        }
    }

    /// `self` moved into `lowest..=highest`.
    pub fn clamped(self, lowest: Single, highest: Single) -> (r: Single)
        requires
            lowest@.at_most(highest@),
        ensures
            r@ == self@.clamped(lowest@, highest@),
    {
        if self.below(lowest) {
            lowest
        } else if highest.below(self) {
            highest
        } else {
            self
        }
    }
}

/// A summand far below the spacing of the other does not change it.
proof fn lemma_absorbs(neg: bool, a: nat, x: nat, small: nat, grows: bool)
    requires
        0x80_0000 <= a < 0x100_0000,
        2 <= x <= 253,
        8 * small < Number::pow2(x),
    ensures
        small <= a * Number::pow2(x),
        ({
            let units = a * Number::pow2(x);
            let sum = if grows { units + small } else { (units - small) as nat };
            Number::rounded(neg, sum, 1) == (Number::Finite { neg, units })
        }),
{
    let p = Number::pow2(x);
    let h = Number::pow2((x - 1) as nat);
    let t = Number::pow2((x - 2) as nat);
    assert(p == 2 * h && h == 2 * t);
    Number::lemma_pow2_positive((x - 2) as nat);
    let units = a * p;
    assert(units >= 0x80_0000 * p) by (nonlinear_arith)
        requires
            a >= 0x80_0000,
            units == a * p,
    ;
    Number::lemma_units_bounded(a, x);
    let sum = if grows { units + small } else { (units - small) as nat };
    vstd::arithmetic::div_mod::lemma_div_basics_2(sum as int);
    assert(sum / 1 == sum);
    if grows || small == 0 {
        lemma_divides(sum, p, a, small);
        assert(units == (2 * a) * h) by (nonlinear_arith)
            requires
                units == a * p,
                p == 2 * h,
        ;
        lemma_divides(sum, h, 2 * a, small);
        Number::lemma_spacing_is(sum, x);
        assert(1 * p == p);
        assert(Number::half_even(sum, p) == a);
    } else if a > 0x80_0000 {
        let b = (a - 1) as nat;
        assert(sum == b * p + (p - small)) by (nonlinear_arith)
            requires
                sum == a * p - small,
                b == a - 1,
        ;
        lemma_divides(sum, p, b, (p - small) as nat);
        assert(sum == (2 * b + 1) * h + (h - small)) by (nonlinear_arith)
            requires
                sum == b * p + (p - small),
                p == 2 * h,
        ;
        lemma_divides(sum, h, 2 * b + 1, (h - small) as nat);
        Number::lemma_spacing_is(sum, x);
        assert(1 * p == p);
        assert(Number::half_even(sum, p) == a);
    } else {
        let c: nat = 0xff_ffff;
        assert(sum == c * h + (h - small)) by (nonlinear_arith)
            requires
                sum == 0x80_0000 * p - small,
                p == 2 * h,
                c == 0xff_ffff,
        ;
        lemma_divides(sum, h, c, (h - small) as nat);
        assert(sum == (2 * c + 1) * t + (t - small)) by (nonlinear_arith)
            requires
                sum == c * h + (h - small),
                h == 2 * t,
        ;
        lemma_divides(sum, t, 2 * c + 1, (t - small) as nat);
        Number::lemma_spacing_is(sum, (x - 1) as nat);
        assert(1 * h == h);
        assert(Number::half_even(sum, h) == 0x100_0000);
        assert(0x100_0000 * h == 0x80_0000 * p);
    }
}

/// Quotient and remainder, from the sum that they make.
proof fn lemma_divides(n: nat, d: nat, q: nat, r: nat)
    requires
        n == q * d + r,
        r < d,
    ensures
        n / d == q,
        n % d == r,
{
    vstd::arithmetic::div_mod::lemma_fundamental_div_mod_converse(
        n as int,
        d as int,
        q as int,
        r as int,
    );
}

impl Single {
    /// `mantissa * 2^by`
    fn shifted(mantissa: u32, by: u32) -> (r: u128)
        requires
            mantissa < 0x100_0000,
            by <= 64,
        ensures
            r == mantissa as nat * Number::pow2(by as nat),
            r < 0x100_0000_0000_0000_0000_0000,
    {
        let mut r: u128 = mantissa as u128;
        let mut i: u32 = 0;
        proof {
            assert(mantissa as nat * Number::pow2(0) == mantissa) by (nonlinear_arith)
                requires
                    Number::pow2(0) == 1,
            ;
            lemma_shift_bounded(mantissa as nat, 0);
        }
        while i < by
            invariant
                i <= by <= 64,
                mantissa < 0x100_0000,
                r == mantissa as nat * Number::pow2(i as nat),
                r < 0x100_0000_0000_0000_0000_0000,
            decreases by - i,
        {
            proof {
                let p = Number::pow2(i as nat);
                assert(2 * (mantissa as nat * p) == mantissa as nat * (2 * p)) by (nonlinear_arith);
                assert(Number::pow2((i + 1) as nat) == 2 * p);
                lemma_shift_bounded(mantissa as nat, (i + 1) as nat);
            }
            r = 2 * r;
            i = i + 1;
        }
        r
    }

    /// The sum of two finite numbers, the first with the larger exponent.
    fn sum_of_parts(s: bool, a: u32, x: u32, t: bool, b: u32, y: u32) -> (r: Single)
        requires
            a < 0x100_0000,
            b < 0x100_0000,
            y <= x <= 253,
            x > 0 ==> a >= 0x80_0000,
        ensures
            r@ == (Number::Finite { neg: s, units: a as nat * Number::pow2(x as nat) }).plus(
                Number::Finite { neg: t, units: b as nat * Number::pow2(y as nat) },
            ),
    {
        if x - y > 64 {
            proof {
                lemma_far_below(b as nat, y as nat, x as nat);
                lemma_absorbs(
                    s,
                    a as nat,
                    x as nat,
                    b as nat * Number::pow2(y as nat),
                    s == t,
                );
                Number::lemma_units_bounded(a as nat, x as nat);
                lemma_encoded(s, a, x);
                let p = Number::pow2(x as nat);
                Number::lemma_pow2_positive(x as nat);
                assert(a as nat * p >= p) by (nonlinear_arith)
                    requires
                        a >= 1,
                ;
            }
            let magnitude: u32 = x * 0x80_0000 + a;
            return Single { bits: if s { 0x8000_0000 + magnitude } else { magnitude } };
        }
        let h: u128 = Single::shifted(a, x - y);
        let l: u128 = b as u128;
        proof {
            let py = Number::pow2(y as nat);
            let pd = Number::pow2((x - y) as nat);
            Number::lemma_pow2_adds((x - y) as nat, y as nat);
            Number::lemma_pow2_positive(y as nat);
            assert(a as nat * (pd * py) == h as nat * py) by (nonlinear_arith)
                requires
                    h as nat == a as nat * pd,
            ;
            assert(h as nat * py + l as nat * py == (h + l) as nat * py) by (nonlinear_arith);
            assert(h >= l ==> h as nat * py - l as nat * py == (h - l) as nat * py && (h > l ==> (h
                - l) as nat * py > 0)) by (nonlinear_arith)
                requires
                    py > 0,
            ;
            assert(h < l ==> l as nat * py - h as nat * py == (l - h) as nat * py && (l - h) as nat
                * py > 0) by (nonlinear_arith)
                requires
                    py > 0,
            ;
            assert(h + l > 0 ==> (h + l) as nat * py > 0) by (nonlinear_arith)
                requires
                    py > 0,
            ;
        }
        if s == t {
            if h == 0 && l == 0 {
                proof {
                    lemma_encoded(s, 0, 0);
                }
                return Single { bits: if s { 0x8000_0000 } else { 0 } };
            }
            Single::round_ratio(s, h + l, 1, y as i32)
        } else if h == l {
            proof {
                lemma_encoded(false, 0, 0);
            }
            Single { bits: 0 }
        } else if h > l {
            Single::round_ratio(s, h - l, 1, y as i32)
        } else {
            Single::round_ratio(t, l - h, 1, y as i32)
        }
    }

    /// `self + other`
    pub fn plus(self, other: Single) -> (r: Single)
        ensures
            r@ == self@.plus(other@),
    {
        if self.is_nan() || other.is_nan() {
            return Single { bits: 0x7fc0_0000 };
        }
        if self.exponent() == 0xff {
            if other.exponent() == 0xff && self.negative() != other.negative() {
                return Single { bits: 0x7fc0_0000 };
            }
            return self;
        }
        if other.exponent() == 0xff {
            return other;
        }
        let (a, x) = self.parts();
        let (b, y) = other.parts();
        if x >= y {
            Single::sum_of_parts(self.negative(), a, x, other.negative(), b, y)
        } else {
            Single::sum_of_parts(other.negative(), b, y, self.negative(), a, x)
        }
    }

    /// `self - other`
    pub fn minus(self, other: Single) -> (r: Single)
        ensures
            r@ == self@.minus(other@),
    {
        self.plus(other.negated())
    }
}

/// A mantissa shifted by at most sixty-four bits has at most eighty-eight.
proof fn lemma_shift_bounded(m: nat, i: nat)
    requires
        m < 0x100_0000,
        i <= 64,
    ensures
        m * Number::pow2(i) < 0x100_0000_0000_0000_0000_0000,
{
    Number::lemma_some_powers();
    Number::lemma_pow2_ordered(i, 64);
    Number::lemma_pow2_adds(13, 64);
    assert(Number::pow2(13) == 0x2000) by {
        reveal_with_fuel(Number::pow2, 14);
    }
    let p = Number::pow2(i);
    assert(m * p < 0x100_0000 * 0x1_0000_0000_0000_0000) by (nonlinear_arith)
        requires
            m < 0x100_0000,
            0 <= p <= 0x1_0000_0000_0000_0000,
    ;
}

/// A mantissa at an exponent that is lower by more than sixty-four is small.
proof fn lemma_far_below(m: nat, y: nat, x: nat)
    requires
        m < 0x100_0000,
        x > y + 64,
    ensures
        8 * (m * Number::pow2(y)) < Number::pow2(x),
{
    Number::lemma_some_powers();
    Number::lemma_pow2_adds((x - y) as nat, y);
    Number::lemma_pow2_ordered(27, (x - y) as nat);
    Number::lemma_pow2_adds(3, 24);
    assert(Number::pow2(3) == 8) by {
        reveal_with_fuel(Number::pow2, 4);
    }
    Number::lemma_pow2_positive(y);
    let d = Number::pow2((x - y) as nat);
    let p = Number::pow2(y);
    assert(8 * (m * p) < d * p) by (nonlinear_arith)
        requires
            m < 0x100_0000,
            d >= 8 * 0x100_0000,
            p > 0,
    ;
}

} // verus!
