//! Single and double precision numbers held as IEEE 754 bit patterns.
//!
//! The tree stores and compares real-valued data without doing arithmetic on it, so a number is
//! kept as the bits of its binary interchange format. Ordering and conversion to and from
//! integers are defined on those bits.

use vstd::arithmetic::power2::{lemma2_to64, lemma_pow2_adds, lemma_pow2_pos, lemma_pow2_strictly_increases, pow2};
use vstd::bits::{lemma_u32_shl_is_mul, lemma_u32_shr_is_div};
use vstd::prelude::*;

verus! {

/// Bit pattern of a binary64 number. Only stored and handed back.
#[derive(Clone, Copy, Debug, PartialEq, Eq, Structural)]
pub struct Double {
    pub bits: u64,
}

impl Double {
    /// Wraps a binary64 bit pattern.
    pub fn from_bits(bits: u64) -> (r: Double)
        ensures
            r.bits == bits,
    {
        Double { bits }
    }

    /// The binary64 bit pattern.
    pub fn to_bits(&self) -> (r: u64)
        ensures
            r == self.bits,
    {
        self.bits
    }
}

/// Bit pattern of a binary32 number: one sign bit, eight exponent bits, twenty-three fraction
/// bits.
#[derive(Clone, Copy, Debug, PartialEq, Eq, Structural)]
pub struct Float {
    pub bits: u32,
}

impl Float {
    /// True when the sign bit is set.
    pub open spec fn negative(self) -> bool {
        self.bits >= 0x8000_0000
    }

    /// The biased exponent field, in `0..=255`.
    pub open spec fn exponent(self) -> int {
        (self.bits as int / 0x80_0000) % 0x100
    }

    /// The fraction field, in `0..2^23`.
    pub open spec fn fraction(self) -> int {
        self.bits as int % 0x80_0000
    }

    /// Exponent and fraction together: the bits without the sign.
    pub open spec fn magnitude(self) -> int {
        self.bits as int % 0x8000_0000
    }

    /// Not a number: all exponent bits set and a nonzero fraction.
    pub open spec fn is_nan(self) -> bool {
        self.magnitude() > 0x7f80_0000
    }

    /// Positive or negative infinity.
    pub open spec fn is_infinite(self) -> bool {
        self.magnitude() == 0x7f80_0000
    }

    /// Positive or negative zero.
    pub open spec fn is_zero(self) -> bool {
        self.magnitude() == 0
    }

    /// The significand as an integer: the fraction, with the implicit leading one for normal
    /// numbers.
    pub open spec fn significand(self) -> int {
        if self.exponent() == 0 {
            self.fraction()
        } else {
            0x80_0000 + self.fraction()
        }
    }

    /// The value of a number that is not NaN, in units of `2^-149`: the significand times two
    /// to the power `exponent - 1`, with the sign. A subnormal number has the scale of
    /// exponent 1. For an infinity this is a number beyond every finite one.
    pub open spec fn scaled(self) -> int {
        let e = self.exponent();
        let scale = pow2((if e == 0 { 0 } else { e - 1 }) as nat) as int;
        if self.negative() {
            -(self.significand() * scale)
        } else {
            self.significand() * scale
        }
    }

    /// Sign-magnitude key. For numbers that are not NaN, the IEEE 754 order is the order of
    /// their keys, and both zeros share key 0.
    pub open spec fn key(self) -> int {
        if self.negative() {
            -self.magnitude()
        } else {
            self.magnitude()
        }
    }

    /// IEEE 754 `<`: false when either side is NaN.
    pub open spec fn lt(self, other: Float) -> bool {
        !self.is_nan() && !other.is_nan() && self.key() < other.key()
    }

    /// IEEE 754 `<=`: false when either side is NaN.
    pub open spec fn le(self, other: Float) -> bool {
        !self.is_nan() && !other.is_nan() && self.key() <= other.key()
    }

    /// The integer part of the absolute value of a finite number: the significand scaled by
    /// two to the power `exponent - 150`, rounded toward zero.
    pub open spec fn whole_magnitude(self) -> int {
        let e = self.exponent();
        if e >= 150 {
            self.significand() * pow2((e - 150) as nat)
        } else {
            self.significand() / (pow2((150 - e) as nat) as int)
        }
    }

    /// The number rounded toward zero and saturated to the range of `i32`; NaN gives 0.
    pub open spec fn truncated(self) -> int {
        if self.is_nan() {
            0
        } else if self.negative() {
            if self.is_infinite() || self.whole_magnitude() > 0x8000_0000 {
                -0x8000_0000
            } else {
                -self.whole_magnitude()
            }
        } else {
            if self.is_infinite() || self.whole_magnitude() > 0x7fff_ffff {
                0x7fff_ffff
            } else {
                self.whole_magnitude()
            }
        }
    }

    /// The number nearest to the integer `x`, ties going to the even significand.
    ///
    /// With `p` the position of the leading one of `|x|`, the significand keeps the top 24
    /// bits; what is cut off rounds the significand up when it is more than half a unit, or
    /// exactly half and the significand is odd. A significand that rounds up to `2^24` carries
    /// into the exponent, which the sum below does by itself.
    pub open spec fn nearest(x: int) -> Float {
        if x == 0 {
            Float { bits: 0 }
        } else {
            let a: nat = if x < 0 { (-x) as nat } else { x as nat };
            let sign: int = if x < 0 { 0x8000_0000 } else { 0 };
            let p: int = bit_length(a) - 1;
            let m: int = if p <= 23 {
                (a * pow2((23 - p) as nat)) as int
            } else {
                let unit = pow2((p - 23) as nat) as int;
                let q = a as int / unit;
                let r = a as int % unit;
                if 2 * r > unit || (2 * r == unit && q % 2 == 1) {
                    q + 1
                } else {
                    q
                }
            };
            Float { bits: (sign + (127 + p) * 0x80_0000 + (m - 0x80_0000)) as u32 }
        }
    }

    /// Wraps a binary32 bit pattern.
    pub fn from_bits(bits: u32) -> (r: Float)
        ensures
            r.bits == bits,
    {
        Float { bits }
    }

    /// The binary32 bit pattern.
    pub fn to_bits(&self) -> (r: u32)
        ensures
            r == self.bits,
    {
        self.bits
    }

    /// Positive zero.
    pub fn zero() -> (r: Float)
        ensures
            r.bits == 0,
    {
        Float { bits: 0 }
    }

    /// Whether this is a NaN.
    pub fn nan(&self) -> (r: bool)
        ensures
            r == self.is_nan(),
    {
        self.bits % 0x8000_0000 > 0x7f80_0000
    }

    /// Whether the number differs from zero. A NaN does.
    pub fn nonzero(&self) -> (r: bool)
        ensures
            r == !self.is_zero(),
    {
        self.bits % 0x8000_0000 != 0
    }

    /// The number nearest to `x`, ties going to the even significand.
    pub fn from_i32(x: i32) -> (r: Float)
        ensures
            r == Float::nearest(x as int),
    {
        if x == 0 {
            return Float { bits: 0 };
        }
        let a: u32 = if x == i32::MIN {
            0x8000_0000
        } else if x < 0 {
            (-x) as u32
        } else {
            x as u32
        };
        let sign: u32 = if x < 0 { 0x8000_0000 } else { 0 };
        let mut n: u32 = 0;
        let mut t: u32 = a;
        proof {
            lemma2_to64();
        }
        while t > 0
            invariant
                n <= 32,
                bit_length(a as nat) == n + bit_length(t as nat),
                t as nat * pow2(n as nat) <= a,
            decreases t,
        {
            proof {
                lemma_pow2_adds(n as nat, 1);
                lemma2_to64();
                assert((t / 2) as nat * (pow2(n as nat) * 2) <= t as nat * pow2(n as nat)) by (nonlinear_arith)
                    requires
                        t > 0,
                ;
                if n == 32 {
                    assert(t as nat * pow2(32) >= pow2(32)) by (nonlinear_arith)
                        requires
                            t > 0,
                    ;
                }
            }
            t = t / 2;
            n = n + 1;
        }
        let p: u32 = n - 1;
        proof {
            lemma_bit_length_bounds(a as nat);
        }
        let m: u32 = if p <= 23 {
            let k: u32 = 23 - p;
            proof {
                lemma_pow2_adds(n as nat, k as nat);
                lemma2_to64();
                assert(a * pow2(k as nat) < pow2(n as nat) * pow2(k as nat)) by (nonlinear_arith)
                    requires
                        a < pow2(n as nat),
                        pow2(k as nat) > 0,
                ;
                lemma_u32_shl_is_mul(a, k);
            }
            a << k
        } else {
            let k: u32 = p - 23;
            proof {
                lemma2_to64();
                lemma_pow2_strictly_increases_or_eq(k as nat, 8);
                lemma_pow2_pos(k as nat);
                lemma_u32_shl_is_mul(1, k);
            }
            let unit: u32 = 1u32 << k;
            let q: u32 = a / unit;
            let r: u32 = a % unit;
            proof {
                lemma_pow2_adds(24, k as nat);
                lemma_pow2_adds(23, k as nat);
                assert(q < 0x100_0000) by (nonlinear_arith)
                    requires
                        q == a / unit,
                        a < 0x100_0000 * unit,
                        unit > 0,
                ;
            }
            if 2 * r > unit || (2 * r == unit && q % 2 == 1) {
                q + 1
            } else {
                q
            }
        };
        proof {
            lemma_pow2_adds(23, (p - 23) as nat);
            lemma2_to64();
            if p <= 23 {
                lemma_pow2_adds(p as nat, (23 - p) as nat);
                assert(a * pow2((23 - p) as nat) >= pow2(p as nat) * pow2((23 - p) as nat)) by (nonlinear_arith)
                    requires
                        a >= pow2(p as nat),
                ;
            } else {
                let unit = pow2((p - 23) as nat) as int;
                assert(a as int / unit >= 0x80_0000) by (nonlinear_arith)
                    requires
                        a >= 0x80_0000 * unit,
                        unit > 0,
                ;
            }
        }
        Float { bits: sign + (127 + p) * 0x80_0000 + (m - 0x80_0000) }
    }

    /// Compares by IEEE 754 `<`.
    pub fn less(&self, other: &Float) -> (r: bool)
        ensures
            r == self.lt(*other),
    {
        if self.nan() || other.nan() {
            return false;
        }
        let a: u32 = self.bits % 0x8000_0000;
        let b: u32 = other.bits % 0x8000_0000;
        let a_neg = self.bits >= 0x8000_0000;
        let b_neg = other.bits >= 0x8000_0000;
        if a_neg {
            if b_neg {
                b < a
            } else {
                a != 0 || b != 0
            }
        } else {
            if b_neg {
                false
            } else {
                a < b
            }
        }
    }

    /// Compares by IEEE 754 `<=`.
    pub fn less_eq(&self, other: &Float) -> (r: bool)
        ensures
            r == self.le(*other),
    {
        if self.nan() || other.nan() {
            return false;
        }
        !other.less(self)
    }

    /// Rounds toward zero and saturates to the range of `i32`; NaN gives 0.
    pub fn trunc(&self) -> (r: i32)
        ensures
            r == self.truncated(),
    {
        let mag: u32 = self.bits % 0x8000_0000;
        let neg = self.bits >= 0x8000_0000;
        let e: u32 = mag / 0x80_0000;
        let frac: u32 = mag % 0x80_0000;
        assert(e == self.exponent() && frac == self.fraction());
        if mag > 0x7f80_0000 {
            return 0;
        }
        if e >= 158 {
            proof {
                if e < 255 {
                    lemma_pow2_strictly_increases_or_eq(8, (e - 150) as nat);
                    lemma2_to64();
                    assert(self.significand() * pow2((e - 150) as nat) >= 0x80_0000 * pow2(8)) by (nonlinear_arith)
                        requires
                            self.significand() >= 0x80_0000,
                            pow2((e - 150) as nat) >= pow2(8),
                            e >= 158,
                    ;
                }
            }
            return if neg { i32::MIN } else { i32::MAX };
        }
        if e < 127 {
            proof {
                lemma_pow2_strictly_increases_or_eq(24, (150 - e) as nat);
                lemma2_to64();
                vstd::arithmetic::div_mod::lemma_basic_div(self.significand(), pow2((150 - e) as nat) as int);
            }
            return 0;
        }
        let sig: u32 = 0x80_0000 + frac;
        let whole: u32 = if e >= 150 {
            let k: u32 = e - 150;
            proof {
                lemma2_to64();
                lemma_pow2_strictly_increases_or_eq(k as nat, 7);
                assert(sig * pow2(k as nat) <= 0xff_ffff * 128) by (nonlinear_arith)
                    requires
                        sig <= 0xff_ffff,
                        pow2(k as nat) <= 128,
                ;
                lemma_u32_shl_is_mul(sig, k);
            }
            sig << k
        } else {
            let k: u32 = 150 - e;
            proof {
                lemma_u32_shr_is_div(sig, k);
                lemma_pow2_pos(k as nat);
                vstd::arithmetic::div_mod::lemma_div_nonincreasing(sig as int, pow2(k as nat) as int);
            }
            sig >> k
        };
        assert(whole == self.whole_magnitude());
        assert(whole <= 0x7fff_ffff);
        if neg {
            -(whole as i32)
        } else {
            whole as i32
        }
    }
}

/// Number of binary digits of `a`: 0 for 0, else one more than the position of its leading one.
pub open spec fn bit_length(a: nat) -> nat
    decreases a,
{
    if a == 0 {
        0
    } else {
        1 + bit_length(a / 2)
    }
}

/// A positive number lies between the two powers of two that its bit length names.
pub proof fn lemma_bit_length_bounds(a: nat)
    requires
        a > 0,
    ensures
        bit_length(a) >= 1,
        pow2((bit_length(a) - 1) as nat) <= a < pow2(bit_length(a)),
    decreases a,
{
    lemma2_to64();
    if a == 1 {
        assert(bit_length(1) == 1 + bit_length(0));
    } else {
        lemma_bit_length_bounds(a / 2);
        let n = bit_length(a / 2);
        lemma_pow2_adds((n - 1) as nat, 1);
        lemma_pow2_adds(n, 1);
    }
}

/// Powers of two do not decrease with the exponent.
pub proof fn lemma_pow2_strictly_increases_or_eq(a: nat, b: nat)
    requires
        a <= b,
    ensures
        pow2(a) <= pow2(b),
{
    if a < b {
        lemma_pow2_strictly_increases(a, b);
    }
}

/// The fields of a bit pattern put together from a sign, an exponent and a fraction.
pub proof fn lemma_fields(sign: int, e: int, f: int)
    requires
        sign == 0 || sign == 0x8000_0000,
        0 <= e <= 255,
        0 <= f < 0x80_0000,
    ensures
        ({
            let x = Float { bits: (sign + e * 0x80_0000 + f) as u32 };
            &&& x.bits == sign + e * 0x80_0000 + f
            &&& x.negative() == (sign != 0)
            &&& x.exponent() == e
            &&& x.fraction() == f
            &&& x.magnitude() == e * 0x80_0000 + f
        }),
{
    let m = e * 0x80_0000 + f;
    assert(0 <= m < 0x8000_0000);
    assert(m / 0x80_0000 == e && m % 0x80_0000 == f) by {
        vstd::arithmetic::div_mod::lemma_fundamental_div_mod_converse(m, 0x80_0000, e, f);
    }
    if sign != 0 {
        assert((sign + m) % 0x8000_0000 == m) by {
            vstd::arithmetic::div_mod::lemma_fundamental_div_mod_converse(sign + m, 0x8000_0000, 1, m);
        }
        assert((sign + m) / 0x80_0000 == 256 + e && (sign + m) % 0x80_0000 == f) by {
            vstd::arithmetic::div_mod::lemma_fundamental_div_mod_converse(sign + m, 0x80_0000, 256 + e, f);
        }
    } else {
        assert(m % 0x8000_0000 == m) by {
            vstd::arithmetic::div_mod::lemma_fundamental_div_mod_converse(m, 0x8000_0000, 0, m);
        }
    }
}

/// Every integer of magnitude up to `2^24` has a float of exactly its value: rounding it to
/// a float and truncating the float gives the integer back.
pub proof fn lemma_small_integers_are_exact(x: int)
    requires
        -0x100_0000 <= x <= 0x100_0000,
    ensures
        Float::nearest(x).truncated() == x,
        !Float::nearest(x).is_nan(),
{
    lemma2_to64();
    if x == 0 {
        lemma_fields(0, 0, 0);
        assert(pow2(150) > 0) by {
            lemma_pow2_pos(150);
        }
        assert(0int / (pow2(150) as int) == 0) by {
            vstd::arithmetic::div_mod::lemma_basic_div(0, pow2(150) as int);
        }
    } else {
        let a: nat = if x < 0 { (-x) as nat } else { x as nat };
        let sign: int = if x < 0 { 0x8000_0000 } else { 0 };
        lemma_bit_length_bounds(a);
        let p: int = bit_length(a) - 1;
        if p >= 25 {
            lemma_pow2_strictly_increases_or_eq(25, p as nat);
        }
        assert(0 <= p <= 24);
        if p <= 23 {
            let scale = pow2((23 - p) as nat);
            lemma_pow2_pos((23 - p) as nat);
            lemma_pow2_adds(p as nat, (23 - p) as nat);
            lemma_pow2_adds((p + 1) as nat, (23 - p) as nat);
            let m: int = (a * scale) as int;
            assert(0x80_0000 <= m < 0x100_0000) by (nonlinear_arith)
                requires
                    m == a * scale,
                    pow2(p as nat) <= a < pow2((p + 1) as nat),
                    pow2(p as nat) * scale == 0x80_0000,
                    pow2((p + 1) as nat) * scale == 0x100_0000,
                    scale > 0,
            ;
            lemma_fields(sign, 127 + p, m - 0x80_0000);
            let r = Float::nearest(x);
            assert(r.exponent() == 127 + p);
            assert(r.significand() == m);
            assert(m / (scale as int) == a) by {
                vstd::arithmetic::div_mod::lemma_div_multiples_vanish(a as int, scale as int);
                assert(m == (scale as int) * (a as int)) by (nonlinear_arith)
                    requires
                        m == a * scale,
                ;
            }
            if p == 23 {
                assert(scale == 1);
                assert(m == a) by (nonlinear_arith)
                    requires
                        m == a * scale,
                        scale == 1,
                ;
                assert(r.whole_magnitude() == m * pow2(0));
                assert(m * pow2(0) == m) by (nonlinear_arith)
                    requires
                        pow2(0) == 1,
                ;
            } else {
                assert((150 - (127 + p)) as nat == (23 - p) as nat);
                assert(r.whole_magnitude() == m / (pow2((150 - (127 + p)) as nat) as int));
            }
            assert(r.whole_magnitude() == a);
        } else {
            assert(a == 0x100_0000);
            assert(pow2(1) == 2);
            lemma_fields(sign, 151, 0);
            let r = Float::nearest(x);
            assert(r.exponent() == 151);
            assert(r.whole_magnitude() == 0x80_0000 * pow2(1));
        }
    }
}

/// Of two bit patterns without sign, the smaller spells the smaller value.
pub proof fn lemma_magnitude_order(a: Float, b: Float)
    requires
        a.magnitude() < b.magnitude(),
    ensures
        a.significand() * pow2((if a.exponent() == 0 { 0 } else { a.exponent() - 1 }) as nat) < b.significand() * pow2(
            (if b.exponent() == 0 { 0 } else { b.exponent() - 1 }) as nat,
        ),
{
    lemma_parts(a);
    lemma_parts(b);
    let ea = a.exponent();
    let eb = b.exponent();
    let sa = a.significand();
    let sb = b.significand();
    let xa = (if ea == 0 { 0 } else { ea - 1 }) as nat;
    let xb = (if eb == 0 { 0 } else { eb - 1 }) as nat;
    lemma_pow2_pos(xa);
    lemma_pow2_pos(xb);
    if ea == eb {
        assert(sa < sb);
        assert(sa * pow2(xa) < sb * pow2(xb)) by (nonlinear_arith)
            requires
                sa < sb,
                pow2(xa) == pow2(xb),
                pow2(xa) > 0,
        ;
    } else {
        assert(ea < eb);
        if xa == xb {
            assert(ea == 0 && eb == 1);
            assert(sa < 0x80_0000 <= sb);
            assert(sa * pow2(xa) < sb * pow2(xb)) by (nonlinear_arith)
                requires
                    sa < sb,
                    pow2(xa) == pow2(xb),
                    pow2(xa) > 0,
            ;
        } else {
            assert(xa < xb);
            lemma_pow2_strictly_increases_or_eq(xa + 1, xb);
            lemma_pow2_adds(xa, 1);
            lemma2_to64();
            assert(sa * pow2(xa) < sb * pow2(xb)) by (nonlinear_arith)
                requires
                    0 <= sa < 0x100_0000,
                    sb >= 0x80_0000,
                    pow2(xb) >= 2 * pow2(xa),
                    pow2(xa) > 0,
            ;
        }
    }
}

/// The fields of a bit pattern: the magnitude is the exponent and the fraction together.
pub proof fn lemma_parts(a: Float)
    ensures
        0 <= a.exponent() <= 255,
        0 <= a.fraction() < 0x80_0000,
        a.magnitude() == a.exponent() * 0x80_0000 + a.fraction(),
        0 <= a.significand() < 0x100_0000,
        a.exponent() > 0 ==> a.significand() >= 0x80_0000,
{
    let bits = a.bits as int;
    let m = bits % 0x8000_0000;
    assert(bits == m || bits == m + 0x8000_0000);
    assert((bits / 0x80_0000) % 0x100 == m / 0x80_0000);
    assert(bits % 0x80_0000 == m % 0x80_0000);
}

/// For numbers that are not NaN, the order of the keys is the order of the values: the
/// comparison that the library makes on bit patterns is the comparison of the numbers they
/// stand for, and both zeros are equal.
pub proof fn lemma_order_is_value_order(a: Float, b: Float)
    requires
        !a.is_nan(),
        !b.is_nan(),
    ensures
        a.lt(b) == (a.scaled() < b.scaled()),
        a.le(b) == (a.scaled() <= b.scaled()),
        (a.key() == b.key()) == (a.scaled() == b.scaled()),
{
    lemma_parts(a);
    lemma_parts(b);
    let xa = (if a.exponent() == 0 { 0 } else { a.exponent() - 1 }) as nat;
    let xb = (if b.exponent() == 0 { 0 } else { b.exponent() - 1 }) as nat;
    let va = a.significand() * pow2(xa);
    let vb = b.significand() * pow2(xb);
    lemma_pow2_pos(xa);
    lemma_pow2_pos(xb);
    assert(va >= 0 && vb >= 0) by (nonlinear_arith)
        requires
            va == a.significand() * pow2(xa),
            vb == b.significand() * pow2(xb),
            a.significand() >= 0,
            b.significand() >= 0,
    ;
    if a.magnitude() < b.magnitude() {
        lemma_magnitude_order(a, b);
    } else if b.magnitude() < a.magnitude() {
        lemma_magnitude_order(b, a);
    } else {
        assert(a.exponent() == b.exponent() && a.fraction() == b.fraction());
        assert(va == vb);
    }
    assert((a.magnitude() < b.magnitude()) == (va < vb));
    assert((a.magnitude() == b.magnitude()) == (va == vb));
    assert(a.magnitude() == 0 ==> va == 0) by {
        if a.magnitude() == 0 {
            assert(a.significand() == 0);
            assert(a.significand() * pow2(xa) == 0) by (nonlinear_arith)
                requires
                    a.significand() == 0,
            ;
        }
    }
    assert(b.magnitude() == 0 ==> vb == 0) by {
        if b.magnitude() == 0 {
            assert(b.significand() == 0);
            assert(b.significand() * pow2(xb) == 0) by (nonlinear_arith)
                requires
                    b.significand() == 0,
            ;
        }
    }
    assert(a.magnitude() > 0 ==> va > 0) by {
        if a.magnitude() > 0 {
            assert(a.significand() > 0);
            assert(a.significand() * pow2(xa) > 0) by (nonlinear_arith)
                requires
                    a.significand() > 0,
                    pow2(xa) > 0,
            ;
        }
    }
    assert(b.magnitude() > 0 ==> vb > 0) by {
        if b.magnitude() > 0 {
            assert(b.significand() > 0);
            assert(b.significand() * pow2(xb) > 0) by (nonlinear_arith)
                requires
                    b.significand() > 0,
                    pow2(xb) > 0,
            ;
        }
    }
}

} // verus!
