//! Exact arithmetic on the values of floats: wrapping and folding a float into a range, with
//! one rounding at the end.
//!
//! Every finite float is a whole number of units of `2^-149`. In these units the bounds and
//! the value are integers, wrapping and folding are the integer operations, and the result is
//! rounded once to the nearest float, ties going to the even significand.

use crate::domain::{folded, wrapped};
use crate::float::{bit_length, lemma_bit_length_bounds, lemma_parts, lemma_pow2_strictly_increases_or_eq, Float};
use crate::wide::Wide;
use vstd::arithmetic::div_mod::{
    lemma_div_denominator, lemma_fundamental_div_mod, lemma_fundamental_div_mod_converse, lemma_mod_bound,
};
use vstd::arithmetic::power2::{lemma2_to64, lemma_pow2_adds, lemma_pow2_pos, pow2};
use vstd::prelude::*;

verus! {

/// `2^256`.
pub open spec fn p256() -> int {
    0x1_0000_0000_0000_0000_0000_0000_0000_0000_0000_0000_0000_0000_0000_0000_0000_0000int
}

/// `2^300`, a bound that every number in this module stays below.
pub open spec fn ample() -> int {
    0x1000_0000_0000_0000_0000_0000_0000_0000_0000_0000_0000_0000_0000_0000_0000_0000_0000_0000_0000int
}

/// `2^256` as a power of two.
pub proof fn lemma_p256()
    ensures
        pow2(256) == p256(),
{
    lemma2_to64();
    lemma_pow2_adds(64, 64);
    lemma_pow2_adds(128, 128);
    assert(pow2(128) == 0x1_0000_0000_0000_0000_0000_0000_0000_0000int) by (nonlinear_arith)
        requires
            pow2(128) == pow2(64) * pow2(64),
            pow2(64) == 0x1_0000_0000_0000_0000,
    ;
    assert(pow2(256) == p256()) by (nonlinear_arith)
        requires
            pow2(256) == pow2(128) * pow2(128),
            pow2(128) == 0x1_0000_0000_0000_0000_0000_0000_0000_0000int,
    ;
}

/// A number below `2^300` leaves room to be doubled.
pub proof fn lemma_ample_is_roomy(w: Wide)
    requires
        w.value() < ample(),
    ensures
        w.roomy(),
        2 * w.value() + 1 < crate::wide::capacity(),
{
}

impl Float {
    /// Neither NaN nor an infinity.
    pub open spec fn is_finite(self) -> bool {
        self.magnitude() < 0x7f80_0000
    }

    /// The power of two that scales the significand: the exponent less one, and zero for
    /// subnormal numbers.
    pub open spec fn shift(self) -> nat {
        (if self.exponent() == 0 {
            0
        } else {
            self.exponent() - 1
        }) as nat
    }

    /// The float nearest to `x` units of `2^-149`, ties going to the even significand; an
    /// infinity where `x` lies beyond every finite float.
    pub open spec fn nearest_scaled(x: int) -> Float {
        let a: nat = if x < 0 { (-x) as nat } else { x as nat };
        let sign: int = if x < 0 { 0x8000_0000 } else { 0 };
        if a < 0x100_0000 {
            Float { bits: (sign + a) as u32 }
        } else {
            let k: int = bit_length(a) - 24;
            let unit = pow2(k as nat) as int;
            let q = a as int / unit;
            let r = a as int % unit;
            let m = if 2 * r > unit || (2 * r == unit && q % 2 == 1) {
                q + 1
            } else {
                q
            };
            if k + 1 >= 255 || (k + 1 == 254 && m >= 0x100_0000) {
                Float { bits: (sign + 0x7f80_0000) as u32 }
            } else {
                Float { bits: (sign + (k + 1) * 0x80_0000 + (m - 0x80_0000)) as u32 }
            }
        }
    }
}

/// The magnitude of a finite float in units of `2^-149` stays below `2^300`.
pub proof fn lemma_scaled_bound(f: Float)
    requires
        f.is_finite(),
    ensures
        0 <= f.significand() * pow2(f.shift()) < 0x100_0000 * p256(),
        f.shift() <= 253,
        f.scaled() == if f.negative() {
            -(f.significand() * pow2(f.shift()))
        } else {
            f.significand() * pow2(f.shift())
        },
{
    lemma_parts(f);
    lemma_p256();
    lemma_pow2_strictly_increases_or_eq(f.shift(), 256);
    lemma_pow2_pos(f.shift());
    assert(f.significand() * pow2(f.shift()) < 0x100_0000 * p256()) by (nonlinear_arith)
        requires
            0 <= f.significand() < 0x100_0000,
            0 < pow2(f.shift()) <= p256(),
    ;
    assert(0 <= f.significand() * pow2(f.shift())) by (nonlinear_arith)
        requires
            0 <= f.significand(),
            0 < pow2(f.shift()),
    ;
}

/// The magnitude of a finite float, in units of `2^-149`.
fn magnitude_of(f: Float) -> (r: Wide)
    requires
        f.is_finite(),
    ensures
        r.value() == f.significand() * pow2(f.shift()),
        r.value() < ample(),
{
    let mag: u32 = f.bits % 0x8000_0000;
    let e: u32 = mag / 0x80_0000;
    let frac: u32 = mag % 0x80_0000;
    let sig: u32 = if e == 0 { frac } else { 0x80_0000 + frac };
    let shift: u32 = if e == 0 { 0 } else { e - 1 };
    proof {
        lemma_parts(f);
        lemma_scaled_bound(f);
        lemma2_to64();
        lemma_p256();
    }
    let mut m = Wide::small(sig as u64);
    let mut i: u32 = 0;
    assert(sig * pow2(0) == sig) by (nonlinear_arith)
        requires
            pow2(0) == 1,
    ;
    while i < shift
        invariant
            i <= shift <= 253,
            sig < 0x100_0000,
            m.value() == sig * pow2(i as nat),
            pow2(256) == p256(),
        decreases shift - i,
    {
        proof {
            lemma_pow2_strictly_increases_or_eq(i as nat, 256);
            lemma_pow2_pos(i as nat);
            assert(sig * pow2(i as nat) < 0x100_0000 * p256()) by (nonlinear_arith)
                requires
                    0 <= sig < 0x100_0000,
                    0 < pow2(i as nat) <= p256(),
            ;
            lemma_ample_is_roomy(m);
            lemma_pow2_adds(i as nat, 1);
            lemma2_to64();
            assert(2 * (sig * pow2(i as nat)) == sig * pow2((i + 1) as nat)) by (nonlinear_arith)
                requires
                    pow2((i + 1) as nat) == pow2(i as nat) * pow2(1),
                    pow2(1) == 2,
            ;
        }
        m = m.double();
        i += 1;
    }
    m
}

/// One step of long division: from the remainder of `x`, the remainder of `2x + b`.
pub proof fn lemma_remainder_step(x: int, b: int, w: int, r: int)
    requires
        0 < w,
        0 <= x,
        b == 0 || b == 1,
        r == x % w,
    ensures
        (2 * x + b) % w == if 2 * r + b >= w {
            2 * r + b - w
        } else {
            2 * r + b
        },
        2 * r + b < 2 * w,
{
    lemma_mod_bound(x, w);
    lemma_fundamental_div_mod(x, w);
    let q = x / w;
    let y = 2 * r + b;
    if y >= w {
        assert(2 * x + b == (2 * q + 1) * w + (y - w)) by (nonlinear_arith)
            requires
                x == w * q + r,
                y == 2 * r + b,
        ;
        lemma_fundamental_div_mod_converse(2 * x + b, w, 2 * q + 1, y - w);
    } else {
        assert(2 * x + b == (2 * q) * w + y) by (nonlinear_arith)
            requires
                x == w * q + r,
                y == 2 * r + b,
        ;
        lemma_fundamental_div_mod_converse(2 * x + b, w, 2 * q, y);
    }
}

/// From the remainder of `x`, the remainder of `2x + b`.
fn step(r: &Wide, bit: bool, w: &Wide, Ghost(x): Ghost<int>) -> (n: Wide)
    requires
        0 < w.value() < ample(),
        0 <= x,
        r.value() == x % w.value(),
    ensures
        n.value() == (2 * x + if bit { 1int } else { 0int }) % w.value(),
{
    proof {
        lemma_mod_bound(x, w.value());
        lemma_ample_is_roomy(*r);
        lemma_remainder_step(x, if bit { 1int } else { 0int }, w.value(), r.value());
    }
    let twice = r.double();
    let y = if bit {
        twice.plus(&Wide::small(1))
    } else {
        twice
    };
    if y.below(w) {
        y
    } else {
        y.minus(w)
    }
}

/// The remainder of `sig * 2^shift` by `w`.
fn remainder(sig: u32, shift: u32, w: &Wide) -> (r: Wide)
    requires
        sig < 0x100_0000,
        0 < w.value() < ample(),
    ensures
        r.value() == (sig * pow2(shift as nat)) % w.value(),
        0 <= r.value() < w.value(),
{
    let mut r = Wide::zero();
    let mut d: u32 = 0x100_0000;
    proof {
        lemma2_to64();
        vstd::arithmetic::div_mod::lemma_basic_div(sig as int, 0x100_0000);
        vstd::arithmetic::div_mod::lemma_small_mod(0, w.value() as nat);
    }
    while d > 1
        invariant
            1 <= d <= 0x100_0000,
            sig < 0x100_0000,
            0 < w.value() < ample(),
            r.value() == (sig as int / d as int) % w.value(),
            exists|j: nat| j <= 24 && d == #[trigger] pow2(j),
        decreases d,
    {
        let half: u32 = d / 2;
        let prefix: u32 = sig / half;
        let bit = prefix % 2 == 1;
        proof {
            let j = choose|j: nat| j <= 24 && d == #[trigger] pow2(j);
            lemma2_to64();
            assert(j >= 1);
            lemma_pow2_adds((j - 1) as nat, 1);
            assert(half == pow2((j - 1) as nat));
            assert(d == 2 * half);
            lemma_div_denominator(sig as int, half as int, 2);
            assert(sig as int / d as int == prefix as int / 2) by {
                assert(half as int * 2 == d as int);
            }
        }
        r = step(&r, bit, w, Ghost(sig as int / d as int));
        d = half;
    }
    let mut i: u32 = 0;
    proof {
        lemma2_to64();
        assert(d == 1);
        assert(sig as int / 1 == sig as int);
        assert(sig * pow2(0) == sig) by (nonlinear_arith)
            requires
                pow2(0) == 1,
        ;
    }
    while i < shift
        invariant
            i <= shift,
            0 < w.value() < ample(),
            r.value() == (sig * pow2(i as nat)) % w.value(),
        decreases shift - i,
    {
        proof {
            lemma_pow2_pos(i as nat);
            lemma_pow2_adds(i as nat, 1);
            lemma2_to64();
            assert(2 * (sig * pow2(i as nat)) == sig * pow2((i + 1) as nat)) by (nonlinear_arith)
                requires
                    pow2((i + 1) as nat) == pow2(i as nat) * pow2(1),
                    pow2(1) == 2,
            ;
            assert(0 <= sig * pow2(i as nat)) by (nonlinear_arith)
                requires
                    0 <= sig,
                    0 < pow2(i as nat),
            ;
        }
        r = step(&r, false, w, Ghost(sig * pow2(i as nat)));
        i += 1;
    }
    proof {
        lemma_mod_bound(sig * pow2(shift as nat), w.value());
    }
    r
}

/// `2^300` as a power of two.
pub proof fn lemma_ample()
    ensures
        pow2(300) == ample(),
{
    lemma_p256();
    lemma2_to64();
    lemma_pow2_adds(256, 44);
    assert(pow2(44) == 0x1000_0000_0000) by {
        lemma_pow2_adds(32, 12);
    }
    assert(pow2(300) == ample()) by (nonlinear_arith)
        requires
            pow2(300) == pow2(256) * pow2(44),
            pow2(256) == p256(),
            pow2(44) == 0x1000_0000_0000,
    ;
}

/// A positive number between two neighbouring powers of two has the bit length that the
/// greater of them names.
pub proof fn lemma_bit_length_is(a: nat, n: nat)
    requires
        n >= 1,
        pow2((n - 1) as nat) <= a < pow2(n),
    ensures
        bit_length(a) == n,
{
    lemma_pow2_pos((n - 1) as nat);
    lemma_bit_length_bounds(a);
    let b = bit_length(a);
    if b > n {
        lemma_pow2_strictly_increases_or_eq(n, (b - 1) as nat);
    }
    if b < n {
        lemma_pow2_strictly_increases_or_eq(b, (n - 1) as nat);
    }
}

/// The remainder of the negative of a number.
pub proof fn lemma_remainder_of_negative(x: int, w: int)
    requires
        0 <= x,
        0 < w,
    ensures
        (-x) % w == if x % w == 0 {
            0
        } else {
            w - x % w
        },
{
    lemma_fundamental_div_mod(x, w);
    lemma_mod_bound(x, w);
    let q = x / w;
    let a = x % w;
    if a == 0 {
        assert(-x == (-q) * w + 0) by (nonlinear_arith)
            requires
                x == w * q + a,
                a == 0,
        ;
        lemma_fundamental_div_mod_converse(-x, w, -q, 0);
    } else {
        assert(-x == (-q - 1) * w + (w - a)) by (nonlinear_arith)
            requires
                x == w * q + a,
        ;
        lemma_fundamental_div_mod_converse(-x, w, -q - 1, w - a);
    }
}

/// The remainder of a difference, from the remainders of its terms.
pub proof fn lemma_remainder_of_difference(x: int, y: int, w: int)
    requires
        0 < w,
    ensures
        (x - y) % w == if x % w >= y % w {
            x % w - y % w
        } else {
            x % w - y % w + w
        },
{
    lemma_mod_bound(x, w);
    lemma_mod_bound(y, w);
    vstd::arithmetic::div_mod::lemma_sub_mod_noop(x, y, w);
    let d = x % w - y % w;
    if d >= 0 {
        lemma_fundamental_div_mod_converse(d, w, 0, d);
    } else {
        lemma_fundamental_div_mod_converse(d, w, -1, d + w);
    }
}

/// The significand and the scaling power of a finite float.
fn parts_of(f: Float) -> (r: (u32, u32))
    requires
        f.is_finite(),
    ensures
        r.0 == f.significand(),
        r.1 == f.shift(),
        r.0 < 0x100_0000,
        r.1 <= 253,
{
    let mag: u32 = f.bits % 0x8000_0000;
    let e: u32 = mag / 0x80_0000;
    let frac: u32 = mag % 0x80_0000;
    proof {
        lemma_parts(f);
    }
    (if e == 0 { frac } else { 0x80_0000 + frac }, if e == 0 { 0 } else { e - 1 })
}

/// The float nearest to the number of the given sign and magnitude, in units of `2^-149`.
fn round(neg: bool, mag: &Wide) -> (r: Float)
    requires
        mag.value() < ample(),
    ensures
        r == Float::nearest_scaled(
            if neg {
                -mag.value()
            } else {
                mag.value()
            },
        ),
{
    let ghost a = mag.value();
    let sign: u32 = if neg && !mag.is_zero() { 0x8000_0000 } else { 0 };
    let mut m = *mag;
    let mut k: u32 = 0;
    let mut guard = false;
    let mut sticky = false;
    let ghost mut rem: int = 0;
    proof {
        lemma2_to64();
        lemma_ample();
        assert(m.value() * pow2(0) == m.value()) by (nonlinear_arith)
            requires
                pow2(0) == 1,
        ;
    }
    while !m.fits24()
        invariant
            a == mag.value(),
            a < ample(),
            pow2(300) == ample(),
            a == m.value() * pow2(k as nat) + rem,
            0 <= rem < pow2(k as nat),
            k <= 300,
            k == 0 ==> rem == 0 && !guard && !sticky,
            k > 0 ==> m.value() >= 0x80_0000,
            k > 0 ==> ({
                let g = if guard { pow2((k - 1) as nat) as int } else { 0int };
                0 <= rem - g < pow2((k - 1) as nat) && sticky == (rem - g > 0)
            }),
        decreases m.value(),
    {
        let ghost before = m.value();
        let ghost old_rem = rem;
        let halves = m.halve();
        proof {
            let bit = if halves.1 { 1int } else { 0int };
            lemma_pow2_adds(k as nat, 1);
            lemma_pow2_pos(k as nat);
            lemma2_to64();
            rem = old_rem + bit * pow2(k as nat);
            assert(before * pow2(k as nat) + old_rem == halves.0.value() * pow2((k + 1) as nat) + rem)
                by (nonlinear_arith)
                requires
                    before == 2 * halves.0.value() + bit,
                    pow2((k + 1) as nat) == pow2(k as nat) * pow2(1),
                    pow2(1) == 2,
                    rem == old_rem + bit * pow2(k as nat),
            ;
            assert(0 <= rem < pow2((k + 1) as nat)) by (nonlinear_arith)
                requires
                    rem == old_rem + bit * pow2(k as nat),
                    0 <= old_rem < pow2(k as nat),
                    bit == 0 || bit == 1,
                    pow2((k + 1) as nat) == pow2(k as nat) * pow2(1),
                    pow2(1) == 2,
            ;
            assert(bit * pow2(k as nat) == if halves.1 { pow2(k as nat) as int } else { 0int }) by (nonlinear_arith)
                requires
                    bit == if halves.1 { 1int } else { 0int },
            ;
            if k > 0 {
                lemma_pow2_pos((k - 1) as nat);
            }
            if k >= 300 {
                lemma_pow2_strictly_increases_or_eq(300, k as nat);
                assert(before * pow2(k as nat) >= pow2(k as nat)) by (nonlinear_arith)
                    requires
                        before >= 1,
                        pow2(k as nat) > 0,
                ;
            }
        }
        sticky = sticky || guard;
        guard = halves.1;
        m = halves.0;
        k = k + 1;
    }
    let q: u32 = m.low();
    if k == 0 {
        proof {
            lemma2_to64();
            assert(m.value() * pow2(0) == m.value()) by (nonlinear_arith)
                requires
                    pow2(0) == 1,
            ;
        }
        return Float::from_bits(sign + q);
    }
    let up = guard && (sticky || q % 2 == 1);
    let m2: u32 = if up { q + 1 } else { q };
    proof {
        let unit = pow2(k as nat) as int;
        lemma_pow2_pos(k as nat);
        lemma_pow2_pos((k - 1) as nat);
        lemma_pow2_adds((k - 1) as nat, 1);
        lemma2_to64();
        lemma_pow2_adds(23, k as nat);
        lemma_pow2_adds(24, k as nat);
        assert(pow2((k + 23) as nat) <= a < pow2((k + 24) as nat)) by (nonlinear_arith)
            requires
                a == q * unit + rem,
                0 <= rem < unit,
                0x80_0000 <= q < 0x100_0000,
                pow2((23 + k) as nat) == 0x80_0000 * unit,
                pow2((24 + k) as nat) == 0x100_0000 * unit,
        ;
        lemma_bit_length_is(a as nat, (k + 24) as nat);
        lemma_fundamental_div_mod_converse(a, unit, q as int, rem);
        assert(unit == 2 * pow2((k - 1) as nat));
    }
    if k + 1 >= 255 || (k + 1 == 254 && m2 >= 0x100_0000) {
        return Float::from_bits(sign + 0x7f80_0000);
    }
    Float::from_bits(sign + (k + 1) * 0x80_0000 + (m2 - 0x80_0000))
}

/// The width of a range of finite floats, in units of `2^-149`.
fn width_of(lo: Float, hi: Float) -> (w: Wide)
    requires
        lo.is_finite(),
        hi.is_finite(),
        lo.scaled() < hi.scaled(),
    ensures
        w.value() == hi.scaled() - lo.scaled(),
        w.value() < 2 * 0x100_0000 * p256(),
{
    proof {
        lemma_scaled_bound(lo);
        lemma_scaled_bound(hi);
    }
    let ml = magnitude_of(lo);
    let mh = magnitude_of(hi);
    let nl = lo.bits >= 0x8000_0000;
    let nh = hi.bits >= 0x8000_0000;
    if nh == nl {
        if nh {
            ml.minus(&mh)
        } else {
            mh.minus(&ml)
        }
    } else {
        mh.plus(&ml)
    }
}

/// The remainder of the value of a finite float by `p`.
fn remainder_of(f: Float, p: &Wide) -> (r: Wide)
    requires
        f.is_finite(),
        0 < p.value() < ample(),
    ensures
        r.value() == f.scaled() % p.value(),
        0 <= r.value() < p.value(),
{
    proof {
        lemma_scaled_bound(f);
        lemma_remainder_of_negative(f.significand() * pow2(f.shift()), p.value());
        lemma_mod_bound(f.scaled(), p.value());
    }
    let (sig, shift) = parts_of(f);
    let a = remainder(sig, shift, p);
    if f.bits >= 0x8000_0000 && !a.is_zero() {
        p.minus(&a)
    } else {
        a
    }
}

/// The float nearest to the value of a finite float and an offset above it.
fn raised(lo: Float, o: &Wide) -> (r: Float)
    requires
        lo.is_finite(),
        o.value() < 8 * 0x100_0000 * p256(),
    ensures
        r == Float::nearest_scaled(lo.scaled() + o.value()),
{
    proof {
        lemma_scaled_bound(lo);
    }
    let ml = magnitude_of(lo);
    if lo.bits < 0x8000_0000 {
        round(false, &ml.plus(o))
    } else if o.below(&ml) {
        round(true, &ml.minus(o))
    } else {
        round(false, &o.minus(&ml))
    }
}

/// A finite float wrapped or folded into a range of finite floats that it lies outside of,
/// rounded to the nearest float.
pub fn wrap_or_fold(v: Float, lo: Float, hi: Float, fold: bool) -> (r: Float)
    requires
        v.is_finite(),
        lo.is_finite(),
        hi.is_finite(),
        lo.scaled() < hi.scaled(),
        !(lo.scaled() <= v.scaled() <= hi.scaled()),
    ensures
        r == Float::nearest_scaled(
            if fold {
                folded(v.scaled(), lo.scaled(), hi.scaled())
            } else {
                wrapped(v.scaled(), lo.scaled(), hi.scaled())
            },
        ),
{
    let w = width_of(lo, hi);
    proof {
        lemma_ample_is_roomy(w);
    }
    let p = if fold { w.double() } else { w };
    let vm = remainder_of(v, &p);
    let lm = remainder_of(lo, &p);
    proof {
        lemma_remainder_of_difference(v.scaled(), lo.scaled(), p.value());
    }
    let d = if vm.below(&lm) {
        vm.plus(&p).minus(&lm)
    } else {
        vm.minus(&lm)
    };
    assert(d.value() == (v.scaled() - lo.scaled()) % p.value());
    let o = if fold && w.below(&d) { p.minus(&d) } else { d };
    raised(lo, &o)
}

/// The float nearest to a number is a number: never a NaN.
pub proof fn lemma_nearest_is_a_number(x: int)
    ensures
        !Float::nearest_scaled(x).is_nan(),
{
    let a: nat = if x < 0 { (-x) as nat } else { x as nat };
    let sign: int = if x < 0 { 0x8000_0000 } else { 0 };
    if a < 0x100_0000 {
        let e = a as int / 0x80_0000;
        let f = a as int % 0x80_0000;
        crate::float::lemma_fields(sign, e, f);
    } else {
        let k: int = bit_length(a) - 24;
        lemma_bit_length_bounds(a);
        lemma2_to64();
        if k < 0 {
            lemma_pow2_strictly_increases_or_eq(bit_length(a), 24);
        }
        assert(k >= 0);
        let unit = pow2(k as nat) as int;
        lemma_pow2_pos(k as nat);
        lemma_pow2_adds(23, k as nat);
        lemma_pow2_adds(24, k as nat);
        let q = a as int / unit;
        let r = a as int % unit;
        lemma_fundamental_div_mod(a as int, unit);
        lemma_mod_bound(a as int, unit);
        assert(0x80_0000 <= q < 0x100_0000) by (nonlinear_arith)
            requires
                a == unit * q + r,
                0 <= r < unit,
                0x80_0000 * unit <= a < 0x100_0000 * unit,
        ;
        let m = if 2 * r > unit || (2 * r == unit && q % 2 == 1) {
            q + 1
        } else {
            q
        };
        if k + 1 >= 255 || (k + 1 == 254 && m >= 0x100_0000) {
            crate::float::lemma_fields(sign, 255, 0);
        } else if m == 0x100_0000 {
            crate::float::lemma_fields(sign, k + 2, 0);
        } else {
            crate::float::lemma_fields(sign, k + 1, m - 0x80_0000);
        }
    }
}

/// The value of a finite float rounds to that float: rounding changes nothing that is a
/// float already. Negative zero has the value of zero and rounds to it.
pub proof fn lemma_value_rounds_to_itself(f: Float)
    requires
        f.is_finite(),
    ensures
        Float::nearest_scaled(f.scaled()) == if f.is_zero() {
            Float { bits: 0 }
        } else {
            f
        },
{
    lemma_parts(f);
    lemma_scaled_bound(f);
    lemma2_to64();
    let e = f.exponent();
    let sig = f.significand();
    let k = f.shift();
    let a = sig * pow2(k);
    let bits = f.bits as int;
    assert(bits == f.magnitude() + if f.negative() { 0x8000_0000int } else { 0int });
    if e <= 1 {
        assert(a == sig) by (nonlinear_arith)
            requires
                a == sig * pow2(k),
                pow2(k) == 1,
        ;
        assert(sig == f.magnitude());
    } else {
        lemma_pow2_pos(k);
        lemma_pow2_adds(23, k);
        lemma_pow2_adds(24, k);
        let unit = pow2(k) as int;
        assert(pow2((23 + k) as nat) <= a < pow2((24 + k) as nat)) by (nonlinear_arith)
            requires
                a == sig * unit,
                0x80_0000 <= sig < 0x100_0000,
                pow2((23 + k) as nat) == 0x80_0000 * unit,
                pow2((24 + k) as nat) == 0x100_0000 * unit,
                unit > 0,
        ;
        lemma_pow2_strictly_increases_or_eq(24, (23 + k) as nat);
        lemma_bit_length_is(a as nat, (24 + k) as nat);
        assert(a == sig * unit + 0);
        lemma_fundamental_div_mod_converse(a, unit, sig, 0);
        assert(a >= 0x100_0000);
    }
}

} // verus!
