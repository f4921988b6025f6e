//! Q5.27 signed fixed-point scalar: a 32-bit integer `v` standing for the
//! real number `v / 2^27`.
//!
//! Every operation is specified bit-exactly over the raw representation, with
//! two's-complement wraparound where the 32-bit result would not fit, so that
//! encoder and decoder trace identical bits on identical inputs.

use vstd::prelude::*;

verus! {

use vstd::wrapping::i32_specs;
use vstd::arithmetic::power2::pow2;

/// Raw scale factor of the Q5.27 format: `2^27`.
pub const MULT: i32 = 134217728;

/// Raw value of e in Q5.27, `6267931151224907085 >> 34`.
pub const E_RAW: i32 = 364841611;

/// Raw value of pi in Q5.27, `7244019458077122842 >> 34`.
pub const PI_RAW: i32 = 421657428;

/// Raw value of pi/2 in Q5.27, `7244019458077122842 >> 35`.
pub const HALF_PI_RAW: i32 = 210828714;

/// Raw value of 2*pi in Q5.27, `7244019458077122842 >> 33`.
pub const TWO_PI_RAW: i32 = 843314856;

/// Wrap an unbounded integer into the `i32` range, two's-complement style.
pub open spec fn crop32(x: int) -> i32 {
    i32_specs::signed_crop(x)
}

/// Division truncating toward zero, as Rust's `/` computes it on signed
/// integers (for `b != 0`).
pub open spec fn tdiv(a: int, b: int) -> int {
    let qa = if a < 0 { -a } else { a };
    let qb = if b < 0 { -b } else { b };
    let q = qa / qb;
    if (a < 0) != (b < 0) {
        -q
    } else {
        q
    }
}

/// Remainder with the sign of the dividend, as Rust's `%` computes it on
/// signed integers (for `b != 0`).
pub open spec fn tmod(a: int, b: int) -> int {
    a - b * tdiv(a, b)
}

/// Halving with round-to-nearest, ties away from zero: `v/2 + v%2` in
/// truncating arithmetic.
pub open spec fn rnd_half(v: int) -> int {
    tdiv(v, 2) + tmod(v, 2)
}

/// Truncating division on `i64`, written with sign splits so that each
/// machine division runs on nonnegative operands.
fn tdiv_i64(a: i64, b: i64) -> (q: i64)
    requires
        b != 0,
        a != i64::MIN,
        b != i64::MIN,
    ensures
        q == tdiv(a as int, b as int),
        a >= 0 ==> -a <= q <= a,
        a < 0 ==> a <= q <= -a,
{
    proof {
        lemma_tdiv_tmod_bounds(a as int, b as int);
    }
    if a >= 0 {
        if b > 0 {
            a / b
        } else {
            -(a / (-b))
        }
    } else {
        let m = -a;
        if b > 0 {
            -(m / b)
        } else {
            m / (-b)
        }
    }
}

/// `v/2 + v%2` on `i64`, matching `rnd_half`.
fn rnd_half_i64(v: i64) -> (r: i64)
    requires
        v != i64::MIN,
    ensures
        r == rnd_half(v as int),
{
    if v >= 0 {
        v / 2 + v % 2
    } else {
        let m = -v;
        -(m / 2 + m % 2)
    }
}

/// Wrap an `i64` into the `i32` range, as the cast `as i32` does.
pub(crate) fn crop_i64_to_i32(x: i64) -> (y: i32)
    requires
        x != i64::MIN,
    ensures
        y == crop32(x as int),
{
    let m: i64 = if x >= 0 {
        x % 4294967296
    } else {
        let m0 = (-x) % 4294967296;
        if m0 == 0 {
            0
        } else {
            4294967296 - m0
        }
    };
    assert(m == (x as int) % 4294967296int) by {
        let c = 4294967296int;
        if x >= 0 {
        } else {
            let m0 = (-(x as int)) % c;
            let d = (-(x as int)) / c;
            vstd::arithmetic::div_mod::lemma_fundamental_div_mod(-(x as int), c);
            vstd::arithmetic::div_mod::lemma_mod_bound(-(x as int), c);
            if m0 == 0 {
                assert(x as int == (-d) * c + 0) by (nonlinear_arith)
                    requires
                        -(x as int) == c * d + m0,
                        m0 == 0,
                ;
                vstd::arithmetic::div_mod::lemma_fundamental_div_mod_converse_mod(x as int, c, -d, 0);
            } else {
                assert(x as int == (-d - 1) * c + (c - m0)) by (nonlinear_arith)
                    requires
                        -(x as int) == c * d + m0,
                ;
                vstd::arithmetic::div_mod::lemma_fundamental_div_mod_converse_mod(
                    x as int,
                    c,
                    -d - 1,
                    c - m0,
                );
            }
        }
    };
    if m >= 2147483648 {
        (m - 4294967296) as i32
    } else {
        m as i32
    }
}

/// The Q5.27 fixed-point scalar.
#[derive(Copy, Clone, Debug, PartialEq, Eq, Structural)]
pub struct Fix32 {
    pub v: i32,
}

/// What `add` returns: raw integer addition, wrapped to 32 bits.
pub open spec fn spec_add(a: Fix32, b: Fix32) -> Fix32 {
    Fix32 { v: crop32(a.v + b.v) }
}

/// What `sub` returns: raw integer subtraction, wrapped to 32 bits.
pub open spec fn spec_sub(a: Fix32, b: Fix32) -> Fix32 {
    Fix32 { v: crop32(a.v - b.v) }
}

/// What `neg` returns: raw integer negation, wrapped to 32 bits.
pub open spec fn spec_neg(a: Fix32) -> Fix32 {
    Fix32 { v: crop32(-a.v) }
}

/// What `mul` returns: `(a*b) / 2^26` truncating, then halved with
/// round-to-nearest ties-away-from-zero, then wrapped to 32 bits.
pub open spec fn spec_mul(a: Fix32, b: Fix32) -> Fix32 {
    Fix32 { v: crop32(rnd_half(tdiv(a.v * b.v, 67108864))) }
}

/// What `div` returns: `(a * 2^28) / b` truncating, then halved with
/// round-to-nearest ties-away-from-zero, then wrapped to 32 bits.
pub open spec fn spec_div(a: Fix32, b: Fix32) -> Fix32 {
    Fix32 { v: crop32(rnd_half(tdiv(a.v * 268435456, b.v as int))) }
}

/// What `fmod` returns: the raw remainder `a.v % m.v`, sign following the
/// dividend.
pub open spec fn spec_fmod(a: Fix32, m: Fix32) -> Fix32 {
    Fix32 { v: crop32(tmod(a.v as int, m.v as int)) }
}

/// What `from_i32` returns: `x * 2^27`, wrapped to 32 bits.
pub open spec fn spec_from_i32(x: i32) -> Fix32 {
    Fix32 { v: crop32(x * 134217728) }
}

impl Fix32 {
    /// Wrap a raw Q5.27 integer.
    pub fn from_raw(x: i32) -> (r: Fix32)
        ensures
            r == (Fix32 { v: x }),
    {
        Fix32 { v: x }
    }

    /// The fixed-point value of a small integer.
    pub fn from_i32(x: i32) -> (r: Fix32)
        ensures
            r == spec_from_i32(x),
    {
        let v = x.wrapping_mul(MULT);
        assert(i32_specs::wrapping_mul(x, MULT) == crop32(x * 134217728));
        Fix32 { v }
    }

    /// The raw Q5.27 integer.
    pub fn to_raw(&self) -> (x: i32)
        ensures
            x == self.v,
    {
        self.v
    }

    /// Fixed-point addition.
    pub fn add(self, rhs: Fix32) -> (r: Fix32)
        ensures
            r == spec_add(self, rhs),
    {
        let v = self.v.wrapping_add(rhs.v);
        assert(i32_specs::wrapping_add(self.v, rhs.v) == crop32(self.v + rhs.v));
        Fix32 { v }
    }

    /// Fixed-point subtraction.
    pub fn sub(self, rhs: Fix32) -> (r: Fix32)
        ensures
            r == spec_sub(self, rhs),
    {
        let v = self.v.wrapping_sub(rhs.v);
        assert(i32_specs::wrapping_sub(self.v, rhs.v) == crop32(self.v - rhs.v));
        Fix32 { v }
    }

    /// Fixed-point negation.
    pub fn neg(self) -> (r: Fix32)
        ensures
            r == spec_neg(self),
    {
        let v = 0i32.wrapping_sub(self.v);
        assert(i32_specs::wrapping_sub(0i32, self.v) == crop32(-self.v));
        Fix32 { v }
    }

    /// Fixed-point multiplication with round-to-nearest, ties away from zero.
    pub fn mul(self, rhs: Fix32) -> (r: Fix32)
        ensures
            r == spec_mul(self, rhs),
    {
        assert(-0x4000000000000000 <= (self.v as int) * (rhs.v as int) <= 0x4000000000000000)
            by (nonlinear_arith)
            requires
                -0x80000000 <= self.v <= 0x7fffffff,
                -0x80000000 <= rhs.v <= 0x7fffffff,
        ;
        let p: i64 = (self.v as i64) * (rhs.v as i64);
        let val = tdiv_i64(p, 67108864);
        let r = rnd_half_i64(val);
        Fix32 { v: crop_i64_to_i32(r) }
    }

    /// Fixed-point division with round-to-nearest, ties away from zero.
    pub fn div(self, rhs: Fix32) -> (r: Fix32)
        requires
            rhs.v != 0,
        ensures
            r == spec_div(self, rhs),
    {
        let p: i64 = (self.v as i64) * 268435456;
        let val = tdiv_i64(p, rhs.v as i64);
        let r = rnd_half_i64(val);
        Fix32 { v: crop_i64_to_i32(r) }
    }

    /// Raw remainder; the sign follows the dividend.
    pub fn fmod(&self, m: Fix32) -> (r: Fix32)
        requires
            m.v != 0,
            !(self.v == i32::MIN && m.v == -1),
        ensures
            r == spec_fmod(*self, m),
    {
        let a: i64 = self.v as i64;
        let b: i64 = m.v as i64;
        let q = tdiv_i64(a, b);
        proof {
            lemma_tdiv_tmod_bounds(a as int, b as int);
        }
        let r: i64 = a - b * q;
        assert(r == tmod(self.v as int, m.v as int));
        assert(crop32(r as int) == r as i32);
        Fix32 { v: r as i32 }
    }

    /// The larger of two fixed-point values.
    pub fn max(self, rhs: Fix32) -> (r: Fix32)
        ensures
            r == (if self.v >= rhs.v { self } else { rhs }),
    {
        if self.v >= rhs.v {
            self
        } else {
            rhs
        }
    }
}

/// Truncating quotient and remainder stay within the expected ranges:
/// the remainder's magnitude is below `|b|` and its sign follows `a`, and
/// both `b * tdiv(a, b)` and `tdiv(a, b)` lie between `0` and `a`.
pub proof fn lemma_tdiv_tmod_bounds(a: int, b: int)
    requires
        b != 0,
    ensures
        tmod(a, b) == a - b * tdiv(a, b),
        a >= 0 ==> 0 <= tmod(a, b) < (if b < 0 { -b } else { b }),
        a < 0 ==> -(if b < 0 { -b } else { b }) < tmod(a, b) <= 0,
        a >= 0 ==> 0 <= b * tdiv(a, b) <= a,
        a < 0 ==> a <= b * tdiv(a, b) <= 0,
        -(if a < 0 { -a } else { a }) <= tdiv(a, b) <= (if a < 0 { -a } else { a }),
{
    let qa = if a < 0 { -a } else { a };
    let qb = if b < 0 { -b } else { b };
    let q = qa / qb;
    vstd::arithmetic::div_mod::lemma_fundamental_div_mod(qa, qb);
    vstd::arithmetic::div_mod::lemma_mod_bound(qa, qb);
    vstd::arithmetic::div_mod::lemma_div_pos_is_pos(qa, qb);
    assert(qb * q == qa - (qa % qb));
    assert(0 <= qb * q <= qa);
    assert(q <= qb * q) by (nonlinear_arith)
        requires
            q >= 0,
            qb >= 1,
    ;
    vstd::arithmetic::mul::lemma_mul_unary_negation(b, q);
    if b < 0 {
        assert((-b) * q == qb * q);
        assert(b * q == -(qb * q));
    } else {
        assert(b * q == qb * q);
    }
    if (a < 0) != (b < 0) {
        assert(tdiv(a, b) == -q);
        assert(b * (-q) == -(b * q));
    } else {
        assert(tdiv(a, b) == q);
    }
}

/// Position of the highest set bit of `x` (zero for `x < 2`): the number of
/// halvings until the value reaches zero, minus one.
pub open spec fn hbit(x: int) -> nat
    decreases x,
{
    if x < 2 {
        0
    } else {
        1 + hbit(x / 2)
    }
}

/// One digit-by-digit square-root pass: starting from remainder `num`,
/// partial result `res` and probe `bit`, fold the probe down two bits at a
/// time and return the final remainder and result.
pub open spec fn spec_sqrt_loop(num: int, res: int, bit: int) -> (int, int)
    decreases bit,
{
    if bit <= 0 {
        (num, res)
    } else {
        let val = res + bit;
        if num >= val {
            spec_sqrt_loop(num - val, res / 2 + bit, bit / 4)
        } else {
            spec_sqrt_loop(num, res / 2, bit / 4)
        }
    }
}

/// What `sqrt` returns for a nonnegative argument: the digit-by-digit
/// integer square root of `v * 2^27`, with a final round-up when the
/// remainder exceeds the result.
#[verifier::opaque]
pub open spec fn spec_sqrt(a: Fix32) -> Fix32 {
    if a.v == 0 {
        a
    } else {
        let num0 = a.v * 134217728;
        let bit0 = pow2((hbit(a.v as int) + 27) / 2 * 2) as int;
        let pair = spec_sqrt_loop(num0, 0, bit0);
        Fix32 { v: crop32(if pair.0 > pair.1 { pair.1 + 1 } else { pair.1 }) }
    }
}

/// `hbit` is the floor base-2 logarithm: `2^hbit(x) <= x < 2^(hbit(x)+1)`
/// for positive `x`.
pub proof fn lemma_hbit_log(x: int)
    requires
        x >= 1,
    ensures
        pow2(hbit(x)) <= x < pow2(hbit(x) + 1),
    decreases x,
{
    vstd::arithmetic::power2::lemma_pow2_unfold(hbit(x) + 1);
    if x < 2 {
        vstd::arithmetic::power2::lemma2_to64();
    } else {
        lemma_hbit_log(x / 2);
        vstd::arithmetic::power2::lemma_pow2_unfold(hbit(x));
    }
}

/// 2 to the `sh`-th power, as an `i64`, for exponents that fit.
pub(crate) fn pow2_i64(sh: u32) -> (r: i64)
    requires
        sh <= 62,
    ensures
        r == pow2(sh as nat),
        r >= 1,
{
    proof {
        vstd::arithmetic::power2::lemma_pow2_strictly_increases(sh as nat, 63);
        vstd::arithmetic::power2::lemma2_to64();
        vstd::arithmetic::power2::lemma2_to64_rest();
        vstd::arithmetic::power2::lemma_pow2_pos(sh as nat);
        vstd::bits::lemma_u64_shl_is_mul(1u64, sh as u64);
    }
    let p: u64 = 1u64 << sh;
    p as i64
}

/// Position of the highest set bit, by repeated halving.
fn find_highest_bit(x: i32) -> (r: u32)
    requires
        x >= 1,
    ensures
        r == hbit(x as int),
        r <= 30,
{
    proof {
        lemma_hbit_bound(x as int);
    }
    let mut y: i32 = x;
    let mut r: u32 = 0;
    while y >= 2
        invariant
            1 <= y <= x,
            hbit(x as int) == r + hbit(y as int),
            hbit(x as int) <= 30,
        decreases y,
    {
        y = y / 2;
        r = r + 1;
    }
    r
}

/// For a positive `i32` value the highest set bit is at position 30 or
/// below.
proof fn lemma_hbit_bound(x: int)
    requires
        1 <= x < 0x80000000,
    ensures
        hbit(x) <= 30,
{
    lemma_hbit_log(x);
    if hbit(x) > 30 {
        vstd::arithmetic::power2::lemma_pow2_strictly_increases(30, hbit(x));
        if hbit(x) > 31 {
            vstd::arithmetic::power2::lemma_pow2_strictly_increases(31, hbit(x));
        }
        vstd::arithmetic::power2::lemma2_to64();
    }
}

impl Fix32 {
    /// Digit-by-digit integer square root in Q5.27.
    pub fn sqrt(&self) -> (r: Fix32)
        requires
            self.v >= 0,
        ensures
            r == spec_sqrt(*self),
    {
        proof {
            reveal(spec_sqrt);
        }
        if self.v == 0 {
            return *self;
        }
        let mut num: i64 = (self.v as i64) * 134217728;
        let mut res: i64 = 0;
        let hb: u32 = find_highest_bit(self.v);
        let sh: u32 = (hb + 27) / 2 * 2;
        let mut bit: i64 = pow2_i64(sh);
        proof {
            vstd::arithmetic::power2::lemma_pow2_strictly_increases(sh as nat, 57);
            vstd::arithmetic::power2::lemma2_to64();
            vstd::arithmetic::power2::lemma2_to64_rest();
        }
        let ghost num0: int = num as int;
        let ghost bit0: int = bit as int;
        while bit != 0
            invariant
                0 <= num <= 0x400000000000000,
                0 <= res <= 0x200000000000000,
                0 <= bit <= 0x100000000000000,
                spec_sqrt_loop(num as int, res as int, bit as int) == spec_sqrt_loop(
                    num0,
                    0,
                    bit0,
                ),
            decreases bit,
        {
            let val: i64 = res + bit;
            res = res / 2;
            if num >= val {
                num = num - val;
                res = res + bit;
            }
            bit = bit / 4;
        }
        if num > res {
            res = res + 1;
        }
        Fix32 { v: crop_i64_to_i32(res) }
    }
}

/// Raw value of the cubic atan kernel coefficient `716203666280654660 >> 36`.
pub const ATAN_FA_RAW: i32 = 10422135;

/// Raw value of the cubic atan kernel coefficient `-2651115102768076601 >> 36`.
pub const ATAN_FB_RAW: i32 = -38578803;

/// Raw value of the cubic atan kernel coefficient `9178930894564541004 >> 36`.
pub const ATAN_FC_RAW: i32 = 133571024;

/// What the polynomial atan kernel returns: `((fa*x^2 + fb)*x^2 + fc)*x`
/// in Q5.27, intended for arguments in `[0, 1]`.
pub open spec fn spec_atan_s(x: Fix32) -> Fix32 {
    let fa = Fix32 { v: ATAN_FA_RAW };
    let fb = Fix32 { v: ATAN_FB_RAW };
    let fc = Fix32 { v: ATAN_FC_RAW };
    let xx = spec_mul(x, x);
    spec_mul(spec_add(spec_mul(spec_add(spec_mul(fa, xx), fb), xx), fc), x)
}

/// First-octant fold: for nonnegative `y` and positive `x`, the `y > x`
/// case goes through `pi/2 - atan(x/y)`.
pub open spec fn spec_atan_fold(y: Fix32, x: Fix32) -> Fix32 {
    if y.v > x.v {
        spec_sub(Fix32 { v: HALF_PI_RAW }, spec_atan_s(spec_div(x, y)))
    } else {
        spec_atan_s(spec_div(y, x))
    }
}

/// What the quadrant-folding atan helper returns: sign flips reduce to the
/// first quadrant, then `spec_atan_fold` runs; a flip of `x` alone negates
/// the result.
pub open spec fn spec_atan_div(y: Fix32, x: Fix32) -> Fix32 {
    let ay = if y.v < 0 { spec_neg(y) } else { y };
    if x.v < 0 {
        let ax = spec_neg(x);
        if y.v < 0 {
            spec_atan_fold(ay, ax)
        } else {
            spec_neg(spec_atan_fold(ay, ax))
        }
    } else {
        spec_atan_fold(ay, x)
    }
}

/// What `atan2` returns: `+-pi/2` on the vertical axis, else the folded
/// kernel with a `+-pi` correction in the left half-plane.
#[verifier::opaque]
pub open spec fn spec_atan2(y: Fix32, x: Fix32) -> Fix32 {
    if x.v == 0 {
        if y.v > 0 {
            Fix32 { v: HALF_PI_RAW }
        } else {
            spec_neg(Fix32 { v: HALF_PI_RAW })
        }
    } else {
        let ret = spec_atan_div(y, x);
        if x.v < 0 {
            if y.v >= 0 {
                spec_add(ret, Fix32 { v: PI_RAW })
            } else {
                spec_sub(ret, Fix32 { v: PI_RAW })
            }
        } else {
            ret
        }
    }
}

/// What `sin` returns: the argument reduced modulo `2*pi`, rescaled by
/// `pi/2`, folded into `[0, 1]` with a sign toggle, then pushed through the
/// fixed polynomial `sign*x*(pi - x^2*(2*pi - 5 - x^2*(pi - 3)))/2`.
#[verifier::opaque]
pub open spec fn spec_sin(a: Fix32) -> Fix32 {
    let x0 = spec_fmod(a, Fix32 { v: TWO_PI_RAW });
    let x1 = spec_div(x0, Fix32 { v: HALF_PI_RAW });
    let x2 = if x1.v < 0 {
        spec_add(x1, spec_from_i32(4))
    } else {
        x1
    };
    let x3 = if x2.v > spec_from_i32(2).v {
        spec_sub(x2, spec_from_i32(2))
    } else {
        x2
    };
    let sign: i32 = if x2.v > spec_from_i32(2).v {
        -1i32
    } else {
        1i32
    };
    let x4 = if x3.v > spec_from_i32(1).v {
        spec_sub(spec_from_i32(2), x3)
    } else {
        x3
    };
    let xx = spec_mul(x4, x4);
    let pi = Fix32 { v: PI_RAW };
    let two_pi = Fix32 { v: TWO_PI_RAW };
    let poly = spec_sub(
        pi,
        spec_mul(xx, spec_sub(spec_sub(two_pi, spec_from_i32(5)), spec_mul(xx, spec_sub(pi, spec_from_i32(3))))),
    );
    spec_div(spec_mul(spec_mul(spec_from_i32(sign), x4), poly), spec_from_i32(2))
}

/// What `cos` returns: `sin(pi/2 + x)`.
#[verifier::opaque]
pub open spec fn spec_cos(a: Fix32) -> Fix32 {
    spec_sin(spec_add(Fix32 { v: HALF_PI_RAW }, a))
}

/// Cubic polynomial kernel for atan on `[0, 1]`.
fn atan_s(x: Fix32) -> (r: Fix32)
    ensures
        r == spec_atan_s(x),
{
    let fa = Fix32 { v: ATAN_FA_RAW };
    let fb = Fix32 { v: ATAN_FB_RAW };
    let fc = Fix32 { v: ATAN_FC_RAW };
    let xx = x.mul(x);
    fa.mul(xx).add(fb).mul(xx).add(fc).mul(x)
}

/// Fold `(y, x)` into the first octant by sign flips and the swap through
/// `pi/2 - atan(x/y)`.
fn atan_div(y: Fix32, x: Fix32) -> (r: Fix32)
    requires
        x.v != 0,
        y.v != i32::MIN,
        x.v != i32::MIN,
    ensures
        r == spec_atan_div(y, x),
    decreases (if y.v < 0 { 1int } else { 0int }) + (if x.v < 0 { 1int } else { 0int }),
{
    if y.v < 0 {
        if x.v < 0 {
            atan_div(y.neg(), x.neg())
        } else {
            atan_div(y.neg(), x)
        }
    } else if x.v < 0 {
        atan_div(y, x.neg()).neg()
    } else {
        if y.v > x.v {
            Fix32 { v: HALF_PI_RAW }.sub(atan_s(x.div(y)))
        } else {
            atan_s(y.div(x))
        }
    }
}

impl Fix32 {
    /// Four-quadrant arctangent of `self / x`, by polynomial approximation.
    ///
    /// Off the vertical axis the arguments may not be the minimum raw value:
    /// there the sign folding has no representable negation.
    pub fn atan2(&self, x: Fix32) -> (r: Fix32)
        requires
            x.v != 0 ==> self.v != i32::MIN && x.v != i32::MIN,
        ensures
            r == spec_atan2(*self, x),
    {
        proof {
            reveal(spec_atan2);
        }
        if x.v == 0 {
            if self.v > 0 {
                Fix32 { v: HALF_PI_RAW }
            } else {
                Fix32 { v: HALF_PI_RAW }.neg()
            }
        } else {
            let ret = atan_div(*self, x);
            if x.v < 0 {
                if self.v >= 0 {
                    ret.add(Fix32 { v: PI_RAW })
                } else {
                    ret.sub(Fix32 { v: PI_RAW })
                }
            } else {
                ret
            }
        }
    }

    /// Sine by argument folding and a fixed odd polynomial.
    pub fn sin(&self) -> (r: Fix32)
        ensures
            r == spec_sin(*self),
    {
        proof {
            reveal(spec_sin);
        }
        let x = self.fmod(Fix32 { v: TWO_PI_RAW });
        let x = x.div(Fix32 { v: HALF_PI_RAW });
        let x = if x.v < 0 {
            x.add(Fix32::from_i32(4))
        } else {
            x
        };
        let two = Fix32::from_i32(2);
        let (x, sign) = if x.v > two.v {
            (x.sub(two), -1i32)
        } else {
            (x, 1i32)
        };
        let x = if x.v > Fix32::from_i32(1).v {
            two.sub(x)
        } else {
            x
        };
        let xx = x.mul(x);
        let pi = Fix32 { v: PI_RAW };
        let two_pi = Fix32 { v: TWO_PI_RAW };
        let poly = pi.sub(xx.mul(two_pi.sub(Fix32::from_i32(5)).sub(xx.mul(pi.sub(Fix32::from_i32(3))))));
        Fix32::from_i32(sign).mul(x).mul(poly).div(two)
    }

    /// Cosine, as the sine shifted a quarter turn.
    pub fn cos(&self) -> (r: Fix32)
        ensures
            r == spec_cos(*self),
    {
        proof {
            reveal(spec_cos);
        }
        Fix32 { v: HALF_PI_RAW }.add(*self).sin()
    }
}

/// Range of one square-root pass: starting from probe `pow2(2k)`, the
/// result stays within `pow2(k+1) - 1` of `res / pow2(k+1)`, the remainder
/// never grows, and a pass that changed the remainder produced a positive
/// result.
proof fn lemma_sqrt_loop_range(num: int, res: int, k: nat)
    requires
        num >= 0,
        res >= 0,
    ensures
        ({
            let pair = spec_sqrt_loop(num, res, pow2(2 * k) as int);
            &&& 0 <= pair.0 <= num
            &&& res / pow2(k + 1) as int <= pair.1 <= res / pow2(k + 1) as int + pow2(k + 1) - 1
            &&& (pair.0 == num ==> pair.1 == res / pow2(k + 1) as int)
            &&& (pair.0 != num ==> pair.1 >= 1)
        }),
    decreases k,
{
    let bit = pow2(2 * k) as int;
    vstd::arithmetic::power2::lemma_pow2_pos(2 * k);
    vstd::arithmetic::power2::lemma_pow2_pos(k);
    vstd::arithmetic::power2::lemma_pow2_pos(k + 1);
    let val = res + bit;
    if k == 0 {
        assert(bit == 1) by {
            vstd::arithmetic::power2::lemma2_to64();
        }
        assert(pow2(1) == 2) by {
            vstd::arithmetic::power2::lemma2_to64();
        }
        assert(spec_sqrt_loop(num - val, res / 2 + 1, 0) == (num - val, res / 2 + 1));
        assert(spec_sqrt_loop(num, res / 2, 0) == (num, res / 2));
    } else {
        let kk = (k - 1) as nat;
        assert(bit / 4 == pow2(2 * kk) as int) by {
            vstd::arithmetic::power2::lemma_pow2_adds(2 * kk, 2);
            vstd::arithmetic::power2::lemma2_to64();
            vstd::arithmetic::div_mod::lemma_div_multiples_vanish(pow2(2 * kk) as int, 4);
            assert(4 * pow2(2 * kk) == pow2(2 * kk) * 4) by (nonlinear_arith);
        }
        vstd::arithmetic::power2::lemma_pow2_adds(k, 1);
        vstd::arithmetic::power2::lemma_pow2_adds(kk, 1);
        assert(pow2(1) == 2) by {
            vstd::arithmetic::power2::lemma2_to64();
        }
        // halving then dividing by pow2(k) is dividing by pow2(k + 1)
        assert((res / 2) / pow2(k) as int == res / pow2(k + 1) as int) by {
            vstd::arithmetic::div_mod::lemma_div_denominator(res, 2, pow2(k) as int);
            assert(2 * pow2(k) as int == pow2(k) as int * 2) by (nonlinear_arith);
        }
        if num >= val {
            let res2 = res / 2 + bit;
            lemma_sqrt_loop_range(num - val, res2, kk);
            let pair = spec_sqrt_loop(num - val, res2, pow2(2 * kk) as int);
            // res2 / pow2(k) == res / pow2(k + 1) + pow2(k), since bit == pow2(k) * pow2(k)
            assert(res2 / pow2(k) as int == res / pow2(k + 1) as int + pow2(k)) by {
                assert(bit == pow2(k) * pow2(k)) by {
                    vstd::arithmetic::power2::lemma_pow2_adds(k, k);
                }
                vstd::arithmetic::div_mod::lemma_hoist_over_denominator(
                    res / 2,
                    pow2(k) as int,
                    pow2(k),
                );
            }
            assert(pair.1 >= res / pow2(k + 1) as int + pow2(k));
            assert(pow2(k) >= 1);
            assert(pair.1 <= res / pow2(k + 1) as int + pow2(k) + pow2(k) - 1);
        } else {
            lemma_sqrt_loop_range(num, res / 2, kk);
        }
    }
}

/// The square root of a nonnegative Q5.27 value lies in `[0, 2^29]`, and is
/// positive whenever the input is.
pub proof fn lemma_sqrt_range(a: Fix32)
    requires
        a.v >= 0,
    ensures
        0 <= spec_sqrt(a).v <= 0x20000000,
        a.v >= 1 ==> spec_sqrt(a).v >= 1,
{
    reveal(spec_sqrt);
    if a.v >= 1 {
        let num0 = a.v * 134217728;
        let sh = (hbit(a.v as int) + 27) / 2 * 2;
        let k = sh / 2;
        assert(sh == 2 * k);
        lemma_hbit_bound(a.v as int);
        assert(k + 1 <= 29);
        lemma_sqrt_loop_range(num0, 0, k);
        let pair = spec_sqrt_loop(num0, 0, pow2(2 * k) as int);
        vstd::arithmetic::power2::lemma_pow2_pos(k + 1);
        assert(0int / pow2(k + 1) as int == 0) by {
            vstd::arithmetic::div_mod::lemma_div_multiples_vanish(0, pow2(k + 1) as int);
        }
        assert(pow2(k + 1) <= pow2(29)) by {
            if k + 1 < 29 {
                vstd::arithmetic::power2::lemma_pow2_strictly_increases(k + 1, 29);
            }
        }
        assert(pow2(29) == 0x20000000) by {
            vstd::arithmetic::power2::lemma2_to64();
        }
        let out = if pair.0 > pair.1 {
            pair.1 + 1
        } else {
            pair.1
        };
        assert(0 <= out <= 0x20000000);
        assert(out >= 1) by {
            if pair.0 != num0 {
            } else {
                assert(pair.1 == 0);
                assert(pair.0 == num0 >= 134217728 > 0);
            }
        }
        assert(crop32(out) == out) by {
            lemma_crop32_identity(out);
        }
    }
}

/// Wrapping to 32 bits is the identity on values already in range.
pub proof fn lemma_crop32_identity(x: int)
    requires
        -0x80000000 <= x <= 0x7fffffff,
    ensures
        crop32(x) == x as i32,
{
    if x >= 0 {
        vstd::arithmetic::div_mod::lemma_small_mod(x as nat, 0x100000000);
    } else {
        vstd::arithmetic::div_mod::lemma_fundamental_div_mod_converse_mod(
            x,
            0x100000000,
            -1,
            x + 0x100000000,
        );
    }
}

/// Wrapping keeps the residue class: `crop32(x)` differs from `x` by a
/// multiple of `2^32`.
pub proof fn lemma_crop32_mod(x: int)
    ensures
        (crop32(x) - x) % 0x100000000 == 0,
        -0x80000000 <= crop32(x) <= 0x7fffffff,
{
    let c = 0x100000000int;
    let m = x % c;
    vstd::arithmetic::div_mod::lemma_mod_bound(x, c);
    vstd::arithmetic::div_mod::lemma_fundamental_div_mod(x, c);
    if m > 0x7fffffff {
        assert(crop32(x) - x == c * (-(x / c)) + 0 - c) by (nonlinear_arith)
            requires
                x == c * (x / c) + m,
                crop32(x) == m - c,
        ;
        assert((c * (-(x / c) - 1) + 0) % c == 0) by {
            vstd::arithmetic::div_mod::lemma_fundamental_div_mod_converse_mod(
                c * (-(x / c) - 1) + 0,
                c,
                -(x / c) - 1,
                0,
            );
        }
        assert(c * (-(x / c)) - c == c * (-(x / c) - 1) + 0) by (nonlinear_arith);
    } else {
        assert(crop32(x) - x == c * (-(x / c))) by (nonlinear_arith)
            requires
                x == c * (x / c) + m,
                crop32(x) == m,
        ;
        assert((c * (-(x / c)) + 0) % c == 0) by {
            vstd::arithmetic::div_mod::lemma_fundamental_div_mod_converse_mod(
                c * (-(x / c)) + 0,
                c,
                -(x / c),
                0,
            );
        }
    }
}

/// Values in the same residue class wrap to the same 32-bit value.
pub proof fn lemma_crop32_congruent(x: int, y: int)
    requires
        (x - y) % 0x100000000 == 0,
    ensures
        crop32(x) == crop32(y),
{
    let c = 0x100000000int;
    vstd::arithmetic::div_mod::lemma_mod_bound(x, c);
    vstd::arithmetic::div_mod::lemma_mod_bound(y, c);
    assert(x % c == y % c) by {
        let k = (x - y) / c;
        vstd::arithmetic::div_mod::lemma_fundamental_div_mod(x - y, c);
        assert(x == c * k + y) by (nonlinear_arith)
            requires
                x - y == c * k + 0,
        ;
        vstd::arithmetic::div_mod::lemma_mod_multiples_vanish(k, y, c);
        assert(c * k + y == k * c + y) by (nonlinear_arith);
    }
}

/// Wrapping is a homomorphism for addition: wrapping an argument first
/// does not change the wrapped sum.
pub proof fn lemma_crop32_add(x: int, y: int)
    ensures
        crop32(crop32(x) + y) == crop32(x + y),
{
    lemma_crop32_mod(x);
    lemma_crop32_congruent(crop32(x) + y, x + y);
}

/// Wrapping is a homomorphism for negation.
pub proof fn lemma_crop32_neg(x: int)
    ensures
        crop32(-(crop32(x) as int)) == crop32(-x),
{
    lemma_crop32_mod(x);
    let c = 0x100000000int;
    assert((-(crop32(x) as int) - (-x)) % c == 0) by {
        let d = crop32(x) - x;
        let k = d / c;
        vstd::arithmetic::div_mod::lemma_fundamental_div_mod(d, c);
        assert(-(crop32(x) as int) - (-x) == c * (-k) + 0) by (nonlinear_arith)
            requires
                d == c * k + 0,
                d == crop32(x) - x,
        ;
        vstd::arithmetic::div_mod::lemma_fundamental_div_mod_converse_mod(
            c * (-k) + 0,
            c,
            -k,
            0,
        );
    }
    lemma_crop32_congruent(-(crop32(x) as int), -x);
}

/// Truncating division and the round-to-nearest halving are odd
/// functions.
pub proof fn lemma_tdiv_rnd_odd(a: int, b: int)
    requires
        b != 0,
    ensures
        tdiv(-a, b) == -tdiv(a, b),
        rnd_half(-a) == -rnd_half(a),
{
    assert(tdiv(-a, b) == -tdiv(a, b));
    assert(tmod(-a, 2) == -tmod(a, 2)) by {
        assert(tdiv(-a, 2) == -tdiv(a, 2));
        assert(2 * tdiv(-a, 2) == -(2 * tdiv(a, 2))) by (nonlinear_arith)
            requires
                tdiv(-a, 2) == -tdiv(a, 2),
        ;
    }
}

/// Negating one multiplicand negates the fixed-point product, as long as
/// the negation itself does not wrap.
pub proof fn lemma_spec_mul_neg(a: Fix32, b: Fix32)
    requires
        b.v != i32::MIN,
    ensures
        spec_mul(a, spec_neg(b)) == spec_neg(spec_mul(a, b)),
{
    lemma_crop32_identity(-(b.v as int));
    assert(a.v * (-(b.v as int)) == -(a.v * b.v)) by (nonlinear_arith);
    lemma_tdiv_rnd_odd(a.v * b.v, 67108864);
    lemma_tdiv_rnd_odd(tdiv(a.v * b.v, 67108864), 2);
    lemma_crop32_neg(rnd_half(tdiv(a.v * b.v, 67108864)));
}

/// Fixed-point multiplication is commutative.
pub proof fn lemma_spec_mul_comm(a: Fix32, b: Fix32)
    ensures
        spec_mul(a, b) == spec_mul(b, a),
{
    assert(a.v * b.v == b.v * a.v) by (nonlinear_arith);
}

} // verus!
