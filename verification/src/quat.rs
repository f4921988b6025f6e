//! Rotation vectors and quaternions over the Q5.27 scalar, with the
//! exponential and logarithmic maps between them.
//!
//! Every method is specified bit-exactly in terms of the scalar kernel, so
//! that the quantizer's encoder and decoder provably trace the same values.

use vstd::prelude::*;

verus! {

use crate::fix32::{
    Fix32, lemma_crop32_congruent, lemma_crop32_identity, lemma_crop32_mod, lemma_spec_mul_comm,
    lemma_spec_mul_neg, lemma_sqrt_range, spec_add, spec_atan2, spec_div, spec_from_i32,
    spec_mul, spec_neg, spec_sqrt, spec_sub,
};

/// The Q5.27 scalar, under the name the rest of the codec uses.
pub type Fix = Fix32;

/// Raw value of one half in Q5.27: `2^26`.
pub const HALF_RAW: i32 = 67108864;

/// A triple of Q5.27 scalars; read as axis times angle when it enters the
/// exponential map.
#[derive(Copy, Clone, Debug, PartialEq, Eq, Structural)]
pub struct Vec3 {
    pub x: Fix32,
    pub y: Fix32,
    pub z: Fix32,
}

/// A rotation vector.
pub type RVec = Vec3;

/// Sum of the three squares, folded left to right.
pub open spec fn spec_sumsq3(a: Fix32, b: Fix32, c: Fix32) -> Fix32 {
    spec_add(spec_add(spec_mul(a, a), spec_mul(b, b)), spec_mul(c, c))
}

/// The zero vector.
pub open spec fn spec_vzero() -> Vec3 {
    Vec3 { x: Fix32 { v: 0 }, y: Fix32 { v: 0 }, z: Fix32 { v: 0 } }
}

/// Componentwise vector sum.
pub open spec fn spec_vadd(a: Vec3, b: Vec3) -> Vec3 {
    Vec3 { x: spec_add(a.x, b.x), y: spec_add(a.y, b.y), z: spec_add(a.z, b.z) }
}

/// Componentwise vector difference.
pub open spec fn spec_vsub(a: Vec3, b: Vec3) -> Vec3 {
    Vec3 { x: spec_sub(a.x, b.x), y: spec_sub(a.y, b.y), z: spec_sub(a.z, b.z) }
}

/// Componentwise vector negation.
pub open spec fn spec_vneg(a: Vec3) -> Vec3 {
    Vec3 { x: spec_neg(a.x), y: spec_neg(a.y), z: spec_neg(a.z) }
}

/// Vector scaled by a fixed-point factor.
pub open spec fn spec_vsmul(a: Vec3, k: Fix32) -> Vec3 {
    Vec3 { x: spec_mul(a.x, k), y: spec_mul(a.y, k), z: spec_mul(a.z, k) }
}

/// Vector divided componentwise by a fixed-point factor.
pub open spec fn spec_vsdiv(a: Vec3, k: Fix32) -> Vec3 {
    Vec3 { x: spec_div(a.x, k), y: spec_div(a.y, k), z: spec_div(a.z, k) }
}

/// Squared length of a vector.
pub open spec fn spec_vsumsq(a: Vec3) -> Fix32 {
    spec_sumsq3(a.x, a.y, a.z)
}

/// Length of a vector: square root of the squared length.
pub open spec fn spec_vnorm(a: Vec3) -> Fix32 {
    spec_sqrt(spec_vsumsq(a))
}

impl Vec3 {
    /// Pack three scalars into a vector.
    pub fn new(x: Fix32, y: Fix32, z: Fix32) -> (r: Vec3)
        ensures
            r == (Vec3 { x, y, z }),
    {
        Vec3 { x, y, z }
    }

    /// Componentwise sum.
    pub fn add(self, rhs: Vec3) -> (r: Vec3)
        ensures
            r == spec_vadd(self, rhs),
    {
        Vec3 { x: self.x.add(rhs.x), y: self.y.add(rhs.y), z: self.z.add(rhs.z) }
    }

    /// Componentwise difference.
    pub fn sub(self, rhs: Vec3) -> (r: Vec3)
        ensures
            r == spec_vsub(self, rhs),
    {
        Vec3 { x: self.x.sub(rhs.x), y: self.y.sub(rhs.y), z: self.z.sub(rhs.z) }
    }

    /// Componentwise negation.
    pub fn neg(self) -> (r: Vec3)
        ensures
            r == spec_vneg(self),
    {
        Vec3 { x: self.x.neg(), y: self.y.neg(), z: self.z.neg() }
    }

    /// Scale by a fixed-point factor.
    pub fn smul(&self, k: Fix32) -> (r: Vec3)
        ensures
            r == spec_vsmul(*self, k),
    {
        Vec3 { x: self.x.mul(k), y: self.y.mul(k), z: self.z.mul(k) }
    }

    /// Divide componentwise by a nonzero fixed-point factor.
    pub fn sdiv(&self, k: Fix32) -> (r: Vec3)
        requires
            k.v != 0,
        ensures
            r == spec_vsdiv(*self, k),
    {
        Vec3 { x: self.x.div(k), y: self.y.div(k), z: self.z.div(k) }
    }

    /// Vector length; the squared length must not have wrapped negative.
    pub fn norm(&self) -> (r: Fix32)
        requires
            spec_vsumsq(*self).v >= 0,
        ensures
            r == spec_vnorm(*self),
    {
        self.x.mul(self.x).add(self.y.mul(self.y)).add(self.z.mul(self.z)).sqrt()
    }

    /// The vector scaled to unit length; the length must be positive.
    pub fn normalized(&self) -> (r: Vec3)
        requires
            spec_vsumsq(*self).v >= 0,
            spec_vnorm(*self).v != 0,
        ensures
            r == spec_vsdiv(*self, spec_vnorm(*self)),
    {
        self.sdiv(self.norm())
    }
}

impl Default for Vec3 {
    /// The zero vector.
    fn default() -> (r: Vec3)
        ensures
            r == spec_vzero(),
    {
        Vec3 {
            x: Fix32::from_i32(0),
            y: Fix32::from_i32(0),
            z: Fix32::from_i32(0),
        }
    }
}

/// A quaternion `(w, x, y, z)` of Q5.27 scalars, in scan order.
#[derive(Copy, Clone, Debug, PartialEq, Eq, Structural)]
pub struct Quat {
    pub w: Fix32,
    pub x: Fix32,
    pub y: Fix32,
    pub z: Fix32,
}

/// The identity quaternion `(1, 0, 0, 0)`.
pub open spec fn spec_qident() -> Quat {
    Quat {
        w: Fix32 { v: 134217728 },
        x: Fix32 { v: 0 },
        y: Fix32 { v: 0 },
        z: Fix32 { v: 0 },
    }
}

/// The zero quaternion, which safe normalization returns on zero norm.
pub open spec fn spec_qzero() -> Quat {
    Quat { w: Fix32 { v: 0 }, x: Fix32 { v: 0 }, y: Fix32 { v: 0 }, z: Fix32 { v: 0 } }
}

/// Componentwise quaternion sum.
pub open spec fn spec_qadd(a: Quat, b: Quat) -> Quat {
    Quat {
        w: spec_add(a.w, b.w),
        x: spec_add(a.x, b.x),
        y: spec_add(a.y, b.y),
        z: spec_add(a.z, b.z),
    }
}

/// Hamilton product, with the products and sums folded exactly as the
/// encoder computes them.
#[verifier::opaque]
pub open spec fn spec_qmul(a: Quat, b: Quat) -> Quat {
    Quat {
        w: spec_sub(
            spec_sub(spec_sub(spec_mul(a.w, b.w), spec_mul(a.x, b.x)), spec_mul(a.y, b.y)),
            spec_mul(a.z, b.z),
        ),
        x: spec_sub(
            spec_add(spec_add(spec_mul(a.w, b.x), spec_mul(a.x, b.w)), spec_mul(a.y, b.z)),
            spec_mul(a.z, b.y),
        ),
        y: spec_add(
            spec_add(spec_sub(spec_mul(a.w, b.y), spec_mul(a.x, b.z)), spec_mul(a.y, b.w)),
            spec_mul(a.z, b.x),
        ),
        z: spec_add(
            spec_sub(spec_add(spec_mul(a.w, b.z), spec_mul(a.x, b.y)), spec_mul(a.y, b.x)),
            spec_mul(a.z, b.w),
        ),
    }
}

/// Conjugate: vector part negated.
pub open spec fn spec_qconj(a: Quat) -> Quat {
    Quat { w: a.w, x: spec_neg(a.x), y: spec_neg(a.y), z: spec_neg(a.z) }
}

/// Squared norm `w^2 + x^2 + y^2 + z^2`, folded left to right.
#[verifier::opaque]
pub open spec fn spec_qsumsq(a: Quat) -> Fix32 {
    spec_add(
        spec_add(spec_add(spec_mul(a.w, a.w), spec_mul(a.x, a.x)), spec_mul(a.y, a.y)),
        spec_mul(a.z, a.z),
    )
}

/// Quaternion norm: square root of the squared norm.
pub open spec fn spec_qnorm(a: Quat) -> Fix32 {
    spec_sqrt(spec_qsumsq(a))
}

/// Quaternion scaled by a fixed-point factor.
pub open spec fn spec_qsmul(a: Quat, k: Fix32) -> Quat {
    Quat {
        w: spec_mul(a.w, k),
        x: spec_mul(a.x, k),
        y: spec_mul(a.y, k),
        z: spec_mul(a.z, k),
    }
}

/// Quaternion divided componentwise by a fixed-point factor.
pub open spec fn spec_qsdiv(a: Quat, k: Fix32) -> Quat {
    Quat {
        w: spec_div(a.w, k),
        x: spec_div(a.x, k),
        y: spec_div(a.y, k),
        z: spec_div(a.z, k),
    }
}

/// Safe normalization: the quaternion divided by its norm, or the zero
/// quaternion when the norm is zero.
#[verifier::opaque]
pub open spec fn spec_qnormalize_safe(a: Quat) -> Quat {
    let n = spec_qnorm(a);
    if n.v == 0 {
        spec_qzero()
    } else {
        spec_qsdiv(a, n)
    }
}

/// The squared norm of `a` did not wrap negative, so its square root can
/// run.
pub open spec fn spec_qnorm_ok(a: Quat) -> bool {
    spec_qsumsq(a).v >= 0
}

/// What the exponential map returns. Above the small-angle guard
/// (`theta^2 > 16` raw units) the half-angle sine and cosine drive the
/// result; below it the first-order form `(1, v/2)` stands in.
#[verifier::opaque]
pub open spec fn spec_from_rvec(v: Vec3) -> Quat {
    let theta2 = spec_vsumsq(v);
    if theta2.v > 16 {
        let theta = spec_sqrt(theta2);
        let half_theta = spec_mul(theta, Fix32 { v: HALF_RAW });
        let k = spec_div(crate::fix32::spec_sin(half_theta), theta);
        Quat {
            w: crate::fix32::spec_cos(half_theta),
            x: spec_mul(v.x, k),
            y: spec_mul(v.y, k),
            z: spec_mul(v.z, k),
        }
    } else {
        let k = Fix32 { v: HALF_RAW };
        Quat {
            w: Fix32 { v: 134217728 },
            x: spec_mul(v.x, k),
            y: spec_mul(v.y, k),
            z: spec_mul(v.z, k),
        }
    }
}

/// The logarithmic map can run: whenever the vector part is nonzero the
/// scalar part is not the minimum raw value, so the quadrant fold inside
/// `atan2` stays representable.
pub open spec fn spec_to_rvec_ok(a: Quat) -> bool {
    spec_sumsq3(a.x, a.y, a.z).v > 0 ==> a.w.v != i32::MIN
}

/// What the logarithmic map returns. A nonpositive squared sine falls back
/// to the small-angle form `(2x, 2y, 2z)`; otherwise the rotation angle
/// comes out of `atan2` in a quadrant chosen by the sign of the scalar
/// part.
#[verifier::opaque]
pub open spec fn spec_to_rvec(a: Quat) -> Vec3 {
    let sin2 = spec_sumsq3(a.x, a.y, a.z);
    if sin2.v <= 0 {
        Vec3 {
            x: spec_mul(a.x, spec_from_i32(2)),
            y: spec_mul(a.y, spec_from_i32(2)),
            z: spec_mul(a.z, spec_from_i32(2)),
        }
    } else {
        let sin_theta = spec_sqrt(sin2);
        let cos_theta = a.w;
        let t = if cos_theta.v < 0 {
            spec_atan2(spec_neg(sin_theta), spec_neg(cos_theta))
        } else {
            spec_atan2(sin_theta, cos_theta)
        };
        let two_theta = spec_mul(spec_from_i32(2), t);
        let k = spec_div(two_theta, sin_theta);
        Vec3 { x: spec_mul(a.x, k), y: spec_mul(a.y, k), z: spec_mul(a.z, k) }
    }
}

/// What `rotate_point` returns: the vector part of `q * (0, p) * conj(q)`.
pub open spec fn spec_rotate_point(a: Quat, p: Vec3) -> Vec3 {
    let qq = spec_qmul(
        spec_qmul(a, Quat { w: Fix32 { v: 0 }, x: p.x, y: p.y, z: p.z }),
        spec_qconj(a),
    );
    Vec3 { x: qq.x, y: qq.y, z: qq.z }
}

impl Quat {
    /// Pack four scalars into a quaternion.
    pub fn new(w: Fix32, x: Fix32, y: Fix32, z: Fix32) -> (r: Quat)
        ensures
            r == (Quat { w, x, y, z }),
    {
        Quat { w, x, y, z }
    }

    /// Exponential map from a rotation vector.
    pub fn from_rvec(v: &RVec) -> (r: Quat)
        ensures
            r == spec_from_rvec(*v),
    {
        proof {
            reveal(spec_from_rvec);
        }
        let theta2 = v.x.mul(v.x).add(v.y.mul(v.y)).add(v.z.mul(v.z));
        if theta2.to_raw() > 16 {
            let theta = theta2.sqrt();
            proof {
                lemma_sqrt_range(theta2);
            }
            let half_theta = theta.mul(Fix32 { v: HALF_RAW });
            let k = half_theta.sin().div(theta);
            Quat {
                w: half_theta.cos(),
                x: v.x.mul(k),
                y: v.y.mul(k),
                z: v.z.mul(k),
            }
        } else {
            let k = Fix32 { v: HALF_RAW };
            Quat {
                w: Fix32::from_i32(1),
                x: v.x.mul(k),
                y: v.y.mul(k),
                z: v.z.mul(k),
            }
        }
    }

    /// Logarithmic map to a rotation vector.
    pub fn to_rvec(&self) -> (r: RVec)
        requires
            spec_to_rvec_ok(*self),
        ensures
            r == spec_to_rvec(*self),
    {
        proof {
            reveal(spec_to_rvec);
        }
        let sin_theta2 = self.x.mul(self.x).add(self.y.mul(self.y)).add(self.z.mul(self.z));
        if sin_theta2.to_raw() <= 0 {
            let two = Fix32::from_i32(2);
            return RVec { x: self.x.mul(two), y: self.y.mul(two), z: self.z.mul(two) };
        }
        let sin_theta = sin_theta2.sqrt();
        proof {
            lemma_sqrt_range(sin_theta2);
        }
        let cos_theta = self.w;
        let t = if cos_theta.to_raw() < 0 {
            sin_theta.neg().atan2(cos_theta.neg())
        } else {
            sin_theta.atan2(cos_theta)
        };
        let two_theta = Fix32::from_i32(2).mul(t);
        let k = two_theta.div(sin_theta);
        RVec { x: self.x.mul(k), y: self.y.mul(k), z: self.z.mul(k) }
    }

    /// Conjugate: vector part negated.
    pub fn conj(&self) -> (r: Quat)
        ensures
            r == spec_qconj(*self),
    {
        Quat { w: self.w, x: self.x.neg(), y: self.y.neg(), z: self.z.neg() }
    }

    /// Quaternion norm; the squared norm must not have wrapped negative.
    pub fn norm(&self) -> (r: Fix32)
        requires
            spec_qnorm_ok(*self),
        ensures
            r == spec_qnorm(*self),
    {
        proof {
            reveal(spec_qsumsq);
        }
        self.w.mul(self.w).add(self.x.mul(self.x)).add(self.y.mul(self.y)).add(
            self.z.mul(self.z),
        ).sqrt()
    }

    /// Divide by the norm; the norm must be nonzero.
    pub fn normalize(&mut self) -> (r: Quat)
        requires
            spec_qnorm_ok(*old(self)),
            spec_qnorm(*old(self)).v != 0,
        ensures
            *final(self) == *old(self),
            r == spec_qsdiv(*old(self), spec_qnorm(*old(self))),
    {
        let norm = self.norm();
        self.sdiv(norm)
    }

    /// Divide by the norm, collapsing to the zero quaternion on zero norm
    /// instead of faulting.
    pub fn normalize_safe(&mut self) -> (r: Quat)
        requires
            spec_qnorm_ok(*old(self)),
        ensures
            *final(self) == *old(self),
            r == spec_qnormalize_safe(*old(self)),
    {
        proof {
            reveal(spec_qnormalize_safe);
        }
        let norm = self.norm();
        if norm.to_raw() == 0 {
            return Quat {
                w: Fix32::from_raw(0),
                x: Fix32::from_raw(0),
                y: Fix32::from_raw(0),
                z: Fix32::from_raw(0),
            };
        }
        self.sdiv(norm)
    }

    /// Rotate a point: the vector part of `q * (0, p) * conj(q)`.
    pub fn rotate_point(&self, p: &RVec) -> (r: RVec)
        ensures
            r == spec_rotate_point(*self, *p),
    {
        let qq = self.mul(Quat { w: Fix32::from_raw(0), x: p.x, y: p.y, z: p.z }).mul(
            self.conj(),
        );
        RVec { x: qq.x, y: qq.y, z: qq.z }
    }

    /// Scale all four components.
    pub fn smul(&self, k: Fix32) -> (r: Quat)
        ensures
            r == spec_qsmul(*self, k),
    {
        Quat {
            w: self.w.mul(k),
            x: self.x.mul(k),
            y: self.y.mul(k),
            z: self.z.mul(k),
        }
    }

    /// Divide all four components by a nonzero factor.
    pub fn sdiv(&self, k: Fix32) -> (r: Quat)
        requires
            k.v != 0,
        ensures
            r == spec_qsdiv(*self, k),
    {
        Quat {
            w: self.w.div(k),
            x: self.x.div(k),
            y: self.y.div(k),
            z: self.z.div(k),
        }
    }

    /// Componentwise sum.
    pub fn add(self, rhs: Quat) -> (r: Quat)
        ensures
            r == spec_qadd(self, rhs),
    {
        Quat {
            w: self.w.add(rhs.w),
            x: self.x.add(rhs.x),
            y: self.y.add(rhs.y),
            z: self.z.add(rhs.z),
        }
    }

    /// Hamilton product.
    pub fn mul(self, rhs: Quat) -> (r: Quat)
        ensures
            r == spec_qmul(self, rhs),
    {
        proof {
            reveal(spec_qmul);
        }
        Quat {
            w: self.w.mul(rhs.w).sub(self.x.mul(rhs.x)).sub(self.y.mul(rhs.y)).sub(
                self.z.mul(rhs.z),
            ),
            x: self.w.mul(rhs.x).add(self.x.mul(rhs.w)).add(self.y.mul(rhs.z)).sub(
                self.z.mul(rhs.y),
            ),
            y: self.w.mul(rhs.y).sub(self.x.mul(rhs.z)).add(self.y.mul(rhs.w)).add(
                self.z.mul(rhs.x),
            ),
            z: self.w.mul(rhs.z).add(self.x.mul(rhs.y)).sub(self.y.mul(rhs.x)).add(
                self.z.mul(rhs.w),
            ),
        }
    }
}

impl Default for Quat {
    /// The identity quaternion.
    fn default() -> (r: Quat)
        ensures
            r == spec_qident(),
    {
        Quat {
            w: Fix32::from_i32(1),
            x: Fix32::from_i32(0),
            y: Fix32::from_i32(0),
            z: Fix32::from_i32(0),
        }
    }
}

/// Two integers in one residue class stay congruent under addition with a
/// second such pair.
pub proof fn lemma_cong_add_pub(a: int, b: int, c: int, d: int)
    requires
        (a - b) % 0x100000000 == 0,
        (c - d) % 0x100000000 == 0,
    ensures
        ((a + c) - (b + d)) % 0x100000000 == 0,
{
    lemma_cong_add(a, b, c, d);
}

/// Two integers in one residue class stay congruent under addition with a
/// second such pair.
proof fn lemma_cong_add(a: int, b: int, c: int, d: int)
    requires
        (a - b) % 0x100000000 == 0,
        (c - d) % 0x100000000 == 0,
    ensures
        ((a + c) - (b + d)) % 0x100000000 == 0,
{
    let m = 0x100000000int;
    vstd::arithmetic::div_mod::lemma_add_mod_noop(a - b, c - d, m);
    vstd::arithmetic::div_mod::lemma_small_mod(0, 0x100000000nat);
}

/// Subtracting a wrapped negation is adding: `t - (-u) == t + u` modulo
/// the 32-bit wrap.
proof fn lemma_sub_neg_is_add(t: Fix32, u: Fix32)
    ensures
        spec_sub(t, spec_neg(u)) == spec_add(t, u),
{
    lemma_crop32_mod(-(u.v as int));
    lemma_cong_add(t.v as int, t.v as int, -(spec_neg(u).v as int), u.v as int);
    lemma_crop32_congruent(t.v - spec_neg(u).v, t.v + u.v);
}

/// Adding a wrapped negation of the same value gives zero.
proof fn lemma_add_neg_self(m: Fix32)
    ensures
        spec_add(m, spec_neg(m)) == (Fix32 { v: 0 }),
        spec_add(spec_neg(m), m) == (Fix32 { v: 0 }),
{
    lemma_crop32_mod(-(m.v as int));
    lemma_cong_add(m.v as int, m.v as int, spec_neg(m).v as int, -(m.v as int));
    lemma_crop32_congruent(m.v + spec_neg(m).v, 0);
    lemma_cong_add(spec_neg(m).v as int, -(m.v as int), m.v as int, m.v as int);
    lemma_crop32_congruent(spec_neg(m).v + m.v, 0);
    lemma_crop32_identity(0);
}

/// Adding back a subtracted value restores the original.
proof fn lemma_add_sub_cancel(a: Fix32, b: Fix32)
    ensures
        spec_add(spec_sub(a, b), b) == a,
{
    lemma_crop32_mod(a.v - b.v);
    lemma_cong_add(spec_sub(a, b).v as int, a.v - b.v, b.v as int, b.v as int);
    lemma_crop32_congruent(spec_sub(a, b).v + b.v, a.v as int);
    lemma_crop32_identity(a.v as int);
}

/// Zero is a left identity of fixed-point addition.
proof fn lemma_add_zero_left(a: Fix32)
    ensures
        spec_add(Fix32 { v: 0 }, a) == a,
{
    lemma_crop32_identity(a.v as int);
}

/// Scalar part of `q * conj(q)`: the squared norm.
#[verifier::rlimit(100)]
#[verifier::spinoff_prover]
proof fn lemma_mul_conj_w(q: Quat)
    requires
        q.x.v != i32::MIN,
        q.y.v != i32::MIN,
        q.z.v != i32::MIN,
    ensures
        spec_qmul(q, spec_qconj(q)).w == spec_qsumsq(q),
{
    reveal(spec_qmul);
    reveal(spec_qsumsq);
    lemma_spec_mul_neg(q.x, q.x);
    lemma_spec_mul_neg(q.y, q.y);
    lemma_spec_mul_neg(q.z, q.z);
    lemma_sub_neg_is_add(spec_mul(q.w, q.w), spec_mul(q.x, q.x));
    lemma_sub_neg_is_add(
        spec_add(spec_mul(q.w, q.w), spec_mul(q.x, q.x)),
        spec_mul(q.y, q.y),
    );
    lemma_sub_neg_is_add(
        spec_add(spec_add(spec_mul(q.w, q.w), spec_mul(q.x, q.x)), spec_mul(q.y, q.y)),
        spec_mul(q.z, q.z),
    );
}

/// First vector component of `q * conj(q)`: zero.
#[verifier::rlimit(100)]
#[verifier::spinoff_prover]
proof fn lemma_mul_conj_x(q: Quat)
    requires
        q.x.v != i32::MIN,
        q.y.v != i32::MIN,
        q.z.v != i32::MIN,
    ensures
        spec_qmul(q, spec_qconj(q)).x == (Fix32 { v: 0 }),
{
    reveal(spec_qmul);
    lemma_spec_mul_neg(q.w, q.x);
    lemma_spec_mul_comm(q.x, q.w);
    lemma_add_neg_self(spec_mul(q.w, q.x));
    lemma_add_zero_left(spec_mul(q.y, spec_neg(q.z)));
    lemma_spec_mul_neg(q.y, q.z);
    lemma_spec_mul_neg(q.z, q.y);
    lemma_spec_mul_comm(q.y, q.z);
    lemma_crop32_identity(0);
}

/// Second vector component of `q * conj(q)`: zero.
#[verifier::rlimit(100)]
#[verifier::spinoff_prover]
proof fn lemma_mul_conj_y(q: Quat)
    requires
        q.x.v != i32::MIN,
        q.y.v != i32::MIN,
        q.z.v != i32::MIN,
    ensures
        spec_qmul(q, spec_qconj(q)).y == (Fix32 { v: 0 }),
{
    reveal(spec_qmul);
    lemma_spec_mul_neg(q.w, q.y);
    lemma_spec_mul_neg(q.x, q.z);
    lemma_spec_mul_comm(q.y, q.w);
    // sub of two wrapped negations is the reversed subtraction
    assert(spec_sub(spec_neg(spec_mul(q.w, q.y)), spec_neg(spec_mul(q.x, q.z)))
        == spec_sub(spec_mul(q.x, q.z), spec_mul(q.w, q.y))) by {
        lemma_crop32_mod(-(spec_mul(q.w, q.y).v as int));
        lemma_crop32_mod(-(spec_mul(q.x, q.z).v as int));
        lemma_cong_add(
            spec_neg(spec_mul(q.w, q.y)).v as int,
            -(spec_mul(q.w, q.y).v as int),
            -(spec_neg(spec_mul(q.x, q.z)).v as int),
            spec_mul(q.x, q.z).v as int,
        );
        lemma_crop32_congruent(
            spec_neg(spec_mul(q.w, q.y)).v - spec_neg(spec_mul(q.x, q.z)).v,
            spec_mul(q.x, q.z).v - spec_mul(q.w, q.y).v,
        );
    }
    lemma_add_sub_cancel(spec_mul(q.x, q.z), spec_mul(q.w, q.y));
    lemma_spec_mul_neg(q.z, q.x);
    lemma_spec_mul_comm(q.z, q.x);
    lemma_add_neg_self(spec_mul(q.x, q.z));
}

/// Third vector component of `q * conj(q)`: zero.
#[verifier::rlimit(100)]
#[verifier::spinoff_prover]
proof fn lemma_mul_conj_z(q: Quat)
    requires
        q.x.v != i32::MIN,
        q.y.v != i32::MIN,
        q.z.v != i32::MIN,
    ensures
        spec_qmul(q, spec_qconj(q)).z == (Fix32 { v: 0 }),
{
    reveal(spec_qmul);
    lemma_spec_mul_neg(q.w, q.z);
    lemma_spec_mul_neg(q.x, q.y);
    lemma_spec_mul_neg(q.y, q.x);
    lemma_spec_mul_comm(q.y, q.x);
    lemma_spec_mul_comm(q.z, q.w);
    let mwz = spec_mul(q.w, q.z);
    let mxy = spec_mul(q.x, q.y);
    // add(-wz, -xy) is congruent to -(wz + xy)
    lemma_crop32_mod(-(mwz.v as int));
    lemma_crop32_mod(-(mxy.v as int));
    lemma_cong_add(
        spec_neg(mwz).v as int,
        -(mwz.v as int),
        spec_neg(mxy).v as int,
        -(mxy.v as int),
    );
    // subtracting -xy from it leaves a value congruent to -wz
    lemma_cong_add(
        spec_add(spec_neg(mwz), spec_neg(mxy)).v as int,
        -(mwz.v as int) + -(mxy.v as int),
        -(spec_neg(mxy).v as int),
        mxy.v as int,
    );
    lemma_crop32_mod(spec_add(spec_neg(mwz), spec_neg(mxy)).v as int);
    // and adding back wz gives zero
    lemma_cong_add(
        spec_sub(spec_add(spec_neg(mwz), spec_neg(mxy)), spec_neg(mxy)).v as int,
        -(mwz.v as int),
        mwz.v as int,
        mwz.v as int,
    );
    lemma_crop32_congruent(
        spec_sub(spec_add(spec_neg(mwz), spec_neg(mxy)), spec_neg(mxy)).v + mwz.v,
        0,
    );
    lemma_crop32_identity(0);
}

/// A quaternion times its conjugate is its squared norm on the scalar
/// axis: the three vector components cancel exactly, bit for bit, and the
/// scalar component is the squared norm.
///
/// The vector components may not sit at the minimum raw value, where
/// two's-complement negation has no counterpart.
pub proof fn lemma_mul_conj(q: Quat)
    requires
        q.x.v != i32::MIN,
        q.y.v != i32::MIN,
        q.z.v != i32::MIN,
    ensures
        spec_qmul(q, spec_qconj(q)) == (Quat {
            w: spec_qsumsq(q),
            x: Fix32 { v: 0 },
            y: Fix32 { v: 0 },
            z: Fix32 { v: 0 },
        }),
{
    lemma_mul_conj_w(q);
    lemma_mul_conj_x(q);
    lemma_mul_conj_y(q);
    lemma_mul_conj_z(q);
}

/// The exponential map sends the zero rotation vector to the identity
/// quaternion.
pub proof fn lemma_from_rvec_zero()
    ensures
        spec_from_rvec(spec_vzero()) == spec_qident(),
{
    reveal(spec_from_rvec);
    lemma_crop32_identity(0);
    assert(spec_mul(Fix32 { v: 0 }, Fix32 { v: 0 }) == (Fix32 { v: 0 }));
    assert(spec_mul(Fix32 { v: 0 }, Fix32 { v: HALF_RAW }) == (Fix32 { v: 0 }));
}

} // verus!
