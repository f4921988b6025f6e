//! Predictive quantizer: the shared encoder/decoder state `(q, v)`, the
//! per-quaternion residual quantization into signed-byte triples, and the
//! mirrored reconstruction.
//!
//! The next orientation is predicted as `q * exp(v)`. The encoder quantizes
//! the angular-acceleration residual by an arithmetic right shift of `qp`
//! bits; a component that does not fit the signed-byte range saturates at
//! `+-127`, and a saturated triple tells the decoder that another triple
//! follows for the same input sample.

use vstd::prelude::*;

verus! {

use vstd::arithmetic::power2::pow2;
use crate::fix32::{Fix32, crop32, crop_i64_to_i32, lemma_crop32_identity, pow2_i64};
use crate::quat::{
    Fix, Quat, RVec, Vec3, spec_from_rvec, spec_qconj, spec_qmul, spec_qnorm_ok,
    spec_qnormalize_safe, spec_qident, spec_to_rvec, spec_to_rvec_ok, spec_vadd, spec_vnorm,
    spec_vsub, spec_vsumsq, spec_vzero,
};

/// Decoder-side prediction state: the last reconstructed orientation and
/// the running angular-velocity increment.
#[derive(Copy, Clone, Debug, PartialEq, Eq, Structural)]
pub struct State {
    /// Last reconstructed orientation.
    pub q: Quat,
    /// Last reconstructed angular-velocity increment.
    pub v: RVec,
}

/// What the encoder hands back: the successor state, how many symbol bytes
/// it wrote, and the largest angular reconstruction error it saw.
#[derive(Copy, Clone, Debug)]
pub struct QuantResult {
    /// State after the block, to thread into the next call.
    pub new_state: State,
    /// Number of symbol bytes written.
    pub bytes_put: usize,
    /// Largest angular error between input and reconstruction.
    pub max_ang_err: Fix,
}

/// What the symbol-level decoder hands back: the successor state and how
/// many quaternions it wrote.
#[derive(Copy, Clone, Debug)]
pub struct DequantResult {
    /// State after the block, to thread into the next call.
    pub new_state: State,
    /// Number of quaternions written.
    pub quats_put: usize,
}

/// One quantized component: the raw residual arithmetically shifted right
/// by `qp` (floor division by `2^qp`), clamped into `[-lim, lim]` with the
/// sign of the residual.
pub open spec fn spec_quant_one(r: i32, qp: u8, lim: i8) -> i8 {
    let t = (r as int) / (pow2(qp as nat) as int);
    if -(lim as int) <= t <= lim as int {
        t as i8
    } else if r < 0 {
        (-(lim as int)) as i8
    } else {
        lim
    }
}

/// One dequantized component: the symbol shifted back left by `qp` bits,
/// wrapping as the 32-bit shift does.
pub open spec fn spec_dequant_one_c(s: i8, qp: u8) -> Fix32 {
    Fix32 { v: crop32(s * pow2(qp as nat)) }
}

/// A triple dequantized componentwise.
pub open spec fn spec_dequant_triple(s: (i8, i8, i8), qp: u8) -> Vec3 {
    Vec3 {
        x: spec_dequant_one_c(s.0, qp),
        y: spec_dequant_one_c(s.1, qp),
        z: spec_dequant_one_c(s.2, qp),
    }
}

/// A residual triple quantized componentwise at the fixed limit 127.
pub open spec fn spec_quant_triple(dv: Vec3, qp: u8) -> (i8, i8, i8) {
    (spec_quant_one(dv.x.v, qp, 127), spec_quant_one(dv.y.v, qp, 127), spec_quant_one(dv.z.v, qp, 127))
}

/// A triple is saturated when some component sits at `+-lim`.
pub open spec fn spec_is_sat(s: (i8, i8, i8), lim: i8) -> bool {
    ||| s.0 as int == lim as int
    ||| s.0 as int == -(lim as int)
    ||| s.1 as int == lim as int
    ||| s.1 as int == -(lim as int)
    ||| s.2 as int == lim as int
    ||| s.2 as int == -(lim as int)
}

/// The floor quotient brackets its argument: `p*(r/p) <= r < p*(r/p) + p`.
pub proof fn lemma_floor_bracket(r: int, p: int)
    requires
        p > 0,
    ensures
        p * (r / p) <= r < p * (r / p) + p,
{
    vstd::arithmetic::div_mod::lemma_fundamental_div_mod(r, p);
    vstd::arithmetic::div_mod::lemma_mod_bound(r, p);
}

/// Relates the saturation tests on the quotient to bounds on the raw
/// residual.
pub proof fn lemma_sat_ranges(r: int, p: int)
    requires
        p > 0,
    ensures
        r / p >= 127 ==> r >= 127 * p,
        r / p <= -127 ==> r <= -126 * p - 1,
        -127 < r / p < 127 ==> -126 * p <= r <= 127 * p - 1,
{
    lemma_floor_bracket(r, p);
    let q = r / p;
    if q >= 127 {
        vstd::arithmetic::mul::lemma_mul_inequality(127, q, p);
        assert(127 * p == p * 127 && q * p == p * q) by (nonlinear_arith);
    }
    if q <= -127 {
        vstd::arithmetic::mul::lemma_mul_inequality(q, -127, p);
        assert((-127) * p == p * (-127) && q * p == p * q) by (nonlinear_arith);
    }
    if -127 < q < 127 {
        vstd::arithmetic::mul::lemma_mul_inequality(-126, q, p);
        vstd::arithmetic::mul::lemma_mul_inequality(q, 126, p);
        assert((-126) * p == p * (-126) && 126 * p == p * 126 && q * p == p * q)
            by (nonlinear_arith);
    }
}

/// How many saturated symbols a raw residual component still produces
/// before one fits: zero once the quotient is strictly inside `(-127, 127)`,
/// else one more than after peeling `127 * 2^qp` off.
pub open spec fn spec_sat_rounds(r: int, qp: u8) -> nat
    decreases (if r < 0 { -r } else { r }),
{
    let p = pow2(qp as nat) as int;
    if p < 1 {
        0
    } else if r / p >= 127 {
        proof {
            lemma_sat_ranges(r, p);
        }
        1 + spec_sat_rounds(r - 127 * p, qp)
    } else if r / p <= -127 {
        proof {
            lemma_sat_ranges(r, p);
        }
        1 + spec_sat_rounds(r + 127 * p, qp)
    } else {
        0
    }
}

/// Joint termination measure of the saturation loop: rounds left over the
/// three components.
pub open spec fn spec_sat_measure(dv: Vec3, qp: u8) -> nat {
    spec_sat_rounds(dv.x.v as int, qp) + spec_sat_rounds(dv.y.v as int, qp) + spec_sat_rounds(
        dv.z.v as int,
        qp,
    )
}

/// What the saturation loop emits for one residual, starting from the
/// accumulated dequantized sum `sum`: the flattened symbols and the final
/// sum, quantizing and subtracting until a triple is unsaturated.
pub open spec fn spec_quant_inner(dv: Vec3, sum: Vec3, qp: u8) -> (Seq<i8>, Vec3)
    decreases spec_sat_measure(dv, qp),
    via spec_quant_inner_decreases
{
    let s = spec_quant_triple(dv, qp);
    let ds = spec_dequant_triple(s, qp);
    let sum2 = spec_vadd(sum, ds);
    let dv2 = spec_vsub(dv, ds);
    let head = seq![s.0, s.1, s.2];
    if spec_is_sat(s, 127) {
        let rest = spec_quant_inner(dv2, sum2, qp);
        (head + rest.0, rest.1)
    } else {
        (head, sum2)
    }
}

/// One saturation-loop step on a single component: quantize, dequantize,
/// subtract. A saturated component loses exactly one round; an unsaturated
/// one stays at zero rounds.
proof fn lemma_sat_step(r: i32, qp: u8)
    requires
        qp <= 30,
    ensures
        ({
            let s = spec_quant_one(r, qp, 127);
            let ds = spec_dequant_one_c(s, qp);
            let r2 = crop32(r - ds.v);
            &&& (s as int == 127 || s as int == -127) ==> spec_sat_rounds(r2 as int, qp)
                == spec_sat_rounds(r as int, qp) - 1
            &&& (s as int != 127 && s as int != -127) ==> spec_sat_rounds(r as int, qp) == 0
                && spec_sat_rounds(r2 as int, qp) == 0
        }),
{
    let p = pow2(qp as nat) as int;
    assert(1 <= p <= 0x40000000) by {
        vstd::arithmetic::power2::lemma_pow2_pos(qp as nat);
        vstd::arithmetic::power2::lemma2_to64();
        if (qp as nat) < 30 {
            vstd::arithmetic::power2::lemma_pow2_strictly_increases(qp as nat, 30);
        }
    }
    lemma_sat_ranges(r as int, p);
    lemma_floor_bracket(r as int, p);
    let t = (r as int) / p;
    let s = spec_quant_one(r, qp, 127);
    if t >= 127 || t <= -127 {
        // saturation forces the quantization step below 2^25, so the
        // peeled-off amount 127 * 2^qp is representable
        assert(p <= 0x1000000) by {
            if qp >= 25 {
                vstd::arithmetic::power2::lemma_pow2_strictly_increases(24, qp as nat);
                vstd::arithmetic::power2::lemma2_to64();
            } else if qp <= 23 {
                vstd::arithmetic::power2::lemma_pow2_strictly_increases(qp as nat, 24);
                vstd::arithmetic::power2::lemma2_to64();
            } else {
                vstd::arithmetic::power2::lemma2_to64();
            }
        }
    }
    if t >= 127 {
        // saturates high: symbol 127, dequantizes to 127 * p with no wrap
        assert(s as int == 127);
        assert(r >= 127 * p);
        lemma_crop32_identity(127 * p);
        lemma_crop32_identity(r - 127 * p);
    } else if t <= -127 {
        assert(s as int == -127);
        assert(r <= -126 * p - 1);
        lemma_crop32_identity((-127) * p);
        lemma_crop32_identity(r + 127 * p);
        assert((-127) * p == -(127 * p)) by (nonlinear_arith);
    } else {
        // fits: symbol is the quotient, the new residual is the remainder
        assert(s as int == t);
        assert(t * p >= -0x80000000) by {
            vstd::arithmetic::div_mod::lemma_div_is_ordered(-0x80000000, r as int, p);
            vstd::arithmetic::power2::lemma_pow2_adds(qp as nat, (31 - qp) as nat);
            let h = pow2((31 - qp) as nat) as int;
            assert(pow2(31) == 0x80000000) by {
                vstd::arithmetic::power2::lemma2_to64();
            }
            assert(p * h == 0x80000000);
            assert((p * (-h)) / p == -h) by {
                vstd::arithmetic::div_mod::lemma_div_multiples_vanish(-h, p);
            }
            assert(p * (-h) == -(p * h)) by (nonlinear_arith);
            assert(t >= -h);
            vstd::arithmetic::mul::lemma_mul_inequality(-h, t, p);
            assert((-h) * p == -(h * p) && h * p == p * h && t * p == p * t) by (nonlinear_arith);
        }
        assert(t * p == p * t) by (nonlinear_arith);
        lemma_crop32_identity(t * p);
        lemma_crop32_identity(r - t * p);
        let r2 = r - p * t;
        assert(0 <= r2 < p);
        assert(r2 / p == 0) by {
            vstd::arithmetic::div_mod::lemma_basic_div(r2, p);
        }
    }
}

#[via_fn]
proof fn spec_quant_inner_decreases(dv: Vec3, sum: Vec3, qp: u8) {
    let s = spec_quant_triple(dv, qp);
    let ds = spec_dequant_triple(s, qp);
    let dv2 = spec_vsub(dv, ds);
    if spec_is_sat(s, 127) {
        if qp <= 30 {
            lemma_sat_step(dv.x.v, qp);
            lemma_sat_step(dv.y.v, qp);
            lemma_sat_step(dv.z.v, qp);
        } else {
            // the quotient by 2^qp of any i32 is 0 or -1, so nothing saturates
            let p = pow2(qp as nat) as int;
            assert(p >= 0x80000000) by {
                vstd::arithmetic::power2::lemma2_to64();
                vstd::arithmetic::power2::lemma2_to64_rest();
                if (qp as nat) > 31 {
                    vstd::arithmetic::power2::lemma_pow2_strictly_increases(31, qp as nat);
                }
            }
            lemma_no_sat_wide(dv.x.v as int, p);
            lemma_no_sat_wide(dv.y.v as int, p);
            lemma_no_sat_wide(dv.z.v as int, p);
        }
    }
}

/// With a modulus of `2^31` or more, the floor quotient of an `i32` is `0`
/// or `-1`, so no symbol can reach the saturation limit.
proof fn lemma_no_sat_wide(r: int, p: int)
    requires
        p >= 0x80000000,
        -0x80000000 <= r <= 0x7fffffff,
    ensures
        -1 <= r / p <= 0,
{
    if r >= 0 {
        vstd::arithmetic::div_mod::lemma_basic_div(r, p);
    } else {
        vstd::arithmetic::div_mod::lemma_fundamental_div_mod_converse_div(r, p, -1, r + p);
    }
}

/// What quantizing one input quaternion does to the state: the residual
/// rotation against the prediction is taken through the logarithmic map,
/// quantized through the saturation loop, and folded back; the returned
/// error is the angle between the input and the reconstruction. `None`
/// marks an input on which the fixed-point pipeline leaves the domain of
/// the square root or the logarithmic map, where no value is defined.
#[verifier::opaque]
pub open spec fn spec_quant_step(st: State, q: Quat, qp: u8) -> Option<(State, Seq<i8>, Fix32)> {
    let dq = spec_qmul(spec_qconj(st.q), q);
    if !spec_to_rvec_ok(dq) {
        None
    } else {
        let dv0 = spec_vsub(spec_to_rvec(dq), st.v);
        let inner = spec_quant_inner(dv0, spec_vzero(), qp);
        let v2 = spec_vadd(st.v, inner.1);
        let qcand = spec_qmul(st.q, spec_from_rvec(v2));
        if !spec_qnorm_ok(qcand) {
            None
        } else {
            let q2 = spec_qnormalize_safe(qcand);
            let st2 = State { q: q2, v: v2 };
            let dq2 = spec_qmul(spec_qconj(q2), q);
            if !spec_to_rvec_ok(dq2) {
                None
            } else {
                let rv2 = spec_to_rvec(dq2);
                if spec_vsumsq(rv2).v < 0 {
                    None
                } else {
                    Some((st2, inner.0, spec_vnorm(rv2)))
                }
            }
        }
    }
}

/// What the encoder does to a run of quaternions, threading the state and
/// folding the largest error, with `cap` symbol bytes of room: `None` on
/// overrun or on a step outside the fixed-point domain.
pub open spec fn spec_quant_block_from(
    st: State,
    qs: Seq<Quat>,
    qp: u8,
    cap: int,
    maxerr: Fix32,
) -> Option<(State, Seq<i8>, Fix32)>
    decreases qs.len(),
{
    if qs.len() == 0 {
        Some((st, Seq::empty(), maxerr))
    } else {
        match spec_quant_step(st, qs[0], qp) {
            None => None,
            Some(stp) => {
                if stp.1.len() > cap {
                    None
                } else {
                    let m2 = if stp.2.v >= maxerr.v {
                        stp.2
                    } else {
                        maxerr
                    };
                    match spec_quant_block_from(
                        stp.0,
                        qs.subrange(1, qs.len() as int),
                        qp,
                        cap - stp.1.len(),
                        m2,
                    ) {
                        None => None,
                        Some(restr) => Some((restr.0, stp.1 + restr.1, restr.2)),
                    }
                }
            }
        }
    }
}

/// What `quant_block` returns for a state, inputs and buffer capacity:
/// final state, emitted symbols and largest angular error, or `None` when
/// the buffer is too small or a step leaves the fixed-point domain.
pub open spec fn spec_quant_block(st: State, qs: Seq<Quat>, qp: u8, cap: int) -> Option<
    (State, Seq<i8>, Fix32),
> {
    spec_quant_block_from(st, qs, qp, cap, Fix32 { v: 0 })
}

/// What consuming one triple does to the state: the velocity always
/// advances by the dequantized triple; an unsaturated triple additionally
/// advances the orientation and emits it. `None` marks a triple on which
/// the reconstruction leaves the square root's domain.
#[verifier::opaque]
pub open spec fn spec_dequant_step(st: State, s: (i8, i8, i8), qp: u8) -> Option<
    (State, Option<Quat>),
> {
    let ds = spec_dequant_triple(s, qp);
    let v2 = spec_vadd(st.v, ds);
    if spec_is_sat(s, 127) {
        Some((State { q: st.q, v: v2 }, None))
    } else {
        let qcand = spec_qmul(st.q, spec_from_rvec(v2));
        if !spec_qnorm_ok(qcand) {
            None
        } else {
            let q2 = spec_qnormalize_safe(qcand);
            Some((State { q: q2, v: v2 }, Some(q2)))
        }
    }
}

/// What the symbol-level decoder does to a run of triples with room for
/// `cap` more quaternions: the final state and the emitted quaternions,
/// or `None` on output overrun or a step outside the fixed-point domain.
/// Trailing bytes short of a triple are ignored.
pub open spec fn spec_dequant_block_from(st: State, syms: Seq<i8>, qp: u8, cap: int) -> Option<
    (State, Seq<Quat>),
>
    decreases syms.len(),
{
    if syms.len() < 3 {
        Some((st, Seq::empty()))
    } else {
        match spec_dequant_step(st, (syms[0], syms[1], syms[2]), qp) {
            None => None,
            Some(sp) => {
                let rest = syms.subrange(3, syms.len() as int);
                match sp.1 {
                    None => spec_dequant_block_from(sp.0, rest, qp, cap),
                    Some(qq) => {
                        if cap <= 0 {
                            None
                        } else {
                            match spec_dequant_block_from(sp.0, rest, qp, cap - 1) {
                                None => None,
                                Some(rr) => Some((rr.0, seq![qq] + rr.1)),
                            }
                        }
                    }
                }
            }
        }
    }
}

/// 2 to the `sh`-th power as an `i32`, for exponents up to 30.
fn pow2_i32(sh: u8) -> (r: i32)
    requires
        sh <= 30,
    ensures
        r == pow2(sh as nat),
        r >= 1,
{
    proof {
        if (sh as nat) < 30 {
            vstd::arithmetic::power2::lemma_pow2_strictly_increases(sh as nat, 30);
        }
        vstd::arithmetic::power2::lemma2_to64();
    }
    let p = pow2_i64(sh as u32);
    p as i32
}

/// Floor division of a raw component by `2^qp`: the arithmetic right shift
/// the wire format prescribes.
fn floor_div_p2(r: i32, qp: u8) -> (t: i32)
    requires
        qp <= 30,
    ensures
        t == (r as int) / (pow2(qp as nat) as int),
{
    let p = pow2_i32(qp);
    if r >= 0 {
        r / p
    } else {
        let num: i64 = -(r as i64);
        let q: i64 = (num + (p as i64) - 1) / (p as i64);
        proof {
            let pp = p as int;
            let qq = (num + pp - 1) / pp;
            vstd::arithmetic::div_mod::lemma_fundamental_div_mod(num + pp - 1, pp);
            vstd::arithmetic::div_mod::lemma_mod_bound(num + pp - 1, pp);
            vstd::arithmetic::div_mod::lemma_div_pos_is_pos(num + pp - 1, pp);
            let m0 = (num + pp - 1) % pp;
            // r == (-qq)*pp + (pp - 1 - m0), with the remainder in [0, pp)
            assert(r as int == (-qq) * pp + (pp - 1 - m0)) by (nonlinear_arith)
                requires
                    num + pp - 1 == pp * qq + m0,
                    num == -(r as int),
            ;
            vstd::arithmetic::div_mod::lemma_fundamental_div_mod_converse_div(
                r as int,
                pp,
                -qq,
                pp - 1 - m0,
            );
            // the quotient is at most the magnitude, so negation fits i32
            assert(num + pp - 1 <= num * pp) by (nonlinear_arith)
                requires
                    num >= 1,
                    pp >= 1,
            ;
            vstd::arithmetic::div_mod::lemma_div_is_ordered(num + pp - 1, num * pp, pp);
            assert((num * pp) / pp == num) by {
                vstd::arithmetic::div_mod::lemma_div_multiples_vanish(num as int, pp);
                assert(num * pp == pp * num) by (nonlinear_arith);
            }
        }
        (-q) as i32
    }
}

/// Multiply a symbol back up by `2^qp`, wrapping to 32 bits as the
/// original left shift does.
fn shl_wrap(s: i8, qp: u8) -> (d: i32)
    requires
        qp <= 30,
    ensures
        d == crop32(s * pow2(qp as nat)),
{
    let p = pow2_i64(qp as u32);
    proof {
        if (qp as nat) < 30 {
            vstd::arithmetic::power2::lemma_pow2_strictly_increases(qp as nat, 30);
        }
        vstd::arithmetic::power2::lemma2_to64();
        assert(-0x8000000000 <= (s as int) * (p as int) <= 0x8000000000) by (nonlinear_arith)
            requires
                -128 <= s <= 127,
                1 <= p <= 0x40000000,
        ;
    }
    crop_i64_to_i32((s as i64) * p)
}

/// Quantize one residual component at limit `lim`.
fn quant_one(f: Fix32, scale: u8, lim: i8) -> (s: i8)
    requires
        scale <= 30,
        lim >= 0,
    ensures
        s == spec_quant_one(f.v, scale, lim),
{
    let t = floor_div_p2(f.v, scale);
    if -(lim as i32) <= t && t <= lim as i32 {
        t as i8
    } else if f.v < 0 {
        -lim
    } else {
        lim
    }
}

/// Quantize a residual vector into a signed-byte triple, saturating at
/// `+-lim` with the sign of the component.
fn quant_update(update: RVec, scale: u8, lim: i8) -> (r: [i8; 3])
    requires
        scale <= 30,
        lim >= 0,
    ensures
        r@[0] == spec_quant_one(update.x.v, scale, lim),
        r@[1] == spec_quant_one(update.y.v, scale, lim),
        r@[2] == spec_quant_one(update.z.v, scale, lim),
{
    [quant_one(update.x, scale, lim), quant_one(update.y, scale, lim), quant_one(
        update.z,
        scale,
        lim,
    )]
}

/// Scale a triple back into a raw residual vector.
fn dequant_update(update: [i8; 3], scale: u8) -> (r: RVec)
    requires
        scale <= 30,
    ensures
        r == spec_dequant_triple((update@[0], update@[1], update@[2]), scale),
{
    RVec::new(
        Fix::from_raw(shl_wrap(update[0], scale)),
        Fix::from_raw(shl_wrap(update[1], scale)),
        Fix::from_raw(shl_wrap(update[2], scale)),
    )
}

/// Whether some component of the triple sits at `+-lim`.
fn is_saturated(v: [i8; 3], lim: i8) -> (r: bool)
    requires
        lim >= 0,
    ensures
        r == spec_is_sat((v@[0], v@[1], v@[2]), lim),
{
    v[0] == lim || v[0] == -lim || v[1] == lim || v[1] == -lim || v[2] == lim || v[2] == -lim
}

/// How one quantization step ended: symbols written and state advanced,
/// the output buffer ran out, or the fixed-point pipeline left the domain
/// of its square root or logarithmic map.
#[derive(Copy, Clone, PartialEq, Eq, Structural)]
enum QuantStepOut {
    /// Step done: successor state, new write position, angular error.
    Fits(State, usize, Fix32),
    /// The output buffer cannot hold this step's triples.
    Overrun,
    /// A fixed-point intermediate left the representable domain.
    Breakdown,
}

/// The saturation loop always emits at least one triple.
proof fn lemma_inner_at_least_one(dv: Vec3, sum: Vec3, qp: u8)
    ensures
        spec_quant_inner(dv, sum, qp).0.len() >= 3,
{
}

/// Run the saturation loop for one residual, writing triples into `out`
/// from `pos` on: the new write position and the accumulated dequantized
/// sum, or `None` when the buffer runs out.
#[verifier::rlimit(60)]
fn quant_inner_ex(dv0: Vec3, qp: u8, out: &mut Vec<i8>, pos: usize) -> (r: Option<(usize, Vec3)>)
    requires
        qp <= 30,
        pos <= old(out).len(),
    ensures
        final(out)@.len() == old(out)@.len(),
        final(out)@.subrange(0, pos as int) == old(out)@.subrange(0, pos as int),
        ({
            let inner = spec_quant_inner(dv0, spec_vzero(), qp);
            if pos + inner.0.len() <= old(out)@.len() {
                &&& r == Some(((pos + inner.0.len()) as usize, inner.1))
                &&& final(out)@.subrange(pos as int, pos + inner.0.len()) == inner.0
                &&& final(out)@.subrange(pos + inner.0.len(), final(out)@.len() as int)
                    == old(out)@.subrange(pos + inner.0.len(), old(out)@.len() as int)
            } else {
                r == None::<(usize, Vec3)>
            }
        }),
{
    let mut v_update = dv0;
    let mut sum = Vec3::default();
    let mut bytes: usize = pos;
    loop
        invariant
            qp <= 30,
            pos <= bytes <= out@.len(),
            out@.len() == old(out)@.len(),
            out@.subrange(0, pos as int) == old(out)@.subrange(0, pos as int),
            out@.subrange(bytes as int, out@.len() as int) == old(out)@.subrange(
                bytes as int,
                old(out)@.len() as int,
            ),
            spec_quant_inner(dv0, spec_vzero(), qp) == {
                let cur = spec_quant_inner(v_update, sum, qp);
                (out@.subrange(pos as int, bytes as int) + cur.0, cur.1)
            },
        decreases spec_sat_measure(v_update, qp),
    {
        let ghost dv_pre = v_update;
        let upd = quant_update(v_update, qp, 127);
        let ds = dequant_update(upd, qp);
        sum = sum.add(ds);
        v_update = v_update.sub(ds);
        let cont = is_saturated(upd, 127);
        proof {
            let spre = spec_quant_triple(dv_pre, qp);
            assert(spre == (upd@[0], upd@[1], upd@[2]));
            lemma_sat_step(dv_pre.x.v, qp);
            lemma_sat_step(dv_pre.y.v, qp);
            lemma_sat_step(dv_pre.z.v, qp);
            lemma_inner_at_least_one(v_update, sum, qp);
        }
        if out.len() - bytes < 3 {
            return None;
        }
        let b0 = bytes;
        let ghost pre = out@;
        out.set(bytes, upd[0]);
        out.set(bytes + 1, upd[1]);
        out.set(bytes + 2, upd[2]);
        bytes = bytes + 3;
        proof {
            let spre = spec_quant_triple(dv_pre, qp);
            assert forall|j: int| 0 <= j < out@.len() && !(b0 <= j < b0 + 3) implies out@[j]
                == pre[j] by {}
            assert forall|j: int| b0 + 3 <= j < out@.len() implies out@[j] == old(out)@[j] by {
                assert(pre[j] == pre.subrange(b0 as int, pre.len() as int)[j - b0]);
                assert(old(out)@[j] == old(out)@.subrange(b0 as int, old(out)@.len() as int)[j
                    - b0]);
            }
            assert forall|j: int| 0 <= j < pos implies out@[j] == old(out)@[j] by {
                assert(pre[j] == pre.subrange(0, pos as int)[j]);
                assert(old(out)@[j] == old(out)@.subrange(0, pos as int)[j]);
            }
            assert(out@.subrange(pos as int, bytes as int) =~= pre.subrange(
                pos as int,
                b0 as int,
            ) + seq![spre.0, spre.1, spre.2]);
            assert(out@.subrange(0, pos as int) =~= old(out)@.subrange(0, pos as int));
            assert(out@.subrange(bytes as int, out@.len() as int) =~= old(out)@.subrange(
                bytes as int,
                old(out)@.len() as int,
            ));
            assert(out@.subrange(pos as int, b0 as int) =~= pre.subrange(pos as int, b0 as int));
        }
        if !cont {
            return Some((bytes, sum));
        }
    }
}

/// Quantize one input quaternion into `out` starting at `pos`, mirroring
/// `spec_quant_step` and reporting overrun against the buffer's length.
#[verifier::rlimit(60)]
fn quant_step_ex(st: State, q: Quat, qp: u8, out: &mut Vec<i8>, pos: usize) -> (r: QuantStepOut)
    requires
        qp <= 30,
        pos <= old(out).len(),
    ensures
        final(out)@.len() == old(out)@.len(),
        final(out)@.subrange(0, pos as int) == old(out)@.subrange(0, pos as int),
        match spec_quant_step(st, q, qp) {
            None => r == QuantStepOut::Overrun || r == QuantStepOut::Breakdown,
            Some(stp) => {
                if pos + stp.1.len() <= old(out)@.len() {
                    &&& (r matches QuantStepOut::Fits(s1, np, e1) && s1 == stp.0 && np == pos
                        + stp.1.len() && e1 == stp.2)
                    &&& final(out)@.subrange(pos as int, pos + stp.1.len()) == stp.1
                    &&& final(out)@.subrange(pos + stp.1.len(), final(out)@.len() as int)
                        == old(out)@.subrange(pos + stp.1.len(), old(out)@.len() as int)
                } else {
                    r == QuantStepOut::Overrun
                }
            },
        },
{
    proof {
        reveal(spec_quant_step);
        reveal(crate::quat::spec_qsumsq);
    }
    let dq = st.q.conj().mul(q);
    let s3 = dq.x.mul(dq.x).add(dq.y.mul(dq.y)).add(dq.z.mul(dq.z));
    if s3.to_raw() > 0 && dq.w.to_raw() == i32::MIN {
        return QuantStepOut::Breakdown;
    }
    let dv0 = dq.to_rvec().sub(st.v);
    let inner = quant_inner_ex(dv0, qp, out, pos);
    match inner {
        None => QuantStepOut::Overrun,
        Some((bytes, sum)) => {
            let v2 = st.v.add(sum);
            let qcand = st.q.mul(Quat::from_rvec(&v2));
            let ss = qcand.w.mul(qcand.w).add(qcand.x.mul(qcand.x)).add(
                qcand.y.mul(qcand.y),
            ).add(qcand.z.mul(qcand.z));
            if ss.to_raw() < 0 {
                return QuantStepOut::Breakdown;
            }
            let mut tmp = qcand;
            let q2 = tmp.normalize_safe();
            let dq2 = q2.conj().mul(q);
            let t3 = dq2.x.mul(dq2.x).add(dq2.y.mul(dq2.y)).add(dq2.z.mul(dq2.z));
            if t3.to_raw() > 0 && dq2.w.to_raw() == i32::MIN {
                return QuantStepOut::Breakdown;
            }
            let rv2 = dq2.to_rvec();
            let r3 = rv2.x.mul(rv2.x).add(rv2.y.mul(rv2.y)).add(rv2.z.mul(rv2.z));
            if r3.to_raw() < 0 {
                return QuantStepOut::Breakdown;
            }
            let err = rv2.norm();
            QuantStepOut::Fits(State { q: q2, v: v2 }, bytes, err)
        },
    }
}

impl State {
    /// The starting prediction: identity orientation, zero velocity.
    pub fn new() -> (r: State)
        ensures
            r == (State { q: spec_qident(), v: spec_vzero() }),
    {
        State { q: Quat::default(), v: RVec::default() }
    }

    /// Quantize a run of quaternions into signed-byte triples, threading
    /// the prediction state.
    ///
    /// Returns exactly what `spec_quant_block` computes for the input and
    /// the buffer's length: `None` when the buffer is too small for the
    /// emitted triples or an input drives the fixed-point math out of its
    /// domain, else the successor state, the byte count and the largest
    /// angular error, with the symbols in `out`'s prefix and the rest of
    /// `out` untouched.
    #[verifier::rlimit(60)]
    pub fn quant_block(self, quats: &Vec<Quat>, qp: u8, out: &mut Vec<i8>) -> (r: Option<
        QuantResult,
    >)
        requires
            qp <= 30,
        ensures
            final(out)@.len() == old(out)@.len(),
            match spec_quant_block(self, quats@, qp, old(out)@.len() as int) {
                None => r == None::<QuantResult>,
                Some(res) => {
                    &&& res.1.len() <= old(out)@.len()
                    &&& (r matches Some(qres) && qres.new_state == res.0 && qres.bytes_put
                        == res.1.len() && qres.max_ang_err == res.2)
                    &&& final(out)@.subrange(0, res.1.len() as int) == res.1
                    &&& final(out)@.subrange(res.1.len() as int, final(out)@.len() as int)
                        == old(out)@.subrange(res.1.len() as int, old(out)@.len() as int)
                },
            },
    {
        let ghost cap0 = out@.len() as int;
        let mut bytes_put: usize = 0;
        let mut max_ang_err = Fix::from_i32(0);
        let mut new_state = self;
        let mut i: usize = 0;
        proof {
            crate::fix32::lemma_crop32_identity(0);
            assert(max_ang_err == Fix32 { v: 0 });
            assert(quats@.subrange(0, quats@.len() as int) =~= quats@);
            match spec_quant_block_from(self, quats@, qp, cap0, Fix32 { v: 0 }) {
                None => {},
                Some(rr) => {
                    assert(out@.subrange(0, 0) + rr.1 =~= rr.1);
                },
            }
        }
        while i < quats.len()
            invariant
                qp <= 30,
                i <= quats@.len(),
                bytes_put <= out@.len(),
                out@.len() == old(out)@.len(),
                cap0 == old(out)@.len() as int,
                out@.subrange(bytes_put as int, out@.len() as int) == old(out)@.subrange(
                    bytes_put as int,
                    old(out)@.len() as int,
                ),
                spec_quant_block(self, quats@, qp, cap0) == (match spec_quant_block_from(
                    new_state,
                    quats@.subrange(i as int, quats@.len() as int),
                    qp,
                    cap0 - bytes_put,
                    max_ang_err,
                ) {
                    None => None::<(State, Seq<i8>, Fix32)>,
                    Some(rr) => Some(
                        (rr.0, out@.subrange(0, bytes_put as int) + rr.1, rr.2),
                    ),
                }),
            decreases quats@.len() - i,
        {
            let ghost sub = quats@.subrange(i as int, quats@.len() as int);
            let ghost out_pre = out@;
            let q = quats[i];
            proof {
                assert(sub[0] == quats@[i as int]);
            }
            let st = quant_step_ex(new_state, q, qp, out, bytes_put);
            match st {
                QuantStepOut::Overrun => {
                    return None;
                },
                QuantStepOut::Breakdown => {
                    return None;
                },
                QuantStepOut::Fits(st1, newpos, err) => {
                    proof {
                        let stp = spec_quant_step(new_state, quats@[i as int], qp).unwrap();
                        assert(newpos == bytes_put + stp.1.len());
                        assert(bytes_put <= newpos <= out@.len());
                        assert(sub.subrange(1, sub.len() as int) =~= quats@.subrange(
                            i + 1,
                            quats@.len() as int,
                        ));
                        assert forall|j: int| 0 <= j < bytes_put implies out@[j] == out_pre[j] by {
                            assert(out@[j] == out@.subrange(0, bytes_put as int)[j]);
                            assert(out_pre[j] == out_pre.subrange(0, bytes_put as int)[j]);
                        }
                        assert forall|j: int| newpos <= j < out@.len() implies out@[j] == old(
                            out,
                        )@[j] by {
                            assert(out@[j] == out@.subrange(newpos as int, out@.len() as int)[j
                                - newpos]);
                            assert(out_pre[j] == out_pre.subrange(
                                newpos as int,
                                out_pre.len() as int,
                            )[j - newpos]);
                            assert(out_pre[j] == out_pre.subrange(
                                bytes_put as int,
                                out_pre.len() as int,
                            )[j - bytes_put]);
                            assert(old(out)@[j] == old(out)@.subrange(
                                bytes_put as int,
                                old(out)@.len() as int,
                            )[j - bytes_put]);
                        }
                        assert(out@.subrange(newpos as int, out@.len() as int) =~= old(
                            out,
                        )@.subrange(newpos as int, old(out)@.len() as int));
                        assert(out@.subrange(0, newpos as int) =~= out_pre.subrange(
                            0,
                            bytes_put as int,
                        ) + stp.1);
                    }
                    new_state = st1;
                    bytes_put = newpos;
                    max_ang_err = err.max(max_ang_err);
                    i = i + 1;
                },
            }
        }
        proof {
            assert(quats@.subrange(i as int, quats@.len() as int) =~= Seq::<Quat>::empty());
            assert(out@.subrange(0, bytes_put as int) + Seq::<i8>::empty() =~= out@.subrange(
                0,
                bytes_put as int,
            ));
        }
        Some(QuantResult { new_state, bytes_put, max_ang_err })
    }
}

/// Consume one triple, mirroring `spec_dequant_step`.
pub(crate) fn dequant_step_ex(st: State, upd: [i8; 3], qp: u8) -> (r: Option<(State, Option<Quat>)>)
    requires
        qp <= 30,
    ensures
        r == spec_dequant_step(st, (upd@[0], upd@[1], upd@[2]), qp),
{
    proof {
        reveal(spec_dequant_step);
        reveal(crate::quat::spec_qsumsq);
    }
    let ds = dequant_update(upd, qp);
    let v2 = st.v.add(ds);
    if is_saturated(upd, 127) {
        Some((State { q: st.q, v: v2 }, None))
    } else {
        let qcand = st.q.mul(Quat::from_rvec(&v2));
        let ss = qcand.w.mul(qcand.w).add(qcand.x.mul(qcand.x)).add(qcand.y.mul(qcand.y)).add(
            qcand.z.mul(qcand.z),
        );
        if ss.to_raw() < 0 {
            None
        } else {
            let mut tmp = qcand;
            let q2 = tmp.normalize_safe();
            Some((State { q: q2, v: v2 }, Some(q2)))
        }
    }
}

impl State {
    /// Consume one triple: always advance the velocity; on an unsaturated
    /// triple also advance and emit the orientation.
    ///
    /// The caller keeps the triple inside the fixed-point domain, as the
    /// decoder's driver does by checking first.
    pub fn dequant_one(&mut self, data: &[i8; 3], qp: u8) -> (r: Option<Quat>)
        requires
            qp <= 30,
            spec_dequant_step(*old(self), (data@[0], data@[1], data@[2]), qp).is_some(),
        ensures
            ({
                let sp = spec_dequant_step(*old(self), (data@[0], data@[1], data@[2]), qp).unwrap();
                &&& *final(self) == sp.0
                &&& r == sp.1
            }),
    {
        let r = dequant_step_ex(*self, [data[0], data[1], data[2]], qp);
        if let Some(p) = r {
            *self = p.0;
            p.1
        } else {
            None
        }
    }

    /// Reconstruct quaternions from a run of triples, threading the state.
    ///
    /// Returns exactly what `spec_dequant_block_from` computes for the
    /// symbols and `out`'s length: `None` when more quaternions decode
    /// than fit or a triple drives the fixed-point math out of its domain,
    /// else the successor state and the count, with the quaternions in
    /// `out`'s prefix and the rest of `out` untouched.
    #[verifier::rlimit(60)]
    pub fn dequant_block(self, data: &Vec<i8>, qp: u8, out: &mut Vec<Quat>) -> (r: Option<
        DequantResult,
    >)
        requires
            qp <= 30,
        ensures
            final(out)@.len() == old(out)@.len(),
            match spec_dequant_block_from(self, data@, qp, old(out)@.len() as int) {
                None => r == None::<DequantResult>,
                Some(res) => {
                    &&& res.1.len() <= old(out)@.len()
                    &&& (r matches Some(dres) && dres.new_state == res.0 && dres.quats_put
                        == res.1.len())
                    &&& final(out)@.subrange(0, res.1.len() as int) == res.1
                    &&& final(out)@.subrange(res.1.len() as int, final(out)@.len() as int)
                        == old(out)@.subrange(res.1.len() as int, old(out)@.len() as int)
                },
            },
    {
        let ghost cap0 = out@.len() as int;
        let mut quats_put: usize = 0;
        let mut new_state = self;
        let mut pos: usize = 0;
        proof {
            assert(data@.subrange(0, data@.len() as int) =~= data@);
            match spec_dequant_block_from(self, data@, qp, cap0) {
                None => {},
                Some(rr) => {
                    assert(out@.subrange(0, 0) + rr.1 =~= rr.1);
                },
            }
        }
        while pos < data.len() && data.len() - pos >= 3
            invariant
                qp <= 30,
                pos <= data@.len(),
                quats_put <= out@.len(),
                out@.len() == old(out)@.len(),
                cap0 == old(out)@.len() as int,
                out@.subrange(quats_put as int, out@.len() as int) == old(out)@.subrange(
                    quats_put as int,
                    old(out)@.len() as int,
                ),
                spec_dequant_block_from(self, data@, qp, cap0) == (match spec_dequant_block_from(
                    new_state,
                    data@.subrange(pos as int, data@.len() as int),
                    qp,
                    cap0 - quats_put,
                ) {
                    None => None::<(State, Seq<Quat>)>,
                    Some(rr) => Some((rr.0, out@.subrange(0, quats_put as int) + rr.1)),
                }),
            decreases data@.len() - pos,
        {
            let ghost sub = data@.subrange(pos as int, data@.len() as int);
            let upd = [data[pos], data[pos + 1], data[pos + 2]];
            proof {
                assert(sub[0] == data@[pos as int]);
                assert(sub[1] == data@[pos as int + 1]);
                assert(sub[2] == data@[pos as int + 2]);
                assert(sub.subrange(3, sub.len() as int) =~= data@.subrange(
                    pos + 3,
                    data@.len() as int,
                ));
            }
            let st = dequant_step_ex(new_state, upd, qp);
            match st {
                None => {
                    return None;
                },
                Some((st1, emitted)) => {
                    match emitted {
                        None => {
                            new_state = st1;
                        },
                        Some(qq) => {
                            if quats_put >= out.len() {
                                return None;
                            }
                            let ghost out_pre = out@;
                            out.set(quats_put, qq);
                            proof {
                                assert forall|j: int|
                                    0 <= j < out@.len() && j != quats_put implies out@[j]
                                    == out_pre[j] by {}
                                assert forall|j: int| quats_put + 1 <= j < out@.len() implies out@[j]
                                    == old(out)@[j] by {
                                    assert(out_pre[j] == out_pre.subrange(
                                        quats_put as int,
                                        out_pre.len() as int,
                                    )[j - quats_put]);
                                    assert(old(out)@[j] == old(out)@.subrange(
                                        quats_put as int,
                                        old(out)@.len() as int,
                                    )[j - quats_put]);
                                }
                                assert(out@.subrange(quats_put + 1, out@.len() as int)
                                    =~= old(out)@.subrange(quats_put + 1, old(out)@.len() as int));
                                assert(out@.subrange(0, quats_put + 1) =~= out_pre.subrange(
                                    0,
                                    quats_put as int,
                                ) + seq![qq]);
                                assert(out_pre.subrange(0, quats_put as int) =~= out@.subrange(
                                    0,
                                    quats_put as int,
                                ));
                                match spec_dequant_block_from(
                                    st1,
                                    data@.subrange(pos + 3, data@.len() as int),
                                    qp,
                                    cap0 - quats_put - 1,
                                ) {
                                    None => {},
                                    Some(rr) => {
                                        assert((out@.subrange(0, quats_put as int) + seq![qq])
                                            + rr.1 =~= out@.subrange(0, quats_put as int) + (seq![
                                            qq
                                        ] + rr.1));
                                        assert(out@.subrange(0, quats_put + 1) + rr.1
                                            =~= out@.subrange(0, quats_put as int) + (seq![qq]
                                            + rr.1));
                                    },
                                }
                            }
                            new_state = st1;
                            quats_put = quats_put + 1;
                        },
                    }
                },
            }
            pos = pos + 3;
        }
        proof {
            assert(data@.subrange(pos as int, data@.len() as int).len() < 3);
            assert(spec_dequant_block_from(
                new_state,
                data@.subrange(pos as int, data@.len() as int),
                qp,
                cap0 - quats_put,
            ) == Some((new_state, Seq::<Quat>::empty())));
            assert(out@.subrange(0, quats_put as int) + Seq::<Quat>::empty() =~= out@.subrange(
                0,
                quats_put as int,
            ));
        }
        Some(DequantResult { new_state, quats_put })
    }
}

/// Wrapping vector addition is associative.
proof fn lemma_vadd_assoc(a: Vec3, b: Vec3, c: Vec3)
    ensures
        spec_vadd(spec_vadd(a, b), c) == spec_vadd(a, spec_vadd(b, c)),
{
    crate::fix32::lemma_crop32_add(a.x.v + b.x.v, c.x.v as int);
    crate::fix32::lemma_crop32_add(a.y.v + b.y.v, c.y.v as int);
    crate::fix32::lemma_crop32_add(a.z.v + b.z.v, c.z.v as int);
    crate::fix32::lemma_crop32_mod(b.x.v + c.x.v);
    crate::fix32::lemma_crop32_mod(b.y.v + c.y.v);
    crate::fix32::lemma_crop32_mod(b.z.v + c.z.v);
    crate::quat::lemma_cong_add_pub(
        a.x.v as int,
        a.x.v as int,
        spec_vadd(b, c).x.v as int,
        b.x.v + c.x.v,
    );
    crate::fix32::lemma_crop32_congruent(a.x.v + spec_vadd(b, c).x.v, a.x.v + b.x.v + c.x.v);
    crate::quat::lemma_cong_add_pub(
        a.y.v as int,
        a.y.v as int,
        spec_vadd(b, c).y.v as int,
        b.y.v + c.y.v,
    );
    crate::fix32::lemma_crop32_congruent(a.y.v + spec_vadd(b, c).y.v, a.y.v + b.y.v + c.y.v);
    crate::quat::lemma_cong_add_pub(
        a.z.v as int,
        a.z.v as int,
        spec_vadd(b, c).z.v as int,
        b.z.v + c.z.v,
    );
    crate::fix32::lemma_crop32_congruent(a.z.v + spec_vadd(b, c).z.v, a.z.v + b.z.v + c.z.v);
}

/// Zero is a right identity of wrapping vector addition.
proof fn lemma_vadd_zero(v: Vec3)
    ensures
        spec_vadd(v, spec_vzero()) == v,
{
    crate::fix32::lemma_crop32_identity(v.x.v as int);
    crate::fix32::lemma_crop32_identity(v.y.v as int);
    crate::fix32::lemma_crop32_identity(v.z.v as int);
}

/// Replaying one saturation group through the decoder: the velocity
/// accumulates exactly the group's dequantized sum, the saturated triples
/// emit nothing, and the final unsaturated triple reconstructs the same
/// orientation the encoder folded in.
#[verifier::rlimit(100)]
#[verifier::spinoff_prover]
proof fn lemma_dequant_group(
    dv: Vec3,
    sum: Vec3,
    qp: u8,
    s0: State,
    vorig: Vec3,
    rest: Seq<i8>,
    cap: int,
)
    requires
        qp <= 30,
        s0.v == spec_vadd(vorig, sum),
    ensures
        ({
            let inner = spec_quant_inner(dv, sum, qp);
            spec_dequant_block_from(s0, inner.0 + rest, qp, cap) == ({
                let vf = spec_vadd(vorig, inner.1);
                let qcand = spec_qmul(s0.q, spec_from_rvec(vf));
                if !spec_qnorm_ok(qcand) {
                    None::<(State, Seq<Quat>)>
                } else if cap <= 0 {
                    None
                } else {
                    let q2 = spec_qnormalize_safe(qcand);
                    match spec_dequant_block_from(State { q: q2, v: vf }, rest, qp, cap - 1) {
                        None => None,
                        Some(rr) => Some((rr.0, seq![q2] + rr.1)),
                    }
                }
            })
        }),
    decreases spec_sat_measure(dv, qp),
{
    reveal(spec_dequant_step);
    let st = spec_quant_triple(dv, qp);
    let ds = spec_dequant_triple(st, qp);
    let sum2 = spec_vadd(sum, ds);
    let dv2 = spec_vsub(dv, ds);
    let head = seq![st.0, st.1, st.2];
    let inner = spec_quant_inner(dv, sum, qp);
    lemma_vadd_assoc(vorig, sum, ds);
    if spec_is_sat(st, 127) {
        let inner2 = spec_quant_inner(dv2, sum2, qp);
        lemma_sat_step(dv.x.v, qp);
        lemma_sat_step(dv.y.v, qp);
        lemma_sat_step(dv.z.v, qp);
        lemma_dequant_group(dv2, sum2, qp, State { q: s0.q, v: spec_vadd(s0.v, ds) }, vorig, rest, cap);
        let all = inner.0 + rest;
        assert(all[0] == st.0 && all[1] == st.1 && all[2] == st.2);
        assert(all.subrange(3, all.len() as int) =~= inner2.0 + rest);
        assert(spec_dequant_step(s0, (all[0], all[1], all[2]), qp) == Some(
            (State { q: s0.q, v: spec_vadd(s0.v, ds) }, None::<Quat>),
        ));
    } else {
        let all = head + rest;
        assert(inner.0 + rest =~= all);
        assert(all[0] == st.0 && all[1] == st.1 && all[2] == st.2);
        assert(all.subrange(3, all.len() as int) =~= rest);
        let vf = spec_vadd(s0.v, ds);
        assert(vf == spec_vadd(vorig, sum2));
        let qcand = spec_qmul(s0.q, spec_from_rvec(vf));
        if !spec_qnorm_ok(qcand) {
            assert(spec_dequant_step(s0, (all[0], all[1], all[2]), qp) is None);
        } else {
            let q2 = spec_qnormalize_safe(qcand);
            assert(spec_dequant_step(s0, (all[0], all[1], all[2]), qp) == Some(
                (State { q: q2, v: vf }, Some(q2)),
            ));
        }
    }
}

/// The orientations the encoder reconstructs, one per input quaternion.
pub open spec fn spec_quant_traj(st: State, qs: Seq<Quat>, qp: u8) -> Seq<Quat>
    decreases qs.len(),
{
    if qs.len() == 0 {
        Seq::empty()
    } else {
        match spec_quant_step(st, qs[0], qp) {
            None => Seq::empty(),
            Some(stp) => seq![stp.0.q] + spec_quant_traj(
                stp.0,
                qs.subrange(1, qs.len() as int),
                qp,
            ),
        }
    }
}

/// The shape of a successful quantization step: its symbols are the
/// saturation group of the residual, and its successor state folds the
/// group's sum into the velocity and renormalizes the advanced
/// orientation.
proof fn lemma_step_shape(st: State, q: Quat, qp: u8)
    requires
        spec_quant_step(st, q, qp) is Some,
    ensures
        ({
            let stp = spec_quant_step(st, q, qp).unwrap();
            let dq = spec_qmul(spec_qconj(st.q), q);
            let dv0 = spec_vsub(spec_to_rvec(dq), st.v);
            let inner = spec_quant_inner(dv0, spec_vzero(), qp);
            let vf = spec_vadd(st.v, inner.1);
            let qcand = spec_qmul(st.q, spec_from_rvec(vf));
            &&& spec_qnorm_ok(qcand)
            &&& stp.1 == inner.0
            &&& stp.0 == State { q: spec_qnormalize_safe(qcand), v: vf }
        }),
{
    reveal(spec_quant_step);
}

/// Generalized decoder replay: running the decoder over the encoder's
/// symbols ahead of any remaining stream reproduces the encoder's final
/// state and its reconstruction trajectory.
#[verifier::rlimit(100)]
#[verifier::spinoff_prover]
proof fn lemma_mirror_gen(
    st: State,
    qs: Seq<Quat>,
    qp: u8,
    cap: int,
    maxerr: Fix,
    rest: Seq<i8>,
    capq: int,
)
    requires
        qp <= 30,
        capq >= qs.len(),
        spec_quant_block_from(st, qs, qp, cap, maxerr) is Some,
    ensures
        ({
            let res = spec_quant_block_from(st, qs, qp, cap, maxerr).unwrap();
            spec_dequant_block_from(st, res.1 + rest, qp, capq) == (match spec_dequant_block_from(
                res.0,
                rest,
                qp,
                capq - qs.len(),
            ) {
                None => None::<(State, Seq<Quat>)>,
                Some(rr) => Some((rr.0, spec_quant_traj(st, qs, qp) + rr.1)),
            })
        }),
    decreases qs.len(),
{
    let res = spec_quant_block_from(st, qs, qp, cap, maxerr).unwrap();
    if qs.len() == 0 {
        assert(res.1 + rest =~= rest);
        match spec_dequant_block_from(res.0, rest, qp, capq) {
            None => {},
            Some(rr) => {
                assert(spec_quant_traj(st, qs, qp) + rr.1 =~= rr.1);
            },
        }
    } else {
        let stp = spec_quant_step(st, qs[0], qp).unwrap();
        let tail = qs.subrange(1, qs.len() as int);
        let m2 = if stp.2.v >= maxerr.v {
            stp.2
        } else {
            maxerr
        };
        let res2 = spec_quant_block_from(stp.0, tail, qp, cap - stp.1.len(), m2).unwrap();
        // the step's emitted group and successor state
        lemma_step_shape(st, qs[0], qp);
        let dq = spec_qmul(spec_qconj(st.q), qs[0]);
        let dv0 = spec_vsub(spec_to_rvec(dq), st.v);
        let inner = spec_quant_inner(dv0, spec_vzero(), qp);
        lemma_vadd_zero(st.v);
        lemma_dequant_group(dv0, spec_vzero(), qp, st, st.v, res2.1 + rest, capq);
        assert(res.1 + rest =~= inner.0 + (res2.1 + rest));
        lemma_mirror_gen(stp.0, tail, qp, cap - stp.1.len(), m2, rest, capq - 1);
        let vf = spec_vadd(st.v, inner.1);
        let qcand = spec_qmul(st.q, spec_from_rvec(vf));
        let q2 = spec_qnormalize_safe(qcand);
        assert(stp.0 == State { q: q2, v: vf });
        match spec_dequant_block_from(res.0, rest, qp, capq - qs.len()) {
            None => {},
            Some(rr) => {
                assert(seq![q2] + (spec_quant_traj(stp.0, tail, qp) + rr.1) =~= (seq![q2]
                    + spec_quant_traj(stp.0, tail, qp)) + rr.1);
                assert(spec_quant_traj(st, qs, qp) =~= seq![q2] + spec_quant_traj(
                    stp.0,
                    tail,
                    qp,
                ));
            },
        }
    }
}

/// The trajectory has one entry per input whenever the encoder succeeds.
proof fn lemma_traj_len(st: State, qs: Seq<Quat>, qp: u8, cap: int, maxerr: Fix)
    requires
        spec_quant_block_from(st, qs, qp, cap, maxerr) is Some,
    ensures
        spec_quant_traj(st, qs, qp).len() == qs.len(),
    decreases qs.len(),
{
    if qs.len() > 0 {
        let stp = spec_quant_step(st, qs[0], qp).unwrap();
        let m2 = if stp.2.v >= maxerr.v {
            stp.2
        } else {
            maxerr
        };
        lemma_traj_len(stp.0, qs.subrange(1, qs.len() as int), qp, cap - stp.1.len(), m2);
    }
}

/// Decoding mirrors encoding: running the symbol-level decoder over what
/// the encoder emitted, with room for exactly the input count,
/// reconstructs the encoder's final state and the orientation it
/// predicted after every input quaternion. The decoder therefore tracks
/// the encoder bit for bit, which is what lets the encoder's recorded
/// angular error bound the decoder's true reconstruction error.
pub proof fn lemma_dequant_mirrors_quant(st: State, qs: Seq<Quat>, qp: u8, cap: int)
    requires
        qp <= 30,
        spec_quant_block(st, qs, qp, cap) is Some,
    ensures
        ({
            let res = spec_quant_block(st, qs, qp, cap).unwrap();
            &&& spec_dequant_block_from(st, res.1, qp, qs.len() as int) == Some(
                (res.0, spec_quant_traj(st, qs, qp)),
            )
            &&& spec_quant_traj(st, qs, qp).len() == qs.len()
        }),
{
    let res = spec_quant_block(st, qs, qp, cap).unwrap();
    lemma_mirror_gen(st, qs, qp, cap, Fix32 { v: 0 }, Seq::empty(), qs.len() as int);
    lemma_traj_len(st, qs, qp, cap, Fix32 { v: 0 });
    assert(res.1 + Seq::<i8>::empty() =~= res.1);
    assert(spec_dequant_block_from(res.0, Seq::empty(), qp, 0) == Some(
        (res.0, Seq::<Quat>::empty()),
    ));
    assert(spec_quant_traj(st, qs, qp) + Seq::<Quat>::empty() =~= spec_quant_traj(st, qs, qp));
}

/// Splitting an input run into blocks and threading the returned state
/// produces the same symbols, the same final state and the same running
/// error as encoding the concatenated run in one call (with the capacity
/// split accordingly): block boundaries are invisible to the quantizer.
pub proof fn lemma_quant_block_concat(
    st: State,
    qs1: Seq<Quat>,
    qs2: Seq<Quat>,
    qp: u8,
    cap: int,
    maxerr: Fix,
)
    ensures
        spec_quant_block_from(st, qs1 + qs2, qp, cap, maxerr) == (match spec_quant_block_from(
            st,
            qs1,
            qp,
            cap,
            maxerr,
        ) {
            None => None::<(State, Seq<i8>, Fix32)>,
            Some(r1) => match spec_quant_block_from(r1.0, qs2, qp, cap - r1.1.len(), r1.2) {
                None => None,
                Some(r2) => Some((r2.0, r1.1 + r2.1, r2.2)),
            },
        }),
    decreases qs1.len(),
{
    if qs1.len() == 0 {
        assert(qs1 + qs2 =~= qs2);
        match spec_quant_block_from(st, qs2, qp, cap, maxerr) {
            None => {},
            Some(r2) => {
                assert(Seq::<i8>::empty() + r2.1 =~= r2.1);
            },
        }
    } else {
        let all = qs1 + qs2;
        assert(all[0] == qs1[0]);
        assert(all.subrange(1, all.len() as int) =~= qs1.subrange(1, qs1.len() as int) + qs2);
        match spec_quant_step(st, qs1[0], qp) {
            None => {},
            Some(stp) => {
                if stp.1.len() <= cap {
                    let m2 = if stp.2.v >= maxerr.v {
                        stp.2
                    } else {
                        maxerr
                    };
                    lemma_quant_block_concat(
                        stp.0,
                        qs1.subrange(1, qs1.len() as int),
                        qs2,
                        qp,
                        cap - stp.1.len(),
                        m2,
                    );
                    match spec_quant_block_from(
                        stp.0,
                        qs1.subrange(1, qs1.len() as int),
                        qp,
                        cap - stp.1.len(),
                        m2,
                    ) {
                        None => {},
                        Some(r1t) => {
                            match spec_quant_block_from(
                                r1t.0,
                                qs2,
                                qp,
                                cap - stp.1.len() - r1t.1.len(),
                                r1t.2,
                            ) {
                                None => {},
                                Some(r2) => {
                                    assert(stp.1 + (r1t.1 + r2.1) =~= (stp.1 + r1t.1) + r2.1);
                                },
                            }
                        },
                    }
                }
            },
        }
    }
}

/// For a nonnegative residual component the number of saturated rounds is
/// exactly the residual divided by `127 * 2^qp`.
pub proof fn lemma_sat_rounds_formula(r: int, qp: u8)
    requires
        0 <= r,
        qp <= 30,
    ensures
        spec_sat_rounds(r, qp) == r / (127 * pow2(qp as nat) as int),
    decreases r,
{
    let p = pow2(qp as nat) as int;
    vstd::arithmetic::power2::lemma_pow2_pos(qp as nat);
    let d = 127 * p;
    lemma_sat_ranges(r, p);
    vstd::arithmetic::div_mod::lemma_div_pos_is_pos(r, p);
    if r / p >= 127 {
        lemma_sat_rounds_formula(r - d, qp);
        vstd::arithmetic::div_mod::lemma_hoist_over_denominator(r - d, 1, d as nat);
    } else {
        assert(r <= 127 * p - 1);
        vstd::arithmetic::div_mod::lemma_basic_div(r, d);
    }
}

/// The larger of two integers.
pub open spec fn spec_max2(a: int, b: int) -> int {
    if a >= b {
        a
    } else {
        b
    }
}

/// How many triples the saturation loop emits: one more than the largest
/// per-component round count; every triple but the last is saturated and
/// the last is not.
pub proof fn lemma_quant_inner_count(dv: Vec3, sum: Vec3, qp: u8)
    requires
        qp <= 30,
    ensures
        ({
            let gs = spec_quant_inner(dv, sum, qp).0;
            &&& gs.len() == 3 * (1 + spec_max2(
                spec_sat_rounds(dv.x.v as int, qp) as int,
                spec_max2(
                    spec_sat_rounds(dv.y.v as int, qp) as int,
                    spec_sat_rounds(dv.z.v as int, qp) as int,
                ),
            ))
            &&& forall|k: int|
                0 <= k && 3 * k + 3 <= gs.len() ==> (#[trigger] spec_is_sat(
                    (gs[3 * k], gs[3 * k + 1], gs[3 * k + 2]),
                    127,
                ) <==> 3 * k + 3 < gs.len())
        }),
    decreases spec_sat_measure(dv, qp),
{
    let s = spec_quant_triple(dv, qp);
    let ds = spec_dequant_triple(s, qp);
    let sum2 = spec_vadd(sum, ds);
    let dv2 = spec_vsub(dv, ds);
    let gs = spec_quant_inner(dv, sum, qp).0;
    lemma_sat_step(dv.x.v, qp);
    lemma_sat_step(dv.y.v, qp);
    lemma_sat_step(dv.z.v, qp);
    if spec_is_sat(s, 127) {
        lemma_quant_inner_count(dv2, sum2, qp);
        let gs2 = spec_quant_inner(dv2, sum2, qp).0;
        assert(gs =~= seq![s.0, s.1, s.2] + gs2);
        assert forall|k: int|
            0 <= k && 3 * k + 3 <= gs.len() implies (#[trigger] spec_is_sat(
                (gs[3 * k], gs[3 * k + 1], gs[3 * k + 2]),
                127,
            ) <==> 3 * k + 3 < gs.len()) by {
            if k == 0 {
                assert(gs[0] == s.0 && gs[1] == s.1 && gs[2] == s.2);
                assert(gs2.len() >= 3) by {
                    lemma_inner_at_least_one(dv2, sum2, qp);
                }
            } else {
                assert(gs[3 * k] == gs2[3 * (k - 1)] && gs[3 * k + 1] == gs2[3 * (k - 1) + 1]
                    && gs[3 * k + 2] == gs2[3 * (k - 1) + 2]);
            }
        }
    } else {
        assert(gs =~= seq![s.0, s.1, s.2]);
    }
}

/// Saturation handling, for componentwise nonnegative residuals: a
/// residual whose largest component is `r` produces exactly
/// `r / (127 * 2^qp) + 1` triples, the first of each run saturated and
/// only the last one not.
pub proof fn lemma_saturation_count(dv: Vec3, qp: u8)
    requires
        qp <= 30,
        dv.x.v >= 0,
        dv.y.v >= 0,
        dv.z.v >= 0,
    ensures
        ({
            let gs = spec_quant_inner(dv, spec_vzero(), qp).0;
            let d = 127 * pow2(qp as nat) as int;
            &&& gs.len() == 3 * (1 + spec_max2(
                dv.x.v as int / d,
                spec_max2(dv.y.v as int / d, dv.z.v as int / d),
            ))
            &&& forall|k: int|
                0 <= k && 3 * k + 3 <= gs.len() ==> (#[trigger] spec_is_sat(
                    (gs[3 * k], gs[3 * k + 1], gs[3 * k + 2]),
                    127,
                ) <==> 3 * k + 3 < gs.len())
        }),
{
    lemma_sat_rounds_formula(dv.x.v as int, qp);
    lemma_sat_rounds_formula(dv.y.v as int, qp);
    lemma_sat_rounds_formula(dv.z.v as int, qp);
    lemma_quant_inner_count(dv, spec_vzero(), qp);
}

} // verus!
