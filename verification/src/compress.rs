//! Block framer and entropy coder: a table-backed Laplace model, the rANS
//! byte coder, and the two-byte-header block format gluing the quantizer
//! to the coder.
//!
//! The model is a validated cumulative table. Its entries are configuration
//! data computed outside the core (a discretized two-sided Laplace
//! distribution); everything the coder relies on — strict monotonicity,
//! a zero start, a full-range end — is checked when the table is built,
//! so the coder's contracts hold for any accepted table.

use vstd::prelude::*;

verus! {

use vstd::arithmetic::power2::pow2;
use crate::quant::{State, spec_dequant_step, spec_quant_block};
use crate::quat::Quat;

/// An entropy model over the symbol alphabet `[-128, 128]`: a strictly
/// increasing cumulative table at a fixed-point precision of `scale` bits.
///
/// `entries[i]` is the cumulative weight of all symbols below `i - 127`;
/// below the alphabet the cumulative weight is zero and above it the full
/// `2^scale`.
pub struct LaplaceCdf {
    /// Cumulative weights for `x` in `[-127, 128]`, indexed by `x + 127`.
    pub entries: Vec<u32>,
    /// Precision of the model in bits; the weights sum to `2^scale`.
    pub scale: u32,
}

/// The cumulative weight of symbols below `x`.
pub open spec fn spec_cdf(mdl: LaplaceCdf, x: int) -> int {
    if x <= -128 {
        0
    } else if x > 128 {
        pow2(mdl.scale as nat) as int
    } else {
        mdl.entries[x + 127] as int
    }
}

/// A model the coder can run on: 256 interior entries, strictly increasing,
/// leaving a positive weight to every symbol of the alphabet, at a
/// precision between 1 and 23 bits.
pub open spec fn spec_cdf_wf(mdl: LaplaceCdf) -> bool {
    &&& mdl.entries.len() == 256
    &&& 1 <= mdl.scale <= 23
    &&& mdl.entries[0] >= 1
    &&& forall|i: int, j: int|
        0 <= i < j < 256 ==> #[trigger] mdl.entries[i] < #[trigger] mdl.entries[j]
    &&& mdl.entries[255] < pow2(mdl.scale as nat)
}

/// Entries of a well-formed table grow at least linearly, so every symbol's
/// weight stays `256` short of the full range.
pub proof fn lemma_cdf_gaps(mdl: LaplaceCdf, i: int, j: int)
    requires
        spec_cdf_wf(mdl),
        0 <= i <= j < 256,
    ensures
        mdl.entries[j] >= mdl.entries[i] + (j - i),
    decreases j - i,
{
    if i < j {
        lemma_cdf_gaps(mdl, i, j - 1);
    }
}

/// Bounds on one symbol's weight under a well-formed table: at least 1,
/// at most `2^scale - 256`, with the cumulative bounds to match.
pub proof fn lemma_cdf_sym_bounds(mdl: LaplaceCdf, s: int)
    requires
        spec_cdf_wf(mdl),
        -128 <= s <= 128,
    ensures
        0 <= spec_cdf(mdl, s),
        spec_cdf(mdl, s) < spec_cdf(mdl, s + 1),
        spec_cdf(mdl, s + 1) <= pow2(mdl.scale as nat),
        spec_cdf(mdl, s + 1) - spec_cdf(mdl, s) <= pow2(mdl.scale as nat) - 256,
{
    vstd::arithmetic::power2::lemma_pow2_pos(mdl.scale as nat);
    if s == -128 {
        lemma_cdf_gaps(mdl, 0, 255);
        assert(mdl.entries[0] >= 1);
    } else if s == 128 {
        lemma_cdf_gaps(mdl, 0, 255);
    } else {
        let i = s + 127;
        assert(mdl.entries[i] < mdl.entries[i + 1]);
        lemma_cdf_gaps(mdl, 0, i);
        lemma_cdf_gaps(mdl, i + 1, 255);
    }
}

/// The inverse lookup as a function: the smallest symbol in `[-128, 128]`
/// whose successor's cumulative weight exceeds `y`.
pub open spec fn spec_icdf_from(mdl: LaplaceCdf, y: int, x: int) -> int
    decreases 128 - x,
{
    if x >= 128 {
        128
    } else if spec_cdf(mdl, x + 1) > y {
        x
    } else {
        spec_icdf_from(mdl, y, x + 1)
    }
}

/// The symbol whose cumulative interval contains `y`.
pub open spec fn spec_icdf(mdl: LaplaceCdf, y: int) -> int {
    spec_icdf_from(mdl, y, -128)
}

/// 2 to the `sh`-th power as a `u32`, for exponents up to 23.
fn pow2_u32(sh: u32) -> (r: u32)
    requires
        sh <= 23,
    ensures
        r == pow2(sh as nat),
        r >= 1,
{
    proof {
        if (sh as nat) < 30 {
            vstd::arithmetic::power2::lemma_pow2_strictly_increases(sh as nat, 30);
        }
        vstd::arithmetic::power2::lemma2_to64();
    }
    let p = crate::fix32::pow2_i64(sh);
    p as u32
}

impl LaplaceCdf {
    /// Validate and wrap a cumulative table. Returns the model exactly
    /// when the table is well formed: 256 entries, strictly increasing
    /// from at least 1, ending below `2^scale`, with `scale` in
    /// `[1, 23]`.
    pub fn from_table(entries: Vec<u32>, scale: u32) -> (r: Option<LaplaceCdf>)
        ensures
            spec_cdf_wf(LaplaceCdf { entries, scale }) ==> r == Some(
                LaplaceCdf { entries, scale },
            ),
            !spec_cdf_wf(LaplaceCdf { entries, scale }) ==> r == None::<LaplaceCdf>,
    {
        if entries.len() != 256 || scale < 1 || scale > 23 {
            return None;
        }
        if entries[0] < 1 {
            return None;
        }
        let top = pow2_u32(scale);
        if entries[255] >= top {
            return None;
        }
        let mut i: usize = 1;
        while i < 256
            invariant
                1 <= i <= 256,
                entries@.len() == 256,
                forall|a: int, b: int|
                    0 <= a < b < i ==> #[trigger] entries@[a] < #[trigger] entries@[b],
            decreases 256 - i,
        {
            if entries[i - 1] >= entries[i] {
                return None;
            }
            proof {
                assert forall|a: int, b: int| 0 <= a < b < i + 1 implies #[trigger] entries@[a]
                    < #[trigger] entries@[b] by {
                    if b == i {
                        if a < i - 1 {
                            assert(entries@[a] < entries@[i - 1]);
                        }
                    }
                }
            }
            i = i + 1;
        }
        Some(LaplaceCdf { entries, scale })
    }

    /// The cumulative weight of symbols below `x`.
    pub fn cdf(&self, x: i32) -> (r: u32)
        requires
            spec_cdf_wf(*self),
        ensures
            r == spec_cdf(*self, x as int),
    {
        if x <= -128 {
            0
        } else if x > 128 {
            pow2_u32(self.scale)
        } else {
            self.entries[(x + 127) as usize]
        }
    }

    /// The precision of the model in bits.
    pub fn scale(&self) -> (r: u32)
        ensures
            r == self.scale,
    {
        self.scale
    }

    /// The symbol whose cumulative interval contains `y`: the unique `s`
    /// with `cdf(s) <= y < cdf(s + 1)`.
    pub fn icdf(&self, y: u32) -> (s: i32)
        requires
            spec_cdf_wf(*self),
            y < pow2(self.scale as nat),
        ensures
            -128 <= s <= 128,
            s == spec_icdf(*self, y as int),
            spec_cdf(*self, s as int) <= y < spec_cdf(*self, s as int + 1),
    {
        let mut x: i32 = -128;
        while x < 128
            invariant
                spec_cdf_wf(*self),
                y < pow2(self.scale as nat),
                -128 <= x <= 128,
                spec_cdf(*self, x as int) <= y,
                spec_icdf(*self, y as int) == spec_icdf_from(*self, y as int, x as int),
            decreases 128 - x,
        {
            let nxt = self.cdf(x + 1);
            if nxt > y {
                return x;
            }
            proof {
                lemma_cdf_sym_bounds(*self, x as int + 1);
            }
            x = x + 1;
        }
        proof {
            lemma_cdf_sym_bounds(*self, 128);
        }
        x
    }
}

/// The sixteen Laplace models the block format selects among, one per
/// entry of the variance table, all at the codec's 15-bit precision.
pub struct CdfBank {
    /// Models in variance-table order.
    pub models: Vec<LaplaceCdf>,
}

/// A bank the block coder can run on: sixteen well-formed models at
/// precision 15.
pub open spec fn spec_bank_wf(bank: CdfBank) -> bool {
    &&& bank.models.len() == 16
    &&& forall|i: int|
        0 <= i < 16 ==> spec_cdf_wf(#[trigger] bank.models[i]) && bank.models[i].scale == 15
}

impl CdfBank {
    /// Validate and wrap the sixteen per-variance models. Returns the
    /// bank exactly when every model is well formed at precision 15.
    pub fn from_models(models: Vec<LaplaceCdf>) -> (r: Option<CdfBank>)
        ensures
            spec_bank_wf(CdfBank { models }) ==> r == Some(CdfBank { models }),
            !spec_bank_wf(CdfBank { models }) ==> r is None,
            r is Some ==> r == Some(CdfBank { models }),
    {
        if models.len() != 16 {
            return None;
        }
        let mut i: usize = 0;
        while i < 16
            invariant
                0 <= i <= 16,
                models@.len() == 16,
                forall|j: int|
                    0 <= j < i ==> spec_cdf_wf(#[trigger] models@[j]) && models@[j].scale == 15,
            decreases 16 - i,
        {
            let m = &models[i];
            if m.entries.len() != 256 || m.scale != 15 {
                return None;
            }
            if m.entries[0] < 1 {
                return None;
            }
            let top = pow2_u32(m.scale);
            if m.entries[255] >= top {
                return None;
            }
            let mut k: usize = 1;
            while k < 256
                invariant
                    1 <= k <= 256,
                    models@.len() == 16,
                    i < 16,
                    models@[i as int].entries@.len() == 256,
                    forall|a: int, b: int|
                        0 <= a < b < k ==> #[trigger] models@[i as int].entries@[a]
                            < #[trigger] models@[i as int].entries@[b],
                decreases 256 - k,
            {
                if models[i].entries[k - 1] >= models[i].entries[k] {
                    return None;
                }
                proof {
                    let e = models@[i as int].entries@;
                    assert forall|a: int, b: int| 0 <= a < b < k + 1 implies #[trigger] e[a]
                        < #[trigger] e[b] by {
                        if b == k {
                            if a < k - 1 {
                                assert(e[a] < e[k - 1]);
                            }
                        }
                    }
                }
                k = k + 1;
            }
            proof {
                assert(spec_cdf_wf(models@[i as int]));
            }
            i = i + 1;
        }
        Some(CdfBank { models })
    }
}

/// The rANS lower renormalization bound: `2^23`.
pub const RANS_BYTE_L: u32 = 8388608;

/// Byte `k` of a nonnegative integer, counting from the least significant.
pub open spec fn spec_byte(x: int, k: nat) -> u8 {
    ((x / pow2(8 * k) as int) % 256) as u8
}

/// The encoder's renormalization: while the state is at or above the
/// symbol's cutoff, push its low byte and shift down, refusing when more
/// than `cap` bytes accumulate.
pub open spec fn spec_rans_emit(state: int, x_max: int, acc: Seq<u8>, cap: int) -> Option<
    (int, Seq<u8>),
>
    decreases cap - acc.len(),
{
    if state < x_max {
        Some((state, acc))
    } else if acc.len() >= cap {
        None
    } else {
        spec_rans_emit(state / 256, x_max, acc + seq![(state % 256) as u8], cap)
    }
}

/// The encoder's main walk, over the symbols in reverse: renormalize
/// against the symbol's cutoff `freq * 2^(31-scale)`, then fold the symbol
/// into the state.
pub open spec fn spec_rans_enc(
    syms: Seq<i8>,
    mdl: LaplaceCdf,
    state: int,
    acc: Seq<u8>,
    cap: int,
) -> Option<(int, Seq<u8>)>
    decreases syms.len(),
{
    if syms.len() == 0 {
        Some((state, acc))
    } else {
        let s = syms.last() as int;
        let start = spec_cdf(mdl, s);
        let freq = spec_cdf(mdl, s + 1) - start;
        let x_max = freq * pow2((31 - mdl.scale) as nat) as int;
        match spec_rans_emit(state, x_max, acc, cap) {
            None => None,
            Some(p) => spec_rans_enc(
                syms.drop_last(),
                mdl,
                (p.0 / freq) * pow2(mdl.scale as nat) as int + (p.0 % freq) + start,
                p.1,
                cap,
            ),
        }
    }
}

/// What the rANS coder emits for a symbol run into a buffer of `cap`
/// bytes: the renormalization bytes, then the four final state bytes most
/// significant first, the whole run reversed so decoding reads forward.
/// `None` when `cap` bytes do not suffice.
pub open spec fn spec_rans_encode(syms: Seq<i8>, mdl: LaplaceCdf, cap: int) -> Option<Seq<u8>> {
    match spec_rans_enc(syms, mdl, RANS_BYTE_L as int, Seq::empty(), cap) {
        None => None,
        Some(p) => {
            if p.1.len() + 4 > cap {
                None
            } else {
                Some(
                    (p.1 + seq![
                        spec_byte(p.0, 3),
                        spec_byte(p.0, 2),
                        spec_byte(p.0, 1),
                        spec_byte(p.0, 0),
                    ]).reverse(),
                )
            }
        },
    }
}

/// State invariant the encoder's walk keeps: strictly below `2^31`.
proof fn lemma_enc_state_bound(mdl: LaplaceCdf, st: int, freq: int, start: int, scale: nat)
    requires
        scale == mdl.scale as nat,
        spec_cdf_wf(mdl),
        freq >= 1,
        start >= 0,
        start + freq <= pow2(scale),
        0 <= st < freq * pow2((31 - mdl.scale) as nat) as int,
    ensures
        0 <= (st / freq) * pow2(scale) as int + (st % freq) + start < 0x80000000,
{
    let p31s = pow2((31 - mdl.scale) as nat) as int;
    let ps = pow2(scale) as int;
    vstd::arithmetic::power2::lemma_pow2_pos(scale);
    vstd::arithmetic::power2::lemma_pow2_pos((31 - mdl.scale) as nat);
    vstd::arithmetic::power2::lemma_pow2_adds(scale, (31 - mdl.scale) as nat);
    assert(pow2(31) == 0x80000000) by {
        vstd::arithmetic::power2::lemma2_to64();
    }
    vstd::arithmetic::div_mod::lemma_mod_bound(st, freq);
    vstd::arithmetic::div_mod::lemma_div_pos_is_pos(st, freq);
    // st / freq < 2^(31 - scale)
    assert(st / freq < p31s) by {
        if st / freq >= p31s {
            vstd::arithmetic::mul::lemma_mul_inequality(p31s, st / freq, freq);
            vstd::arithmetic::div_mod::lemma_fundamental_div_mod(st, freq);
            vstd::arithmetic::div_mod::lemma_mod_bound(st, freq);
            assert(freq * (st / freq) <= st);
            assert(p31s * freq == freq * p31s) by (nonlinear_arith);
            assert((st / freq) * freq == freq * (st / freq)) by (nonlinear_arith);
        }
    }
    assert((st / freq) * ps <= (p31s - 1) * ps) by {
        vstd::arithmetic::mul::lemma_mul_inequality(st / freq, p31s - 1, ps);
    }
    assert((p31s - 1) * ps == p31s * ps - ps) by (nonlinear_arith);
    assert(p31s * ps == 0x80000000) by {
        assert(ps * p31s == pow2(31)) by (nonlinear_arith)
            requires
                ps * p31s == pow2(scale + (31 - mdl.scale) as nat),
                pow2(scale + (31 - mdl.scale) as nat) == pow2(31),
        ;
        assert(p31s * ps == ps * p31s) by (nonlinear_arith);
    }
    assert((st / freq) * ps >= 0) by {
        vstd::arithmetic::mul::lemma_mul_nonnegative(st / freq, ps);
    }
}

/// Reverse `n` bytes of `out` in place, starting at `pos`.
#[verifier::loop_isolation(false)]
fn reverse_range(out: &mut Vec<u8>, pos: usize, n: usize)
    requires
        pos + n <= old(out).len(),
    ensures
        final(out)@.len() == old(out)@.len(),
        final(out)@.subrange(0, pos as int) == old(out)@.subrange(0, pos as int),
        final(out)@.subrange(pos + n, final(out)@.len() as int) == old(out)@.subrange(
            pos + n,
            old(out)@.len() as int,
        ),
        final(out)@.subrange(pos as int, pos + n) == old(out)@.subrange(pos as int, pos + n).reverse(),
{
    let mut a: usize = 0;
    while a < n / 2
        invariant
            a <= n / 2,
            out@.len() == old(out)@.len(),
            forall|k: int|
                0 <= k < out@.len() && !(pos + a <= k < pos + n - a) ==> #[trigger] out@[k]
                    == old(out)@[if pos <= k < pos + n {
                    2 * (pos as int) + n - 1 - k
                } else {
                    k
                }],
            forall|k: int|
                pos + a <= k < pos + n - a ==> #[trigger] out@[k] == old(out)@[k],
        decreases n / 2 - a,
    {
        let i = pos + a;
        let j = pos + n - 1 - a;
        let ti = out[i];
        let tj = out[j];
        out.set(i, tj);
        out.set(j, ti);
        a = a + 1;
    }
    proof {
        assert(out@.subrange(0, pos as int) =~= old(out)@.subrange(0, pos as int));
        assert(out@.subrange(pos + n, out@.len() as int) =~= old(out)@.subrange(
            pos + n,
            old(out)@.len() as int,
        ));
        assert forall|j: int| 0 <= j < n implies #[trigger] out@.subrange(pos as int, pos + n)[j] == old(
            out,
        )@.subrange(pos as int, pos + n).reverse()[j] by {
            assert(out@.subrange(pos as int, pos + n)[j] == out@[pos + j]);
            if pos + a <= pos + j < pos + n - a {
                assert(j == n - 1 - j);
            }
        }
        assert(out@.subrange(pos as int, pos + n) =~= old(out)@.subrange(
            pos as int,
            pos + n,
        ).reverse());
    }
}

/// Encode a prefix of `data` into `out` starting at `pos`, exactly as
/// `spec_rans_encode` lays the bytes out; `None` when the room after
/// `pos` does not suffice.
#[verifier::rlimit(60)]
#[verifier::loop_isolation(false)]
fn rans_encode_at(
    data: &Vec<i8>,
    nsyms: usize,
    out: &mut Vec<u8>,
    pos: usize,
    mdl: &LaplaceCdf,
) -> (r: Option<usize>)
    requires
        spec_cdf_wf(*mdl),
        nsyms <= data@.len(),
        pos <= old(out)@.len(),
    ensures
        final(out)@.len() == old(out)@.len(),
        final(out)@.subrange(0, pos as int) == old(out)@.subrange(0, pos as int),
        match spec_rans_encode(data@.subrange(0, nsyms as int), *mdl, old(out)@.len() - pos) {
            None => r == None::<usize>,
            Some(bytes) => {
                &&& r == Some(bytes.len() as usize)
                &&& final(out)@.subrange(pos as int, pos + bytes.len()) == bytes
                &&& final(out)@.subrange(pos + bytes.len(), final(out)@.len() as int)
                    == old(out)@.subrange(pos + bytes.len(), old(out)@.len() as int)
            },
        },
{
    let ghost cap = old(out)@.len() - pos;
    let ghost fullsyms = data@.subrange(0, nsyms as int);
    let buf_len = out.len();
    proof {
        assert(out@.len() <= usize::MAX);
    }
    let mut state: u32 = RANS_BYTE_L;
    let mut bytes_put: usize = 0;
    let mut i: usize = nsyms;
    proof {
        assert(fullsyms.subrange(0, i as int) =~= fullsyms);
        assert(out@.subrange(pos as int, pos + bytes_put) =~= Seq::<u8>::empty());
    }
    while i > 0
        invariant
            spec_cdf_wf(*mdl),
            nsyms <= data@.len(),
            i <= nsyms,
            fullsyms == data@.subrange(0, nsyms as int),
            cap == old(out)@.len() - pos,
            pos + bytes_put <= out@.len(),
            out@.len() <= usize::MAX,
            out@.len() == old(out)@.len(),
            out@.subrange(0, pos as int) == old(out)@.subrange(0, pos as int),
            out@.subrange(pos + bytes_put, out@.len() as int) == old(out)@.subrange(
                pos + bytes_put,
                old(out)@.len() as int,
            ),
            state < 0x80000000,
            spec_rans_enc(fullsyms, *mdl, RANS_BYTE_L as int, Seq::empty(), cap)
                == spec_rans_enc(
                fullsyms.subrange(0, i as int),
                *mdl,
                state as int,
                out@.subrange(pos as int, pos + bytes_put),
                cap,
            ),
        decreases i,
    {
        i = i - 1;
        let sym = data[i];
        let ghost syms_pre = fullsyms.subrange(0, i + 1);
        proof {
            assert(syms_pre.last() == fullsyms[i as int]);
            assert(fullsyms[i as int] == data@[i as int]);
            assert(syms_pre.drop_last() =~= fullsyms.subrange(0, i as int));
            lemma_cdf_sym_bounds(*mdl, sym as int);
        }
        let start = mdl.cdf(sym as i32);
        let freq = mdl.cdf(sym as i32 + 1) - start;
        let sc = mdl.scale();
        let p31s = crate::fix32::pow2_i64((31 - sc) as u32);
        proof {
            vstd::arithmetic::power2::lemma_pow2_adds(sc as nat, (31 - sc) as nat);
            assert(pow2(31) == 0x80000000) by {
                vstd::arithmetic::power2::lemma2_to64();
            }
            assert(p31s <= 0x40000000) by {
                if ((31 - sc) as nat) < 30 {
                    vstd::arithmetic::power2::lemma_pow2_strictly_increases(
                        (31 - sc) as nat,
                        30,
                    );
                }
                vstd::arithmetic::power2::lemma2_to64();
            }
            assert(1 <= (freq as int) * (p31s as int) < 0x80000000) by (nonlinear_arith)
                requires
                    1 <= freq,
                    freq as int <= pow2(sc as nat) - 256,
                    p31s as int == pow2((31 - sc) as nat),
                    pow2(sc as nat) * pow2((31 - sc) as nat) == 0x80000000,
                    p31s >= 1,
            ;
        }
        let x_max: u32 = freq * (p31s as u32);
        proof {
            assert(x_max as int == (spec_cdf(*mdl, sym as int + 1) - spec_cdf(*mdl, sym as int))
                * pow2((31 - mdl.scale) as nat) as int);
        }
        let ghost st0 = state as int;
        let ghost acc0 = out@.subrange(pos as int, pos + bytes_put);
        while state >= x_max
            invariant
                spec_cdf_wf(*mdl),
                cap == old(out)@.len() - pos,
                pos + bytes_put <= out@.len(),
                out@.len() <= usize::MAX,
                out@.len() == old(out)@.len(),
                out@.subrange(0, pos as int) == old(out)@.subrange(0, pos as int),
                out@.subrange(pos + bytes_put, out@.len() as int) == old(out)@.subrange(
                    pos + bytes_put,
                    old(out)@.len() as int,
                ),
                x_max >= 1,
                spec_rans_emit(st0, x_max as int, acc0, cap) == spec_rans_emit(
                    state as int,
                    x_max as int,
                    out@.subrange(pos as int, pos + bytes_put),
                    cap,
                ),
            decreases state,
        {
            if pos + bytes_put >= out.len() {
                proof {
                    let cur = out@.subrange(pos as int, pos + bytes_put);
                    assert(cur.len() >= cap);
                    assert(spec_rans_emit(state as int, x_max as int, cur, cap) is None);
                    assert(spec_rans_emit(st0, x_max as int, acc0, cap) is None);
                    let sp = syms_pre.last() as int;
                    assert(sp == sym as int);
                    assert(spec_cdf(*mdl, sp) == start as int);
                    assert(spec_cdf(*mdl, sp + 1) - spec_cdf(*mdl, sp) == freq as int);
                    assert(x_max as int == (freq as int) * pow2((31 - mdl.scale) as nat) as int);
                    assert(spec_rans_enc(syms_pre, *mdl, st0, acc0, cap) is None);
                    assert(spec_rans_enc(
                        fullsyms,
                        *mdl,
                        RANS_BYTE_L as int,
                        Seq::empty(),
                        cap,
                    ) is None);
                }
                return None;
            }
            let ghost pre = out@;
            out.set(pos + bytes_put, (state % 256) as u8);
            bytes_put = bytes_put + 1;
            proof {
                assert forall|j: int|
                    0 <= j < out@.len() && j != pos + bytes_put - 1 implies out@[j] == pre[j] by {}
                assert(out@.subrange(0, pos as int) =~= pre.subrange(0, pos as int));
                assert(out@.subrange(pos + bytes_put, out@.len() as int) =~= pre.subrange(
                    pos + bytes_put,
                    pre.len() as int,
                ));
                assert(out@.subrange(pos as int, pos + bytes_put) =~= pre.subrange(
                    pos as int,
                    pos + bytes_put - 1,
                ) + seq![(state as int % 256) as u8]);
                assert forall|j: int| pos + bytes_put <= j < out@.len() implies out@[j] == old(
                    out,
                )@[j] by {
                    assert(pre[j] == pre.subrange(pos + bytes_put - 1, pre.len() as int)[j - (pos
                        + bytes_put - 1)]);
                    assert(old(out)@[j] == old(out)@.subrange(
                        pos + bytes_put - 1,
                        old(out)@.len() as int,
                    )[j - (pos + bytes_put - 1)]);
                }
                assert(out@.subrange(pos + bytes_put, out@.len() as int) =~= old(out)@.subrange(
                    pos + bytes_put,
                    old(out)@.len() as int,
                ));
            }
            state = state / 256;
        }
        proof {
            lemma_enc_state_bound(*mdl, state as int, freq as int, start as int, mdl.scale as nat);
            assert(pow2(sc as nat) <= 0x800000) by {
                if (sc as nat) < 23 {
                    vstd::arithmetic::power2::lemma_pow2_strictly_increases(sc as nat, 23);
                }
                vstd::arithmetic::power2::lemma2_to64();
            }
        }
        let psc = crate::fix32::pow2_i64(sc) as u32;
        state = (state / freq) * psc + (state % freq) + start;
    }
    // flush the four state bytes, most significant first
    if out.len() - pos - bytes_put < 4 {
        proof {
            match spec_rans_enc(fullsyms, *mdl, RANS_BYTE_L as int, Seq::empty(), cap) {
                None => {},
                Some(p) => {
                    assert(fullsyms.subrange(0, 0) =~= Seq::<i8>::empty());
                    assert(p.1 == out@.subrange(pos as int, pos + bytes_put));
                },
            }
        }
        return None;
    }
    proof {
        assert(fullsyms.subrange(0, 0) =~= Seq::<i8>::empty());
        vstd::arithmetic::power2::lemma2_to64();
    }
    let ghost accf = out@.subrange(pos as int, pos + bytes_put);
    let b3 = ((state / 16777216) % 256) as u8;
    let b2 = ((state / 65536) % 256) as u8;
    let b1 = ((state / 256) % 256) as u8;
    let b0 = (state % 256) as u8;
    let ghost pre4 = out@;
    out.set(pos + bytes_put, b3);
    out.set(pos + bytes_put + 1, b2);
    out.set(pos + bytes_put + 2, b1);
    out.set(pos + bytes_put + 3, b0);
    let total = bytes_put + 4;
    proof {
        assert(state as int / pow2(0) as int == state as int) by {
            vstd::arithmetic::power2::lemma2_to64();
            vstd::arithmetic::div_mod::lemma_div_multiples_vanish(state as int, 1);
        }
        assert(b3 == spec_byte(state as int, 3)) by {
            vstd::arithmetic::power2::lemma2_to64();
        }
        assert(b2 == spec_byte(state as int, 2)) by {
            vstd::arithmetic::power2::lemma2_to64();
        }
        assert(b1 == spec_byte(state as int, 1)) by {
            vstd::arithmetic::power2::lemma2_to64();
        }
        assert(b0 == spec_byte(state as int, 0)) by {
            vstd::arithmetic::power2::lemma2_to64();
            vstd::arithmetic::div_mod::lemma_div_multiples_vanish(state as int, 1);
        }
        assert forall|j: int|
            0 <= j < out@.len() && !(pos + bytes_put <= j < pos + total) implies out@[j]
            == pre4[j] by {}
        assert forall|j: int| 0 <= j < pos implies out@[j] == old(out)@[j] by {
            assert(pre4[j] == pre4.subrange(0, pos as int)[j]);
            assert(old(out)@[j] == old(out)@.subrange(0, pos as int)[j]);
        }
        assert forall|j: int| pos + total <= j < out@.len() implies out@[j] == old(out)@[j] by {
            assert(pre4[j] == pre4.subrange(pos + bytes_put, pre4.len() as int)[j - (pos
                + bytes_put)]);
            assert(old(out)@[j] == old(out)@.subrange(pos + bytes_put, old(out)@.len() as int)[j
                - (pos + bytes_put)]);
        }
        assert(out@.subrange(0, pos as int) =~= old(out)@.subrange(0, pos as int));
        assert(out@.subrange(pos + total, out@.len() as int) =~= old(out)@.subrange(
            pos + total,
            old(out)@.len() as int,
        ));
        assert forall|j: int| pos <= j < pos + bytes_put implies out@[j] == accf[j - pos] by {
            assert(out@[j] == pre4[j]);
        }
        assert(out@.subrange(pos as int, pos + total) =~= accf + seq![b3, b2, b1, b0]);
    }
    let ghost pre_rev = out@;
    reverse_range(out, pos, total);
    proof {
        assert(out@.subrange(0, pos as int) =~= old(out)@.subrange(0, pos as int));
        assert(out@.subrange(pos + total, out@.len() as int) =~= old(out)@.subrange(
            pos + total,
            old(out)@.len() as int,
        ));
        assert(pre_rev.subrange(pos as int, pos + total) == accf + seq![
            spec_byte(state as int, 3),
            spec_byte(state as int, 2),
            spec_byte(state as int, 1),
            spec_byte(state as int, 0),
        ]);
    }
    Some(total)
}

/// rANS-encode all of `data` into the front of `out`.
///
/// Returns the byte count exactly when `spec_rans_encode` yields bytes for
/// `out`'s length, with those bytes in `out`'s prefix and the rest of
/// `out` untouched; `None` exactly when the buffer is too small.
pub fn rans_encode(data: &Vec<i8>, out: &mut Vec<u8>, mdl: &LaplaceCdf) -> (r: Option<usize>)
    requires
        spec_cdf_wf(*mdl),
    ensures
        final(out)@.len() == old(out)@.len(),
        match spec_rans_encode(data@, *mdl, old(out)@.len() as int) {
            None => r == None::<usize>,
            Some(bytes) => {
                &&& r == Some(bytes.len() as usize)
                &&& final(out)@.subrange(0, bytes.len() as int) == bytes
                &&& final(out)@.subrange(bytes.len() as int, final(out)@.len() as int)
                    == old(out)@.subrange(bytes.len() as int, old(out)@.len() as int)
            },
        },
{
    proof {
        assert(data@.subrange(0, data@.len() as int) =~= data@);
    }
    rans_encode_at(data, data.len(), out, 0, mdl)
}

/// The decoder's renormalization: while the state is below the bound,
/// shift in the next byte; `None` when the data runs dry first.
pub open spec fn spec_rans_fill(data: Seq<u8>, state: int, eaten: int) -> Option<(int, int)>
    decreases data.len() - eaten,
{
    if state >= RANS_BYTE_L as int {
        Some((state, eaten))
    } else if eaten >= data.len() || eaten < 0 {
        None
    } else {
        spec_rans_fill(data, state * 256 + data[eaten], eaten + 1)
    }
}

/// Decode one symbol from the state, as the forward stream decoder does:
/// look the masked state up, fold the symbol out, renormalize. The
/// emitted byte is the wrapped symbol, and the wrapped symbol also drives
/// the cumulative lookups.
pub open spec fn spec_dec_sym_stream(mdl: LaplaceCdf, data: Seq<u8>, state: int, eaten: int) -> Option<
    (i8, int, int),
> {
    let cum = state % pow2(mdl.scale as nat) as int;
    let sraw = spec_icdf(mdl, cum);
    let s8: i8 = if sraw == 128 {
        -128i8
    } else {
        sraw as i8
    };
    let start = spec_cdf(mdl, s8 as int);
    let freq = spec_cdf(mdl, s8 as int + 1) - start;
    let st2 = freq * (state / pow2(mdl.scale as nat) as int) + cum - start;
    match spec_rans_fill(data, st2, eaten) {
        None => None,
        Some(p) => Some((s8, p.0, p.1)),
    }
}

/// The decoded run of `n` symbols with the bytes eaten and the state
/// left over, starting from a loaded state; `None` on input exhaustion.
pub open spec fn spec_rans_dec_loop(
    mdl: LaplaceCdf,
    data: Seq<u8>,
    state: int,
    eaten: int,
    n: nat,
) -> Option<(Seq<i8>, int, int)>
    decreases n,
{
    if n == 0 {
        Some((Seq::empty(), eaten, state))
    } else {
        match spec_dec_sym_stream(mdl, data, state, eaten) {
            None => None,
            Some(p) => match spec_rans_dec_loop(mdl, data, p.1, p.2, (n - 1) as nat) {
                None => None,
                Some(q) => Some((seq![p.0] + q.0, q.1, q.2)),
            },
        }
    }
}

/// What `rans_decode` computes for `n` symbols: the little-endian initial
/// state from the first four bytes, then the symbol run. `None` when the
/// data holds fewer than four bytes or runs dry.
pub open spec fn spec_rans_decode(data: Seq<u8>, n: nat, mdl: LaplaceCdf) -> Option<
    (Seq<i8>, int),
> {
    if data.len() < 4 {
        None
    } else {
        let st0 = data[0] + 256 * data[1] + 65536 * data[2] + 16777216 * data[3];
        match spec_rans_dec_loop(mdl, data, st0, 4, n) {
            None => None,
            Some(p) => Some((p.0, p.1)),
        }
    }
}

/// The decoder's state update stays below `2^32` and never underflows.
proof fn lemma_dec_state_bound(mdl: LaplaceCdf, state: int, s: int)
    requires
        spec_cdf_wf(mdl),
        0 <= state < 0x100000000,
        -128 <= s <= 128,
    ensures
        ({
            let cum = state % pow2(mdl.scale as nat) as int;
            let start = spec_cdf(mdl, s);
            let freq = spec_cdf(mdl, s + 1) - start;
            let q = state / pow2(mdl.scale as nat) as int;
            &&& spec_cdf(mdl, s) <= cum ==> 0 <= freq * q + cum - start < 0x100000000
            &&& freq * q + cum < 0x100000000
        }),
{
    let ps = pow2(mdl.scale as nat) as int;
    vstd::arithmetic::power2::lemma_pow2_pos(mdl.scale as nat);
    lemma_cdf_sym_bounds(mdl, s);
    vstd::arithmetic::div_mod::lemma_mod_bound(state, ps);
    vstd::arithmetic::div_mod::lemma_div_pos_is_pos(state, ps);
    let q = state / ps;
    let freq = spec_cdf(mdl, s + 1) - spec_cdf(mdl, s);
    // q < 2^(32 - scale)
    let h = pow2((32 - mdl.scale) as nat) as int;
    vstd::arithmetic::power2::lemma_pow2_adds(mdl.scale as nat, (32 - mdl.scale) as nat);
    assert(pow2(32) == 0x100000000) by {
        vstd::arithmetic::power2::lemma2_to64();
    }
    assert(q < h) by {
        if q >= h {
            vstd::arithmetic::mul::lemma_mul_inequality(h, q, ps);
            vstd::arithmetic::div_mod::lemma_fundamental_div_mod(state, ps);
            assert(h * ps == ps * h) by (nonlinear_arith);
            assert(q * ps == ps * q) by (nonlinear_arith);
        }
    }
    assert(h >= 512) by {
        vstd::arithmetic::power2::lemma2_to64();
        if (32 - mdl.scale) as nat > 9 {
            vstd::arithmetic::power2::lemma_pow2_strictly_increases(9, (32 - mdl.scale) as nat);
        }
    }
    assert(freq * q + ps < 0x100000000) by (nonlinear_arith)
        requires
            1 <= freq <= ps - 256,
            0 <= q <= h - 1,
            ps * h == 0x100000000,
            ps >= 2,
            h >= 512,
    ;
    assert(freq * q >= 0) by {
        vstd::arithmetic::mul::lemma_mul_nonnegative(freq, q);
    }
}

/// Decode `out.len()` symbols from `data`, exactly as `spec_rans_decode`
/// lays them out, returning how many bytes were eaten.
#[verifier::rlimit(60)]
#[verifier::loop_isolation(false)]
pub fn rans_decode(data: &Vec<u8>, out: &mut Vec<i8>, mdl: &LaplaceCdf) -> (r: Option<usize>)
    requires
        spec_cdf_wf(*mdl),
    ensures
        final(out)@.len() == old(out)@.len(),
        match spec_rans_decode(data@, old(out)@.len() as nat, *mdl) {
            None => r == None::<usize>,
            Some(p) => {
                &&& r == Some(p.1 as usize)
                &&& final(out)@ == p.0
            },
        },
{
    if data.len() < 4 {
        return None;
    }
    let mut state: u32 = (data[0] as u32) + 256 * (data[1] as u32) + 65536 * (data[2] as u32)
        + 16777216 * (data[3] as u32);
    let mut bytes_eaten: usize = 4;
    let n = out.len();
    let mut i: usize = 0;
    let ghost st0 = state as int;
    proof {
        assert(out@.subrange(0, 0) =~= Seq::<i8>::empty());
    }
    while i < n
        invariant
            i <= n,
            n == out@.len(),
            out@.len() == old(out)@.len(),
            4 <= bytes_eaten <= data@.len(),
            spec_rans_dec_loop(*mdl, data@, st0, 4, n as nat) == (match spec_rans_dec_loop(
                *mdl,
                data@,
                state as int,
                bytes_eaten as int,
                (n - i) as nat,
            ) {
                None => None::<(Seq<i8>, int, int)>,
                Some(q) => Some((out@.subrange(0, i as int) + q.0, q.1, q.2)),
            }),
        decreases n - i,
    {
        proof {
            vstd::arithmetic::power2::lemma_pow2_pos(mdl.scale as nat);
            assert(pow2(mdl.scale as nat) <= 0x800000) by {
                if (mdl.scale as nat) < 23 {
                    vstd::arithmetic::power2::lemma_pow2_strictly_increases(
                        mdl.scale as nat,
                        23,
                    );
                }
                vstd::arithmetic::power2::lemma2_to64();
            }
        }
        let ghost sth = state as int;
        let ghost eath = bytes_eaten as int;
        let psc = pow2_u32(mdl.scale);
        let cum = state % psc;
        let symr = mdl.icdf(cum);
        let sym8: i8 = if symr == 128 {
            -128i8
        } else {
            symr as i8
        };
        let start = mdl.cdf(sym8 as i32);
        let freq = mdl.cdf(sym8 as i32 + 1) - start;
        proof {
            lemma_cdf_sym_bounds(*mdl, sym8 as int);
            lemma_dec_state_bound(*mdl, state as int, sym8 as int);
            assert(spec_cdf(*mdl, sym8 as int) <= cum as int) by {
                if symr == 128 {
                    lemma_cdf_gaps(*mdl, 0, 255);
                } else {
                }
            }
        }
        let st2: u32 = freq * (state / psc) + cum - start;
        let ghost st2g = st2 as int;
        let ghost eat0 = bytes_eaten as int;
        state = st2;
        // renormalize: shift bytes in while the state is low
        while state < RANS_BYTE_L
            invariant
                4 <= bytes_eaten <= data@.len(),
                spec_rans_fill(data@, st2g, eat0) == spec_rans_fill(
                    data@,
                    state as int,
                    bytes_eaten as int,
                ),
            decreases data@.len() - bytes_eaten,
        {
            if bytes_eaten >= data.len() {
                proof {
                    assert(spec_rans_fill(data@, state as int, bytes_eaten as int) is None);
                    assert(spec_dec_sym_stream(*mdl, data@, sth, eath) is None);
                }
                return None;
            }
            state = state * 256 + (data[bytes_eaten] as u32);
            bytes_eaten = bytes_eaten + 1;
        }
        proof {
            assert(spec_rans_fill(data@, state as int, bytes_eaten as int) == Some(
                (state as int, bytes_eaten as int),
            ));
            assert(spec_dec_sym_stream(*mdl, data@, sth, eath) == Some(
                (sym8, state as int, bytes_eaten as int),
            ));
        }
        let ghost pre = out@;
        out.set(i, sym8);
        i = i + 1;
        proof {
            assert(out@.subrange(0, i as int) =~= pre.subrange(0, i - 1) + seq![sym8]);
            match spec_rans_dec_loop(
                *mdl,
                data@,
                state as int,
                bytes_eaten as int,
                (n - i) as nat,
            ) {
                None => {},
                Some(q) => {
                    assert((pre.subrange(0, i - 1) + seq![sym8]) + q.0 =~= pre.subrange(0, i - 1)
                        + (seq![sym8] + q.0));
                },
            }
        }
    }
    proof {
        assert(out@.subrange(0, n as int) =~= out@);
    }
    Some(bytes_eaten)
}

/// What the encoder hands back: successor state, total bytes written and
/// the quantizer's byte count, kept for diagnostics.
#[derive(Copy, Clone, Debug)]
pub struct CompressResult {
    /// State after the block, to thread into the next call.
    pub new_state: State,
    /// Bytes written: two header bytes plus the entropy-coded payload.
    pub bytes_put: usize,
    /// How many symbol bytes the quantizer produced.
    pub dbg_qbytes: usize,
}

/// What the decoder hands back: successor state, bytes consumed and
/// quaternions produced.
pub struct DecompressResult {
    /// State after the block, to thread into the next call.
    pub new_state: State,
    /// Bytes of `data` consumed.
    pub bytes_eaten: usize,
    /// Quaternions written.
    pub quats_put: usize,
}

/// A symbol reinterpreted as an unsigned byte, two's-complement style.
pub open spec fn spec_u8_of_i8(s: i8) -> u8 {
    if s < 0 {
        (s + 256) as u8
    } else {
        s as u8
    }
}

/// The running checksum after folding a symbol run into `acc` with
/// wrapping byte addition.
pub open spec fn spec_cksum_acc(syms: Seq<i8>, acc: u8) -> u8
    decreases syms.len(),
{
    if syms.len() == 0 {
        acc
    } else {
        spec_cksum_acc(
            syms.subrange(1, syms.len() as int),
            vstd::wrapping::u8_specs::wrapping_add(spec_u8_of_i8(syms[0]), acc),
        )
    }
}

/// The block checksum: the wrapping byte sum of the symbols.
pub open spec fn spec_cksum(syms: Seq<i8>) -> u8 {
    spec_cksum_acc(syms, 0)
}

/// The sum of squared symbols, as an exact integer.
pub open spec fn spec_sumsq_syms(syms: Seq<i8>) -> int
    decreases syms.len(),
{
    if syms.len() == 0 {
        0
    } else {
        syms[0] * syms[0] + spec_sumsq_syms(syms.subrange(1, syms.len() as int))
    }
}

/// The squared-symbol sum is between zero and `16384` per symbol.
proof fn lemma_sumsq_bound(syms: Seq<i8>)
    ensures
        0 <= spec_sumsq_syms(syms) <= 16384 * syms.len(),
    decreases syms.len(),
{
    if syms.len() > 0 {
        lemma_sumsq_bound(syms.subrange(1, syms.len() as int));
        assert(syms[0] * syms[0] <= 16384) by (nonlinear_arith)
            requires
                -128 <= syms[0] <= 127,
        ;
        assert(0 <= syms[0] * syms[0]) by (nonlinear_arith);
    }
}

/// The first variance-table index from `k` on whose entry is at least the
/// mean squared symbol, with the table entry `2^(k-6)` compared exactly:
/// `2^(k-6) < sum/n` exactly when `n * 2^k < 64 * sum`.
pub open spec fn spec_var_idx_from(sum: int, n: int, k: nat) -> int
    decreases 16 - k,
{
    if k >= 16 {
        16
    } else if n * pow2(k) < 64 * sum {
        spec_var_idx_from(sum, n, k + 1)
    } else {
        k as int
    }
}

/// The variance index a block selects: the first table entry at or above
/// the mean squared symbol, clamped to 15.
pub open spec fn spec_i_var(sum: int, n: int) -> int {
    if spec_var_idx_from(sum, n, 0) > 15 {
        15
    } else {
        spec_var_idx_from(sum, n, 0)
    }
}

/// The second header byte: the variance index in the low five bits, the
/// low three checksum bits above it.
pub open spec fn spec_hdr1(iv: int, ck: u8) -> u8 {
    (iv + 32 * (ck % 8)) as u8
}

/// The mean-squared-symbol estimate and table search, on exact integers.
fn var_index(sum: i64, n: usize) -> (r: usize)
    requires
        0 <= sum <= 0x200000000000,
        n < 0x80000000,
    ensures
        r == spec_i_var(sum as int, n as int),
        r <= 15,
{
    let mut k: usize = 0;
    while k < 16
        invariant
            k <= 16,
            0 <= sum <= 0x200000000000,
            n < 0x80000000,
            spec_var_idx_from(sum as int, n as int, 0) == spec_var_idx_from(
                sum as int,
                n as int,
                k as nat,
            ),
        decreases 16 - k,
    {
        let p = crate::fix32::pow2_i64(k as u32);
        proof {
            assert(p <= 0x8000) by {
                if (k as nat) < 15 {
                    vstd::arithmetic::power2::lemma_pow2_strictly_increases(k as nat, 15);
                }
                vstd::arithmetic::power2::lemma2_to64();
            }
            assert((n as int) * (p as int) <= 0x80000000 * 0x8000) by (nonlinear_arith)
                requires
                    0 <= n as int <= 0x80000000,
                    1 <= p as int <= 0x8000,
            ;
        }
        if !((n as i64) * p < 64 * sum) {
            return k;
        }
        k = k + 1;
    }
    15
}

/// The wrapping byte checksum of a prefix of the symbol buffer.
#[verifier::loop_isolation(false)]
fn cksum_prefix(syms: &Vec<i8>, n: usize) -> (r: u8)
    requires
        n <= syms@.len(),
    ensures
        r == spec_cksum(syms@.subrange(0, n as int)),
{
    let mut acc: u8 = 0;
    let mut i: usize = 0;
    proof {
        assert(syms@.subrange(0, n as int).subrange(0, n as int) =~= syms@.subrange(0, n as int));
    }
    while i < n
        invariant
            i <= n,
            spec_cksum(syms@.subrange(0, n as int)) == spec_cksum_acc(
                syms@.subrange(i as int, n as int),
                acc,
            ),
        decreases n - i,
    {
        let ghost sub = syms@.subrange(i as int, n as int);
        let s = syms[i];
        let u: u8 = if s >= 0 {
            s as u8
        } else {
            ((s as i16) + 256) as u8
        };
        proof {
            assert(sub[0] == syms@[i as int]);
            assert(u == spec_u8_of_i8(s));
            assert(sub.subrange(1, sub.len() as int) =~= syms@.subrange(i + 1, n as int));
        }
        acc = u.wrapping_add(acc);
        i = i + 1;
    }
    proof {
        assert(syms@.subrange(i as int, n as int).len() == 0);
    }
    acc
}

/// The exact squared-symbol sum of a prefix of the symbol buffer.
#[verifier::loop_isolation(false)]
fn sumsq_prefix(syms: &Vec<i8>, n: usize) -> (r: i64)
    requires
        n <= syms@.len(),
        n < 0x80000000,
    ensures
        r == spec_sumsq_syms(syms@.subrange(0, n as int)),
        0 <= r <= 0x200000000000,
{
    let mut acc: i64 = 0;
    let mut i: usize = 0;
    proof {
        assert(syms@.subrange(0, n as int).subrange(0, n as int) =~= syms@.subrange(0, n as int));
        lemma_sumsq_bound(syms@.subrange(0, n as int));
    }
    while i < n
        invariant
            i <= n,
            0 <= acc <= 16384 * i,
            spec_sumsq_syms(syms@.subrange(0, n as int)) == acc + spec_sumsq_syms(
                syms@.subrange(i as int, n as int),
            ),
        decreases n - i,
    {
        let ghost sub = syms@.subrange(i as int, n as int);
        let s = syms[i];
        proof {
            assert(sub[0] == syms@[i as int]);
            assert(sub.subrange(1, sub.len() as int) =~= syms@.subrange(i + 1, n as int));
            assert(0 <= (s as int) * (s as int) <= 16384) by (nonlinear_arith)
                requires
                    -128 <= s as int <= 127,
            ;
        }
        acc = acc + (s as i64) * (s as i64);
        i = i + 1;
    }
    proof {
        assert(syms@.subrange(i as int, n as int).len() == 0);
        lemma_sumsq_bound(syms@.subrange(0, n as int));
    }
    acc
}

/// What compressing one block yields for given buffer capacities: the
/// successor state, the output bytes (header, then payload) and the
/// quantizer's symbol count. `None` on a quantizer refusal or when either
/// buffer is too small.
pub open spec fn spec_compress_block(
    st: State,
    qs: Seq<Quat>,
    qp: u8,
    bank: CdfBank,
    cap_data: int,
    cap_scratch: int,
) -> Option<(State, Seq<u8>, nat)> {
    match spec_quant_block(st, qs, qp, cap_scratch) {
        None => None,
        Some(qr) => {
            if cap_data < 2 {
                None
            } else {
                let sum = spec_sumsq_syms(qr.1);
                let iv = spec_i_var(sum, qr.1.len() as int);
                let mdl = bank.models[iv];
                match spec_rans_encode(qr.1, mdl, cap_data - 2) {
                    None => None,
                    Some(bytes) => {
                        let ck = spec_cksum(qr.1);
                        Some((qr.0, seq![qp, spec_hdr1(iv, ck)] + bytes, qr.1.len()))
                    },
                }
            }
        },
    }
}

/// Compress one block: quantize into `scratch`, pick a variance model,
/// entropy-code into `data` after the two header bytes.
///
/// Returns exactly what `spec_compress_block` yields for the two buffer
/// lengths: `None` when either buffer is too small or an input drives the
/// fixed-point math out of its domain; on success the output bytes sit in
/// `data`'s prefix and the symbols in `scratch`'s prefix, with both tails
/// untouched.
#[verifier::rlimit(60)]
#[verifier::loop_isolation(false)]
pub fn compress_block(
    state: &State,
    quats: &Vec<Quat>,
    qp: u8,
    data: &mut Vec<u8>,
    scratch: &mut Vec<i8>,
    bank: &CdfBank,
) -> (r: Option<CompressResult>)
    requires
        qp <= 30,
        spec_bank_wf(*bank),
        old(scratch)@.len() < 0x80000000,
    ensures
        final(data)@.len() == old(data)@.len(),
        final(scratch)@.len() == old(scratch)@.len(),
        match spec_compress_block(
            *state,
            quats@,
            qp,
            *bank,
            old(data)@.len() as int,
            old(scratch)@.len() as int,
        ) {
            None => r == None::<CompressResult>,
            Some(res) => {
                &&& (r matches Some(cres) && cres.new_state == res.0 && cres.bytes_put
                    == res.1.len() && cres.dbg_qbytes == res.2)
                &&& final(data)@.subrange(0, res.1.len() as int) == res.1
                &&& final(data)@.subrange(res.1.len() as int, final(data)@.len() as int)
                    == old(data)@.subrange(res.1.len() as int, old(data)@.len() as int)
            },
        },
{
    let qr = match (*state).quant_block(quats, qp, scratch) {
        None => {
            return None;
        },
        Some(q) => q,
    };
    if data.len() < 2 {
        return None;
    }
    let ghost syms = spec_quant_block(*state, quats@, qp, old(scratch)@.len() as int).unwrap().1;
    proof {
        assert(scratch@.subrange(0, qr.bytes_put as int) == syms);
    }
    let sum = sumsq_prefix(scratch, qr.bytes_put);
    let i_var = var_index(sum, qr.bytes_put);
    let mdl = &bank.models[i_var];
    let rlen = match rans_encode_at(scratch, qr.bytes_put, data, 2, mdl) {
        None => {
            return None;
        },
        Some(l) => l,
    };
    let cksum = cksum_prefix(scratch, qr.bytes_put);
    let ghost pre = data@;
    data.set(0, qp);
    data.set(1, (i_var as u8) + (cksum % 8) * 32);
    proof {
        let bytes = spec_rans_encode(syms, *mdl, old(data)@.len() - 2).unwrap();
        assert forall|j: int| 0 <= j < data@.len() && j >= 2 implies data@[j] == pre[j] by {}
        assert(data@.subrange(0, 2 + bytes.len() as int) =~= seq![
            qp,
            spec_hdr1(i_var as int, cksum),
        ] + bytes) by {
            assert forall|j: int| 0 <= j < bytes.len() implies data@[2 + j] == bytes[j] by {
                assert(pre[2 + j] == pre.subrange(2, 2 + bytes.len() as int)[j]);
            }
            assert(data@[1] == spec_hdr1(i_var as int, cksum));
        }
        assert forall|j: int| 2 + bytes.len() <= j < data@.len() implies data@[j] == old(
            data,
        )@[j] by {
            assert(pre[j] == pre.subrange(2 + bytes.len() as int, pre.len() as int)[j - (2
                + bytes.len())]);
            assert(old(data)@[j] == old(data)@.subrange(
                2 + bytes.len() as int,
                old(data)@.len() as int,
            )[j - (2 + bytes.len())]);
        }
        assert(data@.subrange(2 + bytes.len() as int, data@.len() as int) =~= old(
            data,
        )@.subrange(2 + bytes.len() as int, old(data)@.len() as int));
    }
    Some(
        CompressResult {
            new_state: qr.new_state,
            bytes_put: rlen + 2,
            dbg_qbytes: qr.bytes_put,
        },
    )
}

/// Decode one symbol as the block decoder does. Unlike the stream
/// decoder, the unwrapped lookup index drives the cumulative table, while
/// the emitted byte is still the wrapped symbol.
pub open spec fn spec_dec_sym_block(mdl: LaplaceCdf, data: Seq<u8>, state: int, eaten: int) -> Option<
    (i8, int, int),
> {
    let cum = state % pow2(mdl.scale as nat) as int;
    let sraw = spec_icdf(mdl, cum);
    let s8: i8 = if sraw == 128 {
        -128i8
    } else {
        sraw as i8
    };
    let start = spec_cdf(mdl, sraw);
    let freq = spec_cdf(mdl, sraw + 1) - start;
    let st2 = freq * (state / pow2(mdl.scale as nat) as int) + cum - start;
    match spec_rans_fill(data, st2, eaten) {
        None => None,
        Some(p) => Some((s8, p.0, p.1)),
    }
}

/// Renormalization makes progress: it never un-eats bytes, leaves the
/// state alone when it eats nothing, pulls at least one byte when it
/// starts low, and keeps the state in 32 bits.
proof fn lemma_fill_progress(data: Seq<u8>, state: int, eaten: int)
    requires
        0 <= state < 0x100000000,
        0 <= eaten <= data.len(),
    ensures
        match spec_rans_fill(data, state, eaten) {
            None => true,
            Some(p) => {
                &&& eaten <= p.1 <= data.len()
                &&& (p.1 == eaten ==> p.0 == state)
                &&& (state < RANS_BYTE_L as int ==> p.1 > eaten)
                &&& 0 <= p.0 < 0x100000000
            },
        },
    decreases data.len() - eaten,
{
    if state >= RANS_BYTE_L as int {
    } else if eaten >= data.len() || eaten < 0 {
    } else {
        lemma_fill_progress(data, state * 256 + data[eaten], eaten + 1);
    }
}

/// The inverse lookup lands in `[-128, 128]` and brackets its argument.
proof fn lemma_icdf_from_bracket(mdl: LaplaceCdf, y: int, x: int)
    requires
        spec_cdf_wf(mdl),
        -128 <= x <= 128,
        spec_cdf(mdl, x) <= y,
        y < pow2(mdl.scale as nat) as int,
    ensures
        ({
            let s = spec_icdf_from(mdl, y, x);
            &&& x <= s <= 128
            &&& spec_cdf(mdl, s) <= y < spec_cdf(mdl, s + 1)
        }),
    decreases 128 - x,
{
    if x >= 128 {
    } else if spec_cdf(mdl, x + 1) > y {
    } else {
        lemma_icdf_from_bracket(mdl, y, x + 1);
    }
}

/// One block-decoder symbol step makes progress: it either eats a byte or
/// strictly shrinks the state, and keeps the state in 32 bits.
proof fn lemma_dec_sym_progress(mdl: LaplaceCdf, data: Seq<u8>, state: int, eaten: int)
    requires
        spec_cdf_wf(mdl),
        0 <= state < 0x100000000,
        0 <= eaten <= data.len(),
    ensures
        match spec_dec_sym_block(mdl, data, state, eaten) {
            None => true,
            Some(p) => {
                &&& eaten <= p.2 <= data.len()
                &&& (p.2 == eaten ==> p.1 < state)
                &&& 0 <= p.1 < 0x100000000
            },
        },
{
    let ps = pow2(mdl.scale as nat) as int;
    vstd::arithmetic::power2::lemma_pow2_pos(mdl.scale as nat);
    assert(ps <= 0x800000) by {
        if (mdl.scale as nat) < 23 {
            vstd::arithmetic::power2::lemma_pow2_strictly_increases(mdl.scale as nat, 23);
        }
        vstd::arithmetic::power2::lemma2_to64();
    }
    let cum = state % ps;
    vstd::arithmetic::div_mod::lemma_mod_bound(state, ps);
    lemma_icdf_from_bracket(mdl, cum, -128);
    let sraw = spec_icdf(mdl, cum);
    lemma_cdf_sym_bounds(mdl, sraw);
    lemma_dec_state_bound(mdl, state, sraw);
    let start = spec_cdf(mdl, sraw);
    let freq = spec_cdf(mdl, sraw + 1) - start;
    let q = state / ps;
    let st2 = freq * q + cum - start;
    vstd::arithmetic::div_mod::lemma_div_pos_is_pos(state, ps);
    vstd::arithmetic::div_mod::lemma_fundamental_div_mod(state, ps);
    if q >= 1 {
        // folding out a symbol drops the state by at least 256 per level
        assert(st2 <= state - 256 * q) by (nonlinear_arith)
            requires
                st2 == freq * q + cum - start,
                state == ps * q + cum,
                1 <= freq <= ps - 256,
                start >= 0,
                q >= 1,
        ;
    } else {
        assert(freq * q == 0) by (nonlinear_arith)
            requires
                q == 0,
        ;
        assert(st2 <= cum < ps);
        assert(st2 < RANS_BYTE_L as int);
    }
    lemma_fill_progress(data, st2, eaten);
}

/// What the block decoder's main loop yields with room for `cap` more
/// quaternions: the final state, the emitted quaternions, the bytes eaten
/// and the running checksum. `None` on input exhaustion or a triple
/// outside the fixed-point domain.
pub open spec fn spec_dblk_loop(
    st: State,
    mdl: LaplaceCdf,
    qp: u8,
    data: Seq<u8>,
    rstate: int,
    eaten: int,
    ck: u8,
    cap: int,
) -> Option<(State, Seq<Quat>, int, u8)>
    decreases cap, data.len() - eaten, rstate,
    via spec_dblk_loop_decreases
{
    if cap <= 0 {
        Some((st, Seq::empty(), eaten, ck))
    } else if !(0 <= rstate < 0x100000000 && 0 <= eaten <= data.len() && spec_cdf_wf(mdl)
        && qp <= 30) {
        None
    } else {
        match spec_dec_sym_block(mdl, data, rstate, eaten) {
            None => None,
            Some(p0) => match spec_dec_sym_block(mdl, data, p0.1, p0.2) {
                None => None,
                Some(p1) => match spec_dec_sym_block(mdl, data, p1.1, p1.2) {
                    None => None,
                    Some(p2) => {
                        let ck1 = vstd::wrapping::u8_specs::wrapping_add(
                            spec_u8_of_i8(p0.0),
                            ck,
                        );
                        let ck2 = vstd::wrapping::u8_specs::wrapping_add(
                            spec_u8_of_i8(p1.0),
                            ck1,
                        );
                        let ck3 = vstd::wrapping::u8_specs::wrapping_add(
                            spec_u8_of_i8(p2.0),
                            ck2,
                        );
                        match spec_dequant_step(st, (p0.0, p1.0, p2.0), qp) {
                            None => None,
                            Some(dp) => match dp.1 {
                                None => spec_dblk_loop(
                                    dp.0,
                                    mdl,
                                    qp,
                                    data,
                                    p2.1,
                                    p2.2,
                                    ck3,
                                    cap,
                                ),
                                Some(qq) => match spec_dblk_loop(
                                    dp.0,
                                    mdl,
                                    qp,
                                    data,
                                    p2.1,
                                    p2.2,
                                    ck3,
                                    cap - 1,
                                ) {
                                    None => None,
                                    Some(rr) => Some((rr.0, seq![qq] + rr.1, rr.2, rr.3)),
                                },
                            },
                        }
                    },
                },
            },
        }
    }
}

#[via_fn]
proof fn spec_dblk_loop_decreases(
    st: State,
    mdl: LaplaceCdf,
    qp: u8,
    data: Seq<u8>,
    rstate: int,
    eaten: int,
    ck: u8,
    cap: int,
) {
    if cap > 0 && 0 <= rstate < 0x100000000 && 0 <= eaten <= data.len() && spec_cdf_wf(mdl)
        && qp <= 30 {
        lemma_dec_sym_progress(mdl, data, rstate, eaten);
        match spec_dec_sym_block(mdl, data, rstate, eaten) {
            None => {},
            Some(p0) => {
                lemma_dec_sym_progress(mdl, data, p0.1, p0.2);
                match spec_dec_sym_block(mdl, data, p0.1, p0.2) {
                    None => {},
                    Some(p1) => {
                        lemma_dec_sym_progress(mdl, data, p1.1, p1.2);
                    },
                }
            },
        }
    }
}

/// What decompressing one block yields with room for `cap` quaternions:
/// the successor state, the quaternions, and the bytes eaten. `None` when
/// the data is shorter than a header, declares an impossible shift or
/// variance index, runs dry, leaves the fixed-point domain, or fails the
/// checksum.
pub open spec fn spec_decompress_block(st: State, bank: CdfBank, data: Seq<u8>, cap: int) -> Option<
    (State, Seq<Quat>, int),
> {
    if data.len() < 6 {
        None
    } else if data[0] > 30 {
        None
    } else if data[1] as int % 32 >= 16 {
        None
    } else {
        let mdl = bank.models[data[1] as int % 32];
        let st0 = data[2] + 256 * data[3] + 65536 * data[4] + 16777216 * data[5];
        match spec_dblk_loop(st, mdl, data[0], data, st0 as int, 6, 0, cap) {
            None => None,
            Some(rr) => {
                if rr.3 as int % 8 == data[1] as int / 32 {
                    Some((rr.0, rr.1, rr.2))
                } else {
                    None
                }
            },
        }
    }
}

/// Decode one symbol from the state against the block's model,
/// renormalizing from `data`.
#[verifier::loop_isolation(false)]
fn dec_sym_block(mdl: &LaplaceCdf, data: &Vec<u8>, state: u32, eaten: usize) -> (r: Option<
    (i8, u32, usize),
>)
    requires
        spec_cdf_wf(*mdl),
        eaten <= data@.len(),
    ensures
        match spec_dec_sym_block(*mdl, data@, state as int, eaten as int) {
            None => r == None::<(i8, u32, usize)>,
            Some(p) => (r matches Some(t) && t.0 == p.0 && t.1 == p.1 && t.2 == p.2),
        },
{
    proof {
        vstd::arithmetic::power2::lemma_pow2_pos(mdl.scale as nat);
        assert(pow2(mdl.scale as nat) <= 0x800000) by {
            if (mdl.scale as nat) < 23 {
                vstd::arithmetic::power2::lemma_pow2_strictly_increases(mdl.scale as nat, 23);
            }
            vstd::arithmetic::power2::lemma2_to64();
        }
    }
    let psc = pow2_u32(mdl.scale);
    let cum = state % psc;
    let symr = mdl.icdf(cum);
    let sym8: i8 = if symr == 128 {
        -128i8
    } else {
        symr as i8
    };
    let start = mdl.cdf(symr);
    let freq = mdl.cdf(symr + 1) - start;
    proof {
        lemma_cdf_sym_bounds(*mdl, symr as int);
        lemma_dec_state_bound(*mdl, state as int, symr as int);
    }
    let mut st2: u32 = freq * (state / psc) + cum - start;
    let mut e: usize = eaten;
    let ghost st2g = st2 as int;
    let ghost eat0 = e as int;
    while st2 < RANS_BYTE_L
        invariant
            eat0 <= e as int <= data@.len(),
            spec_rans_fill(data@, st2g, eat0) == spec_rans_fill(data@, st2 as int, e as int),
        decreases data@.len() - e,
    {
        if e >= data.len() {
            proof {
                assert(spec_rans_fill(data@, st2 as int, e as int) is None);
            }
            return None;
        }
        st2 = st2 * 256 + (data[e] as u32);
        e = e + 1;
    }
    proof {
        assert(spec_rans_fill(data@, st2 as int, e as int) == Some((st2 as int, e as int)));
    }
    Some((sym8, st2, e))
}

/// Decompress one block: parse the header, select the model, decode
/// triples and reconstruct quaternions until `quats` is full, then check
/// the checksum.
///
/// Returns exactly what `spec_decompress_block` yields for `quats`'s
/// length: `None` on a short or corrupt block (bad header fields, drained
/// input, a reconstruction outside the fixed-point domain, or a checksum
/// mismatch), else the successor state, bytes eaten and count, with the
/// quaternions in `quats`'s prefix and the rest of `quats` untouched.
#[verifier::rlimit(100)]
#[verifier::loop_isolation(false)]
pub fn decompress_block(
    state: &State,
    data: &Vec<u8>,
    quats: &mut Vec<Quat>,
    bank: &CdfBank,
) -> (r: Option<DecompressResult>)
    requires
        spec_bank_wf(*bank),
    ensures
        final(quats)@.len() == old(quats)@.len(),
        match spec_decompress_block(*state, *bank, data@, old(quats)@.len() as int) {
            None => r == None::<DecompressResult>,
            Some(res) => {
                &&& res.1.len() <= old(quats)@.len()
                &&& (r matches Some(dres) && dres.new_state == res.0 && dres.bytes_eaten
                    == res.2 && dres.quats_put == res.1.len())
                &&& final(quats)@.subrange(0, res.1.len() as int) == res.1
                &&& final(quats)@.subrange(res.1.len() as int, final(quats)@.len() as int)
                    == old(quats)@.subrange(res.1.len() as int, old(quats)@.len() as int)
            },
        },
{
    if data.len() < 6 {
        return None;
    }
    let qp = data[0];
    if qp > 30 {
        return None;
    }
    let i_var = (data[1] % 32) as usize;
    if i_var >= 16 {
        return None;
    }
    let cksum = data[1] / 32;
    let mdl = &bank.models[i_var];
    let mut rstate: u32 = (data[2] as u32) + 256 * (data[3] as u32) + 65536 * (data[4] as u32)
        + 16777216 * (data[5] as u32);
    let mut bytes_eaten: usize = 6;
    let mut quats_put: usize = 0;
    let mut new_state = *state;
    let mut own_cksum: u8 = 0;
    let ghost st0 = rstate as int;
    let ghost cap0 = old(quats)@.len() as int;
    proof {
        assert(quats@.subrange(0, 0) =~= Seq::<Quat>::empty());
    }
    while quats_put < quats.len()
        invariant
            quats_put <= quats@.len(),
            quats@.len() == old(quats)@.len(),
            6 <= bytes_eaten <= data@.len(),
            quats@.subrange(quats_put as int, quats@.len() as int) == old(quats)@.subrange(
                quats_put as int,
                old(quats)@.len() as int,
            ),
            spec_dblk_loop(*state, *mdl, qp, data@, st0, 6, 0, cap0) == (match spec_dblk_loop(
                new_state,
                *mdl,
                qp,
                data@,
                rstate as int,
                bytes_eaten as int,
                own_cksum,
                cap0 - quats_put,
            ) {
                None => None::<(State, Seq<Quat>, int, u8)>,
                Some(rr) => Some(
                    (rr.0, quats@.subrange(0, quats_put as int) + rr.1, rr.2, rr.3),
                ),
            }),
        decreases data@.len() - bytes_eaten, rstate,
    {
        let ghost st_h = new_state;
        let ghost rs_h = rstate as int;
        let ghost be_h = bytes_eaten as int;
        let ghost ck_h = own_cksum;
        proof {
            lemma_dec_sym_progress(*mdl, data@, rs_h, be_h);
        }
        let p0 = match dec_sym_block(mdl, data, rstate, bytes_eaten) {
            None => {
                return None;
            },
            Some(p) => p,
        };
        proof {
            lemma_dec_sym_progress(*mdl, data@, p0.1 as int, p0.2 as int);
        }
        let p1 = match dec_sym_block(mdl, data, p0.1, p0.2) {
            None => {
                return None;
            },
            Some(p) => p,
        };
        proof {
            lemma_dec_sym_progress(*mdl, data@, p1.1 as int, p1.2 as int);
        }
        let p2 = match dec_sym_block(mdl, data, p1.1, p1.2) {
            None => {
                return None;
            },
            Some(p) => p,
        };
        let u0: u8 = if p0.0 >= 0 {
            p0.0 as u8
        } else {
            ((p0.0 as i16) + 256) as u8
        };
        let u1: u8 = if p1.0 >= 0 {
            p1.0 as u8
        } else {
            ((p1.0 as i16) + 256) as u8
        };
        let u2: u8 = if p2.0 >= 0 {
            p2.0 as u8
        } else {
            ((p2.0 as i16) + 256) as u8
        };
        let ck1 = u0.wrapping_add(own_cksum);
        let ck2 = u1.wrapping_add(ck1);
        let ck3 = u2.wrapping_add(ck2);
        let dp = match crate::quant::dequant_step_ex(new_state, [p0.0, p1.0, p2.0], qp) {
            None => {
                return None;
            },
            Some(d) => d,
        };
        new_state = dp.0;
        own_cksum = ck3;
        rstate = p2.1;
        bytes_eaten = p2.2;
        match dp.1 {
            None => {},
            Some(qq) => {
                let ghost pre = quats@;
                quats.set(quats_put, qq);
                quats_put = quats_put + 1;
                proof {
                    assert forall|j: int|
                        quats_put <= j < quats@.len() implies quats@[j] == old(quats)@[j] by {
                        assert(pre[j] == pre.subrange(quats_put - 1, pre.len() as int)[j
                            - (quats_put - 1)]);
                        assert(old(quats)@[j] == old(quats)@.subrange(
                            quats_put - 1,
                            old(quats)@.len() as int,
                        )[j - (quats_put - 1)]);
                    }
                    assert(quats@.subrange(quats_put as int, quats@.len() as int) =~= old(
                        quats,
                    )@.subrange(quats_put as int, old(quats)@.len() as int));
                    assert(quats@.subrange(0, quats_put as int) =~= pre.subrange(
                        0,
                        quats_put - 1,
                    ) + seq![qq]);
                    match spec_dblk_loop(
                        new_state,
                        *mdl,
                        qp,
                        data@,
                        rstate as int,
                        bytes_eaten as int,
                        own_cksum,
                        cap0 - quats_put,
                    ) {
                        None => {},
                        Some(rr) => {
                            assert((pre.subrange(0, quats_put - 1) + seq![qq]) + rr.1
                                =~= pre.subrange(0, quats_put - 1) + (seq![qq] + rr.1));
                        },
                    }
                }
            },
        }
    }
    if own_cksum % 8 != cksum {
        return None;
    }
    proof {
        assert(quats@.subrange(0, quats_put as int) + Seq::<Quat>::empty() =~= quats@.subrange(
            0,
            quats_put as int,
        ));
    }
    Some(DecompressResult { new_state, bytes_eaten, quats_put })
}

/// The cumulative table of a well-formed model is strictly increasing
/// over the whole alphabet, anchored at zero below it and at the full
/// range above it.
pub proof fn lemma_cdf_monotone(mdl: LaplaceCdf, x: int)
    requires
        spec_cdf_wf(mdl),
        -128 <= x <= 128,
    ensures
        spec_cdf(mdl, x) < spec_cdf(mdl, x + 1),
        spec_cdf(mdl, -128) == 0,
        spec_cdf(mdl, 129) == pow2(mdl.scale as nat),
{
    lemma_cdf_sym_bounds(mdl, x);
}

/// The cumulative table is monotone over any span of the alphabet.
proof fn lemma_cdf_mono_range(mdl: LaplaceCdf, a: int, b: int)
    requires
        spec_cdf_wf(mdl),
        -128 <= a <= b <= 129,
    ensures
        spec_cdf(mdl, a) <= spec_cdf(mdl, b),
    decreases b - a,
{
    if a < b {
        lemma_cdf_sym_bounds(mdl, a);
        lemma_cdf_mono_range(mdl, a + 1, b);
    }
}

/// The inverse lookup is the only symbol whose interval contains `y`.
proof fn lemma_icdf_unique(mdl: LaplaceCdf, y: int, s: int)
    requires
        spec_cdf_wf(mdl),
        -128 <= s <= 128,
        spec_cdf(mdl, s) <= y < spec_cdf(mdl, s + 1),
    ensures
        spec_icdf(mdl, y) == s,
{
    vstd::arithmetic::power2::lemma_pow2_pos(mdl.scale as nat);
    lemma_cdf_sym_bounds(mdl, s);
    assert(y < pow2(mdl.scale as nat) as int) by {
        lemma_cdf_mono_range(mdl, s + 1, 129);
    }
    lemma_icdf_from_bracket(mdl, y, -128);
    let s2 = spec_icdf(mdl, y);
    if s2 < s {
        lemma_cdf_mono_range(mdl, s2 + 1, s);
    }
    if s2 > s {
        lemma_cdf_mono_range(mdl, s + 1, s2);
    }
}

/// Folding a symbol into a renormalized state is invertible: the decoder
/// recovers the symbol from the masked state and restores the
/// pre-fold state exactly, and the folded state lies in the working
/// interval `[2^23, 2^31)`.
proof fn lemma_fold_unfold(mdl: LaplaceCdf, s: int, y: int)
    requires
        spec_cdf_wf(mdl),
        -128 <= s <= 127,
        ({
            let freq = spec_cdf(mdl, s + 1) - spec_cdf(mdl, s);
            freq * pow2((23 - mdl.scale) as nat) as int <= y < freq * pow2(
                (31 - mdl.scale) as nat,
            ) as int
        }),
    ensures
        ({
            let start = spec_cdf(mdl, s);
            let freq = spec_cdf(mdl, s + 1) - start;
            let ps = pow2(mdl.scale as nat) as int;
            let x2 = (y / freq) * ps + (y % freq) + start;
            &&& RANS_BYTE_L as int <= x2 < 0x80000000
            &&& x2 % ps == (y % freq) + start
            &&& x2 / ps == y / freq
            &&& spec_icdf(mdl, x2 % ps) == s
            &&& freq * (x2 / ps) + (x2 % ps) - start == y
        }),
{
    let start = spec_cdf(mdl, s);
    let freq = spec_cdf(mdl, s + 1) - start;
    let ps = pow2(mdl.scale as nat) as int;
    let p23 = pow2((23 - mdl.scale) as nat) as int;
    let p31 = pow2((31 - mdl.scale) as nat) as int;
    lemma_cdf_sym_bounds(mdl, s);
    vstd::arithmetic::power2::lemma_pow2_pos(mdl.scale as nat);
    vstd::arithmetic::power2::lemma_pow2_pos((23 - mdl.scale) as nat);
    vstd::arithmetic::power2::lemma_pow2_pos((31 - mdl.scale) as nat);
    vstd::arithmetic::power2::lemma_pow2_adds(mdl.scale as nat, (23 - mdl.scale) as nat);
    vstd::arithmetic::power2::lemma_pow2_adds(mdl.scale as nat, (31 - mdl.scale) as nat);
    assert(pow2(23) == RANS_BYTE_L && pow2(31) == 0x80000000) by {
        vstd::arithmetic::power2::lemma2_to64();
    }
    vstd::arithmetic::div_mod::lemma_mod_bound(y, freq);
    vstd::arithmetic::div_mod::lemma_div_pos_is_pos(y, freq);
    let q = y / freq;
    let r = (y % freq) + start;
    vstd::arithmetic::div_mod::lemma_fundamental_div_mod(y, freq);
    // the remainder-plus-start slot stays inside one scale unit
    assert(0 <= r < ps);
    let x2 = q * ps + r;
    vstd::arithmetic::div_mod::lemma_fundamental_div_mod_converse_div(x2, ps, q, r);
    vstd::arithmetic::div_mod::lemma_fundamental_div_mod_converse_mod(x2, ps, q, r);
    // the quotient range comes from the renormalization window on y
    assert(p23 <= q) by {
        if q < p23 {
            vstd::arithmetic::mul::lemma_mul_inequality(q, p23 - 1, freq);
            assert(freq * q == q * freq) by (nonlinear_arith);
            assert((p23 - 1) * freq == freq * p23 - freq) by (nonlinear_arith);
        }
    }
    assert(q < p31) by {
        if q >= p31 {
            vstd::arithmetic::mul::lemma_mul_inequality(p31, q, freq);
            assert(freq * q == q * freq) by (nonlinear_arith);
            assert(p31 * freq == freq * p31) by (nonlinear_arith);
        }
    }
    assert(RANS_BYTE_L as int <= q * ps) by {
        vstd::arithmetic::mul::lemma_mul_inequality(p23, q, ps);
        assert(p23 * ps == ps * p23) by (nonlinear_arith);
        assert(q * ps == ps * q) by (nonlinear_arith);
    }
    assert(q * ps + r < 0x80000000) by {
        vstd::arithmetic::mul::lemma_mul_inequality(q, p31 - 1, ps);
        assert((p31 - 1) * ps == p31 * ps - ps) by (nonlinear_arith);
        assert(p31 * ps == ps * p31) by (nonlinear_arith);
        assert(q * ps == ps * q) by (nonlinear_arith);
    }
    lemma_icdf_unique(mdl, r, s);
}

/// What renormalization emits: it extends the byte run, keeps the run's
/// prefix, leaves the state below the cutoff, and leaves the state either
/// untouched or just under the cutoff's last shift.
proof fn lemma_emit_props(x: int, xm: int, acc: Seq<u8>, cap: int)
    requires
        0 <= x < 0x80000000,
        xm >= 1,
    ensures
        match spec_rans_emit(x, xm, acc, cap) {
            None => true,
            Some(p) => {
                &&& acc.len() <= p.1.len()
                &&& p.1.subrange(0, acc.len() as int) == acc
                &&& 0 <= p.0 < xm
                &&& p.0 < 0x80000000
                &&& (p.1.len() == acc.len() ==> p.0 == x)
                &&& (p.1.len() > acc.len() ==> 256 * p.0 + 255 >= xm && p.0 < RANS_BYTE_L as int)
            },
        },
    decreases cap - acc.len(),
{
    if x < xm {
        assert(spec_rans_emit(x, xm, acc, cap) == Some((x, acc)));
        assert(acc.subrange(0, acc.len() as int) =~= acc);
    } else if acc.len() >= cap {
    } else {
        let acc1 = acc + seq![(x % 256) as u8];
        lemma_emit_props(x / 256, xm, acc1, cap);
        vstd::arithmetic::div_mod::lemma_fundamental_div_mod(x, 256);
        vstd::arithmetic::div_mod::lemma_mod_bound(x, 256);
        match spec_rans_emit(x / 256, xm, acc1, cap) {
            None => {},
            Some(p) => {
                assert(p.1.subrange(0, acc.len() as int) =~= acc) by {
                    assert(p.1.subrange(0, acc1.len() as int) == acc1);
                    assert forall|j: int| 0 <= j < acc.len() implies p.1[j] == acc[j] by {
                        assert(p.1[j] == p.1.subrange(0, acc1.len() as int)[j]);
                        assert(acc1[j] == acc[j]);
                    }
                }
                if p.1.len() == acc1.len() {
                    // the recursive call emitted nothing, so its state is
                    // the shifted one, one division under the cutoff
                    assert(p.0 == x / 256);
                    assert(256 * (x / 256) + 255 >= x >= xm);
                    assert(x / 256 < RANS_BYTE_L as int) by {
                        vstd::arithmetic::div_mod::lemma_div_is_ordered(x, 0x7fffffff, 256);
                        assert(0x7fffffffint / 256 < RANS_BYTE_L as int);
                    }
                }
            },
        }
    }
}

/// Pulling renormalization bytes back in reverse order retraces the
/// emission exactly: filling from the post-emission state walks back to
/// the pre-emission state, having eaten just the emitted bytes.
proof fn lemma_emit_fill(x: int, xm: int, acc: Seq<u8>, cap: int, data: Seq<u8>, eaten: int)
    requires
        0 <= x < 0x80000000,
        xm >= 1,
        0 <= eaten,
        spec_rans_emit(x, xm, acc, cap) is Some,
        ({
            let p = spec_rans_emit(x, xm, acc, cap).unwrap();
            let k = p.1.len() - acc.len();
            &&& eaten + k <= data.len()
            &&& forall|j: int|
                0 <= j < k ==> #[trigger] data[eaten + j] == p.1[p.1.len() - 1 - j]
        }),
    ensures
        ({
            let p = spec_rans_emit(x, xm, acc, cap).unwrap();
            let k = p.1.len() - acc.len();
            spec_rans_fill(data, p.0, eaten) == spec_rans_fill(data, x, eaten + k)
        }),
    decreases cap - acc.len(),
{
    lemma_emit_props(x, xm, acc, cap);
    if x < xm {
    } else {
        let e = (x % 256) as u8;
        let acc1 = acc + seq![e];
        let p = spec_rans_emit(x, xm, acc, cap).unwrap();
        let k = p.1.len() - acc.len();
        lemma_emit_props(x / 256, xm, acc1, cap);
        lemma_emit_fill(x / 256, xm, acc1, cap, data, eaten);
        // the byte pulled last is the one emitted first
        assert(data[eaten + k - 1] == p.1[acc.len() as int]) by {
            assert(data[eaten + (k - 1)] == p.1[p.1.len() - 1 - (k - 1)]);
        }
        assert(p.1[acc.len() as int] == e) by {
            assert(p.1.subrange(0, acc1.len() as int) == acc1);
            assert(p.1[acc.len() as int] == p.1.subrange(0, acc1.len() as int)[acc.len() as int]);
        }
        assert(x / 256 < RANS_BYTE_L as int) by {
            vstd::arithmetic::div_mod::lemma_div_is_ordered(x, 0x7fffffff, 256);
            assert(0x7fffffffint / 256 < RANS_BYTE_L as int);
        }
        vstd::arithmetic::div_mod::lemma_fundamental_div_mod(x, 256);
        vstd::arithmetic::div_mod::lemma_mod_bound(x, 256);
        assert(spec_rans_fill(data, x / 256, eaten + k - 1) == spec_rans_fill(
            data,
            (x / 256) * 256 + e,
            eaten + k,
        )) by {
            assert(256 * (x / 256) == (x / 256) * 256) by (nonlinear_arith);
        }
        assert((x / 256) * 256 + e == x) by {
            assert(256 * (x / 256) == (x / 256) * 256) by (nonlinear_arith);
        }
    }
}

/// The encoder's walk over a concatenation: the later run is folded in
/// first, then the earlier one continues from its state and bytes.
proof fn lemma_enc_split(
    a: Seq<i8>,
    b: Seq<i8>,
    mdl: LaplaceCdf,
    x: int,
    acc: Seq<u8>,
    cap: int,
)
    ensures
        spec_rans_enc(a + b, mdl, x, acc, cap) == (match spec_rans_enc(b, mdl, x, acc, cap) {
            None => None::<(int, Seq<u8>)>,
            Some(p) => spec_rans_enc(a, mdl, p.0, p.1, cap),
        }),
    decreases b.len(),
{
    if b.len() == 0 {
        assert(a + b =~= a);
    } else {
        let ab = a + b;
        assert(ab.last() == b.last());
        assert(ab.drop_last() =~= a + b.drop_last());
        let s = b.last() as int;
        let start = spec_cdf(mdl, s);
        let freq = spec_cdf(mdl, s + 1) - start;
        let x_max = freq * pow2((31 - mdl.scale) as nat) as int;
        match spec_rans_emit(x, x_max, acc, cap) {
            None => {},
            Some(p) => {
                lemma_enc_split(
                    a,
                    b.drop_last(),
                    mdl,
                    (p.0 / freq) * pow2(mdl.scale as nat) as int + (p.0 % freq) + start,
                    p.1,
                    cap,
                );
            },
        }
    }
}

/// The encoder's walk preserves the byte run's prefix and only extends it.
proof fn lemma_enc_props(syms: Seq<i8>, mdl: LaplaceCdf, x: int, acc: Seq<u8>, cap: int)
    requires
        0 <= x < 0x80000000,
        spec_cdf_wf(mdl),
    ensures
        match spec_rans_enc(syms, mdl, x, acc, cap) {
            None => true,
            Some(p) => {
                &&& acc.len() <= p.1.len()
                &&& p.1.subrange(0, acc.len() as int) == acc
            },
        },
    decreases syms.len(),
{
    if syms.len() == 0 {
        match spec_rans_enc(syms, mdl, x, acc, cap) {
            None => {},
            Some(p) => {
                assert(p.1.subrange(0, acc.len() as int) =~= acc);
            },
        }
    } else {
        let s = syms.last() as int;
        let start = spec_cdf(mdl, s);
        let freq = spec_cdf(mdl, s + 1) - start;
        let x_max = freq * pow2((31 - mdl.scale) as nat) as int;
        lemma_cdf_sym_bounds(mdl, s);
        vstd::arithmetic::power2::lemma_pow2_pos((31 - mdl.scale) as nat);
        assert(x_max >= 1) by {
            vstd::arithmetic::mul::lemma_mul_strictly_positive(
                freq,
                pow2((31 - mdl.scale) as nat) as int,
            );
        }
        lemma_emit_props(x, x_max, acc, cap);
        match spec_rans_emit(x, x_max, acc, cap) {
            None => {},
            Some(p) => {
                let x1 = (p.0 / freq) * pow2(mdl.scale as nat) as int + (p.0 % freq) + start;
                lemma_enc_state_bound(mdl, p.0, freq, start, mdl.scale as nat);
                lemma_enc_props(syms.drop_last(), mdl, x1, p.1, cap);
                match spec_rans_enc(syms.drop_last(), mdl, x1, p.1, cap) {
                    None => {},
                    Some(q) => {
                        assert(q.1.subrange(0, acc.len() as int) =~= acc) by {
                            assert(q.1.subrange(0, p.1.len() as int) == p.1);
                            assert(p.1.subrange(0, acc.len() as int) == acc);
                            assert forall|j: int| 0 <= j < acc.len() implies q.1[j] == acc[j] by {
                                assert(q.1[j] == q.1.subrange(0, p.1.len() as int)[j]);
                                assert(p.1[j] == p.1.subrange(0, acc.len() as int)[j]);
                            }
                        }
                    },
                }
            },
        }
    }
}

/// Decoding one more symbol appends it: the run of `n + 1` symbols is the
/// run of `n` followed by one decode from the leftover state.
proof fn lemma_dec_loop_snoc(mdl: LaplaceCdf, data: Seq<u8>, x: int, e: int, n: nat)
    ensures
        spec_rans_dec_loop(mdl, data, x, e, n + 1) == (match spec_rans_dec_loop(
            mdl,
            data,
            x,
            e,
            n,
        ) {
            None => None::<(Seq<i8>, int, int)>,
            Some(p) => match spec_dec_sym_stream(mdl, data, p.2, p.1) {
                None => None,
                Some(q) => Some((p.0 + seq![q.0], q.2, q.1)),
            },
        }),
    decreases n,
{
    reveal_with_fuel(spec_rans_dec_loop, 3);
    if n == 0 {
        match spec_dec_sym_stream(mdl, data, x, e) {
            None => {},
            Some(q) => {
                assert(seq![q.0] + Seq::<i8>::empty() =~= Seq::<i8>::empty() + seq![q.0]);
            },
        }
    } else {
        match spec_dec_sym_stream(mdl, data, x, e) {
            None => {},
            Some(p0) => {
                lemma_dec_loop_snoc(mdl, data, p0.1, p0.2, (n - 1) as nat);
                match spec_rans_dec_loop(mdl, data, p0.1, p0.2, (n - 1) as nat) {
                    None => {},
                    Some(p) => {
                        match spec_dec_sym_stream(mdl, data, p.2, p.1) {
                            None => {},
                            Some(q) => {
                                assert(seq![p0.0] + (p.0 + seq![q.0]) =~= (seq![p0.0] + p.0)
                                    + seq![q.0]);
                            },
                        }
                    },
                }
            },
        }
    }
}

/// A 32-bit value is the little-endian sum of its four bytes.
proof fn lemma_byte_recompose(x: int)
    requires
        0 <= x < 0x100000000,
    ensures
        spec_byte(x, 0) + 256 * spec_byte(x, 1) + 65536 * spec_byte(x, 2) + 16777216 * spec_byte(
            x,
            3,
        ) == x,
{
    vstd::arithmetic::power2::lemma2_to64();
    vstd::arithmetic::div_mod::lemma_div_multiples_vanish(x, 1);
    vstd::arithmetic::div_mod::lemma_fundamental_div_mod(x, 256);
    vstd::arithmetic::div_mod::lemma_mod_bound(x, 256);
    vstd::arithmetic::div_mod::lemma_fundamental_div_mod(x / 256, 256);
    vstd::arithmetic::div_mod::lemma_mod_bound(x / 256, 256);
    vstd::arithmetic::div_mod::lemma_fundamental_div_mod(x / 65536, 256);
    vstd::arithmetic::div_mod::lemma_mod_bound(x / 65536, 256);
    vstd::arithmetic::div_mod::lemma_div_denominator(x, 256, 256);
    vstd::arithmetic::div_mod::lemma_div_denominator(x, 65536, 256);
    assert(x / 16777216 < 256) by {
        vstd::arithmetic::div_mod::lemma_div_is_ordered(x, 0xffffffff, 16777216);
        assert(0xffffffffint / 16777216 == 255);
    }
    vstd::arithmetic::div_mod::lemma_small_mod((x / 16777216) as nat, 256);
}

/// Decoding inverts encoding, symbol by symbol: if the encoder folded a
/// run into state `x_in` (itself in the working interval) and emitted a
/// byte run laid out reversed in `data`, then the decoder walks the
/// symbols back out in stream order and ends on `x_in` with exactly those
/// bytes eaten.
#[verifier::rlimit(100)]
#[verifier::spinoff_prover]
proof fn lemma_enc_dec(
    syms: Seq<i8>,
    mdl: LaplaceCdf,
    x_in: int,
    acc: Seq<u8>,
    cap: int,
    data: Seq<u8>,
    eaten: int,
)
    requires
        spec_cdf_wf(mdl),
        RANS_BYTE_L as int <= x_in < 0x80000000,
        0 <= eaten,
        spec_rans_enc(syms, mdl, x_in, acc, cap) is Some,
        ({
            let p = spec_rans_enc(syms, mdl, x_in, acc, cap).unwrap();
            let k = p.1.len() - acc.len();
            &&& eaten + k <= data.len()
            &&& forall|j: int|
                0 <= j < k ==> #[trigger] data[eaten + j] == p.1[p.1.len() - 1 - j]
        }),
    ensures
        ({
            let p = spec_rans_enc(syms, mdl, x_in, acc, cap).unwrap();
            let k = p.1.len() - acc.len();
            &&& RANS_BYTE_L as int <= p.0 < 0x80000000
            &&& spec_rans_dec_loop(mdl, data, p.0, eaten, syms.len()) == Some(
                (syms, eaten + k, x_in),
            )
        }),
    decreases syms.len(),
{
    lemma_enc_props(syms, mdl, x_in, acc, cap);
    let p = spec_rans_enc(syms, mdl, x_in, acc, cap).unwrap();
    let k = p.1.len() - acc.len();
    if syms.len() == 0 {
    } else {
        let sl = syms.last() as int;
        let start = spec_cdf(mdl, sl);
        let freq = spec_cdf(mdl, sl + 1) - start;
        let ps = pow2(mdl.scale as nat) as int;
        let p23 = pow2((23 - mdl.scale) as nat) as int;
        let p31 = pow2((31 - mdl.scale) as nat) as int;
        let x_max = freq * p31;
        lemma_cdf_sym_bounds(mdl, sl);
        vstd::arithmetic::power2::lemma_pow2_pos(mdl.scale as nat);
        vstd::arithmetic::power2::lemma_pow2_pos((23 - mdl.scale) as nat);
        vstd::arithmetic::power2::lemma_pow2_adds((23 - mdl.scale) as nat, 8);
        vstd::arithmetic::power2::lemma_pow2_adds(mdl.scale as nat, (23 - mdl.scale) as nat);
        assert(pow2(8) == 256 && pow2(23) == RANS_BYTE_L) by {
            vstd::arithmetic::power2::lemma2_to64();
        }
        assert(p31 == 256 * p23) by {
            assert(p23 * 256 == 256 * p23) by (nonlinear_arith);
        }
        assert(x_max >= 1) by {
            vstd::arithmetic::mul::lemma_mul_strictly_positive(freq, p31);
        }
        lemma_emit_props(x_in, x_max, acc, cap);
        let ep = spec_rans_emit(x_in, x_max, acc, cap).unwrap();
        let y = ep.0;
        let acc_e = ep.1;
        let ke = acc_e.len() - acc.len();
        // the renormalized state sits in the fold's input window
        assert(freq * p23 <= y) by {
            if ke == 0 {
                assert(y == x_in);
                assert(freq * p23 < ps * p23) by {
                    vstd::arithmetic::mul::lemma_mul_strict_inequality(freq, ps, p23);
                    assert(freq * p23 == p23 * freq && ps * p23 == p23 * ps)
                        by (nonlinear_arith);
                }
            } else {
                assert(256 * y + 255 >= x_max);
                assert(x_max == 256 * (freq * p23)) by (nonlinear_arith)
                    requires
                        x_max == freq * p31,
                        p31 == 256 * p23,
                ;
            }
        }
        let x1 = (y / freq) * ps + (y % freq) + start;
        lemma_fold_unfold(mdl, sl, y);
        // the rest of the run was folded from x1
        let q = spec_rans_enc(syms.drop_last(), mdl, x1, acc_e, cap).unwrap();
        assert(q == p);
        lemma_enc_props(syms.drop_last(), mdl, x1, acc_e, cap);
        let k2 = p.1.len() - acc_e.len();
        lemma_enc_dec(syms.drop_last(), mdl, x1, acc_e, cap, data, eaten);
        // decode the final symbol from x1, then refill back to x_in
        lemma_dec_loop_snoc(mdl, data, p.0, eaten, (syms.len() - 1) as nat);
        assert(spec_dec_sym_stream(mdl, data, x1, eaten + k2) == Some(
            (syms.last(), x_in, eaten + k),
        )) by {
            let cum = x1 % ps;
            assert(cum == (y % freq) + start);
            assert(spec_icdf(mdl, cum) == sl);
            assert(-128 <= sl <= 127);
            let s8: i8 = sl as i8;
            assert(s8 == syms.last());
            assert(freq * (x1 / ps) + cum - start == y);
            assert(spec_rans_fill(data, y, eaten + k2) == spec_rans_fill(
                data,
                x_in,
                eaten + k2 + ke,
            )) by {
                assert forall|j: int|
                    0 <= j < ke implies #[trigger] data[(eaten + k2) + j] == acc_e[acc_e.len()
                    - 1 - j] by {
                    assert(data[eaten + (k2 + j)] == p.1[p.1.len() - 1 - (k2 + j)]);
                    assert(p.1[acc_e.len() - 1 - j] == p.1.subrange(0, acc_e.len() as int)[
                        acc_e.len() - 1 - j]);
                    assert(p.1.subrange(0, acc_e.len() as int) == acc_e);
                }
                lemma_emit_fill(x_in, x_max, acc, cap, data, eaten + k2);
            }
            assert(k == k2 + ke);
            assert(spec_rans_fill(data, x_in, eaten + k) == Some((x_in, eaten + k)));
        }
        assert(syms.drop_last() + seq![syms.last()] =~= syms);
    }
}

/// The rANS coder round-trips: decoding what the encoder produced yields
/// the original symbols, eating the whole run.
pub proof fn lemma_rans_round_trip(syms: Seq<i8>, mdl: LaplaceCdf, cap: int)
    requires
        spec_cdf_wf(mdl),
        spec_rans_encode(syms, mdl, cap) is Some,
    ensures
        ({
            let bytes = spec_rans_encode(syms, mdl, cap).unwrap();
            spec_rans_decode(bytes, syms.len(), mdl) == Some((syms, bytes.len() as int))
        }),
{
    let p = spec_rans_enc(syms, mdl, RANS_BYTE_L as int, Seq::empty(), cap).unwrap();
    let xo = p.0;
    let accT = p.1;
    let tailb = seq![
        spec_byte(xo, 3),
        spec_byte(xo, 2),
        spec_byte(xo, 1),
        spec_byte(xo, 0),
    ];
    let all = accT + tailb;
    let bytes = all.reverse();
    assert(spec_rans_encode(syms, mdl, cap) == Some(bytes));
    assert(bytes.len() == accT.len() + 4);
    lemma_enc_props(syms, mdl, RANS_BYTE_L as int, Seq::empty(), cap);
    // first pass just to learn the final state's range
    assert(RANS_BYTE_L as int <= xo < 0x80000000) by {
        lemma_enc_dec(syms, mdl, RANS_BYTE_L as int, Seq::empty(), cap, bytes, 4);
    }
    // the four reversed tail bytes recompose the final state
    assert(bytes[0] == spec_byte(xo, 0) && bytes[1] == spec_byte(xo, 1) && bytes[2]
        == spec_byte(xo, 2) && bytes[3] == spec_byte(xo, 3)) by {
        assert(all[all.len() - 1] == spec_byte(xo, 0));
        assert(all[all.len() - 2] == spec_byte(xo, 1));
        assert(all[all.len() - 3] == spec_byte(xo, 2));
        assert(all[all.len() - 4] == spec_byte(xo, 3));
    }
    assert(bytes[0] + 256 * bytes[1] + 65536 * bytes[2] + 16777216 * bytes[3] == xo) by {
        lemma_byte_recompose(xo);
    }
    assert forall|j: int| 0 <= j < accT.len() implies #[trigger] bytes[4 + j] == accT[accT.len()
        - 1 - j] by {
        assert(bytes[4 + j] == all[all.len() - 1 - (4 + j)]);
    }
    lemma_enc_dec(syms, mdl, RANS_BYTE_L as int, Seq::empty(), cap, bytes, 4);
}

/// Renormalization reads only the bytes at its cursor: data agreeing from
/// the cursor on fills identically.
proof fn lemma_fill_frame(data: Seq<u8>, data2: Seq<u8>, state: int, eaten: int, lo: int)
    requires
        data.len() == data2.len(),
        0 <= lo <= eaten,
        forall|j: int| lo <= j < data.len() ==> data[j] == data2[j],
    ensures
        spec_rans_fill(data, state, eaten) == spec_rans_fill(data2, state, eaten),
    decreases data.len() - eaten,
{
    if state >= RANS_BYTE_L as int {
    } else if eaten >= data.len() || eaten < 0 {
    } else {
        lemma_fill_frame(data, data2, state * 256 + data[eaten], eaten + 1, lo);
    }
}

/// One decoded symbol depends only on the bytes at and past the cursor.
proof fn lemma_dec_sym_frame(data: Seq<u8>, data2: Seq<u8>, mdl: LaplaceCdf, state: int, eaten: int, lo: int)
    requires
        data.len() == data2.len(),
        0 <= lo <= eaten,
        forall|j: int| lo <= j < data.len() ==> data[j] == data2[j],
    ensures
        spec_dec_sym_block(mdl, data, state, eaten) == spec_dec_sym_block(
            mdl,
            data2,
            state,
            eaten,
        ),
{
    let cum = state % pow2(mdl.scale as nat) as int;
    let sraw = spec_icdf(mdl, cum);
    let start = spec_cdf(mdl, sraw);
    let freq = spec_cdf(mdl, sraw + 1) - start;
    let st2 = freq * (state / pow2(mdl.scale as nat) as int) + cum - start;
    lemma_fill_frame(data, data2, st2, eaten, lo);
}

/// The decode loop depends only on the bytes at and past its cursor, not
/// on the header bytes behind it.
proof fn lemma_dblk_loop_frame(
    st: State,
    mdl: LaplaceCdf,
    qp: u8,
    data: Seq<u8>,
    data2: Seq<u8>,
    rstate: int,
    eaten: int,
    ck: u8,
    cap: int,
    lo: int,
)
    requires
        data.len() == data2.len(),
        0 <= lo <= eaten,
        forall|j: int| lo <= j < data.len() ==> data[j] == data2[j],
    ensures
        spec_dblk_loop(st, mdl, qp, data, rstate, eaten, ck, cap) == spec_dblk_loop(
            st,
            mdl,
            qp,
            data2,
            rstate,
            eaten,
            ck,
            cap,
        ),
    decreases cap, data.len() - eaten, rstate,
{
    if cap <= 0 {
    } else if !(0 <= rstate < 0x100000000 && 0 <= eaten <= data.len() && spec_cdf_wf(mdl)
        && qp <= 30) {
    } else {
        lemma_dec_sym_progress(mdl, data, rstate, eaten);
        lemma_dec_sym_frame(data, data2, mdl, rstate, eaten, lo);
        match spec_dec_sym_block(mdl, data, rstate, eaten) {
            None => {},
            Some(p0) => {
                lemma_dec_sym_progress(mdl, data, p0.1, p0.2);
                lemma_dec_sym_frame(data, data2, mdl, p0.1, p0.2, lo);
                match spec_dec_sym_block(mdl, data, p0.1, p0.2) {
                    None => {},
                    Some(p1) => {
                        lemma_dec_sym_progress(mdl, data, p1.1, p1.2);
                        lemma_dec_sym_frame(data, data2, mdl, p1.1, p1.2, lo);
                        match spec_dec_sym_block(mdl, data, p1.1, p1.2) {
                            None => {},
                            Some(p2) => {
                                let ck1 = vstd::wrapping::u8_specs::wrapping_add(
                                    spec_u8_of_i8(p0.0),
                                    ck,
                                );
                                let ck2 = vstd::wrapping::u8_specs::wrapping_add(
                                    spec_u8_of_i8(p1.0),
                                    ck1,
                                );
                                let ck3 = vstd::wrapping::u8_specs::wrapping_add(
                                    spec_u8_of_i8(p2.0),
                                    ck2,
                                );
                                match spec_dequant_step(st, (p0.0, p1.0, p2.0), qp) {
                                    None => {},
                                    Some(dp) => {
                                        match dp.1 {
                                            None => {
                                                lemma_dblk_loop_frame(
                                                    dp.0, mdl, qp, data, data2, p2.1, p2.2,
                                                    ck3, cap, lo,
                                                );
                                            },
                                            Some(_) => {
                                                lemma_dblk_loop_frame(
                                                    dp.0, mdl, qp, data, data2, p2.1, p2.2,
                                                    ck3, cap - 1, lo,
                                                );
                                            },
                                        }
                                    },
                                }
                            },
                        }
                    },
                }
            },
        }
    }
}

/// Corrupting the stored checksum is always caught: changing only the
/// high three bits of the header's second byte turns any decodable block
/// into a checksum failure.
pub proof fn lemma_checksum_flip_fails(st: State, bank: CdfBank, data: Seq<u8>, data2: Seq<u8>, cap: int)
    requires
        spec_decompress_block(st, bank, data, cap) is Some,
        data2.len() == data.len(),
        data2[0] == data[0],
        data2[1] as int % 32 == data[1] as int % 32,
        data2[1] as int / 32 != data[1] as int / 32,
        forall|j: int| 2 <= j < data.len() ==> data2[j] == data[j],
    ensures
        spec_decompress_block(st, bank, data2, cap) is None,
{
    let mdl = bank.models[data[1] as int % 32];
    let st0 = data[2] + 256 * data[3] + 65536 * data[4] + 16777216 * data[5];
    lemma_dblk_loop_frame(st, mdl, data[0], data, data2, st0 as int, 6, 0, cap, 2);
}

} // verus!
