//! End-to-end codec checks: the Laplace model tables, the rANS coder, the
//! quantizer, and the block framer, including the shipped scenarios.

use ebin::compress::{
    compress_block, decompress_block, rans_decode, rans_encode, CdfBank, LaplaceCdf,
};
use ebin::fix32::MULT;
use ebin::quant::State;
use ebin::quat::{Fix, Quat, RVec, Vec3};

const VAR_TABLE: [f64; 16] = [
    0.015625, 0.03125, 0.0625, 0.125, 0.25, 0.5, 1.0, 2.0, 4.0, 8.0, 16.0, 32.0, 64.0, 128.0,
    256.0, 512.0,
];

/// The discretized two-sided Laplace table, exactly as the shipping
/// configuration computes it: 256 interior entries for x in [-127, 128].
fn laplace_entries(var: f64, scale: i32) -> Vec<u32> {
    let b = (var / 2.0).sqrt();
    let mut out: Vec<u32> = Vec::new();
    let mut x: i32 = -127;
    while x <= 128 {
        let xs = x as f64 - 0.5;
        let cum = if xs < 0.0 {
            (xs / b).exp() / 2.0
        } else {
            1.0 - (-xs / b).exp() / 2.0
        };
        let e = (cum * (((1i64 << scale) as f64) - 257.0)) as u32 + (x + 128) as u32;
        out.push(e);
        x += 1;
    }
    out
}

fn model(var: f64, scale: i32) -> LaplaceCdf {
    LaplaceCdf::from_table(laplace_entries(var, scale), scale as u32).expect("valid table")
}

fn bank() -> CdfBank {
    let mut models: Vec<LaplaceCdf> = Vec::new();
    for v in VAR_TABLE {
        models.push(model(v, 15));
    }
    CdfBank::from_models(models).expect("valid bank")
}

fn from_float(x: f32) -> Fix {
    let v = if x >= 0.0 {
        x * (MULT as f32) + 0.5
    } else {
        x * (MULT as f32) - 0.5
    };
    Fix::from_raw(v as i32)
}

fn to_float(f: &Fix) -> f32 {
    (f.to_raw() as f64 / MULT as f64) as f32
}

fn rv(x: f32, y: f32, z: f32) -> RVec {
    Vec3::new(from_float(x), from_float(y), from_float(z))
}

/// Angular distance between two quaternions, in radians.
fn ang_err(a: &Quat, b: &Quat) -> f64 {
    let d = a.conj().mul(*b);
    to_float(&d.to_rvec().norm()) as f64
}

/// Gyro-like input: repeated multiplication by a small rotation.
fn spiral(n: usize) -> Vec<Quat> {
    let step = Quat::from_rvec(&rv(0.02, 0.01, 0.001));
    let mut a = Quat::default();
    let mut out: Vec<Quat> = Vec::new();
    for _ in 0..n {
        a = a.mul(step);
        out.push(a);
    }
    out
}

fn encode_chunks(quats: &[Quat], chunk: usize, qp: u8) -> (Vec<u8>, usize, f64) {
    let bk = bank();
    let mut state = State::new();
    let mut data: Vec<u8> = vec![0u8; quats.len() * 16 + 64];
    let mut scratch: Vec<i8> = vec![0i8; quats.len() * 16 + 64];
    let mut total: usize = 0;
    let mut max_err: f64 = 0.0;
    let mut i: usize = 0;
    while i < quats.len() {
        let hi = (i + chunk).min(quats.len());
        let block: Vec<Quat> = quats[i..hi].to_vec();
        let mut out: Vec<u8> = vec![0u8; data.len() - total];
        let mut qscratch: Vec<i8> = vec![0i8; scratch.len()];
        let qres = state.quant_block(&block, qp, &mut qscratch).expect("quant ok");
        let e = to_float(&qres.max_ang_err) as f64;
        if e > max_err {
            max_err = e;
        }
        let res = compress_block(&state, &block, qp, &mut out, &mut scratch, &bk)
            .expect("encode ok");
        data[total..total + res.bytes_put].copy_from_slice(&out[..res.bytes_put]);
        assert_eq!(res.new_state, qres.new_state);
        state = res.new_state;
        total += res.bytes_put;
        i = hi;
    }
    data.truncate(total);
    (data, total, max_err)
}

fn decode_chunks(data: &[u8], counts: &[usize]) -> Vec<Quat> {
    let bk = bank();
    let mut state = State::new();
    let mut out: Vec<Quat> = Vec::new();
    let mut pos: usize = 0;
    for &n in counts {
        let rest: Vec<u8> = data[pos..].to_vec();
        let mut quats: Vec<Quat> = vec![Quat::default(); n];
        let res = decompress_block(&state, &rest, &mut quats, &bk).expect("decode ok");
        assert_eq!(res.quats_put, n);
        state = res.new_state;
        pos += res.bytes_eaten;
        out.extend_from_slice(&quats);
    }
    out
}

#[test]
fn cdf_tables_valid_for_all_scales_and_vars() {
    // strict monotonicity over the alphabet at every precision used
    for scale in 10..=20 {
        for v in VAR_TABLE {
            let m = model(v, scale);
            assert_eq!(m.cdf(-128), 0);
            assert_eq!(m.cdf(129), 1u32 << scale);
            let mut x: i32 = -128;
            while x <= 128 {
                assert!(m.cdf(x) < m.cdf(x + 1), "scale={} var={} x={}", scale, v, x);
                x += 1;
            }
        }
    }
}

#[test]
fn icdf_inverts_cdf() {
    let m = model(1.0, 15);
    for y in [0u32, 1, 100, 5000, 16000, 32000, 32767] {
        let s = m.icdf(y);
        assert!(m.cdf(s) <= y && y < m.cdf(s + 1), "y={} s={}", y, s);
    }
}

#[test]
fn rans_round_trip_full_alphabet() {
    // one of each representable symbol, var=1.0, scale=15
    let m = model(1.0, 15);
    let mut syms: Vec<i8> = Vec::new();
    let mut s: i32 = -128;
    while s <= 127 {
        syms.push(s as i8);
        s += 1;
    }
    let mut out: Vec<u8> = vec![0u8; 4096];
    let n = rans_encode(&syms, &mut out, &m).expect("encode ok");
    assert!(n >= 4);
    let enc: Vec<u8> = out[..n].to_vec();
    let mut dec: Vec<i8> = vec![0i8; syms.len()];
    let eaten = rans_decode(&enc, &mut dec, &m).expect("decode ok");
    assert!(eaten <= n);
    assert_eq!(dec, syms);
}

#[test]
fn rans_round_trip_skewed_stream() {
    let m = model(0.0625, 15);
    let mut syms: Vec<i8> = Vec::new();
    let mut x: u32 = 1;
    for _ in 0..2000 {
        // deterministic pseudo-random small symbols
        x = x.wrapping_mul(1103515245).wrapping_add(12345);
        syms.push(((x >> 28) as i32 - 8) as i8);
    }
    let mut out: Vec<u8> = vec![0u8; 8192];
    let n = rans_encode(&syms, &mut out, &m).expect("encode ok");
    let enc: Vec<u8> = out[..n].to_vec();
    let mut dec: Vec<i8> = vec![0i8; syms.len()];
    rans_decode(&enc, &mut dec, &m).expect("decode ok");
    assert_eq!(dec, syms);
}

#[test]
fn rans_encode_overrun_returns_none() {
    let m = model(1.0, 15);
    let syms: Vec<i8> = vec![100i8; 400];
    let mut out: Vec<u8> = vec![0u8; 8];
    assert!(rans_encode(&syms, &mut out, &m).is_none());
}

#[test]
fn rans_decode_short_input_returns_none() {
    let m = model(1.0, 15);
    let data: Vec<u8> = vec![1u8, 2, 3];
    let mut dec: Vec<i8> = vec![0i8; 4];
    assert!(rans_decode(&data, &mut dec, &m).is_none());
}

#[test]
fn scenario_spiral_10000() {
    // qp=14, 10000 integrated quaternions: encode, decode, and compare
    let quats = spiral(10000);
    let (data, total, max_err) = encode_chunks(&quats, 500, 14);
    assert!(total > 0);
    // a couple of hundredths of a degree: the floor quantization step at
    // qp=14 is 2^-13 radians per component, about 0.012 degrees of norm
    assert!(max_err < 0.02 * std::f64::consts::PI / 180.0, "max_err={}", max_err);
    let counts: Vec<usize> = vec![500; 20];
    let dec = decode_chunks(&data, &counts);
    assert_eq!(dec.len(), quats.len());
    let mut worst: f64 = 0.0;
    for i in 0..quats.len() {
        let e = ang_err(&dec[i], &quats[i]);
        if e > worst {
            worst = e;
        }
    }
    // the decoder's true error is exactly what the encoder reported:
    // both sides run the same fixed-point trajectory
    assert!(worst == max_err, "worst={} reported={}", worst, max_err);
}

#[test]
fn scenario_all_identity_compresses_hard() {
    // qp=14, 256 identity quaternions: tiny block, exact reconstruction
    let quats: Vec<Quat> = vec![Quat::default(); 256];
    let bk = bank();
    let mut data: Vec<u8> = vec![0u8; 4096];
    let mut scratch: Vec<i8> = vec![0i8; 4096];
    let res = compress_block(&State::new(), &quats, 14, &mut data, &mut scratch, &bk)
        .expect("encode ok");
    assert!(res.bytes_put <= 20, "bytes_put={}", res.bytes_put);
    data.truncate(res.bytes_put);
    let mut out: Vec<Quat> = vec![Quat::from_rvec(&rv(1.0, 0.0, 0.0)); 256];
    let dres = decompress_block(&State::new(), &data, &mut out, &bk).expect("decode ok");
    assert_eq!(dres.quats_put, 256);
    assert_eq!(out, quats);
}

#[test]
fn scenario_step_input() {
    // qp=14, 256 identity then 256 at a quarter turn about x
    let turn = Quat::from_rvec(&rv(std::f32::consts::FRAC_PI_2, 0.0, 0.0));
    let mut quats: Vec<Quat> = vec![Quat::default(); 256];
    quats.extend(std::iter::repeat(turn).take(256));
    let bk = bank();
    let mut data: Vec<u8> = vec![0u8; 65536];
    let mut scratch: Vec<i8> = vec![0i8; 65536];
    let mut qscratch: Vec<i8> = vec![0i8; 65536];
    let qres = State::new().quant_block(&quats, 14, &mut qscratch).expect("quant ok");
    let res = compress_block(&State::new(), &quats, 14, &mut data, &mut scratch, &bk)
        .expect("encode ok");
    data.truncate(res.bytes_put);
    let mut out: Vec<Quat> = vec![Quat::default(); 512];
    let dres = decompress_block(&State::new(), &data, &mut out, &bk).expect("decode ok");
    assert_eq!(dres.quats_put, 512);
    let reported = to_float(&qres.max_ang_err) as f64;
    for i in 0..512 {
        assert!(ang_err(&out[i], &quats[i]) <= reported + 1e-12, "i={}", i);
    }
}

#[test]
fn scenario_tiny_output_buffer_overruns() {
    let quats = spiral(64);
    let bk = bank();
    let mut data: Vec<u8> = vec![0u8; 10];
    let mut scratch: Vec<i8> = vec![0i8; 4096];
    assert!(compress_block(&State::new(), &quats, 14, &mut data, &mut scratch, &bk).is_none());
}

#[test]
fn scenario_checksum_bit_flip_fails() {
    // flipping bit 7 of byte 1 corrupts the stored checksum
    let quats = spiral(256);
    let bk = bank();
    let mut data: Vec<u8> = vec![0u8; 65536];
    let mut scratch: Vec<i8> = vec![0i8; 65536];
    let res = compress_block(&State::new(), &quats, 14, &mut data, &mut scratch, &bk)
        .expect("encode ok");
    data.truncate(res.bytes_put);
    let mut out: Vec<Quat> = vec![Quat::default(); 256];
    decompress_block(&State::new(), &data, &mut out, &bk).expect("clean block decodes");
    data[1] ^= 0x80;
    assert!(decompress_block(&State::new(), &data, &mut out, &bk).is_none());
}

#[test]
fn corrupting_any_stored_checksum_bit_fails() {
    let quats = spiral(128);
    let bk = bank();
    let mut data: Vec<u8> = vec![0u8; 65536];
    let mut scratch: Vec<i8> = vec![0i8; 65536];
    let res = compress_block(&State::new(), &quats, 14, &mut data, &mut scratch, &bk)
        .expect("encode ok");
    data.truncate(res.bytes_put);
    let mut clean: Vec<Quat> = vec![Quat::default(); 128];
    decompress_block(&State::new(), &data, &mut clean, &bk).expect("decode ok");
    // the stored checksum sits in the top three bits of byte 1; flipping
    // any of them must fail the block
    for bit in 5..8 {
        let mut bad = data.clone();
        bad[1] ^= 1u8 << bit;
        let mut out: Vec<Quat> = vec![Quat::default(); 128];
        assert!(decompress_block(&State::new(), &bad, &mut out, &bk).is_none(), "bit={}", bit);
    }
}

#[test]
fn decompress_rejects_bad_headers() {
    let bk = bank();
    let mut out: Vec<Quat> = vec![Quat::default(); 4];
    // shorter than a header
    let short: Vec<u8> = vec![14u8, 0, 1, 2, 3];
    assert!(decompress_block(&State::new(), &short, &mut out, &bk).is_none());
    // an impossible shift
    let badqp: Vec<u8> = vec![31u8, 0, 1, 2, 3, 4, 5, 6];
    assert!(decompress_block(&State::new(), &badqp, &mut out, &bk).is_none());
    // a variance index past the table
    let badiv: Vec<u8> = vec![14u8, 17, 1, 2, 3, 4, 5, 6];
    assert!(decompress_block(&State::new(), &badiv, &mut out, &bk).is_none());
}

#[test]
fn quant_block_saturation_counts() {
    // a single large-angle quaternion: residual r emits r/(127*2^qp)+1
    // triples, all but the last saturated
    let q = Quat::from_rvec(&rv(0.5, 0.01, 0.001));
    let r = q.to_rvec();
    let qp: u8 = 14;
    let d: i32 = 127 << qp;
    let rounds = (r.x.to_raw() / d).max(r.y.to_raw() / d).max(r.z.to_raw() / d) + 1;
    let mut scratch: Vec<i8> = vec![0i8; 4096];
    let quats: Vec<Quat> = vec![q];
    let res = State::new().quant_block(&quats, qp, &mut scratch).expect("quant ok");
    assert_eq!(res.bytes_put, 3 * rounds as usize);
    let triples = res.bytes_put / 3;
    for k in 0..triples {
        let sat = (0..3).any(|j| {
            let s = scratch[3 * k + j] as i32;
            s == 127 || s == -127
        });
        assert_eq!(sat, k + 1 < triples, "k={}", k);
    }
}

#[test]
fn dequant_block_mirrors_quant_block() {
    let quats = spiral(200);
    let qp: u8 = 14;
    let mut scratch: Vec<i8> = vec![0i8; 65536];
    let res = State::new().quant_block(&quats, qp, &mut scratch).expect("quant ok");
    let syms: Vec<i8> = scratch[..res.bytes_put].to_vec();
    let mut out: Vec<Quat> = vec![Quat::default(); 200];
    let dres = State::new().dequant_block(&syms, qp, &mut out).expect("dequant ok");
    assert_eq!(dres.quats_put, 200);
    assert_eq!(dres.new_state, res.new_state);
    // the last reconstruction is the final predicted orientation
    assert_eq!(out[199], res.new_state.q);
}

#[test]
fn dequant_one_advances_state() {
    let mut st = State::new();
    let q = st.dequant_one(&[1i8, -2, 3], 10);
    let emitted = q.expect("unsaturated triple emits");
    assert_eq!(emitted, st.q);
    assert_eq!(st.v.x.to_raw(), 1 << 10);
    assert_eq!(st.v.y.to_raw(), -2 << 10);
    assert_eq!(st.v.z.to_raw(), 3 << 10);
    // a saturated triple only advances the velocity
    let mut st2 = State::new();
    assert!(st2.dequant_one(&[127i8, 0, 0], 10).is_none());
    assert_eq!(st2.v.x.to_raw(), 127 << 10);
    assert_eq!(st2.q, Quat::default());
}

#[test]
fn state_threading_matches_single_block() {
    // encoding in two blocks with the state threaded produces the same
    // symbols as one block over the concatenation
    let quats = spiral(300);
    let qp: u8 = 14;
    let mut s_all: Vec<i8> = vec![0i8; 65536];
    let res_all = State::new().quant_block(&quats, qp, &mut s_all).expect("quant ok");
    let first: Vec<Quat> = quats[..150].to_vec();
    let second: Vec<Quat> = quats[150..].to_vec();
    let mut s1: Vec<i8> = vec![0i8; 65536];
    let r1 = State::new().quant_block(&first, qp, &mut s1).expect("quant ok");
    let mut s2: Vec<i8> = vec![0i8; 65536];
    let r2 = r1.new_state.quant_block(&second, qp, &mut s2).expect("quant ok");
    assert_eq!(res_all.bytes_put, r1.bytes_put + r2.bytes_put);
    assert_eq!(&s_all[..r1.bytes_put], &s1[..r1.bytes_put]);
    assert_eq!(&s_all[r1.bytes_put..res_all.bytes_put], &s2[..r2.bytes_put]);
    assert_eq!(res_all.new_state, r2.new_state);
}

#[test]
fn from_table_rejects_bad_tables() {
    // a non-monotone table is refused
    let mut e = laplace_entries(1.0, 15);
    e[100] = e[99];
    assert!(LaplaceCdf::from_table(e, 15).is_none());
    // a wrong length is refused
    assert!(LaplaceCdf::from_table(vec![0u32; 10], 15).is_none());
    // an out-of-range scale is refused
    assert!(LaplaceCdf::from_table(laplace_entries(1.0, 15), 24).is_none());
}
