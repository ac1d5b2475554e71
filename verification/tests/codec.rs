use intformer::attention::{encode_f16, float_mult};
use intformer::layernorm::{isqrt, LayerNorm};
use intformer::matmul::{decode_weight, MatMul};
use intformer::prng::PRNG;

#[test]
fn decode_exact_bucket_values() {
    let w0 = decode_weight(0);
    assert!(!w0.neg && w0.shift == 8 && w0.big == 0 && w0.small == 0);
    let w63 = decode_weight(63);
    assert!(!w63.neg && w63.shift == 8 && w63.big == 7 && w63.small == 7);
    let w64 = decode_weight(64);
    assert!(!w64.neg && w64.shift == 7 && w64.big == 4 && w64.small == 0);
    let w100 = decode_weight(100);
    assert!(!w100.neg && w100.shift == 5 && w100.big == 2 && w100.small == 4);
    let w119 = decode_weight(119);
    assert!(!w119.neg && w119.shift == 3 && w119.big == 1 && w119.small == 7);
    let w255 = decode_weight(255);
    assert!(w255.neg && w255.shift == 2 && w255.big == 1 && w255.small == 7);
}

#[test]
fn decode_total_and_deterministic() {
    for b in 0..=255u8 {
        let w1 = decode_weight(b);
        let w2 = decode_weight(b);
        assert_eq!(w1, w2);
        assert!(w1.big <= 7 && w1.small <= 7);
        assert!(matches!(w1.shift, 2 | 3 | 5 | 7 | 8));
        assert_eq!(w1.neg, b >= 128);
    }
}

#[test]
fn decode_magnitude_monotone_in_code() {
    // reconstructed magnitude scaled to an integer: (8*big + small) * 2^(8-shift)
    let mag = |b: u8| {
        let w = decode_weight(b);
        (8 * w.big + w.small) as u64 * (1u64 << (8 - w.shift))
    };
    for b in 0..127u8 {
        assert!(mag(b) <= mag(b + 1), "magnitude dropped at code {}", b);
    }
    // sign bit does not change the magnitude
    for b in 0..=127u8 {
        assert_eq!(mag(b), mag(b + 128));
    }
}

#[test]
fn f16_encode_exact_values() {
    // fixed-point one (2^18): exponent field 27, empty mantissa
    assert_eq!(encode_f16(0x40000, 0), 0x6C00);
    // zero encodes to zero
    assert_eq!(encode_f16(0, 0), 0);
    // smallest negative magnitude: mantissa 0, exponent 9, sign set
    assert_eq!(encode_f16(0xFFFFFF, 0), 0xA400);
    // the offset lowers the exponent field
    assert_eq!(encode_f16(0x40000, 4), 0x5C00);
}

#[test]
fn f16_round_trip_small_magnitudes_exact() {
    // any magnitude of at most eleven significant bits survives exactly
    for v in [1u32, 2, 3, 0x3FF, 0x400, 0x7FF, 0x7FF << 12] {
        let enc = encode_f16(v, 0);
        assert_eq!(float_mult(enc, 0x6C00, 0), v, "round trip of {:#x}", v);
    }
    // a negative value comes back negative
    let v = 0xFFFFFF; // magnitude 1
    assert_eq!(float_mult(encode_f16(v, 0), 0x6C00, 0), 0xFFFFFF);
}

#[test]
fn f16_round_trip_truncates_to_eleven_bits() {
    let v = 0x123456u32; // highest set bit 20, so the low 10 bits truncate
    assert_eq!(float_mult(encode_f16(v, 0), 0x6C00, 0), 0x123400);
    let v = 0x7FFFFFu32;
    assert_eq!(float_mult(encode_f16(v, 0), 0x6C00, 0), 0x7FF000);
}

#[test]
fn float_mult_exact_values() {
    // 1.0 * 1.0 == 1.0, and the extra shift of the relevance path
    assert_eq!(float_mult(0x6C00, 0x6C00, 0), 0x40000);
    assert_eq!(float_mult(0x6C00, 0x6C00, 5), 0x2000);
    // one negative operand flips the sign; two cancel
    assert_eq!(float_mult(0xEC00, 0x6C00, 0), (1u32 << 24) - 0x40000);
    assert_eq!(float_mult(0xEC00, 0xEC00, 0), 0x40000);
    // a zero operand gives zero
    assert_eq!(float_mult(0, 0x6C00, 0), 0);
}

#[test]
fn matmul_zero_vector_gives_zero_vector() {
    let grid = vec![vec![13u8, 200, 77], vec![255, 0, 64]];
    let m = MatMul::new(&grid, false);
    let out = m.forward(&vec![0, 0, 0]);
    assert_eq!(out, vec![0, 0]);
    let mr = MatMul::new(&grid, true);
    assert_eq!(mr.forward(&vec![0, 0, 0]), vec![0, 0]);
}

#[test]
fn matmul_exact_single_weight() {
    // byte 8 decodes to shift 8, big 1, small 0: one copy of the input >> 8
    let m = MatMul::new(&vec![vec![8u8]], false);
    assert_eq!(m.forward(&vec![0x40000]), vec![0x400]);
    // the same weight negated
    let mneg = MatMul::new(&vec![vec![136u8]], false);
    assert_eq!(mneg.forward(&vec![0x40000]), vec![0x1000000 - 0x400]);
    // the rectifier zeroes the negative result
    let mrelu = MatMul::new(&vec![vec![136u8]], true);
    assert_eq!(mrelu.forward(&vec![0x40000]), vec![0]);
}

#[test]
fn matmul_additive_on_aligned_inputs() {
    // non-negative inputs that are multiples of 2^11: forward distributes
    let grid = vec![vec![9u8, 70, 127], vec![100, 3, 119]];
    let m = MatMul::new(&grid, false);
    let x = vec![0x800u32, 0x10000, 0];
    let y = vec![0x1000u32, 0x800, 0x20000];
    let s: Vec<u32> = x.iter().zip(y.iter()).map(|(a, b)| a + b).collect();
    let ox = m.forward(&x);
    let oy = m.forward(&y);
    let os = m.forward(&s);
    for i in 0..2 {
        assert_eq!(os[i], (ox[i] + oy[i]) & 0xFFFFFF);
    }
}

#[test]
fn isqrt_exact_values() {
    assert_eq!(isqrt(0), 0);
    assert_eq!(isqrt(1), 1);
    assert_eq!(isqrt(3), 1);
    assert_eq!(isqrt(4), 2);
    assert_eq!(isqrt(164926744), 12842);
    assert_eq!(isqrt((1u64 << 48) - 1), 16777215);
}

#[test]
fn layernorm_halves_weights_at_load() {
    let raw = vec![7u32; 240];
    let ln = LayerNorm::new(&raw);
    assert!(ln.weights.iter().all(|&w| w == 3));
}

#[test]
fn layernorm_zero_vector_gives_zero_vector() {
    let ln = LayerNorm::new(&vec![0x400000u32; 240]);
    let out = ln.forward(&vec![0u32; 240]);
    assert_eq!(out, vec![0u32; 240]);
}

#[test]
fn layernorm_offset_invariant_when_mean_shifts_exactly() {
    // base vector [1, 0, ..., 0]: its wrapped mean is 0, and the mean of
    // the vector shifted by 1 is exactly 1, so the outputs must agree
    let ln = LayerNorm::new(&vec![0x400000u32; 240]);
    let mut base = vec![0u32; 240];
    base[0] = 1;
    let shifted: Vec<u32> = base.iter().map(|&v| (v + 1) & 0xFFFFFF).collect();
    assert_eq!(ln.forward(&base), ln.forward(&shifted));
}

#[test]
fn prng_zero_seed_stays_zero() {
    let mut p = PRNG::new(0);
    assert_eq!(p.next(), 0);
    assert_eq!(p.next(), 0);
}

#[test]
fn prng_deterministic_and_bounded() {
    let p = PRNG::new(5);
    assert_eq!(p.seed, 5);
    let mut a = PRNG::new(0x12345);
    let mut b = PRNG::new(0x12345);
    for _ in 0..4 {
        let x = a.next();
        assert_eq!(x, b.next());
        assert!(x < (1 << 23));
    }
}
