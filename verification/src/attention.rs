//! Multi-head causal self-attention with growing key/value caches,
//! and the 16-bit compact-float codec those caches are stored in.
//!
//! A compact float packs {sign:1, exponent:5, mantissa:10}; it is
//! produced only by the encode routine and consumed only by the
//! multiply routine.  Softmax is approximated through a precomputed
//! 1024-entry exponential lookup table shared by all heads.
use vstd::prelude::*;

verus! {

use vstd::arithmetic::power2::{
    pow2, lemma_pow2_adds, lemma_pow2_pos, lemma_pow2_strictly_increases, lemma2_to64,
    lemma2_to64_rest,
};
use crate::fixed::{
    add24, exec_add24, exec_neg24, exec_neg_half, fp_is_neg, neg24, neg_half, pow2_u128, pow2_u64,
};
use crate::matmul::{matmul_rows, MatMul};
use crate::{fp_seq, EngineError};

/// Fixed-point attention scale, about `2^26 / sqrt(EMBED_SIZE)`.
pub const ATT_CONST: u64 = 4331858;

pub proof fn lemma_pow2_le(e1: nat, e2: nat)
    requires
        e1 <= e2,
    ensures
        pow2(e1) <= pow2(e2),
{
    if e1 < e2 {
        lemma_pow2_strictly_increases(e1, e2);
    }
}

/// Index of the highest set bit (zero for values below two).
pub open spec fn hibit(v: nat) -> nat
    decreases v,
{
    if v <= 1 {
        0
    } else {
        1 + hibit((v / 2) as nat)
    }
}

pub proof fn lemma_hibit_bounds(v: nat)
    requires
        v >= 1,
    ensures
        pow2(hibit(v)) <= v < pow2(hibit(v) + 1),
    decreases v,
{
    lemma2_to64();
    if v > 1 {
        lemma_hibit_bounds((v / 2) as nat);
        lemma_pow2_adds(hibit((v / 2) as nat), 1);
        lemma_pow2_adds(hibit((v / 2) as nat) + 1, 1);
    }
}

pub proof fn lemma_hibit_unique(v: nat, i: nat)
    requires
        pow2(i) <= v < pow2(i + 1),
    ensures
        hibit(v) == i,
{
    lemma_pow2_pos(i);
    lemma_hibit_bounds(v);
    if hibit(v) < i {
        lemma_pow2_le(hibit(v) + 1, i);
        assert(false);
    }
    if hibit(v) > i {
        lemma_pow2_le(i + 1, hibit(v));
        assert(false);
    }
}

/// Magnitude of a masked fixed-point value under the sign convention.
pub open spec fn f16_mag(v: u32) -> u32
    recommends
        v < 0x1000000,
{
    if fp_is_neg(v) {
        neg_half(v)
    } else {
        v
    }
}

/// What the compact-float encoder yields: sign from the fixed-point
/// convention, the ten bits below the highest set bit as mantissa, and
/// exponent field `hibit + 9 - offset`.  Zero magnitude encodes to zero.
pub open spec fn f16_encode(v: u32, offset: u32) -> u16
    recommends
        v < 0x1000000,
        offset <= 9,
{
    let mag = f16_mag(v);
    if mag == 0 {
        0u16
    } else {
        let i = hibit(mag as nat);
        let mant = ((mag * pow2((24 - i) as nat)) / 0x4000) % 0x400;
        let e = i + 9 - offset;
        ((mant + e * 0x400 + if fp_is_neg(v) {
            0x8000int
        } else {
            0int
        }) as u16)
    }
}

/// Encode a masked fixed-point value as a compact float.
pub fn encode_f16(value: u32, offset: u32) -> (r: u16)
    requires
        value < 0x1000000,
        offset <= 9,
    ensures
        r == f16_encode(value, offset),
{
    let neg = value > 0x7FFFFF;
    let mag = if neg {
        exec_neg_half(value)
    } else {
        value
    };
    if mag == 0 {
        return 0u16;
    }
    proof {
        lemma2_to64();
    }
    let mut i: u32 = 24;
    while i > 0
        invariant
            i <= 24,
            1 <= mag < 0x800000,
            (mag as nat) < pow2(i as nat),
            offset <= 9,
            value < 0x1000000,
            neg == fp_is_neg(value),
            mag == f16_mag(value),
        decreases i,
    {
        i = i - 1;
        let p = pow2_u64(i as u64);
        proof {
            lemma_pow2_pos(i as nat);
            lemma_pow2_adds(i as nat, 1);
            lemma2_to64();
        }
        if (mag as u64 / p) % 2 == 1 {
            proof {
                assert(mag as nat >= pow2(i as nat)) by (nonlinear_arith)
                    requires
                        (mag as u64 / p) % 2 == 1,
                        p == pow2(i as nat),
                        p >= 1,
                ;
                lemma_hibit_unique(mag as nat, i as nat);
                assert(i <= 22) by {
                    lemma2_to64();
                    if i >= 23 {
                        lemma_pow2_le(23, i as nat);
                    }
                }
                lemma2_to64();
                lemma_pow2_pos((24 - i) as nat);
                lemma_pow2_adds((i + 1) as nat, (24 - i) as nat);
                assert((mag as int) * pow2((24 - i) as nat) < pow2(25)) by (nonlinear_arith)
                    requires
                        (mag as nat) < pow2((i + 1) as nat),
                        pow2((i + 1) as nat) * pow2((24 - i) as nat) == pow2(25),
                        pow2((24 - i) as nat) > 0,
                ;
            }
            let mant: u32 = ((mag as u64 * pow2_u64((24 - i) as u64)) / 0x4000 % 0x400) as u32;
            let e: u32 = i + 9 - offset;
            let res: u32 = mant + e * 0x400 + if neg {
                0x8000
            } else {
                0
            };
            return res as u16;
        }
        proof {
            assert((mag as nat) < pow2(i as nat)) by (nonlinear_arith)
                requires
                    (mag as u64 / p) % 2 != 1,
                    (mag as nat) < pow2(i as nat) * 2,
                    p == pow2(i as nat),
                    p >= 1,
                    mag >= 1,
            ;
        }
    }
    proof {
        assert(false);
    }
    0u16
}

/// Exponent-field sum of two compact floats.
pub open spec fn fm_offset(a: u16, b: u16) -> nat {
    (((a / 0x400) % 32) + ((b / 0x400) % 32)) as nat
}

/// The operand with its sign bit stripped.
pub open spec fn fm_strip(x: u16) -> u32 {
    if x >= 0x8000 {
        (x - 0x8000) as u32
    } else {
        x as u32
    }
}

/// The eleven-bit mantissa with its implicit leading bit restored; a
/// zero magnitude stays zero.
pub open spec fn fm_mant(x: u16) -> u32 {
    let s = fm_strip(x);
    if s > 0 {
        ((s % 0x400) + 0x400) as u32
    } else {
        0u32
    }
}

/// Exactly one operand negative.
pub open spec fn fm_neg(a: u16, b: u16) -> bool {
    (a >= 0x8000) != (b >= 0x8000)
}

/// What the compact-float multiply returns: the wide mantissa product
/// scaled by the combined exponents, truncated (no rounding), wrapped
/// to 24 bits, with the sign restored by negation.
pub open spec fn float_mult_spec(a: u16, b: u16, shift: u32) -> u32
    recommends
        shift <= 64,
{
    let prod = fm_mant(a) * fm_mant(b) * pow2(fm_offset(a, b)) as int;
    let res = ((prod / pow2((56 + shift) as nat) as int) % 0x1000000) as u32;
    if fm_neg(a, b) {
        neg24(res)
    } else {
        res
    }
}

/// Multiply two compact floats into a masked fixed-point value.
pub fn float_mult(a: u16, b: u16, shift: u32) -> (r: u32)
    requires
        shift <= 64,
    ensures
        r == float_mult_spec(a, b, shift),
        r < 0x1000000,
{
    proof {
        lemma2_to64();
        lemma2_to64_rest();
        lemma_pow2_pos((56 + shift) as nat);
    }
    let offset: u32 = ((a / 0x400) % 32) as u32 + ((b / 0x400) % 32) as u32;
    let neg = (a >= 0x8000) != (b >= 0x8000);
    let sa: u32 = if a >= 0x8000 {
        (a - 0x8000) as u32
    } else {
        a as u32
    };
    let ma: u32 = if sa > 0 {
        (sa % 0x400) + 0x400
    } else {
        0
    };
    let sb: u32 = if b >= 0x8000 {
        (b - 0x8000) as u32
    } else {
        b as u32
    };
    let mb: u32 = if sb > 0 {
        (sb % 0x400) + 0x400
    } else {
        0
    };
    proof {
        assert(ma * mb < 0x400000) by (nonlinear_arith)
            requires
                ma < 0x800,
                mb < 0x800,
        ;
    }
    let prod: u128 = ma as u128 * mb as u128;
    proof {
        lemma_pow2_le(offset as nat, 62);
        lemma_pow2_adds(22, 62);
        assert(prod * pow2(offset as nat) < pow2(22) * pow2(62)) by (nonlinear_arith)
            requires
                prod < pow2(22),
                0 < pow2(offset as nat) <= pow2(62),
        ;
    }
    let shifted: u128 = prod * pow2_u128(offset);
    let res: u32 = ((shifted / pow2_u128(56 + shift)) % 0x1000000) as u32;
    if neg {
        exec_neg24(res)
    } else {
        res
    }
}

/// A non-increasing 1024-entry exponential lookup table of 24-bit
/// fixed-point values, as the table store supplies it.
pub open spec fn table_wf(t: Seq<u32>) -> bool {
    &&& t.len() == 1024
    &&& forall|i: int| 0 <= i < t.len() ==> #[trigger] t[i] < 0x1000000
    &&& forall|i: int, j: int| 0 <= i <= j < t.len() ==> #[trigger] t[i] >= #[trigger] t[j]
}

/// Unnormalized softmax weight of one rescaled relevance score: a
/// table lookup on the quantized distance to the maximum, zero once
/// the distance leaves the table.
pub open spec fn lut_weight(table: Seq<u32>, biggest: u32, r: u32) -> u32
    recommends
        table_wf(table),
        r <= biggest,
{
    let power = (biggest - r) / 0x400;
    if power >= 1024 {
        0u32
    } else {
        table[power as int]
    }
}

/// The lookup-derived weight never orders against the scores: a larger
/// rescaled relevance gets at least the weight of a smaller one.
pub proof fn lemma_softmax_lookup_monotone(table: Seq<u32>, biggest: u32, r1: u32, r2: u32)
    requires
        table_wf(table),
        r2 <= r1 <= biggest,
    ensures
        lut_weight(table, biggest, r1) >= lut_weight(table, biggest, r2),
{
}

/// One multi-head attention component: per-head key/value/query
/// layers, the shared output projection, the softmax table, and one
/// growing key cache and value cache per head.
pub struct Attention {
    pub matmul_key: Vec<MatMul>,
    pub matmul_value: Vec<MatMul>,
    pub matmul_query: Vec<MatMul>,
    pub matmul_proj: MatMul,
    pub softmax_exp: Vec<u32>,
    pub k_cache: Vec<Vec<Vec<u16>>>,
    pub v_cache: Vec<Vec<Vec<u16>>>,
}

impl Attention {
    pub open spec fn kcache(&self) -> Seq<Seq<Seq<u16>>> {
        self.k_cache.deep_view()
    }

    pub open spec fn vcache(&self) -> Seq<Seq<Seq<u16>>> {
        self.v_cache.deep_view()
    }

    /// Entries every head's caches hold: one per token processed.
    pub open spec fn spec_cache_len(&self) -> nat {
        self.kcache()[0].len()
    }

    pub open spec fn heads_wf(ms: Seq<MatMul>) -> bool {
        &&& ms.len() == 5
        &&& forall|h: int|
            0 <= h < 5 ==> {
                &&& (#[trigger] ms[h]).wf()
                &&& ms[h].in_size() == 240
                &&& ms[h].out_size() == 48
                &&& !ms[h].relu
            }
    }

    pub open spec fn cache_wf(c: Seq<Seq<Seq<u16>>>, len: nat) -> bool {
        &&& c.len() == 5
        &&& forall|h: int|
            0 <= h < 5 ==> {
                &&& (#[trigger] c[h]).len() == len
                &&& forall|i: int| 0 <= i < c[h].len() ==> (#[trigger] c[h][i]).len() == 48
            }
    }

    pub open spec fn wf(&self) -> bool {
        &&& Self::heads_wf(self.matmul_key@)
        &&& Self::heads_wf(self.matmul_value@)
        &&& Self::heads_wf(self.matmul_query@)
        &&& self.matmul_proj.wf()
        &&& self.matmul_proj.in_size() == 240
        &&& self.matmul_proj.out_size() == 240
        &&& !self.matmul_proj.relu
        &&& table_wf(self.softmax_exp@)
        &&& Self::cache_wf(self.kcache(), self.spec_cache_len())
        &&& Self::cache_wf(self.vcache(), self.spec_cache_len())
    }
}

/// Compact-float encoding of every entry of a fixed-point vector.
pub open spec fn enc_vec(vals: Seq<u32>, offset: u32) -> Seq<u16> {
    Seq::new(vals.len(), |i: int| f16_encode(vals[i], offset))
}

/// The key (or value, or query) vector one head derives from the
/// input, as compact floats.
pub open spec fn key_enc_of(m: MatMul, input: Seq<u32>) -> Seq<u16> {
    enc_vec(matmul_rows(m.grid(), input, false), 0)
}

/// Raw relevance of one cached key against the query: a wrapped sum of
/// compact-float products over the first `n` channels.
pub open spec fn rel_dot(key: Seq<u16>, q: Seq<u16>, n: int) -> u32
    recommends
        n <= key.len(),
        n <= q.len(),
    decreases n,
{
    if n <= 0 {
        0u32
    } else {
        add24(rel_dot(key, q, n - 1), float_mult_spec(key[n - 1], q[n - 1], 5))
    }
}

/// Rescaling of a raw relevance by the attention constant with
/// explicit sign handling, then the flip of the top bit that lets the
/// maximum be taken by unsigned comparison.
pub open spec fn rescale_spec(r: u32) -> u32
    recommends
        r < 0x1000000,
{
    let neg = fp_is_neg(r);
    let m = if neg {
        neg_half(r)
    } else {
        r
    };
    let scaled = (((m * ATT_CONST) / 0x800000) % 0x800000) as u32;
    let signed = if neg {
        neg24(scaled)
    } else {
        scaled
    };
    if signed >= 0x800000 {
        (signed - 0x800000) as u32
    } else {
        (signed + 0x800000) as u32
    }
}

/// Running maximum of the first `n` entries, starting from zero.
pub open spec fn seq_max24(s: Seq<u32>, n: int) -> u32
    recommends
        n <= s.len(),
    decreases n,
{
    if n <= 0 {
        0u32
    } else {
        let m = seq_max24(s, n - 1);
        if s[n - 1] > m {
            s[n - 1]
        } else {
            m
        }
    }
}

pub proof fn lemma_seq_max24_ge(s: Seq<u32>, n: int, k: int)
    requires
        0 <= k < n <= s.len(),
    ensures
        s[k] <= seq_max24(s, n),
    decreases n,
{
    if k < n - 1 {
        lemma_seq_max24_ge(s, n - 1, k);
    }
}

/// Exact sum of the lookup weights of the first `n` rescaled scores.
pub open spec fn lut_sum(table: Seq<u32>, biggest: u32, rels: Seq<u32>, n: int) -> int
    recommends
        n <= rels.len(),
        table_wf(table),
    decreases n,
{
    if n <= 0 {
        0
    } else {
        lut_sum(table, biggest, rels, n - 1) + lut_weight(table, biggest, rels[n - 1])
    }
}

/// Scaled integer reciprocal of the wrapped softmax sum.  A wrapped
/// sum of zero has no reciprocal, so it maps to zero: a degenerate
/// table is a configuration error, not a fault.
pub open spec fn inv_spec(s: u32) -> u64 {
    if s == 0 {
        0u64
    } else {
        (0x8000000000int / s as int) as u64
    }
}

/// One position's normalized softmax weight, re-encoded as a compact
/// float for the value accumulation.
pub open spec fn coeff_spec(inv: u64, w: u32) -> u16 {
    f16_encode(((((inv * w) as int / 0x20000) % 0x800000) as u32), 4)
}

/// Wrapped accumulation of one output channel over the first `n`
/// cached value vectors.
pub open spec fn out_entry(vc: Seq<Seq<u16>>, coeffs: Seq<u16>, j: int, n: int) -> u32
    recommends
        n <= vc.len(),
        n <= coeffs.len(),
    decreases n,
{
    if n <= 0 {
        0u32
    } else {
        add24(out_entry(vc, coeffs, j, n - 1), float_mult_spec(coeffs[n - 1], vc[n - 1][j], 0))
    }
}

/// Rescaled relevance of every cached position (the new key included)
/// against the query one head derives from the input.
pub open spec fn head_rels_of(km: MatMul, qm: MatMul, kc: Seq<Seq<u16>>, input: Seq<u32>) -> Seq<
    u32,
> {
    let kca = kc.push(key_enc_of(km, input));
    let q = key_enc_of(qm, input);
    Seq::new(kca.len(), |i: int| rescale_spec(rel_dot(kca[i], q, 48)))
}

pub open spec fn head_biggest_of(km: MatMul, qm: MatMul, kc: Seq<Seq<u16>>, input: Seq<u32>) -> u32 {
    let rels = head_rels_of(km, qm, kc, input);
    seq_max24(rels, rels.len() as int)
}

/// The softmax sum of one head, wrapped to 24 bits.
pub open spec fn head_sum24_of(
    km: MatMul,
    qm: MatMul,
    kc: Seq<Seq<u16>>,
    table: Seq<u32>,
    input: Seq<u32>,
) -> u32 {
    let rels = head_rels_of(km, qm, kc, input);
    (lut_sum(table, head_biggest_of(km, qm, kc, input), rels, rels.len() as int) % 0x1000000) as u32
}

pub open spec fn head_coeffs_of(
    km: MatMul,
    qm: MatMul,
    kc: Seq<Seq<u16>>,
    table: Seq<u32>,
    input: Seq<u32>,
) -> Seq<u16> {
    let rels = head_rels_of(km, qm, kc, input);
    let biggest = head_biggest_of(km, qm, kc, input);
    let inv = inv_spec(head_sum24_of(km, qm, kc, table, input));
    Seq::new(rels.len(), |i: int| coeff_spec(inv, lut_weight(table, biggest, rels[i])))
}

/// Everything one head contributes to the projection input: the
/// softmax-weighted wrapped sum of its cached value vectors, the new
/// one included.
pub open spec fn head_out_of(
    km: MatMul,
    vm: MatMul,
    qm: MatMul,
    table: Seq<u32>,
    kc: Seq<Seq<u16>>,
    vc: Seq<Seq<u16>>,
    input: Seq<u32>,
) -> Seq<u32> {
    let vca = vc.push(key_enc_of(vm, input));
    let coeffs = head_coeffs_of(km, qm, kc, table, input);
    let n = kc.len() + 1;
    Seq::new(48, |j: int| out_entry(vca, coeffs, j, n as int))
}

/// Concatenated outputs of the first `h` heads.
pub open spec fn att_concat_prefix(att: Attention, input: Seq<u32>, h: int) -> Seq<u32>
    decreases h,
{
    if h <= 0 {
        Seq::empty()
    } else {
        att_concat_prefix(att, input, h - 1) + head_out_of(
            att.matmul_key@[h - 1],
            att.matmul_value@[h - 1],
            att.matmul_query@[h - 1],
            att.softmax_exp@,
            att.kcache()[h - 1],
            att.vcache()[h - 1],
            input,
        )
    }
}

/// Shape of the per-head grids the constructor takes: five heads,
/// each a 48-row grid over the 240 embedding channels.
pub open spec fn head_grids_wf(g: Seq<Seq<Seq<u8>>>) -> bool {
    &&& g.len() == 5
    &&& forall|h: int| 0 <= h < 5 ==> (#[trigger] g[h]).len() == 48
    &&& forall|h: int, i: int| 0 <= h < 5 && 0 <= i < 48 ==> (#[trigger] g[h][i]).len() == 240
}

/// One head's dense layer as the constructor leaves it: the decode of
/// its byte grid, without a rectifier.
pub open spec fn head_layer_ok(m: MatMul, bytes: Seq<Seq<u8>>) -> bool {
    &&& m.wf()
    &&& m.in_size() == 240
    &&& m.out_size() == 48
    &&& !m.relu
    &&& m.grid() == crate::matmul::decode_grid(bytes)
}

impl Attention {
    /// The full forward result: all five heads' outputs concatenated
    /// and run through the shared output projection.
    pub open spec fn att_result(&self, input: Seq<u32>) -> Seq<u32> {
        matmul_rows(self.matmul_proj.grid(), att_concat_prefix(*self, input, 5), false)
    }

    /// Encode a masked fixed-point value as a compact float.
    pub fn to_float16(&self, value: u32, offset: i32) -> (r: u16)
        requires
            value < 0x1000000,
            0 <= offset <= 9,
        ensures
            r == f16_encode(value, offset as u32),
    {
        encode_f16(value, offset as u32)
    }

    /// Entries currently cached (same for every head).
    pub fn cache_len(&self) -> (n: usize)
        requires
            self.wf(),
        ensures
            n == self.spec_cache_len(),
    {
        self.k_cache[0].len()
    }

    /// Cached entries of one head's key cache.
    pub fn head_cache_len(&self, h: usize) -> (n: usize)
        requires
            self.wf(),
            h < 5,
        ensures
            n == self.kcache()[h as int].len(),
    {
        self.k_cache[h].len()
    }

    /// Build an attention component from the fully unshuffled logical
    /// weight grids (per head: key, value, query rows over the
    /// embedding) and the softmax lookup table; both caches start empty.
    pub fn new(
        key: &Vec<Vec<Vec<u8>>>,
        value: &Vec<Vec<Vec<u8>>>,
        query: &Vec<Vec<Vec<u8>>>,
        proj: &Vec<Vec<u8>>,
        softmax_exp: Vec<u32>,
    ) -> (r: Attention)
        requires
            head_grids_wf(key.deep_view()),
            head_grids_wf(value.deep_view()),
            head_grids_wf(query.deep_view()),
            proj@.len() == 240,
            forall|i: int| 0 <= i < 240 ==> (#[trigger] proj@[i]@).len() == 240,
            table_wf(softmax_exp@),
        ensures
            r.wf(),
            r.spec_cache_len() == 0,
            forall|h: int|
                0 <= h < 5 ==> (#[trigger] r.kcache()[h]).len() == 0 && (
                #[trigger] r.vcache()[h]).len() == 0,
            forall|h: int|
                0 <= h < 5 ==> (#[trigger] r.matmul_key@[h]).grid() == crate::matmul::decode_grid(
                    key.deep_view()[h],
                ) && (#[trigger] r.matmul_value@[h]).grid() == crate::matmul::decode_grid(
                    value.deep_view()[h],
                ) && (#[trigger] r.matmul_query@[h]).grid() == crate::matmul::decode_grid(
                    query.deep_view()[h],
                ),
            r.matmul_proj.grid() == crate::matmul::decode_grid(proj.deep_view()),
            r.softmax_exp@ == softmax_exp@,
    {
        let mut matmul_key: Vec<MatMul> = Vec::new();
        let mut matmul_value: Vec<MatMul> = Vec::new();
        let mut matmul_query: Vec<MatMul> = Vec::new();
        let mut k_cache: Vec<Vec<Vec<u16>>> = Vec::new();
        let mut v_cache: Vec<Vec<Vec<u16>>> = Vec::new();
        let mut h: usize = 0;
        while h < 5
            invariant
                h <= 5,
                head_grids_wf(key.deep_view()),
                head_grids_wf(value.deep_view()),
                head_grids_wf(query.deep_view()),
                matmul_key@.len() == h,
                matmul_value@.len() == h,
                matmul_query@.len() == h,
                k_cache@.len() == h,
                v_cache@.len() == h,
                forall|g: int|
                    0 <= g < h ==> head_layer_ok(#[trigger] matmul_key@[g], key.deep_view()[g]),
                forall|g: int|
                    0 <= g < h ==> head_layer_ok(#[trigger] matmul_value@[g], value.deep_view()[g]),
                forall|g: int|
                    0 <= g < h ==> head_layer_ok(#[trigger] matmul_query@[g], query.deep_view()[g]),
                forall|g: int| 0 <= g < h ==> (#[trigger] k_cache@[g]@).len() == 0,
                forall|g: int| 0 <= g < h ==> (#[trigger] v_cache@[g]@).len() == 0,
            decreases 5 - h,
        {
            let mk = Self::head_layer(&key[h], Ghost(key.deep_view()[h as int]));
            matmul_key.push(mk);
            let mv = Self::head_layer(&value[h], Ghost(value.deep_view()[h as int]));
            matmul_value.push(mv);
            let mq = Self::head_layer(&query[h], Ghost(query.deep_view()[h as int]));
            matmul_query.push(mq);
            k_cache.push(Vec::new());
            v_cache.push(Vec::new());
            h += 1;
        }
        let matmul_proj = MatMul::new(proj, false);
        proof {
            assert(Seq::new(proj@.len(), |i: int| proj@[i]@) =~~= proj.deep_view());
        }
        let r = Attention {
            matmul_key,
            matmul_value,
            matmul_query,
            matmul_proj,
            softmax_exp,
            k_cache,
            v_cache,
        };
        proof {
            assert forall|g: int| 0 <= g < 5 implies (#[trigger] r.kcache()[g]).len() == 0 && (
            #[trigger] r.vcache()[g]).len() == 0 by {
                assert(r.kcache()[g] =~= Seq::<Seq<u16>>::empty());
                assert(r.vcache()[g] =~= Seq::<Seq<u16>>::empty());
            }
        }
        r
    }

    /// Decode one head's byte grid into its dense layer.
    fn head_layer(bytes: &Vec<Vec<u8>>, view48: Ghost<Seq<Seq<u8>>>) -> (m: MatMul)
        requires
            view48@ == bytes.deep_view(),
            view48@.len() == 48,
            forall|i: int| 0 <= i < 48 ==> (#[trigger] view48@[i]).len() == 240,
        ensures
            head_layer_ok(m, view48@),
    {
        proof {
            assert forall|i: int| 0 <= i < bytes@.len() implies (#[trigger] bytes@[i]@).len()
                == bytes@[0]@.len() by {
                assert(bytes.deep_view()[i] == bytes@[i]@);
                assert(bytes.deep_view()[0] == bytes@[0]@);
            }
        }
        let m = MatMul::new(bytes, false);
        proof {
            assert(bytes.deep_view()[0] == bytes@[0]@);
            assert(Seq::new(bytes@.len(), |i: int| bytes@[i]@) =~~= bytes.deep_view());
        }
        m
    }

    /// Roll back the most recent token: drop the newest entry of every
    /// head's key cache and value cache (a no-op on empty caches).
    pub fn undo_last(&mut self)
        requires
            old(self).wf(),
        ensures
            final(self).wf(),
            old(self).spec_cache_len() > 0 ==> final(self).spec_cache_len() == old(
                self,
            ).spec_cache_len() - 1,
            old(self).spec_cache_len() > 0 ==> forall|h: int|
                0 <= h < 5 ==> (#[trigger] final(self).kcache()[h]) == old(
                    self,
                ).kcache()[h].drop_last(),
            old(self).spec_cache_len() > 0 ==> forall|h: int|
                0 <= h < 5 ==> (#[trigger] final(self).vcache()[h]) == old(
                    self,
                ).vcache()[h].drop_last(),
            old(self).spec_cache_len() == 0 ==> final(self).kcache() == old(self).kcache()
                && final(self).vcache() == old(self).vcache() && final(self).spec_cache_len() == 0,
            final(self).matmul_key == old(self).matmul_key,
            final(self).matmul_value == old(self).matmul_value,
            final(self).matmul_query == old(self).matmul_query,
            final(self).matmul_proj == old(self).matmul_proj,
            final(self).softmax_exp == old(self).softmax_exp,
    {
        let mut h: usize = 0;
        while h < 5
            invariant
                h <= 5,
                old(self).wf(),
                self.k_cache@.len() == 5,
                self.v_cache@.len() == 5,
                self.matmul_key == old(self).matmul_key,
                self.matmul_value == old(self).matmul_value,
                self.matmul_query == old(self).matmul_query,
                self.matmul_proj == old(self).matmul_proj,
                self.softmax_exp == old(self).softmax_exp,
                forall|g: int| h <= g < 5 ==> (#[trigger] self.k_cache@[g]) == old(self).k_cache@[g],
                forall|g: int| h <= g < 5 ==> (#[trigger] self.v_cache@[g]) == old(self).v_cache@[g],
                forall|g: int|
                    0 <= g < h ==> (#[trigger] self.k_cache@[g]@) == old(self).k_cache@[g]@.take(
                        cut_len(old(self).spec_cache_len() as int),
                    ),
                forall|g: int|
                    0 <= g < h ==> (#[trigger] self.v_cache@[g]@) == old(self).v_cache@[g]@.take(
                        cut_len(old(self).spec_cache_len() as int),
                    ),
            decreases 5 - h,
        {
            self.k_cache[h].pop();
            self.v_cache[h].pop();
            proof {
                let ghost scl = old(self).spec_cache_len() as int;
                assert(old(self).kcache()[h as int].len() == scl);
                assert(old(self).kcache()[h as int].len() == old(self).k_cache@[h as int]@.len());
                assert(old(self).vcache()[h as int].len() == old(self).v_cache@[h as int]@.len());
                assert(self.k_cache@[h as int]@ =~= old(self).k_cache@[h as int]@.take(
                    cut_len(scl),
                ));
                assert(self.v_cache@[h as int]@ =~= old(self).v_cache@[h as int]@.take(
                    cut_len(scl),
                ));
            }
            h += 1;
        }
        proof {
            let ghost scl = old(self).spec_cache_len() as int;
            assert forall|g: int| 0 <= g < 5 implies (#[trigger] self.kcache()[g]) == old(
                self,
            ).kcache()[g].take(cut_len(scl)) by {
                assert(self.kcache()[g] =~= old(self).kcache()[g].take(cut_len(scl)));
            }
            assert forall|g: int| 0 <= g < 5 implies (#[trigger] self.vcache()[g]) == old(
                self,
            ).vcache()[g].take(cut_len(scl)) by {
                assert(self.vcache()[g] =~= old(self).vcache()[g].take(cut_len(scl)));
            }
            if scl > 0 {
                assert forall|g: int| 0 <= g < 5 implies (#[trigger] self.kcache()[g]) == old(
                    self,
                ).kcache()[g].drop_last() by {
                    assert(old(self).kcache()[g].take(cut_len(scl)) =~= old(
                        self,
                    ).kcache()[g].drop_last());
                }
                assert forall|g: int| 0 <= g < 5 implies (#[trigger] self.vcache()[g]) == old(
                    self,
                ).vcache()[g].drop_last() by {
                    assert(old(self).vcache()[g].take(cut_len(scl)) =~= old(
                        self,
                    ).vcache()[g].drop_last());
                }
            } else {
                assert(self.kcache() =~~= old(self).kcache());
                assert(self.vcache() =~~= old(self).vcache());
            }
        }
    }
}

impl Attention {
    /// Run one head: push the new key and value vectors, derive the
    /// query, softmax-weight every cached position and accumulate its
    /// cached value vector into this head's 48 output channels.
    fn head_forward(&mut self, input: &Vec<u32>, h: usize) -> (out: Vec<u32>)
        requires
            h < 5,
            Self::heads_wf(old(self).matmul_key@),
            Self::heads_wf(old(self).matmul_value@),
            Self::heads_wf(old(self).matmul_query@),
            table_wf(old(self).softmax_exp@),
            old(self).k_cache@.len() == 5,
            old(self).v_cache@.len() == 5,
            forall|i: int|
                0 <= i < old(self).kcache()[h as int].len() ==> (#[trigger] old(self).kcache()[
                h as int][i]).len() == 48,
            forall|i: int|
                0 <= i < old(self).vcache()[h as int].len() ==> (#[trigger] old(self).vcache()[
                h as int][i]).len() == 48,
            old(self).kcache()[h as int].len() == old(self).vcache()[h as int].len(),
            old(self).kcache()[h as int].len() < 1024,
            input@.len() == 240,
            fp_seq(input@),
        ensures
            out@ == head_out_of(
                old(self).matmul_key@[h as int],
                old(self).matmul_value@[h as int],
                old(self).matmul_query@[h as int],
                old(self).softmax_exp@,
                old(self).kcache()[h as int],
                old(self).vcache()[h as int],
                input@,
            ),
            out@.len() == 48,
            fp_seq(out@),
            final(self).kcache() == old(self).kcache().update(
                h as int,
                old(self).kcache()[h as int].push(
                    key_enc_of(old(self).matmul_key@[h as int], input@),
                ),
            ),
            final(self).vcache() == old(self).vcache().update(
                h as int,
                old(self).vcache()[h as int].push(
                    key_enc_of(old(self).matmul_value@[h as int], input@),
                ),
            ),
            final(self).matmul_key == old(self).matmul_key,
            final(self).matmul_value == old(self).matmul_value,
            final(self).matmul_query == old(self).matmul_query,
            final(self).matmul_proj == old(self).matmul_proj,
            final(self).softmax_exp == old(self).softmax_exp,
            final(self).k_cache@.len() == 5,
            final(self).v_cache@.len() == 5,
    {
        let ghost km = self.matmul_key@[h as int];
        let ghost vm = self.matmul_value@[h as int];
        let ghost qm = self.matmul_query@[h as int];
        let ghost table = self.softmax_exp@;
        let ghost kc0 = self.kcache()[h as int];
        let ghost vc0 = self.vcache()[h as int];

        let keys = self.matmul_key[h].forward(input);
        let mut ka: Vec<u16> = Vec::new();
        let mut i: usize = 0;
        while i < 48
            invariant
                i <= 48,
                keys@.len() == 48,
                fp_seq(keys@),
                ka@.len() == i,
                forall|k: int| 0 <= k < i ==> (#[trigger] ka@[k]) == f16_encode(keys@[k], 0),
            decreases 48 - i,
        {
            ka.push(encode_f16(keys[i], 0));
            i += 1;
        }
        let ghost ka_v = ka@;
        proof {
            assert(ka_v =~= key_enc_of(km, input@));
        }
        self.k_cache[h].push(ka);
        proof {
            assert(self.kcache() =~~= old(self).kcache().update(h as int, kc0.push(ka_v)));
        }

        let values = self.matmul_value[h].forward(input);
        let mut va: Vec<u16> = Vec::new();
        let mut i: usize = 0;
        while i < 48
            invariant
                i <= 48,
                values@.len() == 48,
                fp_seq(values@),
                va@.len() == i,
                forall|k: int| 0 <= k < i ==> (#[trigger] va@[k]) == f16_encode(values@[k], 0),
            decreases 48 - i,
        {
            va.push(encode_f16(values[i], 0));
            i += 1;
        }
        let ghost va_v = va@;
        proof {
            assert(va_v =~= key_enc_of(vm, input@));
        }
        self.v_cache[h].push(va);
        proof {
            assert(self.vcache() =~~= old(self).vcache().update(h as int, vc0.push(va_v)));
        }

        let queries = self.matmul_query[h].forward(input);
        let mut qa: Vec<u16> = Vec::new();
        let mut i: usize = 0;
        while i < 48
            invariant
                i <= 48,
                queries@.len() == 48,
                fp_seq(queries@),
                qa@.len() == i,
                forall|k: int| 0 <= k < i ==> (#[trigger] qa@[k]) == f16_encode(queries@[k], 0),
            decreases 48 - i,
        {
            qa.push(encode_f16(queries[i], 0));
            i += 1;
        }
        let ghost q = key_enc_of(qm, input@);
        proof {
            assert(qa@ =~= q);
        }

        let ghost kca = kc0.push(ka_v);
        let ghost vca = vc0.push(va_v);
        let ghost rels = head_rels_of(km, qm, kc0, input@);
        let n = self.k_cache[h].len();
        proof {
            assert(self.kcache()[h as int] == kca);
            assert(self.k_cache@[h as int]@.len() == kca.len());
            assert(n == kc0.len() + 1);
            assert(n <= 1024);
            assert(rels.len() == n);
            assert forall|k: int| 0 <= k < kca.len() implies (#[trigger] kca[k]).len() == 48 by {}
            assert forall|k: int| 0 <= k < vca.len() implies (#[trigger] vca[k]).len() == 48 by {}
        }

        let mut rel: Vec<u32> = Vec::new();
        let mut i: usize = 0;
        while i < n
            invariant
                i <= n,
                n == kca.len(),
                n <= 1024,
                h < 5,
                self.k_cache@.len() == 5,
                self.kcache()[h as int] == kca,
                self.k_cache@[h as int]@.len() == n,
                forall|k: int| 0 <= k < kca.len() ==> (#[trigger] kca[k]).len() == 48,
                qa@ == q,
                qa@.len() == 48,
                rel@.len() == i,
                forall|k: int| 0 <= k < i ==> (#[trigger] rel@[k]) == rel_dot(kca[k], q, 48),
                forall|k: int| 0 <= k < i ==> (#[trigger] rel@[k]) < 0x1000000,
            decreases n - i,
        {
            let mut acc: u32 = 0;
            let mut j: usize = 0;
            while j < 48
                invariant
                    j <= 48,
                    i < n,
                    n == kca.len(),
                    h < 5,
                    self.k_cache@.len() == 5,
                    self.kcache()[h as int] == kca,
                    self.k_cache@[h as int]@.len() == n,
                    kca[i as int].len() == 48,
                    qa@ == q,
                    qa@.len() == 48,
                    acc == rel_dot(kca[i as int], q, j as int),
                    acc < 0x1000000,
                decreases 48 - j,
            {
                let kv = self.k_cache[h][i][j];
                proof {
                    assert(kv == kca[i as int][j as int]);
                }
                acc = exec_add24(acc, float_mult(kv, qa[j], 5));
                j += 1;
            }
            rel.push(acc);
            i += 1;
        }

        let mut rel2: Vec<u32> = Vec::new();
        let mut biggest: u32 = 0;
        let mut i: usize = 0;
        while i < n
            invariant
                i <= n,
                n == rels.len(),
                rel@.len() == n,
                forall|k: int| 0 <= k < n ==> (#[trigger] rel@[k]) == rel_dot(kca[k], q, 48),
                forall|k: int| 0 <= k < n ==> (#[trigger] rel@[k]) < 0x1000000,
                rels == head_rels_of(km, qm, kc0, input@),
                kca == kc0.push(ka_v),
                ka_v == key_enc_of(km, input@),
                q == key_enc_of(qm, input@),
                rel2@.len() == i,
                forall|k: int| 0 <= k < i ==> (#[trigger] rel2@[k]) == rels[k],
                forall|k: int| 0 <= k < i ==> (#[trigger] rel2@[k]) < 0x1000000,
                biggest == seq_max24(rels, i as int),
            decreases n - i,
        {
            let r0 = rel[i];
            let neg = r0 > 0x7FFFFF;
            let m = if neg {
                exec_neg_half(r0)
            } else {
                r0
            };
            let scaled: u32 = ((m as u64 * ATT_CONST) / 0x800000 % 0x800000) as u32;
            let s2 = if neg {
                exec_neg24(scaled)
            } else {
                scaled
            };
            let s3 = if s2 >= 0x800000 {
                s2 - 0x800000
            } else {
                s2 + 0x800000
            };
            proof {
                assert(s3 == rescale_spec(r0));
                assert(rels[i as int] == rescale_spec(rel_dot(kca[i as int], q, 48)));
                assert(s3 < 0x1000000);
            }
            rel2.push(s3);
            if s3 > biggest {
                biggest = s3;
            }
            i += 1;
        }

        let ghost biggest_g = head_biggest_of(km, qm, kc0, input@);
        proof {
            assert(biggest == biggest_g);
        }
        let mut ssum: u64 = 0;
        let mut i: usize = 0;
        while i < n
            invariant
                i <= n,
                n == rels.len(),
                n <= 1024,
                rel2@.len() == n,
                forall|k: int| 0 <= k < n ==> (#[trigger] rel2@[k]) == rels[k],
                table_wf(table),
                self.softmax_exp@ == table,
                biggest == seq_max24(rels, n as int),
                ssum == lut_sum(table, biggest, rels, i as int),
                ssum <= i * 0xFFFFFF,
            decreases n - i,
        {
            proof {
                lemma_seq_max24_ge(rels, n as int, i as int);
            }
            let d = biggest - rel2[i];
            let power = d / 0x400;
            let w = if power >= 1024 {
                0u32
            } else {
                self.softmax_exp[power as usize]
            };
            proof {
                assert(w == lut_weight(table, biggest, rels[i as int]));
                assert(w <= 0xFFFFFF);
            }
            ssum = ssum + w as u64;
            i += 1;
        }
        let s24: u32 = (ssum % 0x1000000) as u32;
        let ghost s24_g = head_sum24_of(km, qm, kc0, table, input@);
        proof {
            assert(s24 == s24_g);
        }
        let inv: u64 = if s24 == 0 {
            0
        } else {
            0x8000000000u64 / (s24 as u64)
        };
        proof {
            assert(inv == inv_spec(s24));
            assert(inv <= 0x8000000000);
        }

        let ghost coeffs = head_coeffs_of(km, qm, kc0, table, input@);
        proof {
            assert(coeffs.len() == n);
        }
        let mut out: Vec<u32> = Vec::new();
        let mut j: usize = 0;
        while j < 48
            invariant
                j <= 48,
                out@.len() == j,
                forall|k: int| 0 <= k < j ==> (#[trigger] out@[k]) == 0u32,
            decreases 48 - j,
        {
            out.push(0u32);
            j += 1;
        }
        let mut i: usize = 0;
        while i < n
            invariant
                i <= n,
                n == rels.len(),
                n == vca.len(),
                n <= 1024,
                h < 5,
                self.v_cache@.len() == 5,
                self.vcache()[h as int] == vca,
                self.v_cache@[h as int]@.len() == n,
                forall|k: int| 0 <= k < vca.len() ==> (#[trigger] vca[k]).len() == 48,
                rel2@.len() == n,
                forall|k: int| 0 <= k < n ==> (#[trigger] rel2@[k]) == rels[k],
                table_wf(table),
                self.softmax_exp@ == table,
                biggest == seq_max24(rels, n as int),
                biggest == head_biggest_of(km, qm, kc0, input@),
                inv == inv_spec(head_sum24_of(km, qm, kc0, table, input@)),
                inv <= 0x8000000000,
                coeffs == head_coeffs_of(km, qm, kc0, table, input@),
                coeffs.len() == n,
                rels == head_rels_of(km, qm, kc0, input@),
                out@.len() == 48,
                forall|k: int| 0 <= k < 48 ==> (#[trigger] out@[k]) == out_entry(vca, coeffs, k, i as int),
                forall|k: int| 0 <= k < 48 ==> (#[trigger] out@[k]) < 0x1000000,
            decreases n - i,
        {
            proof {
                lemma_seq_max24_ge(rels, n as int, i as int);
            }
            let d = biggest - rel2[i];
            let power = d / 0x400;
            let w = if power >= 1024 {
                0u32
            } else {
                self.softmax_exp[power as usize]
            };
            proof {
                assert(w == lut_weight(table, biggest, rels[i as int]));
                assert(inv * w <= 0x8000000000 * 0xFFFFFF) by (nonlinear_arith)
                    requires
                        inv <= 0x8000000000,
                        w <= 0xFFFFFF,
                ;
            }
            let resn: u32 = (((inv * w as u64) / 0x20000) % 0x800000) as u32;
            let c = encode_f16(resn, 4);
            proof {
                assert(c == coeffs[i as int]);
            }
            let mut j: usize = 0;
            while j < 48
                invariant
                    j <= 48,
                    i < n,
                    n == vca.len(),
                    h < 5,
                    self.v_cache@.len() == 5,
                    self.vcache()[h as int] == vca,
                    self.v_cache@[h as int]@.len() == n,
                    vca[i as int].len() == 48,
                    c == coeffs[i as int],
                    coeffs.len() == n,
                    out@.len() == 48,
                    forall|k: int| 0 <= k < j ==> (#[trigger] out@[k]) == out_entry(vca, coeffs, k, i + 1),
                    forall|k: int| j <= k < 48 ==> (#[trigger] out@[k]) == out_entry(vca, coeffs, k, i as int),
                    forall|k: int| 0 <= k < 48 ==> (#[trigger] out@[k]) < 0x1000000,
                decreases 48 - j,
            {
                let vv = self.v_cache[h][i][j];
                proof {
                    assert(vv == vca[i as int][j as int]);
                }
                let fm = float_mult(c, vv, 0);
                let cur = out[j];
                let nv = exec_add24(cur, fm);
                out[j] = nv;
                j += 1;
            }
            i += 1;
        }
        proof {
            assert(out@ =~= head_out_of(km, vm, qm, table, kc0, vc0, input@));
        }
        out
    }

    /// One forward pass of the whole component.  Rejected (before any
    /// cache is touched) exactly when the caches already hold
    /// `CACHE_LIMIT` entries; otherwise every head appends one key and
    /// one value vector and the concatenated head outputs run through
    /// the output projection.
    pub fn forward(&mut self, input: &Vec<u32>) -> (r: Result<Vec<u32>, EngineError>)
        requires
            old(self).wf(),
            input@.len() == 240,
            fp_seq(input@),
        ensures
            final(self).wf(),
            r is Ok <==> old(self).spec_cache_len() < 1024,
            r is Err ==> r == Err::<Vec<u32>, EngineError>(EngineError::CacheFull) && *final(self)
                == *old(self),
            (r matches Ok(v) ==> v@ == old(self).att_result(input@) && v@.len() == 240 && fp_seq(
                v@,
            )),
            r is Ok ==> final(self).spec_cache_len() == old(self).spec_cache_len() + 1,
            r is Ok ==> forall|h: int|
                0 <= h < 5 ==> (#[trigger] final(self).kcache()[h]) == old(self).kcache()[h].push(
                    key_enc_of(old(self).matmul_key@[h], input@),
                ),
            r is Ok ==> forall|h: int|
                0 <= h < 5 ==> (#[trigger] final(self).vcache()[h]) == old(self).vcache()[h].push(
                    key_enc_of(old(self).matmul_value@[h], input@),
                ),
            final(self).matmul_key == old(self).matmul_key,
            final(self).matmul_value == old(self).matmul_value,
            final(self).matmul_query == old(self).matmul_query,
            final(self).matmul_proj == old(self).matmul_proj,
            final(self).softmax_exp == old(self).softmax_exp,
    {
        if self.k_cache[0].len() >= 1024 {
            return Err(EngineError::CacheFull);
        }
        let mut proj_input: Vec<u32> = Vec::new();
        let mut h: usize = 0;
        while h < 5
            invariant
                h <= 5,
                input@.len() == 240,
                fp_seq(input@),
                old(self).wf(),
                old(self).spec_cache_len() < 1024,
                self.matmul_key == old(self).matmul_key,
                self.matmul_value == old(self).matmul_value,
                self.matmul_query == old(self).matmul_query,
                self.matmul_proj == old(self).matmul_proj,
                self.softmax_exp == old(self).softmax_exp,
                self.k_cache@.len() == 5,
                self.v_cache@.len() == 5,
                forall|g: int|
                    h <= g < 5 ==> (#[trigger] self.kcache()[g]) == old(self).kcache()[g],
                forall|g: int|
                    h <= g < 5 ==> (#[trigger] self.vcache()[g]) == old(self).vcache()[g],
                forall|g: int|
                    0 <= g < h ==> (#[trigger] self.kcache()[g]) == old(self).kcache()[g].push(
                        key_enc_of(old(self).matmul_key@[g], input@),
                    ),
                forall|g: int|
                    0 <= g < h ==> (#[trigger] self.vcache()[g]) == old(self).vcache()[g].push(
                        key_enc_of(old(self).matmul_value@[g], input@),
                    ),
                proj_input@ == att_concat_prefix(*old(self), input@, h as int),
                proj_input@.len() == 48 * h,
                fp_seq(proj_input@),
            decreases 5 - h,
        {
            let ghost prev = *self;
            let mut out = self.head_forward(input, h);
            proj_input.append(&mut out);
            h += 1;
            proof {
                assert(att_concat_prefix(*old(self), input@, h as int) == att_concat_prefix(
                    *old(self),
                    input@,
                    h - 1,
                ) + head_out_of(
                    old(self).matmul_key@[h - 1],
                    old(self).matmul_value@[h - 1],
                    old(self).matmul_query@[h - 1],
                    old(self).softmax_exp@,
                    old(self).kcache()[h - 1],
                    old(self).vcache()[h - 1],
                    input@,
                ));
            }
        }
        proof {
            assert(proj_input@ == att_concat_prefix(*old(self), input@, 5));
            assert(self.matmul_proj.in_size() == 240);
        }
        let result = self.matmul_proj.forward(&proj_input);
        proof {
            assert(key_enc_of(old(self).matmul_key@[0], input@).len() == 48);
            assert(self.spec_cache_len() == old(self).spec_cache_len() + 1);
            assert forall|g: int| 0 <= g < 5 implies (#[trigger] self.kcache()[g]).len()
                == self.spec_cache_len() by {}
            assert forall|g: int, i: int|
                0 <= g < 5 && 0 <= i < self.kcache()[g].len() implies (
            #[trigger] self.kcache()[g][i]).len() == 48 by {
                if i < old(self).kcache()[g].len() {
                    assert(old(self).kcache()[g][i].len() == 48);
                }
            }
            assert forall|g: int| 0 <= g < 5 implies (#[trigger] self.vcache()[g]).len()
                == self.spec_cache_len() by {}
            assert forall|g: int, i: int|
                0 <= g < 5 && 0 <= i < self.vcache()[g].len() implies (
            #[trigger] self.vcache()[g][i]).len() == 48 by {
                if i < old(self).vcache()[g].len() {
                    assert(old(self).vcache()[g][i].len() == 48);
                }
            }
        }
        Ok(result)
    }
}

/// The cache length after one undo: one less, floored at zero.
pub open spec fn cut_len(len: int) -> int {
    if len > 0 {
        len - 1
    } else {
        0
    }
}

/// Two attention states with equal weights, table and cache contents
/// compute the same forward result: the result is a function of
/// nothing else.
pub proof fn lemma_att_result_congruence(a1: Attention, a2: Attention, input: Seq<u32>)
    requires
        a2.matmul_key == a1.matmul_key,
        a2.matmul_value == a1.matmul_value,
        a2.matmul_query == a1.matmul_query,
        a2.matmul_proj == a1.matmul_proj,
        a2.softmax_exp == a1.softmax_exp,
        a2.kcache() == a1.kcache(),
        a2.vcache() == a1.vcache(),
    ensures
        a2.att_result(input) == a1.att_result(input),
{
    lemma_concat_prefix_congruence(a1, a2, input, 5);
}

proof fn lemma_concat_prefix_congruence(a1: Attention, a2: Attention, input: Seq<u32>, h: int)
    requires
        a2.matmul_key == a1.matmul_key,
        a2.matmul_value == a1.matmul_value,
        a2.matmul_query == a1.matmul_query,
        a2.matmul_proj == a1.matmul_proj,
        a2.softmax_exp == a1.softmax_exp,
        a2.kcache() == a1.kcache(),
        a2.vcache() == a1.vcache(),
    ensures
        att_concat_prefix(a2, input, h) == att_concat_prefix(a1, input, h),
    decreases h,
{
    if h > 0 {
        lemma_concat_prefix_congruence(a1, a2, input, h - 1);
    }
}

/// A magnitude truncated to its eleven leading significant bits: what
/// one compact-float encode/decode round keeps.
pub open spec fn trunc11(mag: u32) -> int
    recommends
        1 <= mag,
{
    let i = hibit(mag as nat);
    if i <= 10 {
        mag as int
    } else {
        (mag as int / pow2((i - 10) as nat) as int) * pow2((i - 10) as nat) as int
    }
}

/// The compact-float encoding of fixed-point one (`2^18`): exponent
/// field 27, empty mantissa, positive sign.
pub const F16_ONE: u16 = 0x6C00;

/// Compact-float round trip: multiplying an encoded value by the
/// encoding of fixed-point one recovers the value truncated to its
/// eleven leading significant bits, with the sign preserved — exact
/// whenever the magnitude has at most eleven significant bits, and
/// with relative error below `1/1024` otherwise.
#[verifier::rlimit(100)]
pub proof fn lemma_f16_round_trip(v: u32)
    requires
        v < 0x1000000,
        f16_mag(v) >= 1,
    ensures
        float_mult_spec(f16_encode(v, 0), F16_ONE, 0) == if fp_is_neg(v) {
            neg24(trunc11(f16_mag(v)) as u32)
        } else {
            (trunc11(f16_mag(v)) as u32)
        },
        0 < trunc11(f16_mag(v)) <= f16_mag(v),
        1024 * (f16_mag(v) - trunc11(f16_mag(v))) <= f16_mag(v),
{
    lemma2_to64();
    lemma2_to64_rest();
    let mag = f16_mag(v);
    assert(mag < 0x800000);
    let i = hibit(mag as nat) as int;
    lemma_hibit_bounds(mag as nat);
    assert(i <= 22) by {
        if i >= 23 {
            lemma_pow2_le(23, i as nat);
        }
    }
    let e = i + 9;
    let enc = f16_encode(v, 0);
    let mant = ((mag * pow2((24 - i) as nat)) / 0x4000) % 0x400;
    assert(enc == (mant + e * 0x400 + if fp_is_neg(v) {
        0x8000int
    } else {
        0int
    }) as u16);
    assert(0 <= mant < 0x400);
    assert(9 <= e <= 31);
    assert(mant + e * 0x400 <= 0x3FF + 31 * 0x400);

    // the mantissa with its implicit bit is the eleven leading bits
    let w11 = if i <= 10 {
        mag * pow2((10 - i) as nat) as int
    } else {
        mag as int / pow2((i - 10) as nat) as int
    };
    assert(0x400 <= w11 < 0x800) by {
        if i <= 10 {
            lemma_pow2_pos((10 - i) as nat);
            lemma_pow2_adds(i as nat, (10 - i) as nat);
            lemma_pow2_adds((i + 1) as nat, (10 - i) as nat);
            assert(pow2(i as nat) * pow2((10 - i) as nat) == 0x400);
            assert(pow2((i + 1) as nat) * pow2((10 - i) as nat) == 0x800);
            assert(mag * pow2((10 - i) as nat) >= 0x400 && mag * pow2((10 - i) as nat) < 0x800)
                by (nonlinear_arith)
                requires
                    pow2(i as nat) <= mag < pow2((i + 1) as nat),
                    pow2(i as nat) * pow2((10 - i) as nat) == 0x400,
                    pow2((i + 1) as nat) * pow2((10 - i) as nat) == 0x800,
                    pow2((10 - i) as nat) > 0,
            ;
        } else {
            lemma_pow2_pos((i - 10) as nat);
            lemma_pow2_adds(10, (i - 10) as nat);
            lemma_pow2_adds(11, (i - 10) as nat);
            vstd::arithmetic::div_mod::lemma_fundamental_div_mod(
                mag as int,
                pow2((i - 10) as nat) as int,
            );
            assert(w11 >= 0x400 && w11 < 0x800) by (nonlinear_arith)
                requires
                    pow2(i as nat) <= mag < pow2((i + 1) as nat),
                    pow2(i as nat) == 0x400 * pow2((i - 10) as nat),
                    pow2((i + 1) as nat) == 0x800 * pow2((i - 10) as nat),
                    pow2((i - 10) as nat) > 0,
                    mag == pow2((i - 10) as nat) * w11 + mag as int % pow2((i - 10) as nat) as int,
                    0 <= mag as int % pow2((i - 10) as nat) as int,
                    (mag as int % pow2((i - 10) as nat) as int) < pow2((i - 10) as nat) as int,
            ;
        }
    }
    assert(mant == w11 - 0x400) by {
        if i <= 10 {
            lemma_pow2_adds(14, (10 - i) as nat);
            assert(mag * pow2((24 - i) as nat) == 0x4000 * w11) by (nonlinear_arith)
                requires
                    pow2((24 - i) as nat) == 0x4000 * pow2((10 - i) as nat),
                    w11 == mag * pow2((10 - i) as nat),
            ;
            vstd::arithmetic::div_mod::lemma_div_multiples_vanish(w11, 0x4000);
        } else {
            lemma_pow2_pos((24 - i) as nat);
            lemma_pow2_pos((i - 10) as nat);
            lemma_pow2_adds((24 - i) as nat, (i - 10) as nat);
            assert(mag * pow2((24 - i) as nat) == pow2((24 - i) as nat) * mag) by (nonlinear_arith);
            vstd::arithmetic::div_mod::lemma_div_multiples_vanish(
                mag as int,
                pow2((24 - i) as nat) as int,
            );
            vstd::arithmetic::div_mod::lemma_div_denominator(
                mag * pow2((24 - i) as nat),
                pow2((24 - i) as nat) as int,
                pow2((i - 10) as nat) as int,
            );
        }
    }

    // unpack the multiply's view of both operands
    let one = F16_ONE;
    assert(fm_mant(one) == 0x400);
    assert(!(one >= 0x8000));
    assert(fm_neg(enc, one) == fp_is_neg(v));
    assert(fm_strip(enc) == mant + e * 0x400);
    assert(fm_mant(enc) == w11) by {
        assert((mant + e * 0x400) % 0x400 == mant) by (nonlinear_arith)
            requires
                0 <= mant < 0x400,
                0 <= e,
        ;
    }
    assert(fm_offset(enc, one) == e + 27) by {
        assert(enc / 0x400 == (if fp_is_neg(v) {
            32int
        } else {
            0int
        }) + e) by (nonlinear_arith)
            requires
                enc == mant + e * 0x400 + (if fp_is_neg(v) {
                    0x8000int
                } else {
                    0int
                }),
                0 <= mant < 0x400,
                9 <= e <= 31,
        ;
    }

    // the product collapses to the truncated magnitude
    let prod = fm_mant(enc) * fm_mant(one) * pow2((e + 27) as nat) as int;
    let res0 = prod / pow2(56) as int;
    assert(prod == w11 * 0x400 * pow2((e + 27) as nat) as int);
    lemma_pow2_pos((e + 27) as nat);
    if i <= 10 {
        lemma_pow2_adds((10 - i) as nat, 10);
        lemma_pow2_adds((20 - i) as nat, (i + 36) as nat);
        assert(prod == pow2(56) as int * mag) by (nonlinear_arith)
            requires
                prod == w11 * 0x400 * pow2((e + 27) as nat) as int,
                w11 == mag * pow2((10 - i) as nat),
                e == i + 9,
                pow2((10 - i) as nat) * pow2(10) == pow2((20 - i) as nat),
                pow2(10) == 0x400,
                pow2((20 - i) as nat) * pow2((i + 36) as nat) == pow2(56),
        ;
        vstd::arithmetic::div_mod::lemma_div_multiples_vanish(mag as int, pow2(56) as int);
        assert(res0 == mag);
        assert(trunc11(mag) == mag);
    } else {
        let d = pow2((i - 10) as nat) as int;
        lemma_pow2_pos((i - 10) as nat);
        lemma_pow2_adds((i - 10) as nat, 56);
        lemma_pow2_adds(10, (i + 36) as nat);
        assert(prod == pow2(56) as int * (w11 * d)) by (nonlinear_arith)
            requires
                prod == w11 * 0x400 * pow2((e + 27) as nat) as int,
                e == i + 9,
                d == pow2((i - 10) as nat),
                pow2(10) == 0x400,
                pow2(10) * pow2((i + 36) as nat) == pow2((i + 46) as nat),
                pow2((i - 10) as nat) * pow2(56) == pow2((i + 46) as nat),
        ;
        vstd::arithmetic::div_mod::lemma_div_multiples_vanish(w11 * d, pow2(56) as int);
        assert(res0 == w11 * d);
        assert(trunc11(mag) == w11 * d);
        // the truncation keeps at most the eleven leading bits
        vstd::arithmetic::div_mod::lemma_fundamental_div_mod(mag as int, d);
        assert(w11 * d == d * w11) by (nonlinear_arith);
        assert(0 < w11 * d) by (nonlinear_arith)
            requires
                w11 >= 0x400,
                d > 0,
        ;
        lemma_pow2_adds(10, (i - 10) as nat);
        assert(1024 * (mag - w11 * d) <= mag) by (nonlinear_arith)
            requires
                mag == d * w11 + mag as int % d,
                0 <= mag as int % d < d,
                1024 * d == pow2(i as nat),
                pow2(i as nat) <= mag,
                w11 * d == d * w11,
        ;
    }
    assert(0 < trunc11(mag) <= mag);
    assert(res0 < 0x1000000);
    assert(res0 % 0x1000000 == res0);
    assert(float_mult_spec(enc, F16_ONE, 0) == if fp_is_neg(v) {
        neg24(res0 as u32)
    } else {
        (res0 as u32)
    });
}

} // verus!
