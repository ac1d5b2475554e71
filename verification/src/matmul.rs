//! The 8-bit logarithmic weight codec and the quantized dense-layer
//! kernel built on it.
//!
//! A weight byte decodes to a sign, a shift bucket and two small
//! coefficients; the represented magnitude is
//! `big * 2^-shift + small * 2^-(shift+3)`.  The kernel reconstructs
//! every contribution by shift-and-add in 24-bit wraparound
//! arithmetic, with an optional integer rectifier on each output row.
use vstd::prelude::*;

verus! {

use vstd::arithmetic::power2::{pow2, lemma_pow2_pos, lemma2_to64};
use crate::fixed::{add24, exec_add24, exec_neg24, neg24};
use crate::fp_seq;

/// One decoded quantized weight.
#[derive(Clone, Copy, Debug, PartialEq, Eq, Structural)]
pub struct Weight {
    pub neg: bool,
    pub shift: u32,
    pub big: u32,
    pub small: u32,
}

/// Ranges every decoded weight satisfies: the shift is one of the five
/// bucket exponents and both coefficients fit in three to four bits.
pub open spec fn weight_wf(w: Weight) -> bool {
    &&& (w.shift == 8 || w.shift == 7 || w.shift == 5 || w.shift == 3 || w.shift == 2)
    &&& w.big <= 7
    &&& w.small <= 7
}

/// What the weight codec yields for each of the 256 byte values: a
/// total, deterministic bucket decode.
pub open spec fn decode_spec(b: u8) -> Weight {
    let neg = b >= 128;
    let w = (b % 128) as int;
    if w < 64 {
        Weight { neg, shift: 8, big: (w / 8) as u32, small: (w % 8) as u32 }
    } else if w < 96 {
        Weight { neg, shift: 7, big: (4 + (w - 64) / 8) as u32, small: ((w - 64) % 8) as u32 }
    } else if w < 112 {
        Weight { neg, shift: 5, big: (2 + (w - 96) / 8) as u32, small: ((w - 96) % 8) as u32 }
    } else if w < 120 {
        Weight { neg, shift: 3, big: (1 + (w - 112) / 8) as u32, small: ((w - 112) % 8) as u32 }
    } else {
        Weight { neg, shift: 2, big: (1 + (w - 120) / 8) as u32, small: ((w - 120) % 8) as u32 }
    }
}

/// Decode one weight byte into its sign, shift and coefficients.
pub fn decode_weight(b: u8) -> (r: Weight)
    ensures
        r == decode_spec(b),
        weight_wf(r),
{
    let neg = b >= 128;
    let w = (b % 128) as u32;
    if w < 64 {
        Weight { neg, shift: 8, big: w / 8, small: w % 8 }
    } else if w < 96 {
        let w = w - 64;
        Weight { neg, shift: 7, big: 4 + w / 8, small: w % 8 }
    } else if w < 112 {
        let w = w - 96;
        Weight { neg, shift: 5, big: 2 + w / 8, small: w % 8 }
    } else if w < 120 {
        let w = w - 112;
        Weight { neg, shift: 3, big: 1 + w / 8, small: w % 8 }
    } else {
        let w = w - 120;
        Weight { neg, shift: 2, big: 1 + w / 8, small: w % 8 }
    }
}

/// Sign-preserving extension of a masked 24-bit input into the four
/// extra precision bits the kernel accumulates with.
pub open spec fn normed_spec(x: u32) -> u32
    recommends
        x < 0x1000000,
{
    if x > 0x7FFFFF {
        (x + 0xF000000) as u32
    } else {
        x
    }
}

pub open spec fn normed_seq(input: Seq<u32>) -> Seq<u32> {
    Seq::new(input.len(), |i: int| normed_spec(input[i]))
}

/// Contribution of one input channel through one decoded weight:
/// both coefficients scale the extended input, are shifted down by the
/// bucket exponent (the small one three bits further), and the sum is
/// wrapped to 24 bits and negated when the sign bit was set.
pub open spec fn term_spec(w: Weight, nx: u32) -> u32
    recommends
        weight_wf(w),
        nx < 0x10000000,
{
    let big0 = (nx * w.big) % 0x10000000;
    let big1: int = if big0 > 0x7FFFFFF {
        big0 + 0xFF0000000
    } else {
        big0
    };
    let small0 = (nx * w.small) % 0x10000000;
    let small1: int = if small0 > 0x7FFFFFF {
        small0 + 0xFF0000000
    } else {
        small0
    };
    let cont = ((big1 / pow2(w.shift as nat) as int + small1 / pow2((w.shift + 3) as nat) as int)
        % 0x1000000) as u32;
    if w.neg {
        neg24(cont)
    } else {
        cont
    }
}

fn weight_term(w: &Weight, nx: u32) -> (r: u32)
    requires
        weight_wf(*w),
        nx < 0x10000000,
    ensures
        r == term_spec(*w, nx),
        r < 0x1000000,
{
    proof {
        lemma2_to64();
        lemma_pow2_pos(w.shift as nat);
        lemma_pow2_pos((w.shift + 3) as nat);
        assert(nx * w.big <= 0x10000000 * 7 && nx * w.small <= 0x10000000 * 7)
            by (nonlinear_arith)
            requires
                nx < 0x10000000,
                w.big <= 7,
                w.small <= 7,
        ;
    }
    let big0: u64 = (nx as u64 * w.big as u64) % 0x10000000;
    let big1: u64 = if big0 > 0x7FFFFFF {
        big0 + 0xFF0000000
    } else {
        big0
    };
    let small0: u64 = (nx as u64 * w.small as u64) % 0x10000000;
    let small1: u64 = if small0 > 0x7FFFFFF {
        small0 + 0xFF0000000
    } else {
        small0
    };
    let div_big = crate::fixed::pow2_u64(w.shift as u64);
    let div_small = crate::fixed::pow2_u64((w.shift + 3) as u64);
    let cont: u32 = (((big1 / div_big) + (small1 / div_small)) % 0x1000000) as u32;
    if w.neg {
        crate::fixed::exec_neg24(cont)
    } else {
        cont
    }
}

/// Wrapped accumulation of the first `n` contributions of one output row.
pub open spec fn dot_row(row: Seq<Weight>, normed: Seq<u32>, n: int) -> u32
    recommends
        n <= row.len(),
        n <= normed.len(),
    decreases n,
{
    if n <= 0 {
        0u32
    } else {
        add24(dot_row(row, normed, n - 1), term_spec(row[n - 1], normed[n - 1]))
    }
}

/// Integer rectifier: a negative 24-bit value becomes zero.
pub open spec fn relu24(v: u32) -> u32 {
    if v > 0x7FFFFF {
        0u32
    } else {
        v
    }
}

pub open spec fn row_out(row: Seq<Weight>, normed: Seq<u32>, relu: bool) -> u32 {
    if relu {
        relu24(dot_row(row, normed, row.len() as int))
    } else {
        dot_row(row, normed, row.len() as int)
    }
}

/// The whole kernel: one wrapped dot product per output row over the
/// sign-extended input, rectified when asked.
pub open spec fn matmul_rows(grid: Seq<Seq<Weight>>, input: Seq<u32>, relu: bool) -> Seq<u32> {
    Seq::new(grid.len(), |i: int| row_out(grid[i], normed_seq(input), relu))
}

pub open spec fn decode_grid(bytes: Seq<Seq<u8>>) -> Seq<Seq<Weight>> {
    Seq::new(bytes.len(), |i: int| Seq::new(bytes[i].len(), |j: int| decode_spec(bytes[i][j])))
}

/// A dense layer: the fully decoded weight grid plus the rectifier flag.
pub struct MatMul {
    pub weights: Vec<Vec<Weight>>,
    pub relu: bool,
}

impl MatMul {
    pub open spec fn grid(&self) -> Seq<Seq<Weight>> {
        Seq::new(self.weights@.len(), |i: int| self.weights@[i]@)
    }

    pub open spec fn out_size(&self) -> int {
        self.weights@.len() as int
    }

    pub open spec fn in_size(&self) -> int {
        if self.weights@.len() == 0 {
            0
        } else {
            self.weights@[0]@.len() as int
        }
    }

    /// Well-formed layer: a rectangular grid of in-range weights.
    pub open spec fn wf(&self) -> bool {
        forall|i: int|
            0 <= i < self.grid().len() ==> {
                &&& (#[trigger] self.grid()[i]).len() == self.in_size()
                &&& forall|j: int| 0 <= j < self.grid()[i].len() ==> weight_wf(
                    #[trigger] self.grid()[i][j],
                )
            }
    }

    /// Decode a full byte grid into a layer.
    pub fn new(weights: &Vec<Vec<u8>>, relu: bool) -> (r: MatMul)
        requires
            forall|i: int|
                0 <= i < weights@.len() ==> (#[trigger] weights@[i]@).len() == weights@[0]@.len(),
        ensures
            r.wf(),
            r.relu == relu,
            r.grid() == decode_grid(Seq::new(weights@.len(), |i: int| weights@[i]@)),
            r.out_size() == weights@.len(),
            r.in_size() == if weights@.len() == 0 { 0int } else { weights@[0]@.len() as int },
    {
        let ghost byte_grid = Seq::new(weights@.len(), |i: int| weights@[i]@);
        let mut parsed: Vec<Vec<Weight>> = Vec::new();
        let n = weights.len();
        let mut i: usize = 0;
        while i < n
            invariant
                n == weights@.len(),
                byte_grid == Seq::new(weights@.len(), |k: int| weights@[k]@),
                forall|k: int|
                    0 <= k < weights@.len() ==> (#[trigger] weights@[k]@).len()
                        == weights@[0]@.len(),
                i <= n,
                parsed@.len() == i,
                forall|k: int|
                    0 <= k < i ==> (#[trigger] parsed@[k]@) == Seq::new(
                        weights@[k]@.len(),
                        |j: int| decode_spec(weights@[k]@[j]),
                    ),
            decreases n - i,
        {
            let row = &weights[i];
            let m = row.len();
            let mut prow: Vec<Weight> = Vec::new();
            let mut j: usize = 0;
            while j < m
                invariant
                    m == row@.len(),
                    j <= m,
                    prow@.len() == j,
                    forall|l: int| 0 <= l < j ==> (#[trigger] prow@[l]) == decode_spec(row@[l]),
                decreases m - j,
            {
                prow.push(decode_weight(row[j]));
                j += 1;
            }
            proof {
                assert(prow@ =~= Seq::new(weights@[i as int]@.len(), |l: int| decode_spec(
                    weights@[i as int]@[l],
                )));
            }
            parsed.push(prow);
            i += 1;
        }
        let r = MatMul { weights: parsed, relu };
        proof {
            assert(r.grid() =~= decode_grid(byte_grid)) by {
                assert forall|k: int| 0 <= k < r.grid().len() implies r.grid()[k]
                    == decode_grid(byte_grid)[k] by {
                    assert(r.grid()[k] =~= decode_grid(byte_grid)[k]);
                }
            }
        }
        r
    }

    /// One forward pass: a pure function of the input vector and the
    /// immutable decoded grid.
    pub fn forward(&self, input: &Vec<u32>) -> (r: Vec<u32>)
        requires
            self.wf(),
            input@.len() == self.in_size(),
            fp_seq(input@),
        ensures
            r@ == matmul_rows(self.grid(), input@, self.relu),
            r@.len() == self.out_size(),
            fp_seq(r@),
    {
        let in_n = input.len();
        let mut normed: Vec<u32> = Vec::new();
        let mut i: usize = 0;
        while i < in_n
            invariant
                in_n == input@.len(),
                fp_seq(input@),
                i <= in_n,
                normed@.len() == i,
                forall|k: int| 0 <= k < i ==> (#[trigger] normed@[k]) == normed_spec(input@[k]),
                forall|k: int| 0 <= k < i ==> (#[trigger] normed@[k]) < 0x10000000,
            decreases in_n - i,
        {
            let x = input[i];
            let nx = if x > 0x7FFFFF {
                x + 0xF000000
            } else {
                x
            };
            normed.push(nx);
            i += 1;
        }
        proof {
            assert(normed@ =~= normed_seq(input@));
        }

        let out_n = self.weights.len();
        let mut output: Vec<u32> = Vec::new();
        let mut i: usize = 0;
        while i < out_n
            invariant
                out_n == self.grid().len(),
                self.wf(),
                normed@ == normed_seq(input@),
                input@.len() == self.in_size(),
                normed@.len() == input@.len(),
                forall|k: int| 0 <= k < normed@.len() ==> (#[trigger] normed@[k]) < 0x10000000,
                i <= out_n,
                output@.len() == i,
                forall|k: int|
                    0 <= k < i ==> (#[trigger] output@[k]) == row_out(
                        self.grid()[k],
                        normed@,
                        self.relu,
                    ),
                forall|k: int| 0 <= k < i ==> (#[trigger] output@[k]) < 0x1000000,
            decreases out_n - i,
        {
            let row = &self.weights[i];
            let m = row.len();
            assert(row@ == self.grid()[i as int]);
            let mut cur: u32 = 0;
            let mut j: usize = 0;
            while j < m
                invariant
                    m == row@.len(),
                    m == normed@.len(),
                    forall|k: int| 0 <= k < row@.len() ==> weight_wf(#[trigger] row@[k]),
                    forall|k: int| 0 <= k < normed@.len() ==> (#[trigger] normed@[k]) < 0x10000000,
                    j <= m,
                    cur == dot_row(row@, normed@, j as int),
                    cur < 0x1000000,
                decreases m - j,
            {
                let c = weight_term(&row[j], normed[j]);
                cur = exec_add24(cur, c);
                j += 1;
            }
            let out_v = if self.relu && cur > 0x7FFFFF {
                0
            } else {
                cur
            };
            assert(out_v == row_out(self.grid()[i as int], normed@, self.relu));
            output.push(out_v);
            i += 1;
        }
        proof {
            assert(output@ =~= matmul_rows(self.grid(), input@, self.relu));
        }
        output
    }
}

/// The magnitude a decoded weight represents, scaled by `2^11` to an
/// integer: `8 * big + small` at the bucket's own scale `2^(8-shift)`.
pub open spec fn weight_magnitude_scaled(w: Weight) -> int
    recommends
        weight_wf(w),
{
    (8 * w.big + w.small) * pow2((8 - w.shift) as nat)
}

/// The weight codec is total and deterministic (it is a function of
/// the byte alone), and the represented magnitude is monotonic
/// non-decreasing in the byte's 7-bit magnitude code — within each of
/// the five buckets and across their boundaries alike.
pub proof fn lemma_decode_monotone(b1: u8, b2: u8)
    requires
        b1 % 128 <= b2 % 128,
    ensures
        weight_magnitude_scaled(decode_spec(b1)) <= weight_magnitude_scaled(decode_spec(b2)),
{
    lemma_magnitude_closed_form(b1);
    lemma_magnitude_closed_form(b2);
}

/// The scaled magnitude as a closed piecewise-linear function of the
/// byte's magnitude code.
pub open spec fn magnitude_closed(w: int) -> int {
    if w < 64 {
        w
    } else if w < 96 {
        2 * (w - 32)
    } else if w < 112 {
        8 * (w - 80)
    } else if w < 120 {
        32 * (w - 104)
    } else {
        64 * (w - 112)
    }
}

proof fn lemma_mul_pow2_val(x: int, e: nat, c: int)
    requires
        pow2(e) == c,
    ensures
        x * pow2(e) == x * c,
{
    assert(x * pow2(e) == x * c) by (nonlinear_arith)
        requires
            pow2(e) == c,
    ;
}

pub proof fn lemma_magnitude_closed_form(b: u8)
    ensures
        weight_magnitude_scaled(decode_spec(b)) == magnitude_closed((b % 128) as int),
{
    lemma2_to64();
    let w = (b % 128) as int;
    let d = decode_spec(b);
    let x = 8 * (d.big as int) + (d.small as int);
    if w < 64 {
        vstd::arithmetic::div_mod::lemma_fundamental_div_mod(w, 8);
        lemma_mul_pow2_val(x, 0, 1);
    } else if w < 96 {
        vstd::arithmetic::div_mod::lemma_fundamental_div_mod(w - 64, 8);
        lemma_mul_pow2_val(x, 1, 2);
    } else if w < 112 {
        vstd::arithmetic::div_mod::lemma_fundamental_div_mod(w - 96, 8);
        lemma_mul_pow2_val(x, 3, 8);
    } else if w < 120 {
        vstd::arithmetic::div_mod::lemma_fundamental_div_mod(w - 112, 8);
        lemma_mul_pow2_val(x, 5, 32);
    } else {
        vstd::arithmetic::div_mod::lemma_fundamental_div_mod(w - 120, 8);
        lemma_mul_pow2_val(x, 6, 64);
    }
}

/// Every term of the zero vector is zero, so forward of the zero
/// vector is the zero vector (with or without the rectifier).
pub proof fn lemma_matmul_zero(grid: Seq<Seq<Weight>>, input: Seq<u32>, relu: bool)
    requires
        forall|i: int|
            0 <= i < grid.len() ==> forall|j: int|
                0 <= j < (#[trigger] grid[i]).len() ==> weight_wf(#[trigger] grid[i][j]),
        forall|i: int| 0 <= i < input.len() ==> (#[trigger] input[i]) == 0,
        forall|i: int| 0 <= i < grid.len() ==> (#[trigger] grid[i]).len() == input.len(),
    ensures
        forall|i: int| 0 <= i < grid.len() ==> (#[trigger] matmul_rows(grid, input, relu)[i]) == 0,
{
    assert forall|i: int| 0 <= i < grid.len() implies (#[trigger] matmul_rows(grid, input, relu)[i])
        == 0 by {
        lemma_dot_row_zero(grid[i], normed_seq(input), grid[i].len() as int);
    }
}

pub proof fn lemma_term_zero(w: Weight)
    requires
        weight_wf(w),
    ensures
        term_spec(w, 0) == 0,
{
    lemma_pow2_pos(w.shift as nat);
    lemma_pow2_pos((w.shift + 3) as nat);
}

pub proof fn lemma_dot_row_zero(row: Seq<Weight>, normed: Seq<u32>, n: int)
    requires
        n <= row.len(),
        n <= normed.len(),
        forall|j: int| 0 <= j < row.len() ==> weight_wf(#[trigger] row[j]),
        forall|j: int| 0 <= j < normed.len() ==> (#[trigger] normed[j]) == 0,
    ensures
        dot_row(row, normed, n) == 0,
    decreases n,
{
    if n > 0 {
        lemma_dot_row_zero(row, normed, n - 1);
        lemma_term_zero(row[n - 1]);
    }
}

/// One term distributes over the sum of two non-negative inputs that
/// are multiples of `2^11` (so no bucket shift truncates) and whose
/// sum stays below the sign bit.
#[verifier::rlimit(60)]
pub proof fn lemma_term_additive(w: Weight, a: u32, b: u32)
    requires
        weight_wf(w),
        a % 0x800 == 0,
        b % 0x800 == 0,
        a + b <= 0x7FFFFF,
    ensures
        term_spec(w, (a + b) as u32) == add24(term_spec(w, a), term_spec(w, b)),
{
    lemma2_to64();
    lemma_pow2_pos(w.shift as nat);
    lemma_pow2_pos((w.shift + 3) as nat);
    let pb = pow2(w.shift as nat) as int;
    let ps = pow2((w.shift + 3) as nat) as int;
    assert(a * w.big < 0x8000000 && b * w.big < 0x8000000 && (a + b) * w.big < 0x8000000 && a
        * w.small < 0x8000000 && b * w.small < 0x8000000 && (a + b) * w.small < 0x8000000)
        by (nonlinear_arith)
        requires
            a + b <= 0x7FFFFF,
            w.big <= 7,
            w.small <= 7,
    ;
    let ta = a * w.big / pb + a * w.small / ps;
    let tb = b * w.big / pb + b * w.small / ps;
    let ts = (a + b) * w.big / pb + (a + b) * w.small / ps;
    lemma_exact_div_sum(a as int, b as int, w.big as int, w.shift as nat);
    lemma_exact_div_sum(a as int, b as int, w.small as int, (w.shift + 3) as nat);
    assert(ts == ta + tb);
    vstd::arithmetic::div_mod::lemma_div_pos_is_pos(a * w.big, pb);
    vstd::arithmetic::div_mod::lemma_div_pos_is_pos(a * w.small, ps);
    vstd::arithmetic::div_mod::lemma_div_pos_is_pos(b * w.big, pb);
    vstd::arithmetic::div_mod::lemma_div_pos_is_pos(b * w.small, ps);
    let m = 0x1000000int;
    let u = ta % m;
    let v = tb % m;
    assert(term_spec(w, a) == if w.neg {
        neg24(u as u32)
    } else {
        u as u32
    });
    assert(term_spec(w, b) == if w.neg {
        neg24(v as u32)
    } else {
        v as u32
    });
    assert(term_spec(w, (a + b) as u32) == if w.neg {
        neg24((ts % m) as u32)
    } else {
        (ts % m) as u32
    });
    vstd::arithmetic::div_mod::lemma_mod_adds(ta, tb, m);
    if w.neg {
        vstd::arithmetic::div_mod::lemma_mod_adds(0x2000000 - u, 0x2000000 - v, m);
        vstd::arithmetic::div_mod::lemma_mod_multiples_vanish(2, 0x2000000 - u - v, m);
        vstd::arithmetic::div_mod::lemma_mod_multiples_vanish(
            -((ta + tb) / m),
            0x2000000 - ta - tb,
            m,
        );
        vstd::arithmetic::div_mod::lemma_fundamental_div_mod(ta + tb, m);
        vstd::arithmetic::div_mod::lemma_mod_multiples_vanish(-(ta / m), 0x2000000 - ta, m);
        vstd::arithmetic::div_mod::lemma_fundamental_div_mod(ta, m);
        vstd::arithmetic::div_mod::lemma_mod_multiples_vanish(-(tb / m), 0x2000000 - tb, m);
        vstd::arithmetic::div_mod::lemma_fundamental_div_mod(tb, m);
        vstd::arithmetic::div_mod::lemma_mod_adds(0x2000000 - ta, 0x2000000 - tb, m);
        vstd::arithmetic::div_mod::lemma_mod_multiples_vanish(2, 0x2000000 - ta - tb, m);
    }
}

/// For `x` a multiple of `2^11` and `e <= 11`, the shifted terms of a
/// sum split exactly.
proof fn lemma_exact_div_sum(a: int, b: int, c: int, e: nat)
    requires
        a % 0x800 == 0,
        b % 0x800 == 0,
        0 <= a,
        0 <= b,
        0 <= c,
        e <= 11,
    ensures
        (a + b) * c / pow2(e) as int == a * c / pow2(e) as int + b * c / pow2(e) as int,
{
    lemma2_to64();
    lemma_pow2_pos(e);
    vstd::arithmetic::power2::lemma_pow2_adds(e, (11 - e) as nat);
    let p = pow2(e) as int;
    let q = pow2((11 - e) as nat) as int;
    let ka = a / 0x800;
    let kb = b / 0x800;
    assert(a == 0x800 * ka && b == 0x800 * kb);
    assert(a * c == p * (q * ka * c) && b * c == p * (q * kb * c) && (a + b) * c == p * (q * ka * c
        + q * kb * c)) by (nonlinear_arith)
        requires
            a == 0x800 * ka,
            b == 0x800 * kb,
            0x800 == p * q,
    ;
    vstd::arithmetic::div_mod::lemma_div_multiples_vanish(q * ka * c, p);
    vstd::arithmetic::div_mod::lemma_div_multiples_vanish(q * kb * c, p);
    vstd::arithmetic::div_mod::lemma_div_multiples_vanish(q * ka * c + q * kb * c, p);
}

/// Additivity under quantization: without the rectifier, for inputs
/// that are non-negative multiples of `2^11` whose channel-wise sums
/// stay below the sign bit, forward distributes over addition (the
/// outputs combining with 24-bit wraparound).  On other inputs the
/// bucket shifts may truncate differently and the identity can fail.
/// The channel-wise (unwrapped) sum of two vectors.
pub open spec fn sum_vec(x: Seq<u32>, y: Seq<u32>) -> Seq<u32>
    recommends
        x.len() == y.len(),
        forall|j: int| 0 <= j < x.len() ==> x[j] + (#[trigger] y[j]) < 0x100000000,
{
    Seq::new(x.len(), |j: int| (x[j] + y[j]) as u32)
}

pub proof fn lemma_matmul_additive(grid: Seq<Seq<Weight>>, x: Seq<u32>, y: Seq<u32>)
    requires
        forall|i: int|
            0 <= i < grid.len() ==> forall|j: int|
                0 <= j < (#[trigger] grid[i]).len() ==> weight_wf(#[trigger] grid[i][j]),
        x.len() == y.len(),
        forall|i: int| 0 <= i < grid.len() ==> (#[trigger] grid[i]).len() == x.len(),
        forall|j: int| 0 <= j < x.len() ==> (#[trigger] x[j]) % 0x800 == 0,
        forall|j: int| 0 <= j < y.len() ==> (#[trigger] y[j]) % 0x800 == 0,
        forall|j: int| 0 <= j < x.len() ==> x[j] + (#[trigger] y[j]) <= 0x7FFFFF,
    ensures
        forall|i: int|
            0 <= i < grid.len() ==> (#[trigger] matmul_rows(grid, sum_vec(x, y), false)[i])
                == add24(matmul_rows(grid, x, false)[i], matmul_rows(grid, y, false)[i]),
{
    let s = sum_vec(x, y);
    assert forall|i: int| 0 <= i < grid.len() implies (#[trigger] matmul_rows(grid, s, false)[i])
        == add24(matmul_rows(grid, x, false)[i], matmul_rows(grid, y, false)[i]) by {
        lemma_dot_row_additive(grid[i], x, y, grid[i].len() as int);
    }
}

proof fn lemma_dot_row_additive(row: Seq<Weight>, x: Seq<u32>, y: Seq<u32>, n: int)
    requires
        forall|j: int| 0 <= j < row.len() ==> weight_wf(#[trigger] row[j]),
        x.len() == y.len(),
        n <= row.len(),
        n <= x.len(),
        forall|j: int| 0 <= j < x.len() ==> (#[trigger] x[j]) % 0x800 == 0,
        forall|j: int| 0 <= j < y.len() ==> (#[trigger] y[j]) % 0x800 == 0,
        forall|j: int| 0 <= j < x.len() ==> x[j] + (#[trigger] y[j]) <= 0x7FFFFF,
    ensures
        dot_row(row, normed_seq(sum_vec(x, y)), n) == add24(
            dot_row(row, normed_seq(x), n),
            dot_row(row, normed_seq(y), n),
        ),
    decreases n,
{
    let s = sum_vec(x, y);
    if n > 0 {
        lemma_dot_row_additive(row, x, y, n - 1);
        lemma_term_additive(row[n - 1], x[n - 1], y[n - 1]);
        assert(normed_seq(s)[n - 1] == s[n - 1]);
        assert(normed_seq(x)[n - 1] == x[n - 1]);
        assert(normed_seq(y)[n - 1] == y[n - 1]);
        let da = dot_row(row, normed_seq(x), n - 1) as int;
        let db = dot_row(row, normed_seq(y), n - 1) as int;
        let ca = term_spec(row[n - 1], x[n - 1]) as int;
        let cb = term_spec(row[n - 1], y[n - 1]) as int;
        vstd::arithmetic::div_mod::lemma_mod_adds(da + ca, db + cb, 0x1000000);
        vstd::arithmetic::div_mod::lemma_mod_adds(da, db, 0x1000000);
        vstd::arithmetic::div_mod::lemma_mod_adds((da + db) % 0x1000000, ca + cb, 0x1000000);
        vstd::arithmetic::div_mod::lemma_mod_adds(ca, cb, 0x1000000);
        vstd::arithmetic::div_mod::lemma_mod_adds(da + db, ca + cb, 0x1000000);
    }
}

} // verus!
