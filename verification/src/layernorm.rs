//! Per-vector normalization in fixed point: a wrapped mean, a 48-bit
//! wrapped variance with a fixed epsilon, one integer square root, and
//! a scaled-reciprocal standard deviation applied channel by channel.
use vstd::prelude::*;

verus! {

use crate::fixed::{exec_neg24, neg24};
use crate::fp_seq;

/// `floor(2^32 / EMBED_SIZE)`: the fixed reciprocal used for the mean.
pub const LAYERNORM_CONST: u64 = 0x100000000u64 / 240;

/// About `2^27 / sqrt(EMBED_SIZE)`: rescales the root of the variance.
pub const LAYERNORM_CONST_2: u64 = 8663717;

/// `1e-5 * EMBED_SIZE * 2^36`, the variance epsilon.
pub const EPS: u64 = 164926744;

/// Floor of the square root, the one non-bit-exact-looking operation
/// of the engine; on the 48-bit variance it is exactly the value the
/// real-valued square root truncates to.
pub open spec fn isqrt_spec(x: nat) -> nat
    decreases x,
{
    if x == 0 {
        0
    } else {
        let p = isqrt_spec((x - 1) as nat);
        if (p + 1) * (p + 1) <= x {
            p + 1
        } else {
            p
        }
    }
}

pub proof fn lemma_isqrt_bounds(x: nat)
    ensures
        isqrt_spec(x) * isqrt_spec(x) <= x,
        x < (isqrt_spec(x) + 1) * (isqrt_spec(x) + 1),
    decreases x,
{
    if x > 0 {
        lemma_isqrt_bounds((x - 1) as nat);
        let p = isqrt_spec((x - 1) as nat);
        assert(p * p <= x - 1);
        assert(x - 1 < (p + 1) * (p + 1));
        if (p + 1) * (p + 1) <= x {
            assert(isqrt_spec(x) == p + 1);
            assert(x <= (p + 1) * (p + 1));
            assert((p + 1) * (p + 1) < (p + 2) * (p + 2)) by (nonlinear_arith);
            assert(isqrt_spec(x) * isqrt_spec(x) <= x);
            assert(x < (isqrt_spec(x) + 1) * (isqrt_spec(x) + 1));
        } else {
            assert(isqrt_spec(x) == p);
            assert(isqrt_spec(x) * isqrt_spec(x) <= x);
            assert(x < (isqrt_spec(x) + 1) * (isqrt_spec(x) + 1));
        }
    } else {
        assert(x == 0);
        assert(isqrt_spec(0) == 0);
        assert(isqrt_spec(x) * isqrt_spec(x) == 0) by (nonlinear_arith)
            requires
                isqrt_spec(x) == 0,
        ;
        assert((isqrt_spec(x) + 1) * (isqrt_spec(x) + 1) == 1) by (nonlinear_arith)
            requires
                isqrt_spec(x) == 0,
        ;
    }
}

pub proof fn lemma_isqrt_unique(x: nat, r: nat)
    requires
        r * r <= x,
        x < (r + 1) * (r + 1),
    ensures
        r == isqrt_spec(x),
{
    lemma_isqrt_bounds(x);
    let s = isqrt_spec(x);
    if r < s {
        assert((r + 1) * (r + 1) <= s * s) by (nonlinear_arith)
            requires
                r + 1 <= s,
        ;
    }
    if r > s {
        assert((s + 1) * (s + 1) <= r * r) by (nonlinear_arith)
            requires
                s + 1 <= r,
        ;
    }
}

/// Binary-search floor square root of a value below `2^48`.
pub fn isqrt(x: u64) -> (r: u64)
    requires
        x < 0x1000000000000,
    ensures
        r == isqrt_spec(x as nat),
        r < 0x1000000,
{
    let mut lo: u64 = 0;
    let mut hi: u64 = 0x1000000;
    while hi - lo > 1
        invariant
            lo < hi <= 0x1000000,
            lo * lo <= x,
            x < hi * hi,
        decreases hi - lo,
    {
        let mid = lo + (hi - lo) / 2;
        proof {
            assert(mid * mid <= 0x1000000000000) by (nonlinear_arith)
                requires
                    mid <= 0x1000000,
            ;
        }
        if mid * mid <= x {
            lo = mid;
        } else {
            hi = mid;
        }
    }
    proof {
        lemma_isqrt_unique(x as nat, lo as nat);
    }
    lo
}

/// What the mean step computes: the wrapped 32-bit sum of
/// sign-extended inputs scaled by the fixed reciprocal, with the sign
/// restored.
pub open spec fn ln_adjusted(v: u32) -> int
    recommends
        v < 0x1000000,
{
    if v > 0x7FFFFF {
        v + 0xFF000000
    } else {
        v as int
    }
}

pub open spec fn ln_sum(input: Seq<u32>, n: int) -> int
    recommends
        n <= input.len(),
    decreases n,
{
    if n <= 0 {
        0
    } else {
        (ln_sum(input, n - 1) + ln_adjusted(input[n - 1])) % 0x100000000
    }
}

pub open spec fn mean_spec(input: Seq<u32>) -> u32 {
    let s = ln_sum(input, input.len() as int);
    let neg = s >= 0x80000000;
    let m = if neg {
        (0x100000000 - s) % 0x80000000
    } else {
        s
    };
    let scaled = ((m * LAYERNORM_CONST) / 0x100000000) as u32;
    if neg {
        neg24(scaled)
    } else {
        scaled
    }
}

/// The centered input of one channel, wrapped to 24 bits.
pub open spec fn ln_diff(v: u32, mean: u32) -> u32
    recommends
        v < 0x1000000,
        mean < 0x1000000,
{
    ((v + 0x1000000 - mean) % 0x1000000) as u32
}

/// Magnitude of a centered value as the variance step takes it (strict
/// sign test).
pub open spec fn ln_dev(d: u32) -> int
    recommends
        d < 0x1000000,
{
    if d > 0x7FFFFF {
        (0x1000000 - d) % 0x800000
    } else {
        d as int
    }
}

/// The 48-bit wrapped variance: epsilon plus the squared deviations.
pub open spec fn sigma2_spec(input: Seq<u32>, mean: u32, n: int) -> int
    recommends
        n <= input.len(),
    decreases n,
{
    if n <= 0 {
        EPS as int
    } else {
        let d = ln_dev(ln_diff(input[n - 1], mean));
        (sigma2_spec(input, mean, n - 1) + d * d) % 0x1000000000000
    }
}

/// The fixed-point inverse standard deviation: the root of the
/// variance rescaled, then a scaled reciprocal.  A rescaled root of
/// zero has no reciprocal, so it maps to zero: a wrapped-away variance
/// is a degenerate input, not a fault.
pub open spec fn inv_std_spec(sigma2: int) -> u32
    recommends
        0 <= sigma2 < 0x1000000000000,
{
    let root = isqrt_spec(sigma2 as nat);
    let d1 = ((LAYERNORM_CONST_2 * root) / 0x8000000) % 0x1000000;
    if d1 == 0 {
        0u32
    } else {
        ((0x1000000000int / d1) % 0x1000000) as u32
    }
}

/// One output channel: the centered magnitude scaled by the inverse
/// standard deviation and the channel weight, sign restored.  The
/// output path tests the sign non-strictly, unlike the variance path:
/// the two paths treat the value `2^23 - 1` differently on purpose.
pub open spec fn ln_out(v: u32, mean: u32, inv_std: u32, w: u32) -> u32
    recommends
        v < 0x1000000,
        mean < 0x1000000,
{
    let d = ln_diff(v, mean);
    let neg = d >= 0x7FFFFF;
    let m = if neg {
        (0x1000000 - d) % 0x800000
    } else {
        d as int
    };
    let r1 = ((m * inv_std) / 0x40000) % 0x800000;
    let r2 = ((r1 * w) / 0x200000) % 0x800000;
    if neg {
        neg24(r2 as u32)
    } else {
        r2 as u32
    }
}

pub open spec fn ln_forward_spec(input: Seq<u32>, weights: Seq<u32>) -> Seq<u32> {
    let mean = mean_spec(input);
    let inv_std = inv_std_spec(sigma2_spec(input, mean, input.len() as int));
    Seq::new(input.len(), |i: int| ln_out(input[i], mean, inv_std, weights[i]))
}

/// One normalization layer: a halved 24-bit weight per channel.
pub struct LayerNorm {
    pub weights: Vec<u32>,
}

impl LayerNorm {
    pub open spec fn wf(&self) -> bool {
        &&& self.weights@.len() == 240
        &&& forall|i: int| 0 <= i < 240 ==> (#[trigger] self.weights@[i]) < 0x800000
    }

    /// Take the raw 24-bit channel weights, halved at load time.
    pub fn new(raw: &Vec<u32>) -> (r: LayerNorm)
        requires
            raw@.len() == 240,
            forall|i: int| 0 <= i < 240 ==> (#[trigger] raw@[i]) < 0x1000000,
        ensures
            r.wf(),
            forall|i: int| 0 <= i < 240 ==> (#[trigger] r.weights@[i]) == raw@[i] / 2,
    {
        let mut weights: Vec<u32> = Vec::new();
        let mut i: usize = 0;
        while i < 240
            invariant
                i <= 240,
                raw@.len() == 240,
                forall|k: int| 0 <= k < 240 ==> (#[trigger] raw@[k]) < 0x1000000,
                weights@.len() == i,
                forall|k: int| 0 <= k < i ==> (#[trigger] weights@[k]) == raw@[k] / 2,
            decreases 240 - i,
        {
            weights.push(raw[i] / 2);
            i += 1;
        }
        LayerNorm { weights }
    }

    /// Normalize one embedding vector; a pure function of the input
    /// and the stored weights.
    pub fn forward(&self, input: &Vec<u32>) -> (r: Vec<u32>)
        requires
            self.wf(),
            input@.len() == 240,
            fp_seq(input@),
        ensures
            r@ == ln_forward_spec(input@, self.weights@),
            r@.len() == 240,
            fp_seq(r@),
    {
        let mut msum: u64 = 0;
        let mut i: usize = 0;
        while i < 240
            invariant
                i <= 240,
                input@.len() == 240,
                fp_seq(input@),
                msum == ln_sum(input@, i as int),
                msum < 0x100000000,
            decreases 240 - i,
        {
            let v = input[i];
            let adj: u64 = if v > 0x7FFFFF {
                v as u64 + 0xFF000000
            } else {
                v as u64
            };
            msum = (msum + adj) % 0x100000000;
            i += 1;
        }
        let neg = msum >= 0x80000000;
        let m: u64 = if neg {
            (0x100000000 - msum) % 0x80000000
        } else {
            msum
        };
        let mean: u32 = {
            let scaled = ((m * LAYERNORM_CONST) / 0x100000000) as u32;
            proof {
                assert(scaled < 0x1000000);
            }
            if neg {
                exec_neg24(scaled)
            } else {
                scaled
            }
        };
        proof {
            assert(mean == mean_spec(input@));
        }

        let mut sigma2: u64 = EPS;
        let mut i: usize = 0;
        while i < 240
            invariant
                i <= 240,
                input@.len() == 240,
                fp_seq(input@),
                mean < 0x1000000,
                mean == mean_spec(input@),
                sigma2 == sigma2_spec(input@, mean, i as int),
                sigma2 < 0x1000000000000,
            decreases 240 - i,
        {
            let d = Self::center(input[i], mean);
            let dev: u64 = if d > 0x7FFFFF {
                ((0x1000000 - d) % 0x800000) as u64
            } else {
                d as u64
            };
            proof {
                assert(dev * dev < 0x400000000000) by (nonlinear_arith)
                    requires
                        dev < 0x800000,
                ;
            }
            sigma2 = (sigma2 + dev * dev) % 0x1000000000000;
            i += 1;
        }

        let root = isqrt(sigma2);
        let d1: u64 = ((LAYERNORM_CONST_2 * root) / 0x8000000) % 0x1000000;
        let inv_std: u32 = if d1 == 0 {
            0
        } else {
            ((0x1000000000u64 / d1) % 0x1000000) as u32
        };
        proof {
            assert(inv_std == inv_std_spec(sigma2 as int));
        }

        let mut result: Vec<u32> = Vec::new();
        let mut i: usize = 0;
        while i < 240
            invariant
                i <= 240,
                input@.len() == 240,
                fp_seq(input@),
                self.wf(),
                mean < 0x1000000,
                inv_std < 0x1000000,
                result@.len() == i,
                forall|k: int|
                    0 <= k < i ==> (#[trigger] result@[k]) == ln_out(
                        input@[k],
                        mean,
                        inv_std,
                        self.weights@[k],
                    ),
                forall|k: int| 0 <= k < i ==> (#[trigger] result@[k]) < 0x1000000,
            decreases 240 - i,
        {
            let d = Self::center(input[i], mean);
            let neg = d >= 0x7FFFFF;
            let m: u64 = if neg {
                ((0x1000000 - d) % 0x800000) as u64
            } else {
                d as u64
            };
            proof {
                assert(m * inv_std < 0x800000 * 0x1000000) by (nonlinear_arith)
                    requires
                        m < 0x800000,
                        inv_std < 0x1000000,
                ;
            }
            let r1: u64 = ((m * inv_std as u64) / 0x40000) % 0x800000;
            let w = self.weights[i];
            proof {
                assert(r1 * w < 0x800000 * 0x800000) by (nonlinear_arith)
                    requires
                        r1 < 0x800000,
                        w < 0x800000,
                ;
            }
            let r2: u32 = (((r1 * w as u64) / 0x200000) % 0x800000) as u32;
            let res = if neg {
                exec_neg24(r2)
            } else {
                r2
            };
            result.push(res);
            i += 1;
        }
        proof {
            assert(result@ =~= ln_forward_spec(input@, self.weights@));
        }
        result
    }

    /// Center one masked input value on the mean, wrapped to 24 bits.
    fn center(v: u32, mean: u32) -> (d: u32)
        requires
            v < 0x1000000,
            mean < 0x1000000,
        ensures
            d == ln_diff(v, mean),
            d < 0x1000000,
    {
        (v + 0x1000000 - mean) % 0x1000000
    }
}

/// The zero-variance edge case: the all-zero vector normalizes to the
/// all-zero vector, with no division fault (the epsilon keeps the
/// variance positive).
pub proof fn lemma_ln_zero(input: Seq<u32>, weights: Seq<u32>)
    requires
        input.len() == 240,
        forall|i: int| 0 <= i < 240 ==> (#[trigger] input[i]) == 0u32,
        weights.len() == 240,
    ensures
        forall|i: int| 0 <= i < 240 ==> (#[trigger] ln_forward_spec(input, weights)[i]) == 0u32,
{
    lemma_ln_sum_zero(input, 240);
    assert(mean_spec(input) == 0);
    assert forall|i: int| 0 <= i < 240 implies (#[trigger] ln_forward_spec(input, weights)[i])
        == 0u32 by {
        assert(ln_diff(input[i], 0) == 0);
        assert(ln_forward_spec(input, weights)[i] == ln_out(
            input[i],
            mean_spec(input),
            inv_std_spec(sigma2_spec(input, mean_spec(input), 240)),
            weights[i],
        ));
        lemma_ln_out_centered_zero(
            input[i],
            mean_spec(input),
            inv_std_spec(sigma2_spec(input, mean_spec(input), 240)),
            weights[i],
        );
    }
}

/// A channel sitting exactly on the mean normalizes to zero.
proof fn lemma_ln_out_centered_zero(v: u32, mean: u32, inv_std: u32, w: u32)
    requires
        ln_diff(v, mean) == 0,
    ensures
        ln_out(v, mean, inv_std, w) == 0,
{
    assert((0int) * (inv_std as int) == 0) by (nonlinear_arith);
    let r1 = ((0int) / 0x40000) % 0x800000;
    assert(r1 == 0);
    assert((0int) * (w as int) == 0) by (nonlinear_arith);
}

proof fn lemma_ln_sum_zero(input: Seq<u32>, n: int)
    requires
        n <= input.len(),
        forall|i: int| 0 <= i < input.len() ==> (#[trigger] input[i]) == 0u32,
    ensures
        ln_sum(input, n) == 0,
    decreases n,
{
    if n > 0 {
        lemma_ln_sum_zero(input, n - 1);
    }
}

/// Mean-centering: adding one constant offset to every channel leaves
/// the output unchanged whenever the fixed-point mean absorbs the
/// offset exactly.  The hypothesis on the two means names precisely
/// the inputs on which this holds: the mean's fixed reciprocal loses
/// up to one unit, so on some inputs the computed mean of the shifted
/// vector falls one short and the outputs differ.
pub proof fn lemma_ln_offset_invariant(input: Seq<u32>, weights: Seq<u32>, d: u32)
    requires
        input.len() == 240,
        crate::fp_seq(input),
        weights.len() == 240,
        d < 0x1000000,
        mean_spec(shift_vec(input, d)) == crate::fixed::add24(mean_spec(input), d),
    ensures
        ln_forward_spec(shift_vec(input, d), weights) == ln_forward_spec(input, weights),
{
    let s = shift_vec(input, d);
    let m0 = mean_spec(input);
    let m1 = mean_spec(s);
    assert(m0 < 0x1000000) by {
        lemma_mean_bound(input);
    }
    assert forall|i: int| 0 <= i < 240 implies ln_diff(#[trigger] s[i], m1) == ln_diff(
        input[i],
        m0,
    ) by {
        lemma_diff_shift(input[i], m0, d);
    }
    lemma_sigma2_pointwise(s, input, m1, m0, 240);
    assert(ln_forward_spec(s, weights) =~= ln_forward_spec(input, weights)) by {
        assert forall|i: int| 0 <= i < 240 implies ln_forward_spec(s, weights)[i]
            == ln_forward_spec(input, weights)[i] by {
            lemma_diff_shift(input[i], m0, d);
            lemma_out_same(s[i], input[i], m1, m0, inv_std_spec(sigma2_spec(input, m0, 240)), weights[i]);
        }
    }
}

/// Every channel shifted by the same offset, wrapped to 24 bits.
pub open spec fn shift_vec(input: Seq<u32>, d: u32) -> Seq<u32> {
    Seq::new(input.len(), |i: int| crate::fixed::add24(input[i], d))
}

proof fn lemma_mean_bound(input: Seq<u32>)
    ensures
        mean_spec(input) < 0x1000000,
{
    let st = ln_sum(input, input.len() as int);
    lemma_ln_sum_range(input, input.len() as int);
}

proof fn lemma_ln_sum_range(input: Seq<u32>, n: int)
    requires
        n <= input.len(),
    ensures
        0 <= ln_sum(input, n) < 0x100000000,
    decreases n,
{
    if n > 0 {
        lemma_ln_sum_range(input, n - 1);
    }
}

/// Centering is invariant under a common wrapped shift of the value
/// and the mean.
proof fn lemma_diff_shift(v: u32, m: u32, d: u32)
    requires
        v < 0x1000000,
        m < 0x1000000,
        d < 0x1000000,
    ensures
        ln_diff(crate::fixed::add24(v, d), crate::fixed::add24(m, d)) == ln_diff(v, m),
{
    let big = 0x1000000int;
    vstd::arithmetic::div_mod::lemma_mod_multiples_vanish(-((v + d) / big), v + d, big);
    vstd::arithmetic::div_mod::lemma_fundamental_div_mod(v + d, big);
    vstd::arithmetic::div_mod::lemma_fundamental_div_mod(m + d, big);
    let a = crate::fixed::add24(v, d);
    let b = crate::fixed::add24(m, d);
    assert(a == v + d - big * ((v + d) / big));
    assert(b == m + d - big * ((m + d) / big));
    let k = (m + d) / big - (v + d) / big;
    assert(a + big - b == v + big - m + big * k);
    vstd::arithmetic::div_mod::lemma_mod_multiples_vanish(k, v + big - m, big);
}

proof fn lemma_sigma2_pointwise(s: Seq<u32>, input: Seq<u32>, m1: u32, m0: u32, n: int)
    requires
        s.len() == input.len(),
        n <= input.len(),
        forall|i: int| 0 <= i < input.len() ==> ln_diff(#[trigger] s[i], m1) == ln_diff(input[i], m0),
    ensures
        sigma2_spec(s, m1, n) == sigma2_spec(input, m0, n),
    decreases n,
{
    if n > 0 {
        lemma_sigma2_pointwise(s, input, m1, m0, n - 1);
    }
}

proof fn lemma_out_same(v1: u32, v0: u32, m1: u32, m0: u32, inv_std: u32, w: u32)
    requires
        ln_diff(v1, m1) == ln_diff(v0, m0),
    ensures
        ln_out(v1, m1, inv_std, w) == ln_out(v0, m0, inv_std, w),
{
}

} // verus!
