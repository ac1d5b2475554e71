//! Final projection to vocabulary logits, the table-driven softmax,
//! and extraction of the eight best candidates.
//!
//! Each candidate packs its normalized probability into the high bits
//! and its own token id into the low 11 bits of one combined score, so
//! one unsigned comparison orders by probability first and breaks ties
//! by token id.
use vstd::prelude::*;

verus! {

use crate::attention::{seq_max24, table_wf};
use crate::fp_seq;
use crate::matmul::{decode_grid, matmul_rows, MatMul};

/// The bias trick: flipping the top bit of a 24-bit value lets signed
/// magnitudes be compared as plain unsigned integers.
pub open spec fn flip24(v: u32) -> u32
    recommends
        v < 0x1000000,
{
    if v >= 0x800000 {
        (v - 0x800000) as u32
    } else {
        (v + 0x800000) as u32
    }
}

/// Unnormalized softmax weight of one flipped logit: a table lookup on
/// the quantized distance to the maximum, with a 12-bit shift; zero
/// once the distance leaves the table.
pub open spec fn lut_weight12(table: Seq<u32>, biggest: u32, r: u32) -> u32
    recommends
        table_wf(table),
        r <= biggest,
{
    let power = (biggest - r) / 0x1000;
    if power >= 1024 {
        0u32
    } else {
        table[power as int]
    }
}

/// Exact sum of the lookup weights of the first `n` flipped logits.
pub open spec fn lut_sum12(table: Seq<u32>, biggest: u32, logits: Seq<u32>, n: int) -> int
    recommends
        n <= logits.len(),
        table_wf(table),
    decreases n,
{
    if n <= 0 {
        0
    } else {
        lut_sum12(table, biggest, logits, n - 1) + lut_weight12(table, biggest, logits[n - 1])
    }
}

/// The 32-bit wrapped softmax sum, and its scaled reciprocal.  A
/// wrapped sum of zero has no reciprocal, so it maps to zero: a
/// degenerate table is a configuration error, not a fault.
pub open spec fn inv46_spec(s: int) -> u64 {
    if s % 0x100000000 == 0 {
        0u64
    } else {
        (0x400000000000int / (s % 0x100000000)) as u64
    }
}

/// One combined score: the normalized probability (the product wraps
/// at 64 bits before the shift) packed above the token id.
pub open spec fn combined_spec(inv: u64, w: u32, i: int) -> u64 {
    let p = (((inv * w) % 0x10000000000000000) / 0x800000) % 0x1000000;
    (p * 0x800 + i) as u64
}

/// One pass of the compare-and-swap chain: the candidate displaces the
/// first smaller slot and the displaced value carries on down.
pub open spec fn bubble(s: Seq<u64>, x: u64) -> Seq<u64>
    decreases s.len(),
{
    if s.len() == 0 {
        s
    } else if x > s[0] {
        seq![x] + bubble(s.drop_first(), s[0])
    } else {
        seq![s[0]] + bubble(s.drop_first(), x)
    }
}

/// The bounded top-8 list after scanning the first `n` candidates.
pub open spec fn top8_fold(combined: Seq<u64>, n: int) -> Seq<u64>
    recommends
        n <= combined.len(),
    decreases n,
{
    if n <= 0 {
        Seq::new(8, |i: int| 0u64)
    } else {
        bubble(top8_fold(combined, n - 1), combined[n - 1])
    }
}

pub proof fn lemma_bubble_len(s: Seq<u64>, x: u64)
    ensures
        bubble(s, x).len() == s.len(),
    decreases s.len(),
{
    if s.len() > 0 {
        if x > s[0] {
            lemma_bubble_len(s.drop_first(), s[0]);
        } else {
            lemma_bubble_len(s.drop_first(), x);
        }
    }
}

/// Every vocabulary entry's combined score, given the flipped logits.
pub open spec fn combined_seq(table: Seq<u32>, logits: Seq<u32>) -> Seq<u64> {
    let biggest = seq_max24(logits, logits.len() as int);
    let inv = inv46_spec(lut_sum12(table, biggest, logits, logits.len() as int));
    Seq::new(logits.len(), |i: int| combined_spec(inv, lut_weight12(table, biggest, logits[i]), i))
}

/// Every candidate's combined score for one final vector.
pub open spec fn unembed_combined(u: Unembedding, input: Seq<u32>) -> Seq<u64> {
    let logits = matmul_rows(u.lm_head.grid(), input, false);
    let flipped = Seq::new(logits.len(), |i: int| flip24(logits[i]));
    combined_seq(u.softmax_exp@, flipped)
}

/// What the whole output stage returns for one final vector.
pub open spec fn unembed_spec(u: Unembedding, input: Seq<u32>) -> Seq<u64> {
    let c = unembed_combined(u, input);
    top8_fold(c, c.len() as int)
}

pub struct Unembedding {
    pub lm_head: MatMul,
    pub softmax_exp: Vec<u32>,
}

impl Unembedding {
    pub open spec fn wf(&self) -> bool {
        &&& self.lm_head.wf()
        &&& self.lm_head.in_size() == 240
        &&& self.lm_head.out_size() == 1920
        &&& !self.lm_head.relu
        &&& table_wf(self.softmax_exp@)
    }

    /// Decode the unshuffled vocabulary grid and take the softmax
    /// table for this stage.
    pub fn new(weights: &Vec<Vec<u8>>, softmax_exp: Vec<u32>) -> (r: Unembedding)
        requires
            weights@.len() == 1920,
            forall|i: int| 0 <= i < 1920 ==> (#[trigger] weights@[i]@).len() == 240,
            table_wf(softmax_exp@),
        ensures
            r.wf(),
            r.lm_head.grid() == decode_grid(weights.deep_view()),
            r.softmax_exp@ == softmax_exp@,
    {
        let lm_head = MatMul::new(weights, false);
        proof {
            assert(Seq::new(weights@.len(), |i: int| weights@[i]@) =~~= weights.deep_view());
        }
        Unembedding { lm_head, softmax_exp }
    }

    /// Run one compare-and-swap chain over the eight slots.
    fn insert_top8(out: &mut Vec<u64>, x: u64)
        requires
            old(out)@.len() == 8,
        ensures
            final(out)@ == bubble(old(out)@, x),
            final(out)@.len() == 8,
    {
        let mut cur = x;
        let mut j: usize = 0;
        proof {
            lemma_bubble_len(old(out)@, x);
            assert(out@.skip(0) =~= out@);
            assert(out@.take(0) + bubble(out@.skip(0), cur) =~= bubble(out@, cur));
        }
        while j < 8
            invariant
                j <= 8,
                out@.len() == 8,
                bubble(old(out)@, x) == out@.take(j as int) + bubble(out@.skip(j as int), cur),
            decreases 8 - j,
        {
            let ghost pre = out@;
            let ghost pre_cur = cur;
            let slot = out[j];
            if cur > slot {
                out[j] = cur;
                cur = slot;
            }
            proof {
                let ghost tail = pre.skip(j as int);
                assert(tail[0] == pre[j as int]);
                if pre_cur > pre[j as int] {
                    assert(bubble(tail, pre_cur) == seq![pre_cur] + bubble(
                        tail.drop_first(),
                        pre[j as int],
                    ));
                } else {
                    assert(bubble(tail, pre_cur) == seq![pre[j as int]] + bubble(
                        tail.drop_first(),
                        pre_cur,
                    ));
                }
                assert(tail.drop_first() =~= out@.skip(j + 1));
                assert(out@.take(j + 1) =~= pre.take(j as int) + seq![out@[j as int]]);
                assert(out@.take(j + 1) + bubble(out@.skip(j + 1), cur) =~= pre.take(j as int) + (
                seq![out@[j as int]] + bubble(out@.skip(j + 1), cur)));
            }
            j += 1;
        }
        proof {
            assert(out@.skip(8) =~= Seq::<u64>::empty());
            assert(bubble(Seq::<u64>::empty(), cur) == Seq::<u64>::empty());
            assert(out@.take(8) + bubble(out@.skip(8), cur) =~= out@);
        }
    }

    /// The top-8 combined scores for one final vector; a pure function
    /// of the input and the immutable weights and table.
    pub fn forward(&self, input: &Vec<u32>) -> (r: Vec<u64>)
        requires
            self.wf(),
            input@.len() == 240,
            fp_seq(input@),
        ensures
            r@ == unembed_spec(*self, input@),
            r@.len() == 8,
    {
        let logits_raw = self.lm_head.forward(input);
        let ghost logits_g = matmul_rows(self.lm_head.grid(), input@, false);
        let mut logits: Vec<u32> = Vec::new();
        let mut biggest: u32 = 0;
        let mut i: usize = 0;
        while i < 1920
            invariant
                i <= 1920,
                logits_raw@.len() == 1920,
                logits_raw@ == logits_g,
                fp_seq(logits_raw@),
                logits@.len() == i,
                forall|k: int| 0 <= k < i ==> (#[trigger] logits@[k]) == flip24(logits_g[k]),
                forall|k: int| 0 <= k < i ==> (#[trigger] logits@[k]) < 0x1000000,
                biggest == seq_max24(Seq::new(1920, |k: int| flip24(logits_g[k])), i as int),
            decreases 1920 - i,
        {
            let v = logits_raw[i];
            let f = if v >= 0x800000 {
                v - 0x800000
            } else {
                v + 0x800000
            };
            proof {
                assert(Seq::new(1920, |k: int| flip24(logits_g[k]))[i as int] == flip24(
                    logits_g[i as int],
                ));
            }
            logits.push(f);
            if f > biggest {
                biggest = f;
            }
            i += 1;
        }
        let ghost flipped = Seq::new(1920, |k: int| flip24(logits_g[k]));
        proof {
            assert(logits@ =~= flipped);
        }

        let ghost table = self.softmax_exp@;
        let mut ssum: u64 = 0;
        let mut i: usize = 0;
        while i < 1920
            invariant
                i <= 1920,
                logits@.len() == 1920,
                logits@ == flipped,
                forall|k: int| 0 <= k < 1920 ==> (#[trigger] logits@[k]) < 0x1000000,
                table_wf(table),
                self.softmax_exp@ == table,
                biggest == seq_max24(flipped, 1920),
                ssum == lut_sum12(table, biggest, flipped, i as int),
                ssum <= i * 0xFFFFFF,
            decreases 1920 - i,
        {
            proof {
                crate::attention::lemma_seq_max24_ge(flipped, 1920, i as int);
            }
            let d = biggest - logits[i];
            let power = d / 0x1000;
            let w = if power >= 1024 {
                0u32
            } else {
                self.softmax_exp[power as usize]
            };
            proof {
                assert(w == lut_weight12(table, biggest, flipped[i as int]));
                assert(w <= 0xFFFFFF);
            }
            ssum = ssum + w as u64;
            i += 1;
        }
        let s32: u64 = ssum % 0x100000000;
        let inv: u64 = if s32 == 0 {
            0
        } else {
            0x400000000000u64 / s32
        };
        let ghost ssum_g = lut_sum12(table, biggest, flipped, 1920);
        proof {
            assert(inv == inv46_spec(ssum_g));
        }

        let ghost combined = combined_seq(table, flipped);
        proof {
            assert(combined.len() == 1920);
        }
        let mut output: Vec<u64> = Vec::new();
        let mut j: usize = 0;
        while j < 8
            invariant
                j <= 8,
                output@.len() == j,
                forall|k: int| 0 <= k < j ==> (#[trigger] output@[k]) == 0u64,
            decreases 8 - j,
        {
            output.push(0u64);
            j += 1;
        }
        proof {
            assert(output@ =~= Seq::new(8, |i: int| 0u64));
            assert(output@ == top8_fold(combined, 0));
        }
        let mut i: usize = 0;
        while i < 1920
            invariant
                i <= 1920,
                logits@.len() == 1920,
                logits@ == flipped,
                forall|k: int| 0 <= k < 1920 ==> (#[trigger] logits@[k]) < 0x1000000,
                table_wf(table),
                self.softmax_exp@ == table,
                biggest == seq_max24(flipped, 1920),
                inv == inv46_spec(lut_sum12(table, biggest, flipped, 1920)),
                inv <= 0x400000000000,
                combined == combined_seq(table, flipped),
                combined.len() == 1920,
                output@.len() == 8,
                output@ == top8_fold(combined, i as int),
            decreases 1920 - i,
        {
            proof {
                crate::attention::lemma_seq_max24_ge(flipped, 1920, i as int);
            }
            let d = biggest - logits[i];
            let power = d / 0x1000;
            let w = if power >= 1024 {
                0u32
            } else {
                self.softmax_exp[power as usize]
            };
            proof {
                assert(inv * w <= 0x400000000000 * 0xFFFFFF) by (nonlinear_arith)
                    requires
                        inv <= 0x400000000000,
                        w <= 0xFFFFFF,
                ;
            }
            let p128: u128 = (inv as u128 * w as u128) % 0x10000000000000000;
            let res: u64 = ((p128 / 0x800000) % 0x1000000) as u64;
            let c: u64 = res * 0x800 + i as u64;
            proof {
                assert(w == lut_weight12(table, biggest, flipped[i as int]));
                assert(c == combined_spec(inv, w, i as int));
                assert(c == combined[i as int]);
            }
            Self::insert_top8(&mut output, c);
            i += 1;
        }
        output
    }
}

/// Descending order over a sequence of combined scores.
pub open spec fn sorted_desc(s: Seq<u64>) -> bool {
    forall|i: int, j: int| 0 <= i <= j < s.len() ==> s[i] >= s[j]
}

/// Running maximum of the first `n` combined scores, from zero.
pub open spec fn seq_max64(s: Seq<u64>, n: int) -> u64
    recommends
        n <= s.len(),
    decreases n,
{
    if n <= 0 {
        0u64
    } else {
        let m = seq_max64(s, n - 1);
        if s[n - 1] > m {
            s[n - 1]
        } else {
            m
        }
    }
}

pub proof fn lemma_seq_max64_ge(s: Seq<u64>, n: int, k: int)
    requires
        0 <= k < n <= s.len(),
    ensures
        s[k] <= seq_max64(s, n),
    decreases n,
{
    if k < n - 1 {
        lemma_seq_max64_ge(s, n - 1, k);
    }
}

proof fn lemma_bubble_bound(s: Seq<u64>, x: u64, b: u64)
    requires
        forall|i: int| 0 <= i < s.len() ==> (#[trigger] s[i]) <= b,
        x <= b,
    ensures
        forall|k: int| 0 <= k < bubble(s, x).len() ==> (#[trigger] bubble(s, x)[k]) <= b,
    decreases s.len(),
{
    if s.len() > 0 {
        let t = s.drop_first();
        assert(forall|i: int| 0 <= i < t.len() ==> (#[trigger] t[i]) <= b);
        if x > s[0] {
            lemma_bubble_bound(t, s[0], b);
            assert forall|k: int| 0 <= k < bubble(s, x).len() implies (#[trigger] bubble(s, x)[k])
                <= b by {
                if k > 0 {
                    assert(bubble(s, x)[k] == bubble(t, s[0])[k - 1]);
                }
            }
        } else {
            lemma_bubble_bound(t, x, b);
            assert forall|k: int| 0 <= k < bubble(s, x).len() implies (#[trigger] bubble(s, x)[k])
                <= b by {
                if k > 0 {
                    assert(bubble(s, x)[k] == bubble(t, x)[k - 1]);
                }
            }
        }
    }
}

proof fn lemma_bubble_sorted(s: Seq<u64>, x: u64)
    requires
        sorted_desc(s),
    ensures
        sorted_desc(bubble(s, x)),
    decreases s.len(),
{
    if s.len() > 0 {
        let t = s.drop_first();
        assert(sorted_desc(t)) by {
            assert(forall|i: int, j: int|
                0 <= i <= j < t.len() ==> t[i] == s[i + 1] && t[j] == s[j + 1]);
        }
        assert(forall|i: int| 0 <= i < t.len() ==> (#[trigger] t[i]) <= s[0]);
        if x > s[0] {
            lemma_bubble_sorted(t, s[0]);
            lemma_bubble_bound(t, s[0], s[0]);
            let r = seq![x] + bubble(t, s[0]);
            assert forall|i: int, j: int| 0 <= i <= j < r.len() implies r[i] >= r[j] by {
                if i > 0 {
                    assert(r[i] == bubble(t, s[0])[i - 1]);
                    assert(r[j] == bubble(t, s[0])[j - 1]);
                } else if j > 0 {
                    assert(r[j] == bubble(t, s[0])[j - 1]);
                    assert(bubble(t, s[0])[j - 1] <= s[0]);
                }
            }
        } else {
            lemma_bubble_sorted(t, x);
            lemma_bubble_bound(t, x, s[0]);
            let r = seq![s[0]] + bubble(t, x);
            assert forall|i: int, j: int| 0 <= i <= j < r.len() implies r[i] >= r[j] by {
                if i > 0 {
                    assert(r[i] == bubble(t, x)[i - 1]);
                    assert(r[j] == bubble(t, x)[j - 1]);
                } else if j > 0 {
                    assert(r[j] == bubble(t, x)[j - 1]);
                    assert(bubble(t, x)[j - 1] <= s[0]);
                }
            }
        }
    }
}

pub proof fn lemma_top8_len(c: Seq<u64>, n: int)
    ensures
        top8_fold(c, n).len() == 8,
    decreases n,
{
    if n <= 0 {
    } else {
        lemma_top8_len(c, n - 1);
        lemma_bubble_len(top8_fold(c, n - 1), c[n - 1]);
    }
}

pub proof fn lemma_top8_sorted(c: Seq<u64>, n: int)
    ensures
        sorted_desc(top8_fold(c, n)),
    decreases n,
{
    if n <= 0 {
        assert(forall|i: int|
            0 <= i < top8_fold(c, n).len() ==> (#[trigger] top8_fold(c, n)[i]) == 0u64);
    } else {
        lemma_top8_sorted(c, n - 1);
        lemma_bubble_sorted(top8_fold(c, n - 1), c[n - 1]);
    }
}

pub proof fn lemma_top8_head(c: Seq<u64>, n: int)
    ensures
        top8_fold(c, n)[0] == seq_max64(c, n),
    decreases n,
{
    lemma_top8_len(c, n);
    if n > 0 {
        lemma_top8_head(c, n - 1);
        lemma_top8_len(c, n - 1);
        let prev = top8_fold(c, n - 1);
        assert(bubble(prev, c[n - 1])[0] == if c[n - 1] > prev[0] {
            c[n - 1]
        } else {
            prev[0]
        });
    }
}

/// The eight returned entries are sorted descending by combined score,
/// and the first entry is the largest combined score of the whole
/// vocabulary scan — so a candidate with a unique maximal score is
/// returned first.
pub proof fn lemma_unembed_top8(u: Unembedding, input: Seq<u32>)
    requires
        u.wf(),
        input.len() == 240,
    ensures
        unembed_spec(u, input).len() == 8,
        sorted_desc(unembed_spec(u, input)),
        unembed_spec(u, input)[0] == seq_max64(
            unembed_combined(u, input),
            unembed_combined(u, input).len() as int,
        ),
        forall|k: int|
            0 <= k < unembed_combined(u, input).len() ==> (#[trigger] unembed_combined(u, input)[k])
                <= unembed_spec(u, input)[0],
{
    let c = unembed_combined(u, input);
    lemma_top8_len(c, c.len() as int);
    lemma_top8_sorted(c, c.len() as int);
    lemma_top8_head(c, c.len() as int);
    assert forall|k: int| 0 <= k < c.len() implies (#[trigger] c[k]) <= unembed_spec(u, input)[0] by {
        lemma_seq_max64_ge(c, c.len() as int, k);
    }
}

} // verus!
