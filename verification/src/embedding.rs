//! Token and position embedding store: a fixed-point vector per token
//! id, plus a position vector added with wraparound.
use vstd::prelude::*;

verus! {

use crate::fixed::{add24, exec_add24};
use crate::EngineError;

/// Sign extension of an 18-bit stored magnitude into the 24-bit
/// fixed-point field: values with bit 17 set get bits 18 to 23 set.
pub open spec fn embed_extend(cur: u32) -> u32
    recommends
        cur < 0x1000000,
{
    if cur >= 0x20000 {
        ((cur % 0x40000) + 0xFC0000) as u32
    } else {
        cur
    }
}

/// A token row with a position row added channel-wise, wrapped to 24
/// bits.
pub open spec fn embed_combined(t: Seq<u32>, p: Seq<u32>) -> Seq<u32> {
    Seq::new(t.len(), |i: int| add24(t[i], p[i]))
}

/// The embedding store: one row per token id, one per position.
pub struct Embedding {
    pub wte: Vec<Vec<u32>>,
    pub wpe: Vec<Vec<u32>>,
}

impl Embedding {
    pub open spec fn wte_view(&self) -> Seq<Seq<u32>> {
        self.wte.deep_view()
    }

    pub open spec fn wpe_view(&self) -> Seq<Seq<u32>> {
        self.wpe.deep_view()
    }

    pub open spec fn wf(&self) -> bool {
        &&& self.wte_view().len() == 1920
        &&& forall|t: int| 0 <= t < 1920 ==> (#[trigger] self.wte_view()[t]).len() == 240
        &&& forall|t: int, i: int|
            0 <= t < 1920 && 0 <= i < 240 ==> (#[trigger] self.wte_view()[t][i]) < 0x1000000
        &&& self.wpe_view().len() == 64
        &&& forall|p: int| 0 <= p < 64 ==> (#[trigger] self.wpe_view()[p]).len() == 240
        &&& forall|p: int, i: int|
            0 <= p < 64 && 0 <= i < 240 ==> (#[trigger] self.wpe_view()[p][i]) < 0x1000000
    }

    /// Build the store from the raw 24-bit rows the weight store
    /// supplies, sign-extending each entry from its 18-bit magnitude.
    pub fn new(wte_raw: &Vec<Vec<u32>>, wpe_raw: &Vec<Vec<u32>>) -> (r: Embedding)
        requires
            wte_raw@.len() == 1920,
            forall|t: int| 0 <= t < 1920 ==> (#[trigger] wte_raw@[t]@).len() == 240,
            forall|t: int, i: int|
                0 <= t < 1920 && 0 <= i < 240 ==> (#[trigger] wte_raw@[t]@[i]) < 0x1000000,
            wpe_raw@.len() == 64,
            forall|p: int| 0 <= p < 64 ==> (#[trigger] wpe_raw@[p]@).len() == 240,
            forall|p: int, i: int|
                0 <= p < 64 && 0 <= i < 240 ==> (#[trigger] wpe_raw@[p]@[i]) < 0x1000000,
        ensures
            r.wf(),
            forall|t: int, i: int|
                0 <= t < 1920 && 0 <= i < 240 ==> (#[trigger] r.wte_view()[t][i]) == embed_extend(
                    wte_raw@[t]@[i],
                ),
            forall|p: int, i: int|
                0 <= p < 64 && 0 <= i < 240 ==> (#[trigger] r.wpe_view()[p][i]) == embed_extend(
                    wpe_raw@[p]@[i],
                ),
    {
        let wte = Self::extend_rows(wte_raw);
        let wpe = Self::extend_rows(wpe_raw);
        let r = Embedding { wte, wpe };
        proof {
            assert forall|t: int| 0 <= t < r.wte@.len() implies (#[trigger] r.wte_view()[t])
                == r.wte@[t]@ by {
                assert(r.wte_view()[t] =~= r.wte@[t]@);
            }
            assert forall|p: int| 0 <= p < r.wpe@.len() implies (#[trigger] r.wpe_view()[p])
                == r.wpe@[p]@ by {
                assert(r.wpe_view()[p] =~= r.wpe@[p]@);
            }
        }
        r
    }

    /// Sign-extend every entry of every row.
    fn extend_rows(raw: &Vec<Vec<u32>>) -> (r: Vec<Vec<u32>>)
        requires
            forall|t: int|
                0 <= t < raw@.len() ==> forall|i: int|
                    0 <= i < (#[trigger] raw@[t]@).len() ==> (#[trigger] raw@[t]@[i]) < 0x1000000,
        ensures
            r@.len() == raw@.len(),
            forall|t: int| 0 <= t < raw@.len() ==> (#[trigger] r@[t]@).len() == raw@[t]@.len(),
            forall|t: int, i: int|
                0 <= t < raw@.len() && 0 <= i < raw@[t]@.len() ==> (#[trigger] r@[t]@[i])
                    == embed_extend(raw@[t]@[i]),
            forall|t: int, i: int|
                0 <= t < raw@.len() && 0 <= i < raw@[t]@.len() ==> (#[trigger] r@[t]@[i])
                    < 0x1000000,
    {
        let n = raw.len();
        let mut out: Vec<Vec<u32>> = Vec::new();
        let mut t: usize = 0;
        while t < n
            invariant
                n == raw@.len(),
                t <= n,
                forall|k: int|
                    0 <= k < raw@.len() ==> forall|i: int|
                        0 <= i < (#[trigger] raw@[k]@).len() ==> (#[trigger] raw@[k]@[i])
                            < 0x1000000,
                out@.len() == t,
                forall|k: int| 0 <= k < t ==> (#[trigger] out@[k]@).len() == raw@[k]@.len(),
                forall|k: int, i: int|
                    0 <= k < t && 0 <= i < raw@[k]@.len() ==> (#[trigger] out@[k]@[i])
                        == embed_extend(raw@[k]@[i]),
                forall|k: int, i: int|
                    0 <= k < t && 0 <= i < raw@[k]@.len() ==> (#[trigger] out@[k]@[i]) < 0x1000000,
            decreases n - t,
        {
            let row = &raw[t];
            let m = row.len();
            let mut orow: Vec<u32> = Vec::new();
            let mut i: usize = 0;
            while i < m
                invariant
                    m == row@.len(),
                    i <= m,
                    forall|k: int| 0 <= k < m ==> (#[trigger] row@[k]) < 0x1000000,
                    orow@.len() == i,
                    forall|k: int|
                        0 <= k < i ==> (#[trigger] orow@[k]) == embed_extend(row@[k]),
                    forall|k: int| 0 <= k < i ==> (#[trigger] orow@[k]) < 0x1000000,
                decreases m - i,
            {
                let cur = row[i];
                let ext = if cur >= 0x20000 {
                    (cur % 0x40000) + 0xFC0000
                } else {
                    cur
                };
                orow.push(ext);
                i += 1;
            }
            out.push(orow);
            t += 1;
        }
        out
    }

    /// The initial vector for one token: its stored row, with the
    /// position row added (wrapped) when a position is given.  Rejects
    /// a token id outside the vocabulary and a position at or past the
    /// table's span.
    pub fn get_weights(&self, token: usize, pos: Option<usize>) -> (r: Result<
        Vec<u32>,
        EngineError,
    >)
        requires
            self.wf(),
        ensures
            token >= 1920 ==> r == Err::<Vec<u32>, EngineError>(EngineError::TokenOutOfRange),
            token < 1920 ==> match pos {
                None => r matches Ok(v) && v@ == self.wte_view()[token as int],
                Some(p) => if p >= 64 {
                    r == Err::<Vec<u32>, EngineError>(EngineError::PositionOutOfRange)
                } else {
                    r matches Ok(v) && v@ == embed_combined(
                        self.wte_view()[token as int],
                        self.wpe_view()[p as int],
                    )
                },
            },
            (r matches Ok(v) ==> v@.len() == 240 && crate::fp_seq(v@)),
    {
        if token >= 1920 {
            return Err(EngineError::TokenOutOfRange);
        }
        match pos {
            None => {
                let mut v: Vec<u32> = Vec::new();
                let mut i: usize = 0;
                while i < 240
                    invariant
                        i <= 240,
                        self.wf(),
                        token < 1920,
                        v@.len() == i,
                        forall|k: int|
                            0 <= k < i ==> (#[trigger] v@[k]) == self.wte_view()[token as int][k],
                        forall|k: int| 0 <= k < i ==> (#[trigger] v@[k]) < 0x1000000,
                    decreases 240 - i,
                {
                    proof {
                        assert(self.wte_view()[token as int].len() == self.wte@[token as int]@.len());
                    }
                    let x = self.wte[token][i];
                    proof {
                        assert(x == self.wte_view()[token as int][i as int]);
                    }
                    v.push(x);
                    i += 1;
                }
                proof {
                    assert(v@ =~= self.wte_view()[token as int]);
                }
                Ok(v)
            },
            Some(p) => {
                if p >= 64 {
                    return Err(EngineError::PositionOutOfRange);
                }
                let mut v: Vec<u32> = Vec::new();
                let mut i: usize = 0;
                while i < 240
                    invariant
                        i <= 240,
                        self.wf(),
                        token < 1920,
                        p < 64,
                        v@.len() == i,
                        forall|k: int|
                            0 <= k < i ==> (#[trigger] v@[k]) == add24(
                                self.wte_view()[token as int][k],
                                self.wpe_view()[p as int][k],
                            ),
                        forall|k: int| 0 <= k < i ==> (#[trigger] v@[k]) < 0x1000000,
                    decreases 240 - i,
                {
                    proof {
                        assert(self.wte_view()[token as int].len() == self.wte@[token as int]@.len());
                        assert(self.wpe_view()[p as int].len() == self.wpe@[p as int]@.len());
                    }
                    let x = self.wte[token][i];
                    let y = self.wpe[p][i];
                    proof {
                        assert(x == self.wte_view()[token as int][i as int]);
                        assert(y == self.wpe_view()[p as int][i as int]);
                    }
                    v.push(exec_add24(x, y));
                    i += 1;
                }
                proof {
                    assert(v@ =~= embed_combined(
                        self.wte_view()[token as int],
                        self.wpe_view()[p as int],
                    ));
                }
                Ok(v)
            },
        }
    }
}

} // verus!
