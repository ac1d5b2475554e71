//! The full model: embedding, six transformer blocks, the final
//! normalization and the output stage, plus the autoregressive
//! position counter.
use vstd::prelude::*;

verus! {

use crate::block::{block_att_input, block_step, Block};
use crate::embedding::{embed_combined, Embedding};
use crate::layernorm::{ln_forward_spec, LayerNorm};
use crate::unembedding::{unembed_spec, Unembedding};
use crate::EngineError;

/// The initial state vector for one token at the model's current
/// position (clamped to the last row of the position table).
pub open spec fn model_v0(m: Model, token: int) -> Seq<u32> {
    let pos: int = if m.index < 64 {
        m.index as int
    } else {
        63
    };
    embed_combined(m.tokens.wte_view()[token], m.tokens.wpe_view()[pos])
}

/// The state vector after the first `k` blocks.
pub open spec fn model_state(m: Model, token: int, k: int) -> Seq<u32>
    decreases k,
{
    if k <= 0 {
        model_v0(m, token)
    } else {
        block_step(m.transformer@[k - 1], model_state(m, token, k - 1))
    }
}

/// The top-8 list one call on `token` returns.
pub open spec fn model_out(m: Model, token: int) -> Seq<u64> {
    unembed_spec(m.unembedding, ln_forward_spec(model_state(m, token, 6), m.ln_f.weights@))
}

pub struct Model {
    pub tokens: Embedding,
    pub transformer: Vec<Block>,
    pub ln_f: LayerNorm,
    pub unembedding: Unembedding,
    pub index: usize,
}

impl Model {
    pub open spec fn wf(&self) -> bool {
        &&& self.tokens.wf()
        &&& self.transformer@.len() == 6
        &&& forall|k: int| 0 <= k < 6 ==> (#[trigger] self.transformer@[k]).wf()
        &&& forall|k: int|
            0 <= k < 6 ==> (#[trigger] self.transformer@[k]).spec_cache_len() == self.index
        &&& self.ln_f.wf()
        &&& self.unembedding.wf()
        &&& self.index <= 1024
    }

    /// Assemble a model from its components; the position counter
    /// starts at zero, so the blocks' caches must be empty.
    pub fn new(
        tokens: Embedding,
        transformer: Vec<Block>,
        ln_f: LayerNorm,
        unembedding: Unembedding,
    ) -> (r: Model)
        requires
            tokens.wf(),
            transformer@.len() == 6,
            forall|k: int| 0 <= k < 6 ==> (#[trigger] transformer@[k]).wf(),
            forall|k: int| 0 <= k < 6 ==> (#[trigger] transformer@[k]).spec_cache_len() == 0,
            ln_f.wf(),
            unembedding.wf(),
        ensures
            r.wf(),
            r.index == 0,
            r.tokens == tokens,
            r.transformer == transformer,
            r.ln_f == ln_f,
            r.unembedding == unembedding,
    {
        Model { tokens, transformer, ln_f, unembedding, index: 0 }
    }

    /// The position counter: tokens processed minus tokens undone.
    pub fn position(&self) -> (n: usize)
        ensures
            n == self.index,
    {
        self.index
    }

    /// Cached entries of one block's attention.
    pub fn block_cache_len(&self, k: usize) -> (n: usize)
        requires
            self.wf(),
            k < 6,
        ensures
            n == self.index,
    {
        self.transformer[k].cache_len()
    }

    /// Process one token: embed it at the current (clamped) position,
    /// run the blocks, normalize, project, advance the counter.
    /// Rejected before any cache is touched when the token id is out
    /// of the vocabulary or the caches are already full.
    pub fn process(&mut self, token: usize) -> (r: Result<Vec<u64>, EngineError>)
        requires
            old(self).wf(),
        ensures
            final(self).wf(),
            token >= 1920 ==> r == Err::<Vec<u64>, EngineError>(EngineError::TokenOutOfRange)
                && *final(self) == *old(self),
            (token < 1920 && old(self).index >= 1024) ==> r == Err::<Vec<u64>, EngineError>(
                EngineError::CacheFull,
            ) && *final(self) == *old(self),
            r is Ok <==> token < 1920 && old(self).index < 1024,
            (r matches Ok(v) ==> v@ == model_out(*old(self), token as int) && v@.len() == 8),
            r is Ok ==> final(self).index == old(self).index + 1,
            final(self).tokens == old(self).tokens,
            final(self).ln_f == old(self).ln_f,
            final(self).unembedding == old(self).unembedding,
            final(self).transformer@.len() == 6,
            r is Ok ==> forall|k: int|
                0 <= k < 6 ==> blocks_related(
                    old(self).transformer@[k],
                    #[trigger] final(self).transformer@[k],
                    model_state(*old(self), token as int, k),
                ),
    {
        if token >= 1920 {
            return Err(EngineError::TokenOutOfRange);
        }
        if self.index >= 1024 {
            return Err(EngineError::CacheFull);
        }
        let pos = if self.index < 64 {
            self.index
        } else {
            63
        };
        let mut value = match self.tokens.get_weights(token, Some(pos)) {
            Ok(v) => v,
            Err(_) => {
                proof {
                    assert(false);
                }
                return Err(EngineError::TokenOutOfRange);
            },
        };
        proof {
            assert(value@ == model_v0(*old(self), token as int));
        }
        let mut k: usize = 0;
        while k < 6
            invariant
                k <= 6,
                token < 1920,
                old(self).wf(),
                old(self).index < 1024,
                self.tokens == old(self).tokens,
                self.ln_f == old(self).ln_f,
                self.unembedding == old(self).unembedding,
                self.index == old(self).index,
                self.transformer@.len() == 6,
                forall|g: int|
                    k <= g < 6 ==> (#[trigger] self.transformer@[g]) == old(self).transformer@[g],
                forall|g: int|
                    0 <= g < k ==> blocks_related(
                        old(self).transformer@[g],
                        #[trigger] self.transformer@[g],
                        model_state(*old(self), token as int, g),
                    ),
                value@ == model_state(*old(self), token as int, k as int),
                value@.len() == 240,
                crate::fp_seq(value@),
            decreases 6 - k,
        {
            let block = &mut self.transformer[k];
            let res = block.forward(&mut value);
            proof {
                assert(res is Ok);
            }
            match res {
                Ok(_) => (),
                Err(_) => {
                    proof {
                        assert(false);
                    }
                    return Err(EngineError::CacheFull);
                },
            }
            k += 1;
        }
        let normed = self.ln_f.forward(&value);
        let ans = self.unembedding.forward(&normed);
        self.index = self.index + 1;
        proof {
            assert forall|g: int| 0 <= g < 6 implies (#[trigger] self.transformer@[g]).wf() && (
            self.transformer@[g]).spec_cache_len() == self.index by {
                assert(blocks_related(
                    old(self).transformer@[g],
                    self.transformer@[g],
                    model_state(*old(self), token as int, g),
                ));
            }
        }
        Ok(ans)
    }

    /// Roll back the most recent token: decrement the position counter
    /// and drop the newest cache entry of every block.
    pub fn undo_last(&mut self)
        requires
            old(self).wf(),
            old(self).index >= 1,
        ensures
            final(self).wf(),
            final(self).index == old(self).index - 1,
            final(self).tokens == old(self).tokens,
            final(self).ln_f == old(self).ln_f,
            final(self).unembedding == old(self).unembedding,
            final(self).transformer@.len() == 6,
            forall|k: int|
                0 <= k < 6 ==> blocks_undone(
                    old(self).transformer@[k],
                    #[trigger] final(self).transformer@[k],
                ),
    {
        self.index = self.index - 1;
        let mut k: usize = 0;
        while k < 6
            invariant
                k <= 6,
                old(self).wf(),
                old(self).index >= 1,
                self.tokens == old(self).tokens,
                self.ln_f == old(self).ln_f,
                self.unembedding == old(self).unembedding,
                self.index == old(self).index - 1,
                self.transformer@.len() == 6,
                forall|g: int|
                    k <= g < 6 ==> (#[trigger] self.transformer@[g]) == old(self).transformer@[g],
                forall|g: int|
                    0 <= g < k ==> blocks_undone(
                        old(self).transformer@[g],
                        #[trigger] self.transformer@[g],
                    ),
            decreases 6 - k,
        {
            let block = &mut self.transformer[k];
            block.undo_last();
            k += 1;
        }
        proof {
            assert forall|g: int| 0 <= g < 6 implies (#[trigger] self.transformer@[g]).wf() && (
            self.transformer@[g]).spec_cache_len() == self.index by {
                assert(blocks_undone(old(self).transformer@[g], self.transformer@[g]));
            }
        }
    }
}

/// How one block changes when a token with attention input `v` runs
/// through it: caches extended by the encodings of `v`'s keys and
/// values, everything else kept.
pub open spec fn blocks_related(b0: Block, b1: Block, state: Seq<u32>) -> bool {
    &&& b1.wf()
    &&& b1.spec_cache_len() == b0.spec_cache_len() + 1
    &&& forall|h: int|
        0 <= h < 5 ==> (#[trigger] b1.att.kcache()[h]) == b0.att.kcache()[h].push(
            crate::attention::key_enc_of(b0.att.matmul_key@[h], block_att_input(b0, state)),
        )
    &&& forall|h: int|
        0 <= h < 5 ==> (#[trigger] b1.att.vcache()[h]) == b0.att.vcache()[h].push(
            crate::attention::key_enc_of(b0.att.matmul_value@[h], block_att_input(b0, state)),
        )
    &&& b1.ln_1 == b0.ln_1
    &&& b1.ln_2 == b0.ln_2
    &&& b1.mlp == b0.mlp
    &&& b1.att.matmul_key == b0.att.matmul_key
    &&& b1.att.matmul_value == b0.att.matmul_value
    &&& b1.att.matmul_query == b0.att.matmul_query
    &&& b1.att.matmul_proj == b0.att.matmul_proj
    &&& b1.att.softmax_exp == b0.att.softmax_exp
}

/// How one block changes under an undo: the newest cache entry of its
/// attention dropped, everything else kept.
pub open spec fn blocks_undone(b0: Block, b1: Block) -> bool {
    &&& b1.wf()
    &&& b0.spec_cache_len() > 0 ==> b1.spec_cache_len() == b0.spec_cache_len() - 1
    &&& b0.spec_cache_len() > 0 ==> forall|h: int|
        0 <= h < 5 ==> (#[trigger] b1.att.kcache()[h]) == b0.att.kcache()[h].drop_last()
    &&& b0.spec_cache_len() > 0 ==> forall|h: int|
        0 <= h < 5 ==> (#[trigger] b1.att.vcache()[h]) == b0.att.vcache()[h].drop_last()
    &&& b0.spec_cache_len() == 0 ==> b1.att.kcache() == b0.att.kcache() && b1.att.vcache()
        == b0.att.vcache() && b1.spec_cache_len() == 0
    &&& b1.ln_1 == b0.ln_1
    &&& b1.ln_2 == b0.ln_2
    &&& b1.mlp == b0.mlp
    &&& b1.att.matmul_key == b0.att.matmul_key
    &&& b1.att.matmul_value == b0.att.matmul_value
    &&& b1.att.matmul_query == b0.att.matmul_query
    &&& b1.att.matmul_proj == b0.att.matmul_proj
    &&& b1.att.softmax_exp == b0.att.softmax_exp
}

/// Two models that agree on their weights, their position counter and
/// their cache contents produce the same output for every token.
pub open spec fn models_agree(m1: Model, m2: Model) -> bool {
    &&& m2.tokens == m1.tokens
    &&& m2.ln_f == m1.ln_f
    &&& m2.unembedding == m1.unembedding
    &&& m2.index == m1.index
    &&& m1.transformer@.len() == 6
    &&& m2.transformer@.len() == 6
    &&& forall|k: int|
        0 <= k < 6 ==> crate::block::blocks_agree(
            m1.transformer@[k],
            #[trigger] m2.transformer@[k],
        )
}

pub proof fn lemma_model_state_congruence(m1: Model, m2: Model, token: int, k: int)
    requires
        models_agree(m1, m2),
        0 <= k <= 6,
    ensures
        model_state(m2, token, k) == model_state(m1, token, k),
    decreases k,
{
    if k > 0 {
        lemma_model_state_congruence(m1, m2, token, k - 1);
        crate::block::lemma_block_step_congruence(
            m1.transformer@[k - 1],
            m2.transformer@[k - 1],
            model_state(m1, token, k - 1),
        );
    }
}

pub proof fn lemma_model_out_congruence(m1: Model, m2: Model, token: int)
    requires
        models_agree(m1, m2),
    ensures
        model_out(m2, token) == model_out(m1, token),
{
    lemma_model_state_congruence(m1, m2, token, 6);
}

/// Rolling back the one token that was processed restores the model
/// exactly: if `m1` came out of processing a token on `m0` and `m2`
/// out of undoing it on `m1`, then `m2` agrees with `m0` everywhere an
/// output can depend on, so every later output is byte-identical to
/// what `m0` would have produced.
pub proof fn lemma_process_then_undo(m0: Model, m1: Model, m2: Model, token: int, next: int)
    requires
        m0.wf(),
        m0.index < 1024,
        0 <= token < 1920,
        m1.tokens == m0.tokens,
        m1.ln_f == m0.ln_f,
        m1.unembedding == m0.unembedding,
        m1.index == m0.index + 1,
        m1.transformer@.len() == 6,
        forall|k: int|
            0 <= k < 6 ==> blocks_related(
                m0.transformer@[k],
                #[trigger] m1.transformer@[k],
                model_state(m0, token, k),
            ),
        m2.tokens == m1.tokens,
        m2.ln_f == m1.ln_f,
        m2.unembedding == m1.unembedding,
        m2.index == m1.index - 1,
        m2.transformer@.len() == 6,
        forall|k: int|
            0 <= k < 6 ==> blocks_undone(m1.transformer@[k], #[trigger] m2.transformer@[k]),
    ensures
        models_agree(m0, m2),
        model_out(m2, next) == model_out(m0, next),
{
    assert forall|k: int| 0 <= k < 6 implies crate::block::blocks_agree(
        m0.transformer@[k],
        #[trigger] m2.transformer@[k],
    ) by {
        let b0 = m0.transformer@[k];
        let b1 = m1.transformer@[k];
        let b2 = m2.transformer@[k];
        assert(b1.spec_cache_len() > 0);
        assert forall|h: int| 0 <= h < 5 implies (#[trigger] b2.att.kcache()[h])
            == b0.att.kcache()[h] by {
            let e = crate::attention::key_enc_of(
                b0.att.matmul_key@[h],
                crate::block::block_att_input(b0, model_state(m0, token, k)),
            );
            assert(b1.att.kcache()[h] == b0.att.kcache()[h].push(e));
            assert(b0.att.kcache()[h].push(e).drop_last() =~= b0.att.kcache()[h]);
        }
        assert forall|h: int| 0 <= h < 5 implies (#[trigger] b2.att.vcache()[h])
            == b0.att.vcache()[h] by {
            let e = crate::attention::key_enc_of(
                b0.att.matmul_value@[h],
                crate::block::block_att_input(b0, model_state(m0, token, k)),
            );
            assert(b1.att.vcache()[h] == b0.att.vcache()[h].push(e));
            assert(b0.att.vcache()[h].push(e).drop_last() =~= b0.att.vcache()[h]);
        }
        assert(b2.att.kcache() =~= b0.att.kcache()) by {
            assert(b2.att.kcache().len() == 5 && b0.att.kcache().len() == 5);
        }
        assert(b2.att.vcache() =~= b0.att.vcache()) by {
            assert(b2.att.vcache().len() == 5 && b0.att.vcache().len() == 5);
        }
    }
    lemma_model_out_congruence(m0, m2, next);
}

} // verus!
