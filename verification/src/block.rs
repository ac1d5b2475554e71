//! One transformer block: residual attention then residual
//! feed-forward, each behind its own normalization.
use vstd::prelude::*;

verus! {

use crate::attention::{key_enc_of, Attention};
use crate::fixed::{add24, exec_add24};
use crate::fp_seq;
use crate::layernorm::{ln_forward_spec, LayerNorm};
use crate::mlp::{mlp_spec, MLP};
use crate::EngineError;

/// A residual sum: the state plus a delta, channel-wise mod 2^24.
pub open spec fn residual(v: Seq<u32>, d: Seq<u32>) -> Seq<u32> {
    Seq::new(v.len(), |i: int| add24(v[i], d[i]))
}

/// What one block does to the state vector:
/// `state += Attention(LayerNorm1(state))`, then
/// `state += MLP(LayerNorm2(state))`, both wrapped.
pub open spec fn block_step(b: Block, v: Seq<u32>) -> Seq<u32> {
    let a = b.att.att_result(ln_forward_spec(v, b.ln_1.weights@));
    let v1 = residual(v, a);
    let m = mlp_spec(b.mlp, ln_forward_spec(v1, b.ln_2.weights@));
    residual(v1, m)
}

/// The vector the block's attention caches for this state.
pub open spec fn block_att_input(b: Block, v: Seq<u32>) -> Seq<u32> {
    ln_forward_spec(v, b.ln_1.weights@)
}

pub struct Block {
    pub ln_1: LayerNorm,
    pub att: Attention,
    pub ln_2: LayerNorm,
    pub mlp: MLP,
}

impl Block {
    pub open spec fn wf(&self) -> bool {
        &&& self.ln_1.wf()
        &&& self.att.wf()
        &&& self.ln_2.wf()
        &&& self.mlp.wf()
    }

    pub open spec fn spec_cache_len(&self) -> nat {
        self.att.spec_cache_len()
    }

    /// Assemble a block from its four components.
    pub fn new(ln_1: LayerNorm, att: Attention, ln_2: LayerNorm, mlp: MLP) -> (r: Block)
        ensures
            r.ln_1 == ln_1,
            r.att == att,
            r.ln_2 == ln_2,
            r.mlp == mlp,
    {
        Block { ln_1, att, ln_2, mlp }
    }

    /// Cached entries of this block's attention.
    pub fn cache_len(&self) -> (n: usize)
        requires
            self.wf(),
        ensures
            n == self.spec_cache_len(),
    {
        self.att.cache_len()
    }

    /// Mutate the residual state vector in place; rejected, with
    /// nothing changed, exactly when the attention caches are full.
    pub fn forward(&mut self, value: &mut Vec<u32>) -> (r: Result<(), EngineError>)
        requires
            old(self).wf(),
            old(value)@.len() == 240,
            fp_seq(old(value)@),
        ensures
            final(self).wf(),
            r is Ok <==> old(self).spec_cache_len() < 1024,
            r is Err ==> r == Err::<(), EngineError>(EngineError::CacheFull) && *final(self)
                == *old(self) && *final(value) == *old(value),
            r is Ok ==> final(value)@ == block_step(*old(self), old(value)@),
            final(value)@.len() == 240,
            fp_seq(final(value)@),
            r is Ok ==> final(self).spec_cache_len() == old(self).spec_cache_len() + 1,
            r is Ok ==> forall|h: int|
                0 <= h < 5 ==> (#[trigger] final(self).att.kcache()[h]) == old(
                    self,
                ).att.kcache()[h].push(
                    key_enc_of(
                        old(self).att.matmul_key@[h],
                        block_att_input(*old(self), old(value)@),
                    ),
                ),
            r is Ok ==> forall|h: int|
                0 <= h < 5 ==> (#[trigger] final(self).att.vcache()[h]) == old(
                    self,
                ).att.vcache()[h].push(
                    key_enc_of(
                        old(self).att.matmul_value@[h],
                        block_att_input(*old(self), old(value)@),
                    ),
                ),
            final(self).ln_1 == old(self).ln_1,
            final(self).ln_2 == old(self).ln_2,
            final(self).mlp == old(self).mlp,
            final(self).att.matmul_key == old(self).att.matmul_key,
            final(self).att.matmul_value == old(self).att.matmul_value,
            final(self).att.matmul_query == old(self).att.matmul_query,
            final(self).att.matmul_proj == old(self).att.matmul_proj,
            final(self).att.softmax_exp == old(self).att.softmax_exp,
    {
        let ln1_out = self.ln_1.forward(value);
        let att_diff = match self.att.forward(&ln1_out) {
            Ok(d) => d,
            Err(e) => {
                return Err(e);
            },
        };
        let ghost v0 = value@;
        let mut i: usize = 0;
        while i < 240
            invariant
                i <= 240,
                value@.len() == 240,
                v0.len() == 240,
                att_diff@.len() == 240,
                fp_seq(att_diff@),
                forall|k: int| 0 <= k < i ==> (#[trigger] value@[k]) == add24(v0[k], att_diff@[k]),
                forall|k: int| i <= k < 240 ==> (#[trigger] value@[k]) == v0[k],
                forall|k: int| 0 <= k < 240 ==> (#[trigger] value@[k]) < 0x1000000,
            decreases 240 - i,
        {
            let nv = exec_add24(value[i], att_diff[i]);
            value[i] = nv;
            i += 1;
        }
        proof {
            assert(value@ =~= residual(v0, att_diff@));
        }
        let ln2_out = self.ln_2.forward(value);
        let mlp_diff = self.mlp.forward(&ln2_out);
        let ghost v1 = value@;
        let mut i: usize = 0;
        while i < 240
            invariant
                i <= 240,
                value@.len() == 240,
                v1.len() == 240,
                mlp_diff@.len() == 240,
                fp_seq(mlp_diff@),
                forall|k: int| 0 <= k < i ==> (#[trigger] value@[k]) == add24(v1[k], mlp_diff@[k]),
                forall|k: int| i <= k < 240 ==> (#[trigger] value@[k]) == v1[k],
                forall|k: int| 0 <= k < 240 ==> (#[trigger] value@[k]) < 0x1000000,
            decreases 240 - i,
        {
            let nv = exec_add24(value[i], mlp_diff[i]);
            value[i] = nv;
            i += 1;
        }
        proof {
            assert(value@ =~= residual(v1, mlp_diff@));
        }
        Ok(())
    }

    /// Roll back the most recent token from this block's attention.
    pub fn undo_last(&mut self)
        requires
            old(self).wf(),
        ensures
            final(self).wf(),
            old(self).spec_cache_len() > 0 ==> final(self).spec_cache_len() == old(
                self,
            ).spec_cache_len() - 1,
            old(self).spec_cache_len() > 0 ==> forall|h: int|
                0 <= h < 5 ==> (#[trigger] final(self).att.kcache()[h]) == old(
                    self,
                ).att.kcache()[h].drop_last(),
            old(self).spec_cache_len() > 0 ==> forall|h: int|
                0 <= h < 5 ==> (#[trigger] final(self).att.vcache()[h]) == old(
                    self,
                ).att.vcache()[h].drop_last(),
            old(self).spec_cache_len() == 0 ==> final(self).att.kcache() == old(self).att.kcache()
                && final(self).att.vcache() == old(self).att.vcache()
                && final(self).spec_cache_len() == 0,
            final(self).ln_1 == old(self).ln_1,
            final(self).ln_2 == old(self).ln_2,
            final(self).mlp == old(self).mlp,
            final(self).att.matmul_key == old(self).att.matmul_key,
            final(self).att.matmul_value == old(self).att.matmul_value,
            final(self).att.matmul_query == old(self).att.matmul_query,
            final(self).att.matmul_proj == old(self).att.matmul_proj,
            final(self).att.softmax_exp == old(self).att.softmax_exp,
    {
        self.att.undo_last();
    }
}

/// Two blocks that agree on their components and on their attention
/// cache contents transform a state vector identically.
pub open spec fn blocks_agree(b1: Block, b2: Block) -> bool {
    &&& b2.ln_1 == b1.ln_1
    &&& b2.ln_2 == b1.ln_2
    &&& b2.mlp == b1.mlp
    &&& b2.att.matmul_key == b1.att.matmul_key
    &&& b2.att.matmul_value == b1.att.matmul_value
    &&& b2.att.matmul_query == b1.att.matmul_query
    &&& b2.att.matmul_proj == b1.att.matmul_proj
    &&& b2.att.softmax_exp == b1.att.softmax_exp
    &&& b2.att.kcache() == b1.att.kcache()
    &&& b2.att.vcache() == b1.att.vcache()
}

pub proof fn lemma_block_step_congruence(b1: Block, b2: Block, v: Seq<u32>)
    requires
        blocks_agree(b1, b2),
    ensures
        block_step(b2, v) == block_step(b1, v),
{
    crate::attention::lemma_att_result_congruence(
        b1.att,
        b2.att,
        ln_forward_spec(v, b1.ln_1.weights@),
    );
}

} // verus!
