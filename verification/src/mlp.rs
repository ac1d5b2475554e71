//! The feed-forward block: expand to four times the embedding width
//! with a rectifier, then contract back.
use vstd::prelude::*;

verus! {

use crate::fp_seq;
use crate::matmul::{decode_grid, matmul_rows, MatMul};

/// What the block computes: the rectified expansion fed to the
/// contraction.
pub open spec fn mlp_spec(m: MLP, input: Seq<u32>) -> Seq<u32> {
    matmul_rows(m.matmul_down.grid(), matmul_rows(m.matmul_up.grid(), input, true), false)
}

pub struct MLP {
    pub matmul_up: MatMul,
    pub matmul_down: MatMul,
}

impl MLP {
    pub open spec fn wf(&self) -> bool {
        &&& self.matmul_up.wf()
        &&& self.matmul_up.in_size() == 240
        &&& self.matmul_up.out_size() == 960
        &&& self.matmul_up.relu
        &&& self.matmul_down.wf()
        &&& self.matmul_down.in_size() == 960
        &&& self.matmul_down.out_size() == 240
        &&& !self.matmul_down.relu
    }

    /// Decode the two unshuffled byte grids into the expansion layer
    /// (rectifying) and the contraction layer.
    pub fn new(up: &Vec<Vec<u8>>, down: &Vec<Vec<u8>>) -> (r: MLP)
        requires
            up@.len() == 960,
            forall|i: int| 0 <= i < 960 ==> (#[trigger] up@[i]@).len() == 240,
            down@.len() == 240,
            forall|i: int| 0 <= i < 240 ==> (#[trigger] down@[i]@).len() == 960,
        ensures
            r.wf(),
            r.matmul_up.grid() == decode_grid(up.deep_view()),
            r.matmul_down.grid() == decode_grid(down.deep_view()),
    {
        let matmul_up = MatMul::new(up, true);
        let matmul_down = MatMul::new(down, false);
        proof {
            assert(Seq::new(up@.len(), |i: int| up@[i]@) =~~= up.deep_view());
            assert(Seq::new(down@.len(), |i: int| down@[i]@) =~~= down.deep_view());
        }
        MLP { matmul_up, matmul_down }
    }

    /// One forward pass; pure in the input and the immutable weights.
    pub fn forward(&self, input: &Vec<u32>) -> (r: Vec<u32>)
        requires
            self.wf(),
            input@.len() == 240,
            fp_seq(input@),
        ensures
            r@ == mlp_spec(*self, input@),
            r@.len() == 240,
            fp_seq(r@),
    {
        let mid = self.matmul_up.forward(input);
        self.matmul_down.forward(&mid)
    }
}

} // verus!
