use vstd::prelude::*;

verus! {

/// The largest range proof, in bytes.
pub const MAX_PROOF_SIZE: usize = 5134;

/// A range proof: its bytes, of which the first `plen` are the proof.
#[derive(Clone, Copy, Debug)]
pub struct RangeProof {
    pub proof: [u8; MAX_PROOF_SIZE],
    pub plen: usize,
}

impl RangeProof {
    /// The proof's bytes: the first `plen` of the buffer.
    pub open spec fn bytes(&self) -> Seq<u8> {
        self.proof@.take(self.plen as int)
    }
}

} // verus!
