use vstd::prelude::*;
use crate::base::error::Error;
use crate::crypto::ctx::Ctx;
use crate::crypto::pedersen::Commitment;
use crate::crypto::secp::{commit_pubkey, commit_total, kernel_sig_verifies, secp_verify_completed};
use crate::crypto::signature::{Message, Signature};

verus! {

/// A transaction kernel as the signing layer sees it: the excess commitment, its signature,
/// the fee and the feature flags.
#[derive(Clone, Copy, Debug)]
pub struct Kernel {
    pub(crate) excess: Commitment,
    signature: Signature,
    fee: u64,
    features: u8,
}

impl Kernel {
    /// The excess commitment.
    pub closed spec fn spec_excess(&self) -> Commitment {
        self.excess
    }

    /// The signature.
    pub closed spec fn spec_signature(&self) -> Signature {
        self.signature
    }

    /// The fee.
    pub closed spec fn spec_fee(&self) -> u64 {
        self.fee
    }

    /// The feature flags.
    pub closed spec fn spec_features(&self) -> u8 {
        self.features
    }

    /// A kernel with the given parts.
    pub fn new(excess: Commitment, signature: Signature, fee: u64, features: u8) -> (r: Self)
        ensures
            r.spec_excess() == excess,
            r.spec_signature() == signature,
            r.spec_fee() == fee,
            r.spec_features() == features,
    {
        Kernel { excess, signature, fee, features }
    }

    /// Checks that the two excesses can be added (`OperationFailed` when not); the sum is
    /// formed and dropped, so the kernel keeps its excess.
    pub fn merge(&mut self, ctx: &mut Ctx, k: Kernel) -> (r: Result<(), Error>)
        ensures
            *final(self) == *old(self),
            commit_total(seq![old(self).spec_excess()@, k.spec_excess()@], Seq::empty()) is Some <==> r is Ok,
            r is Err ==> r == Err::<(), Error>(Error::OperationFailed),
    {
        let commit = self.excess;
        commit.combine(ctx, &k.excess)?;
        self.excess = commit;
        Ok(())
    }

    /// The fee.
    pub fn fee(&self) -> (r: u64)
        ensures
            r == self.spec_fee(),
    {
        self.fee
    }

    /// The signature.
    pub fn signature(&self) -> (r: &Signature)
        ensures
            *r == self.spec_signature(),
    {
        &self.signature
    }

    /// The excess commitment.
    pub fn excess(&self) -> (r: &Commitment)
        ensures
            *r == self.spec_excess(),
    {
        &self.excess
    }

    /// The feature flags.
    pub fn features(&self) -> (r: u8)
        ensures
            r == self.spec_features(),
    {
        self.features
    }

    /// Checks the signature of `msg` under the public key of the excess:
    /// `OperationFailed` when the excess is no commitment, `InvalidSignature` when the
    /// signature does not verify.
    pub fn verify(&self, ctx: &mut Ctx, msg: &Message) -> (r: Result<(), Error>)
        ensures
            commit_pubkey(self.spec_excess()@) is None ==> r == Err::<(), Error>(Error::OperationFailed),
            commit_pubkey(self.spec_excess()@) matches Some(pk) ==> (r is Ok <==> kernel_sig_verifies(
                self.spec_signature()@, msg@, pk)),
            r is Err ==> (r == Err::<(), Error>(Error::OperationFailed) || r == Err::<(), Error>(
                Error::InvalidSignature)),
    {
        let excess = self.excess.to_pubkey(ctx)?;
        if secp_verify_completed(ctx.as_ptr(), self.signature.as_bytes(), msg.as_bytes(), excess.as_bytes()) {
            Ok(())
        } else {
            Err(Error::InvalidSignature)
        }
    }
}

} // verus!
