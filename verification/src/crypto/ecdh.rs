use vstd::prelude::*;
use crate::base::error::Error;
use crate::crypto::ctx::Ctx;
use crate::crypto::keys::{PublicKey, SecretKey};
use crate::crypto::secp::{pubkey_parsed, secp_ecdh, secp_seckey_verify, seckey_valid, shared_secret_of};

verus! {

/// A 32-byte secret shared by the holders of two key pairs.
#[derive(Debug)]
pub struct SharedSecret {
    bytes: [u8; 32],
}

impl SharedSecret {
    /// The secret's bytes.
    pub closed spec fn view(&self) -> Seq<u8> {
        self.bytes@
    }

    /// The secret shared between the holder of `local` and the holder of the secret key of
    /// `exchanged`; `OperationFailed` when `exchanged` is no public key or `local` is no valid
    /// secret key.
    pub fn new(ctx: &Ctx, exchanged: &PublicKey, local: &SecretKey) -> (r: Result<SharedSecret, Error>)
        ensures
            (pubkey_parsed(exchanged@) is None || !seckey_valid(local@)) ==> r == Err::<
                SharedSecret,
                Error,
            >(Error::OperationFailed),
            r matches Ok(ss) ==> ss@ == shared_secret_of(exchanged@, local@),
    {
        exchanged.decompress(ctx)?;
        if !secp_seckey_verify(ctx.as_ptr(), local.as_bytes()) {
            return Err(Error::OperationFailed);
        }
        match secp_ecdh(ctx.as_ptr(), exchanged.as_bytes(), local.as_bytes()) {
            Some(bytes) => Ok(SharedSecret { bytes }),
            None => Err(Error::OperationFailed),
        }
    }

    /// The secret's bytes.
    pub fn as_ptr(&self) -> (r: &[u8; 32])
        ensures
            r@ == self@,
    {
        &self.bytes
    }
}

impl PartialEq for SharedSecret {
    fn eq(&self, other: &Self) -> (r: bool) {
        let mut i: usize = 0;
        while i < 32
            invariant
                0 <= i <= 32,
                forall|j: int| 0 <= j < i ==> self.bytes@[j] == other.bytes@[j],
            decreases 32 - i,
        {
            if self.bytes[i] != other.bytes[i] {
                return false;
            }
            i += 1;
        }
        assert(self.bytes@ =~= other.bytes@);
        true
    }
}

impl vstd::std_specs::cmp::PartialEqSpecImpl for SharedSecret {
    open spec fn obeys_eq_spec() -> bool {
        true
    }

    open spec fn eq_spec(&self, other: &Self) -> bool {
        self@ == other@
    }
}

} // verus!
