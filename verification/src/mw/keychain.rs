use vstd::prelude::*;
use crate::base::error::Error;
use crate::base::misc::{slice_copy, subslice, to_le_bytes_u64, u64_le_bytes};
use crate::crypto::cpsrng::{aes_ctr_apply, aes_ctr_output};
use crate::crypto::ctx::Ctx;
use crate::crypto::keys::SecretKey;
use crate::crypto::secp::{secp_seckey_verify, seckey_valid};

verus! {

/// The IV a key path selects: both path numbers as eight little-endian bytes each.
pub open spec fn path_iv(path: [u64; 2]) -> Seq<u8> {
    u64_le_bytes(path[0]) + u64_le_bytes(path[1])
}

/// The key derived for a path: the first 32 bytes of the AES-256-CTR keystream of the chain's
/// key under the path's IV.
pub open spec fn derived_bytes(key: Seq<u8>, path: [u64; 2]) -> Seq<u8> {
    aes_ctr_output(key, path_iv(path), 0, Seq::new(32, |i: int| 0u8))
}

/// A deterministic key chain: an AES-256 key from which secret keys are derived by path.
pub struct KeyChain {
    key: [u8; 32],
    iv: [u8; 16],
}

impl KeyChain {
    /// The chain's AES key.
    pub closed spec fn spec_key(&self) -> Seq<u8> {
        self.key@
    }

    /// The chain's initial IV.
    pub closed spec fn spec_iv(&self) -> Seq<u8> {
        self.iv@
    }

    /// A key chain whose key is the first 32 bytes of the seed and whose IV the last 16.
    pub fn from_seed(seed: [u8; 48]) -> (r: Result<Self, Error>)
        ensures
            r matches Ok(kc) && kc.spec_key() == seed@.subrange(0, 32) && kc.spec_iv()
                == seed@.subrange(32, 48),
    {
        let mut key = [0u8; 32];
        let mut iv = [0u8; 16];
        let seed_key = subslice(&seed, 0, 32)?;
        let seed_iv = subslice(&seed, 32, 16)?;
        slice_copy(seed_key, &mut key, 32)?;
        slice_copy(seed_iv, &mut iv, 16)?;
        assert(key@ =~= seed@.subrange(0, 32));
        assert(iv@ =~= seed@.subrange(32, 48));
        Ok(KeyChain { key, iv })
    }

    /// The secret key for a path (see `derived_bytes`); `OperationFailed` when those bytes
    /// are no valid secret key.
    pub fn derive_key(&self, ctx: &Ctx, path: &[u64; 2]) -> (r: Result<SecretKey, Error>)
        ensures
            seckey_valid(derived_bytes(self.spec_key(), *path)) ==> (r matches Ok(k) && k@
                == derived_bytes(self.spec_key(), *path)),
            !seckey_valid(derived_bytes(self.spec_key(), *path)) ==> r == Err::<SecretKey, Error>(
                Error::OperationFailed),
    {
        let mut iv = [0u8; 16];
        let mut first = [0u8; 8];
        let mut second = [0u8; 8];
        let _ = to_le_bytes_u64(path[0], &mut first);
        let _ = to_le_bytes_u64(path[1], &mut second);
        let mut i: usize = 0;
        while i < 8
            invariant
                i <= 8,
                first@ == u64_le_bytes(path[0]),
                second@ == u64_le_bytes(path[1]),
                iv@.len() == 16,
                forall|j: int| 0 <= j < i ==> iv@[j] == first@[j] && iv@[j + 8] == second@[j],
            decreases 8 - i,
        {
            iv[i] = first[i];
            iv[i + 8] = second[i];
            i += 1;
        }
        assert(iv@ =~= path_iv(*path));
        let mut skey = [0u8; 32];
        assert(skey@ =~= Seq::new(32, |i: int| 0u8));
        aes_ctr_apply(&self.key, &iv, 0, &mut skey);
        if secp_seckey_verify(ctx.as_ptr(), &skey) {
            Ok(SecretKey::from_scalar(skey))
        } else {
            Err(Error::OperationFailed)
        }
    }
}

} // verus!
