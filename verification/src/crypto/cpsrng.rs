use vstd::prelude::*;
use crate::base::error::Error;
use ctr::cipher::{KeyIvInit, StreamCipher, StreamCipherSeek};

verus! {

/// What AES-256 in counter mode (128-bit big-endian counter, RustCrypto `ctr` over `aes`)
/// makes of `data` when its keystream is taken from byte `offset` on: the data XORed with the
/// keystream.
pub uninterp spec fn aes_ctr_output(key: Seq<u8>, iv: Seq<u8>, offset: u64, data: Seq<u8>) -> Seq<u8>;

/// Builds `ctr::Ctr128BE<aes::Aes256>` from the key and IV, seeks to `offset` and applies the
/// keystream to `data` in place; the contract names the outcome `aes_ctr_output`.
#[verifier::external_body]
pub(crate) fn aes_ctr_apply(key: &[u8; 32], iv: &[u8; 16], offset: u64, data: &mut [u8])
    ensures
        final(data)@ == aes_ctr_output(key@, iv@, offset, old(data)@),
        final(data)@.len() == old(data)@.len(),
{
    let mut cipher = ctr::Ctr128BE::<aes::Aes256>::new(key.into(), iv.into());
    let _ = cipher.try_seek(offset);
    let _ = cipher.try_apply_keystream(data);
}

/// Calls `getrandom::getrandom` to fill `buf` from the system's source of randomness and
/// tells whether it succeeded; nothing is claimed of the bytes.
#[verifier::external_body]
fn fill_random(buf: &mut [u8]) -> (r: bool)
    ensures
        final(buf)@.len() == old(buf)@.len(),
{
    getrandom::getrandom(buf).is_ok()
}

/// A cryptographically secure pseudo-random generator: the AES-256-CTR keystream of a key and
/// IV, consumed from a running position.
pub struct Cpsrng {
    key: [u8; 32],
    iv: [u8; 16],
    offset: u64,
}

/// A fresh key and IV from the system's source of randomness; `InsufficientEntropy` when it
/// fails.
fn reseed_impl() -> (r: Result<([u8; 32], [u8; 16]), Error>)
    ensures
        r is Err ==> r == Err::<([u8; 32], [u8; 16]), Error>(Error::InsufficientEntropy),
{
    let mut key = [0u8; 32];
    let mut iv = [0u8; 16];
    if !fill_random(&mut key) {
        return Err(Error::InsufficientEntropy);
    }
    if !fill_random(&mut iv) {
        return Err(Error::InsufficientEntropy);
    }
    Ok((key, iv))
}

impl Cpsrng {
    /// The key.
    pub closed spec fn spec_key(&self) -> Seq<u8> {
        self.key@
    }

    /// The IV.
    pub closed spec fn spec_iv(&self) -> Seq<u8> {
        self.iv@
    }

    /// The position in the keystream of the next byte handed out.
    pub closed spec fn spec_offset(&self) -> u64 {
        self.offset
    }

    /// A generator seeded from the system's source of randomness, at the start of its
    /// keystream; `InsufficientEntropy` when the source fails.
    pub fn new() -> (r: Result<Self, Error>)
        ensures
            r matches Ok(g) ==> g.spec_offset() == 0,
            r is Err ==> r == Err::<Self, Error>(Error::InsufficientEntropy),
    {
        let (key, iv) = reseed_impl()?;
        Ok(Cpsrng { key, iv, offset: 0 })
    }

    /// Takes a fresh key and IV from the system's source of randomness and restarts the
    /// keystream; on failure (`InsufficientEntropy`) the generator is unchanged.
    pub fn reseed(&mut self) -> (r: Result<(), Error>)
        ensures
            r is Ok ==> final(self).spec_offset() == 0,
            r is Err ==> r == Err::<(), Error>(Error::InsufficientEntropy) && *final(self)
                == *old(self),
    {
        let (key, iv) = reseed_impl()?;
        self.key = key;
        self.iv = iv;
        self.offset = 0;
        Ok(())
    }

    /// XORs the next `bytes.len()` keystream bytes into `bytes` and moves the position past
    /// them (modulo 2^64).
    pub fn gen(&mut self, bytes: &mut [u8])
        ensures
            final(bytes)@ == aes_ctr_output(old(self).spec_key(), old(self).spec_iv(),
                old(self).spec_offset(), old(bytes)@),
            final(bytes)@.len() == old(bytes)@.len(),
            final(self).spec_key() == old(self).spec_key(),
            final(self).spec_iv() == old(self).spec_iv(),
            final(self).spec_offset() == (old(self).spec_offset() + old(bytes)@.len()) % 0x1_0000_0000_0000_0000,
    {
        let len = bytes.len() as u64;
        aes_ctr_apply(&self.key, &self.iv, self.offset, bytes);
        self.offset = self.offset.wrapping_add(len);
    }

    /// A generator with the given key and IV, at the start of its keystream.
    pub fn test_seed(key: [u8; 32], iv: [u8; 16]) -> (r: Result<Self, Error>)
        ensures
            r matches Ok(g) && g.spec_key() == key@ && g.spec_iv() == iv@ && g.spec_offset() == 0,
    {
        Ok(Cpsrng { key, iv, offset: 0 })
    }
}

/// Two generators with the same key, IV and position produce the same bytes from the same
/// input: the output is a function of the seed and position.
pub proof fn lemma_same_seed_same_output(g1: Cpsrng, g2: Cpsrng, data: Seq<u8>)
    requires
        g1.spec_key() == g2.spec_key(),
        g1.spec_iv() == g2.spec_iv(),
        g1.spec_offset() == g2.spec_offset(),
    ensures
        aes_ctr_output(g1.spec_key(), g1.spec_iv(), g1.spec_offset(), data) == aes_ctr_output(
            g2.spec_key(), g2.spec_iv(), g2.spec_offset(), data),
{
}

} // verus!
