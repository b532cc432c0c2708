use vstd::prelude::*;
use crate::base::error::Error;

verus! {

/// The SHA3-256 digest (FIPS 202) of a byte string.
pub uninterp spec fn sha3_256_spec(data: Seq<u8>) -> Seq<u8>;

/// Calls `sha3::Sha3_256::digest` (RustCrypto `sha3`); the contract claims only that the
/// digest is the function `sha3_256_spec` of the input bytes.
#[verifier::external_body]
fn sha3_256_digest(data: &[u8]) -> (r: [u8; 32])
    ensures
        r@ == sha3_256_spec(data@),
{
    <sha3::Sha3_256 as sha3::Digest>::digest(data).into()
}

/// A SHA3-256 hasher: the bytes fed so far, digested on `finalize`.
pub struct Sha3_256 {
    buf: Vec<u8>,
}

impl Sha3_256 {
    /// The bytes fed so far.
    pub closed spec fn view(&self) -> Seq<u8> {
        self.buf@
    }

    /// A hasher that has been fed nothing.
    pub fn new() -> (r: Self)
        ensures
            r@ == Seq::<u8>::empty(),
    {
        Sha3_256 { buf: Vec::new() }
    }

    /// Feeds more bytes.
    pub fn update(&mut self, data: &[u8])
        ensures
            final(self)@ == old(self)@ + data@,
    {
        let mut i: usize = 0;
        let ghost start = self.buf@;
        while i < data.len()
            invariant
                0 <= i <= data@.len(),
                self.buf@ == start + data@.take(i as int),
            decreases data@.len() - i,
        {
            self.buf.push(data[i]);
            i += 1;
            assert(self.buf@ =~= start + data@.take(i as int));
        }
        assert(data@.take(data@.len() as int) =~= data@);
    }

    /// The digest of everything fed so far.
    pub fn finalize(&self) -> (r: [u8; 32])
        ensures
            r@ == sha3_256_spec(self@),
    {
        sha3_256_digest(self.buf.as_slice())
    }
}

/// The SHA3-256 digest of `data`.
pub fn sha3_256(data: &[u8]) -> (r: [u8; 32])
    ensures
        r@ == sha3_256_spec(data@),
{
    sha3_256_digest(data)
}

/// The SHA3-384 digest (FIPS 202) of a byte string.
pub uninterp spec fn sha3_384_spec(data: Seq<u8>) -> Seq<u8>;

/// The SHA3-512 digest (FIPS 202) of a byte string.
pub uninterp spec fn sha3_512_spec(data: Seq<u8>) -> Seq<u8>;

/// Calls `sha3::Sha3_384::digest`; the contract claims only that the digest is the function
/// `sha3_384_spec` of the input bytes.
#[verifier::external_body]
fn sha3_384_digest(data: &[u8]) -> (r: [u8; 48])
    ensures
        r@ == sha3_384_spec(data@),
{
    <sha3::Sha3_384 as sha3::Digest>::digest(data).into()
}

/// Calls `sha3::Sha3_512::digest`; the contract claims only that the digest is the function
/// `sha3_512_spec` of the input bytes.
#[verifier::external_body]
fn sha3_512_digest(data: &[u8]) -> (r: [u8; 64])
    ensures
        r@ == sha3_512_spec(data@),
{
    <sha3::Sha3_512 as sha3::Digest>::digest(data).into()
}

/// The digest sizes of SHA3.
#[derive(Clone, Copy, Debug, PartialEq, Eq, Structural)]
pub enum Sha3ByteSize {
    Sha3_256,
    Sha3_384,
    Sha3_512,
}

/// The digest length, in bytes, of a SHA3 size.
pub open spec fn digest_len(size: Sha3ByteSize) -> nat {
    match size {
        Sha3ByteSize::Sha3_256 => 32,
        Sha3ByteSize::Sha3_384 => 48,
        Sha3ByteSize::Sha3_512 => 64,
    }
}

/// The digest of a SHA3 size.
pub open spec fn digest_of(size: Sha3ByteSize, data: Seq<u8>) -> Seq<u8> {
    match size {
        Sha3ByteSize::Sha3_256 => sha3_256_spec(data),
        Sha3ByteSize::Sha3_384 => sha3_384_spec(data),
        Sha3ByteSize::Sha3_512 => sha3_512_spec(data),
    }
}

/// A SHA3 hasher of a chosen digest size: the bytes fed so far, digested on `finalize`.
pub struct Sha3 {
    buf: Vec<u8>,
    byte_size: Sha3ByteSize,
}

impl Sha3 {
    /// The bytes fed so far.
    pub closed spec fn view(&self) -> Seq<u8> {
        self.buf@
    }

    /// The digest size.
    pub closed spec fn size(&self) -> Sha3ByteSize {
        self.byte_size
    }

    /// A hasher of the given size that has been fed nothing.
    pub fn new(byte_size: Sha3ByteSize) -> (r: Result<Self, Error>)
        ensures
            r matches Ok(h) && h@ == Seq::<u8>::empty() && h.size() == byte_size,
    {
        Ok(Sha3 { buf: Vec::new(), byte_size })
    }

    /// Feeds more bytes.
    pub fn update(&mut self, b: &[u8])
        ensures
            final(self)@ == old(self)@ + b@,
            final(self).size() == old(self).size(),
    {
        let mut i: usize = 0;
        let ghost start = self.buf@;
        while i < b.len()
            invariant
                0 <= i <= b@.len(),
                self.buf@ == start + b@.take(i as int),
                self.byte_size == old(self).byte_size,
            decreases b@.len() - i,
        {
            self.buf.push(b[i]);
            i += 1;
            assert(self.buf@ =~= start + b@.take(i as int));
        }
        assert(b@.take(b@.len() as int) =~= b@);
    }

    /// Writes the digest of everything fed so far into `b`, which must be exactly as long as
    /// the digest (else `IllegalArgument`, and `b` is left as it was).
    pub fn finalize(&mut self, b: &mut [u8]) -> (r: Result<(), Error>)
        ensures
            *final(self) == *old(self),
            old(b)@.len() == digest_len(old(self).size()) ==> r is Ok && final(b)@ == digest_of(
                old(self).size(), old(self)@),
            old(b)@.len() != digest_len(old(self).size()) ==> r == Err::<(), Error>(
                Error::IllegalArgument) && final(b)@ == old(b)@,
    {
        match self.byte_size {
            Sha3ByteSize::Sha3_256 => {
                if b.len() != 32 {
                    return Err(Error::IllegalArgument);
                }
                let d = sha3_256_digest(self.buf.as_slice());
                copy_into(&d, b);
            },
            Sha3ByteSize::Sha3_384 => {
                if b.len() != 48 {
                    return Err(Error::IllegalArgument);
                }
                let d = sha3_384_digest(self.buf.as_slice());
                copy_into(&d, b);
            },
            Sha3ByteSize::Sha3_512 => {
                if b.len() != 64 {
                    return Err(Error::IllegalArgument);
                }
                let d = sha3_512_digest(self.buf.as_slice());
                copy_into(&d, b);
            },
        }
        Ok(())
    }
}

/// Copies `src` over `dst`, which has the same length.
fn copy_into(src: &[u8], dst: &mut [u8])
    requires
        src@.len() == old(dst)@.len(),
    ensures
        final(dst)@ == src@,
{
    let mut i: usize = 0;
    while i < src.len()
        invariant
            src@.len() == dst@.len(),
            i <= src@.len(),
            forall|j: int| 0 <= j < i ==> dst@[j] == src@[j],
        decreases src@.len() - i,
    {
        dst[i] = src[i];
        i += 1;
    }
    assert(dst@ =~= src@);
}

} // verus!
