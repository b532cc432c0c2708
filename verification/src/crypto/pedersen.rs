use vstd::prelude::*;
use crate::base::error::Error;
use crate::base::misc::{bytes_to_hex_33, is_hex_of, lemma_hex_ascii};
use crate::util::cstring::ascii_text;
use vstd::utf8::encode_utf8;
use crate::crypto::ctx::Ctx;
use crate::crypto::keys::PublicKey;
use crate::crypto::secp::{commit_pubkey, commit_total, secp_commit_sum, secp_commit_to_pubkey};

verus! {

/// A Pedersen commitment in its 33-byte serialized form.
#[derive(Clone, Copy, Debug, Hash, Ord)]
pub struct Commitment {
    bytes: [u8; 33],
}

/// A commitment in the curve library's internal 64-byte form.
#[derive(Clone, Copy, Debug)]
pub struct CommitmentUncompressed {
    bytes: [u8; 64],
}

impl CommitmentUncompressed {
    /// The commitment's bytes.
    pub closed spec fn view(&self) -> Seq<u8> {
        self.bytes@
    }

    /// The all-zero value.
    pub fn zero() -> (r: Self)
        ensures
            r@ == Seq::new(64, |i: int| 0u8),
    {
        let bytes = [0u8; 64];
        assert(bytes@ =~= Seq::new(64, |i: int| 0u8));
        CommitmentUncompressed { bytes }
    }
}

impl Commitment {
    /// The commitment's bytes.
    pub closed spec fn view(&self) -> Seq<u8> {
        self.bytes@
    }

    /// The serialized form is 33 bytes long.
    pub proof fn lemma_view_len(&self)
        ensures
            self@.len() == 33,
    {
    }

    /// The all-zero value.
    pub fn zero() -> (r: Self)
        ensures
            r@ == Seq::new(33, |i: int| 0u8),
    {
        let bytes = [0u8; 33];
        assert(bytes@ =~= Seq::new(33, |i: int| 0u8));
        Commitment { bytes }
    }

    /// A commitment with the given serialized bytes.
    pub fn from_bytes(bytes: [u8; 33]) -> (r: Self)
        ensures
            r@ == bytes@,
    {
        Commitment { bytes }
    }

    /// The serialized bytes, as the curve library takes them.
    pub fn as_raw(&self) -> (r: [u8; 33])
        ensures
            r@ == self@,
    {
        self.bytes
    }

    /// The commitment as 66 lower-case hex digits.
    pub fn to_string(&self) -> (r: String)
        ensures
            is_hex_of(encode_utf8(r@), self@),
    {
        let hex = bytes_to_hex_33(&self.bytes);
        proof { lemma_hex_ascii(hex@, self@); }
        ascii_text(&hex)
    }

    /// The serialized bytes.
    pub fn as_bytes(&self) -> (r: &[u8; 33])
        ensures
            r@ == self@,
    {
        &self.bytes
    }

    /// The public key the commitment stands for; `OperationFailed` when it is no
    /// commitment.
    pub fn to_pubkey(&self, ctx: &Ctx) -> (r: Result<PublicKey, Error>)
        ensures
            match commit_pubkey(self@) {
                Some(v) => r matches Ok(k) && k@ == v,
                None => r == Err::<PublicKey, Error>(Error::OperationFailed),
            },
    {
        match secp_commit_to_pubkey(ctx.secp(), &self.bytes) {
            Some(bytes) => Ok(PublicKey::from_bytes(bytes)),
            None => Err(Error::OperationFailed),
        }
    }

    /// The sum of two commitments; `OperationFailed` when either is no commitment or the sum
    /// cannot be formed.
    pub fn combine(&self, ctx: &Ctx, other: &Commitment) -> (r: Result<Commitment, Error>)
        ensures
            match commit_total(seq![self@, other@], Seq::empty()) {
                Some(v) => r matches Ok(c) && c@ == v,
                None => r == Err::<Commitment, Error>(Error::OperationFailed),
            },
    {
        let mut pos: Vec<[u8; 33]> = Vec::new();
        pos.push(self.bytes);
        pos.push(other.bytes);
        let neg: Vec<[u8; 33]> = Vec::new();
        proof {
            assert(pos@.map_values(|x: [u8; 33]| x@) =~= seq![self@, other@]);
            assert(neg@.map_values(|x: [u8; 33]| x@) =~= Seq::<Seq<u8>>::empty());
        }
        match secp_commit_sum(ctx.secp(), &pos, &neg) {
            Some(bytes) => Ok(Commitment { bytes }),
            None => Err(Error::OperationFailed),
        }
    }
}

impl PartialEq for Commitment {
    fn eq(&self, other: &Self) -> (r: bool) {
        let mut i: usize = 0;
        while i < 33
            invariant
                0 <= i <= 33,
                forall|j: int| 0 <= j < i ==> self.bytes@[j] == other.bytes@[j],
            decreases 33 - i,
        {
            if self.bytes[i] != other.bytes[i] {
                return false;
            }
            i += 1;
        }
        assert(self.bytes@ =~= other.bytes@);
        true
    }
}

impl vstd::std_specs::cmp::PartialEqSpecImpl for Commitment {
    open spec fn obeys_eq_spec() -> bool {
        true
    }

    open spec fn eq_spec(&self, other: &Self) -> bool {
        self@ == other@
    }
}

} // verus!
