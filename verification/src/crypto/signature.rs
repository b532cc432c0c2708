use vstd::prelude::*;
use crate::base::misc::{bytes_to_hex_64, is_hex_of, lemma_hex_ascii};
use crate::util::cstring::ascii_text;
use vstd::utf8::encode_utf8;

verus! {

/// A 64-byte signature.
#[derive(Clone, Copy, Debug, Hash, Ord)]
pub struct Signature {
    bytes: [u8; 64],
}

/// A 32-byte message to be signed.
#[derive(Clone, Copy, Debug)]
pub struct Message {
    bytes: [u8; 32],
}

impl Signature {
    /// The signature's bytes.
    pub closed spec fn view(&self) -> Seq<u8> {
        self.bytes@
    }

    /// The serialized form is 64 bytes long.
    pub proof fn lemma_view_len(&self)
        ensures
            self@.len() == 64,
    {
    }

    /// The all-zero signature.
    pub fn new() -> (r: Self)
        ensures
            r@ == Seq::new(64, |i: int| 0u8),
    {
        let bytes = [0u8; 64];
        assert(bytes@ =~= Seq::new(64, |i: int| 0u8));
        Signature { bytes }
    }

    /// A signature with the given bytes.
    pub fn from_bytes(bytes: [u8; 64]) -> (r: Self)
        ensures
            r@ == bytes@,
    {
        Signature { bytes }
    }

    /// The signature as 128 lower-case hex digits.
    pub fn to_string(&self) -> (r: String)
        ensures
            is_hex_of(encode_utf8(r@), self@),
    {
        let hex = bytes_to_hex_64(&self.bytes);
        proof { lemma_hex_ascii(hex@, self@); }
        ascii_text(&hex)
    }

    /// The signature's bytes.
    pub fn as_bytes(&self) -> (r: &[u8; 64])
        ensures
            r@ == self@,
    {
        &self.bytes
    }
}

impl Message {
    /// The message's bytes.
    pub closed spec fn view(&self) -> Seq<u8> {
        self.bytes@
    }

    /// A message with the given bytes.
    pub fn new(v: [u8; 32]) -> (r: Self)
        ensures
            r@ == v@,
    {
        Message { bytes: v }
    }

    /// The all-zero message.
    pub fn zero() -> (r: Self)
        ensures
            r@ == Seq::new(32, |i: int| 0u8),
    {
        let bytes = [0u8; 32];
        assert(bytes@ =~= Seq::new(32, |i: int| 0u8));
        Message { bytes }
    }

    /// The message's bytes.
    pub fn as_bytes(&self) -> (r: &[u8; 32])
        ensures
            r@ == self@,
    {
        &self.bytes
    }
}

impl PartialEq for Signature {
    fn eq(&self, other: &Self) -> (r: bool) {
        let mut i: usize = 0;
        while i < 64
            invariant
                0 <= i <= 64,
                forall|j: int| 0 <= j < i ==> self.bytes@[j] == other.bytes@[j],
            decreases 64 - i,
        {
            if self.bytes[i] != other.bytes[i] {
                return false;
            }
            i += 1;
        }
        assert(self.bytes@ =~= other.bytes@);
        true
    }
}

impl vstd::std_specs::cmp::PartialEqSpecImpl for Signature {
    open spec fn obeys_eq_spec() -> bool {
        true
    }

    open spec fn eq_spec(&self, other: &Self) -> bool {
        self@ == other@
    }
}

impl PartialEq for Message {
    fn eq(&self, other: &Self) -> (r: bool) {
        let mut i: usize = 0;
        while i < 32
            invariant
                0 <= i <= 32,
                forall|j: int| 0 <= j < i ==> self.bytes@[j] == other.bytes@[j],
            decreases 32 - i,
        {
            if self.bytes[i] != other.bytes[i] {
                return false;
            }
            i += 1;
        }
        assert(self.bytes@ =~= other.bytes@);
        true
    }
}

impl vstd::std_specs::cmp::PartialEqSpecImpl for Message {
    open spec fn obeys_eq_spec() -> bool {
        true
    }

    open spec fn eq_spec(&self, other: &Self) -> bool {
        self@ == other@
    }
}

} // verus!
