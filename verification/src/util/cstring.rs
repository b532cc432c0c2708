use vstd::prelude::*;
use vstd::string::StringSliceAdditionalSpecFns;
use vstd::utf8::*;
use crate::base::error::Error;

verus! {

/// The bytes of `s` before its first zero byte (all of them when it has none).
pub open spec fn until_nul(s: Seq<u8>) -> Seq<u8>
    decreases s.len(),
{
    if s.len() == 0 || s[0] == 0 {
        Seq::empty()
    } else {
        seq![s[0]] + until_nul(s.skip(1))
    }
}

/// `until_nul` stops at the first zero: it is a prefix free of zeros, followed by a zero
/// or by the end.
pub proof fn lemma_until_nul(s: Seq<u8>)
    ensures
        until_nul(s).len() <= s.len(),
        until_nul(s) == s.take(until_nul(s).len() as int),
        forall|j: int| 0 <= j < until_nul(s).len() ==> #[trigger] until_nul(s)[j] != 0,
        until_nul(s).len() < s.len() ==> s[until_nul(s).len() as int] == 0,
    decreases s.len(),
{
    if s.len() == 0 || s[0] == 0 {
        assert(s.take(0) =~= Seq::<u8>::empty());
    } else {
        lemma_until_nul(s.skip(1));
        let t = until_nul(s.skip(1));
        assert(s.take(t.len() as int + 1) =~= seq![s[0]] + s.skip(1).take(t.len() as int));
    }
}

/// A zero-terminated byte string, held as the bytes before its terminator.
pub struct CString {
    bytes: Vec<u8>,
}

impl CString {
    /// The bytes before the terminator.
    pub closed spec fn view(&self) -> Seq<u8> {
        self.bytes@
    }

    #[verifier::type_invariant]
    closed spec fn no_interior_nul(&self) -> bool {
        forall|j: int| 0 <= j < self.bytes@.len() ==> #[trigger] self.bytes@[j] != 0
    }

    /// A zero-terminated copy of `bytes`: what comes after a zero byte in it is not part of
    /// the string.
    pub fn from_slice(bytes: &[u8]) -> (r: Result<Self, Error>)
        ensures
            r matches Ok(c) && c@ == until_nul(bytes@),
    {
        proof { lemma_until_nul(bytes@); }
        let mut v: Vec<u8> = Vec::new();
        let mut i: usize = 0;
        while i < bytes.len() && bytes[i] != 0
            invariant
                i <= bytes@.len(),
                v@ == bytes@.take(i as int),
                forall|j: int| 0 <= j < i ==> bytes@[j] != 0,
            decreases bytes@.len() - i,
        {
            v.push(bytes[i]);
            i += 1;
            assert(v@ =~= bytes@.take(i as int));
        }
        proof {
            let u = until_nul(bytes@);
            if u.len() < i {
                assert(bytes@[u.len() as int] == 0);
            }
            if i < u.len() {
                assert(u[i as int] == bytes@[i as int]);
            }
            assert(v@ =~= u);
        }
        Ok(CString { bytes: v })
    }

    /// A zero-terminated copy of the text `s` (up to its first NUL character, if any).
    pub fn new(s: &str) -> (r: Result<Self, Error>)
        ensures
            r matches Ok(c) && c@ == until_nul(s.spec_bytes()),
    {
        Self::from_slice(s.as_bytes())
    }

    /// The number of bytes before the terminator.
    pub fn len(&self) -> (r: usize)
        ensures
            r == self@.len(),
    {
        self.bytes.len()
    }

    /// The byte at `index`, which must come before the terminator.
    pub fn index(&self, index: usize) -> (r: u8)
        requires
            index < self@.len(),
        ensures
            r == self@[index as int],
    {
        self.bytes[index]
    }

    /// A copy of the bytes before the terminator.
    pub fn as_bytes(&self) -> (r: Result<Vec<u8>, Error>)
        ensures
            r matches Ok(v) && v@ == self@,
    {
        Ok(self.bytes.clone())
    }

    /// The string as text: `Utf8Error` when its bytes are not valid UTF-8.
    pub fn as_str(&self) -> (r: Result<String, Error>)
        ensures
            valid_utf8(self@) ==> (r matches Ok(s) && encode_utf8(s@) == self@),
            !valid_utf8(self@) ==> r == Err::<String, Error>(Error::Utf8Error),
    {
        match str_from_utf8(self.bytes.as_slice()) {
            Some(s) => Ok(s.to_owned()),
            None => Err(Error::Utf8Error),
        }
    }

    /// Copies the bytes from `offset` to the end of the string into `slice`, which must be
    /// exactly that long: `OutOfBounds` (and `slice` untouched) otherwise.
    pub fn copy_to_slice(&self, slice: &mut [u8], offset: usize) -> (r: Result<(), Error>)
        ensures
            offset + old(slice)@.len() == self@.len() ==> r is Ok && final(slice)@ == self@.skip(
                offset as int),
            offset + old(slice)@.len() != self@.len() ==> r == Err::<(), Error>(Error::OutOfBounds)
                && final(slice)@ == old(slice)@,
    {
        let len = self.bytes.len();
        if offset > len || slice.len() != len - offset {
            return Err(Error::OutOfBounds);
        }
        let mut i: usize = 0;
        while i < slice.len()
            invariant
                offset + slice@.len() == len,
                len == self@.len(),
                i <= slice@.len(),
                slice@.len() == old(slice)@.len(),
                forall|j: int| 0 <= j < i ==> slice@[j] == self@[offset + j],
            decreases slice@.len() - i,
        {
            slice[i] = self.bytes[offset + i];
            i += 1;
        }
        assert(slice@ =~= self@.skip(offset as int));
        Ok(())
    }
}

/// `std::str::from_utf8`: the text whose UTF-8 encoding is `bytes`, when they are valid
/// UTF-8 (none otherwise).
#[verifier::external_body]
pub(crate) fn str_from_utf8(bytes: &[u8]) -> (r: Option<&str>)
    ensures
        r is Some <==> valid_utf8(bytes@),
        r matches Some(s) ==> s.spec_bytes() == bytes@,
{
    std::str::from_utf8(bytes).ok()
}

/// ASCII bytes are valid UTF-8.
pub proof fn lemma_ascii_valid_utf8(s: Seq<u8>)
    requires
        forall|i: int| 0 <= i < s.len() ==> #[trigger] s[i] < 128,
    ensures
        valid_utf8(s),
    decreases s.len(),
{
    if s.len() > 0 {
        assert(is_leading_byte_width_1(s[0]));
        assert(length_of_first_scalar(s) == 1);
        assert(pop_first_scalar(s) =~= s.skip(1));
        assert forall|i: int| 0 <= i < s.skip(1).len() implies #[trigger] s.skip(1)[i] < 128 by {
            assert(s.skip(1)[i] == s[i + 1]);
        }
        lemma_ascii_valid_utf8(s.skip(1));
    }
}

/// The text whose UTF-8 encoding is the ASCII bytes `bytes`.
pub fn ascii_text(bytes: &[u8]) -> (r: String)
    requires
        forall|i: int| 0 <= i < bytes@.len() ==> #[trigger] bytes@[i] < 128,
    ensures
        encode_utf8(r@) == bytes@,
{
    proof {
        lemma_ascii_valid_utf8(bytes@);
    }
    match str_from_utf8(bytes) {
        Some(s) => s.to_owned(),
        None => String::new(),
    }
}

} // verus!
