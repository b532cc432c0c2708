use vstd::prelude::*;
use crate::base::error::Error;
use crate::base::misc::{be_value, lemma_be_bytes_u64_roundtrip, to_be_bytes_u64, u64_be_bytes};
use crate::crypto::ctx::Ctx;
use crate::crypto::pedersen::Commitment;
use crate::crypto::secp::{commit_pubkey, kernel_sig_verifies, secp_verify_completed};
use crate::crypto::sha3::{sha3_256_spec, Sha3_256};
use crate::crypto::signature::{Message, Signature};

verus! {

/// The message a kernel signs: SHA3-256 of the excess, the fee as eight big-endian bytes and
/// the feature byte.
pub open spec fn kernel_message(excess: Seq<u8>, fee: u64, features: u8) -> Seq<u8> {
    sha3_256_spec(excess + u64_be_bytes(fee) + seq![features])
}

/// A kernel signs SHA3-256 of 42 bytes: its 33-byte excess, then its fee as eight bytes with
/// the most significant first, then its feature byte.
pub proof fn lemma_kernel_message_input(excess: Seq<u8>, fee: u64, features: u8)
    requires
        excess.len() == 33,
    ensures
        exists|input: Seq<u8>| #[trigger] sha3_256_spec(input) == kernel_message(excess, fee, features)
            && input.len() == 42 && input.subrange(0, 33) == excess
            && be_value(input.subrange(33, 41)) == fee && input[41] == features,
{
    let input = excess + u64_be_bytes(fee) + seq![features];
    assert(input.subrange(0, 33) =~= excess);
    assert(input.subrange(33, 41) =~= u64_be_bytes(fee));
    lemma_be_bytes_u64_roundtrip(fee);
    assert(sha3_256_spec(input) == kernel_message(excess, fee, features));
}

/// A transaction kernel: the excess commitment, its signature, the fee and the feature
/// flags.
#[derive(Clone, Copy, Debug, PartialEq, Eq, PartialOrd, Ord)]
pub struct Kernel {
    excess: Commitment,
    signature: Signature,
    fee: u64,
    features: u8,
}

/// A kernel's fields as plain values: the excess, the signature, the fee and the features.
pub struct KernelView {
    pub excess: Seq<u8>,
    pub signature: Seq<u8>,
    pub fee: u64,
    pub features: u8,
}

/// The bytes by which kernels are ordered: excess, signature, fee (big-endian) and features;
/// comparing them byte by byte orders kernels by their fields in that order.
pub open spec fn kernel_key(k: KernelView) -> Seq<u8> {
    k.excess + k.signature + u64_be_bytes(k.fee) + seq![k.features]
}

impl Kernel {
    /// The kernel's fields as plain values.
    pub closed spec fn view(&self) -> KernelView {
        KernelView {
            excess: self.excess@,
            signature: self.signature@,
            fee: self.fee,
            features: self.features,
        }
    }

    /// The excess commitment.
    pub closed spec fn spec_excess(&self) -> Commitment {
        self.excess
    }

    /// A kernel's ordering bytes are 106 long.
    pub proof fn lemma_key_len(&self)
        ensures
            kernel_key(self@).len() == 106,
            self@.excess.len() == 33,
            self@.signature.len() == 64,
    {
        self.excess.lemma_view_len();
        self.signature.lemma_view_len();
    }

    /// The message the kernel's signature is for.
    pub open spec fn spec_message(&self) -> Seq<u8> {
        kernel_message(self@.excess, self@.fee, self@.features)
    }

    /// A kernel with the given parts.
    pub fn new(excess: Commitment, signature: Signature, fee: u64, features: u8) -> (r: Self)
        ensures
            r@ == (KernelView { excess: excess@, signature: signature@, fee, features }),
            r.spec_excess() == excess,
    {
        Kernel { excess, signature, fee, features }
    }

    /// The fee.
    pub fn fee(&self) -> (r: u64)
        ensures
            r == self@.fee,
    {
        self.fee
    }

    /// The signature.
    pub fn signature(&self) -> (r: &Signature)
        ensures
            r@ == self@.signature,
    {
        &self.signature
    }

    /// The excess commitment.
    pub fn excess(&self) -> (r: &Commitment)
        ensures
            r@ == self@.excess,
            *r == self.spec_excess(),
    {
        &self.excess
    }

    /// The feature flags.
    pub fn features(&self) -> (r: u8)
        ensures
            r == self@.features,
    {
        self.features
    }

    /// Checks the signature of the kernel's message under the public key of its excess:
    /// `OperationFailed` when the excess is no commitment, `ValidationFailed` when the
    /// signature does not verify.
    pub fn validate(&self, ctx: &Ctx) -> (r: Result<(), Error>)
        ensures
            commit_pubkey(self@.excess) is None ==> r == Err::<(), Error>(Error::OperationFailed),
            commit_pubkey(self@.excess) matches Some(pk) ==> (r is Ok <==> kernel_sig_verifies(
                self@.signature, self.spec_message(), pk)),
            commit_pubkey(self@.excess) is Some && r is Err ==> r == Err::<(), Error>(
                Error::ValidationFailed),
    {
        let msg = self.message();
        let excess = self.excess.to_pubkey(ctx)?;
        if secp_verify_completed(ctx.as_ptr(), self.signature.as_bytes(), msg.as_bytes(), excess.as_bytes()) {
            Ok(())
        } else {
            Err(Error::ValidationFailed)
        }
    }

    /// The message the kernel's signature is for (see `message_for`).
    pub fn message(&self) -> (r: Message)
        ensures
            r@ == self.spec_message(),
    {
        Self::message_for(&self.excess, self.fee, self.features)
    }

    /// The message a kernel with the given excess, fee and features signs (see
    /// `kernel_message`).
    pub fn message_for(excess: &Commitment, fee: u64, features: u8) -> (r: Message)
        ensures
            r@ == kernel_message(excess@, fee, features),
    {
        let mut sha3 = Sha3_256::new();
        sha3.update(excess.as_bytes());
        let mut buf64 = [0u8; 8];
        to_be_bytes_u64(fee, &mut buf64);
        sha3.update(&buf64);
        let feat = [features];
        sha3.update(&feat);
        proof {
            assert(feat@ =~= seq![features]);
        }
        Message::new(sha3.finalize())
    }

    /// Feeds the kernel's message to a hasher.
    pub fn sha3(&self, sha3: &mut Sha3_256)
        ensures
            final(sha3)@ == old(sha3)@ + self.spec_message(),
    {
        let msg = self.message();
        sha3.update(msg.as_bytes());
    }
}

/// Lexicographic order on byte strings of equal length: the first differing byte decides.
pub open spec fn bytes_lt(a: Seq<u8>, b: Seq<u8>) -> bool
    decreases a.len(),
{
    if a.len() == 0 || b.len() == 0 {
        false
    } else if a[0] < b[0] {
        true
    } else if a[0] > b[0] {
        false
    } else {
        bytes_lt(a.skip(1), b.skip(1))
    }
}

/// The order is transitive.
pub proof fn lemma_bytes_lt_transitive(a: Seq<u8>, b: Seq<u8>, c: Seq<u8>)
    requires
        bytes_lt(a, b),
        bytes_lt(b, c),
    ensures
        bytes_lt(a, c),
    decreases a.len(),
{
    if a[0] == b[0] && b[0] == c[0] {
        lemma_bytes_lt_transitive(a.skip(1), b.skip(1), c.skip(1));
    }
}

/// The order is strict.
pub proof fn lemma_bytes_lt_irreflexive(a: Seq<u8>)
    ensures
        !bytes_lt(a, a),
    decreases a.len(),
{
    if a.len() > 0 {
        lemma_bytes_lt_irreflexive(a.skip(1));
    }
}

/// Any two different strings of one length are ordered one way or the other.
pub proof fn lemma_bytes_lt_total(a: Seq<u8>, b: Seq<u8>)
    requires
        a.len() == b.len(),
        a != b,
    ensures
        bytes_lt(a, b) || bytes_lt(b, a),
    decreases a.len(),
{
    if a.len() == 0 {
        assert(a =~= b);
    } else if a[0] == b[0] {
        if a.skip(1) == b.skip(1) {
            assert(a =~= seq![a[0]] + a.skip(1));
            assert(b =~= seq![b[0]] + b.skip(1));
        }
        lemma_bytes_lt_total(a.skip(1), b.skip(1));
    }
}

/// Comparing two strings that start with parts of one length compares those parts first,
/// then what follows them.
proof fn lemma_bytes_lt_concat(x1: Seq<u8>, y1: Seq<u8>, x2: Seq<u8>, y2: Seq<u8>)
    requires
        x1.len() == x2.len(),
    ensures
        bytes_lt(x1 + y1, x2 + y2) == (bytes_lt(x1, x2) || (x1 == x2 && bytes_lt(y1, y2))),
    decreases x1.len(),
{
    if x1.len() == 0 {
        assert(x1 + y1 =~= y1);
        assert(x2 + y2 =~= y2);
        assert(x1 =~= x2);
    } else {
        let a = x1 + y1;
        let b = x2 + y2;
        assert(a[0] == x1[0] && b[0] == x2[0]);
        assert(a.skip(1) =~= x1.skip(1) + y1);
        assert(b.skip(1) =~= x2.skip(1) + y2);
        lemma_bytes_lt_concat(x1.skip(1), y1, x2.skip(1), y2);
        if x1[0] == x2[0] {
            if x1.skip(1) == x2.skip(1) {
                assert(x1 =~= seq![x1[0]] + x1.skip(1));
                assert(x2 =~= seq![x2[0]] + x2.skip(1));
            }
            if x1 == x2 {
                assert(x1.skip(1) =~= x2.skip(1));
            }
        } else {
            assert(x1 != x2);
        }
    }
}

/// One-byte strings are ordered by their byte.
proof fn lemma_bytes_lt_single(x: u8, y: u8)
    ensures
        bytes_lt(seq![x], seq![y]) == (x < y),
{
    reveal_with_fuel(bytes_lt, 2);
    assert(seq![x].skip(1).len() == 0);
    assert(seq![y].skip(1).len() == 0);
}

/// On strings of one length, the byte order is the order of their big-endian values.
proof fn lemma_bytes_lt_be_value(a: Seq<u8>, b: Seq<u8>)
    requires
        a.len() == b.len(),
    ensures
        bytes_lt(a, b) == (be_value(a) < be_value(b)),
        be_value(a) == be_value(b) ==> a == b,
    decreases a.len(),
{
    if a.len() == 0 {
        assert(a =~= b);
    } else {
        let a1 = a.drop_last();
        let b1 = b.drop_last();
        lemma_bytes_lt_be_value(a1, b1);
        lemma_bytes_lt_concat(a1, seq![a.last()], b1, seq![b.last()]);
        assert(a1 + seq![a.last()] =~= a);
        assert(b1 + seq![b.last()] =~= b);
        lemma_bytes_lt_single(a.last(), b.last());
        assert(be_value(a) == be_value(a1) * 256 + a.last());
        assert(be_value(b) == be_value(b1) * 256 + b.last());
        if be_value(a1) == be_value(b1) && a.last() == b.last() {
            assert(a1 == b1);
        }
    }
}

/// Kernels are ordered by their excess, then their signature (both byte by byte), then their
/// fee as a number, then their feature byte: the order of their fields.
pub proof fn lemma_kernel_order(k1: KernelView, k2: KernelView)
    requires
        k1.excess.len() == 33,
        k2.excess.len() == 33,
        k1.signature.len() == 64,
        k2.signature.len() == 64,
    ensures
        bytes_lt(kernel_key(k1), kernel_key(k2)) == (bytes_lt(k1.excess, k2.excess) || (k1.excess == k2.excess
            && (bytes_lt(k1.signature, k2.signature) || (k1.signature == k2.signature && (k1.fee < k2.fee
            || (k1.fee == k2.fee && k1.features < k2.features)))))),
{
    let f1 = u64_be_bytes(k1.fee);
    let f2 = u64_be_bytes(k2.fee);
    let x1 = seq![k1.features];
    let x2 = seq![k2.features];
    assert(kernel_key(k1) =~= k1.excess + (k1.signature + (f1 + x1)));
    assert(kernel_key(k2) =~= k2.excess + (k2.signature + (f2 + x2)));
    lemma_bytes_lt_concat(k1.excess, k1.signature + (f1 + x1), k2.excess, k2.signature + (f2 + x2));
    lemma_bytes_lt_concat(k1.signature, f1 + x1, k2.signature, f2 + x2);
    lemma_bytes_lt_concat(f1, x1, f2, x2);
    lemma_bytes_lt_be_value(f1, f2);
    lemma_be_bytes_u64_roundtrip(k1.fee);
    lemma_be_bytes_u64_roundtrip(k2.fee);
    lemma_bytes_lt_single(k1.features, k2.features);
    if f1 == f2 {
        assert(k1.fee == k2.fee);
    }
}

/// Byte-string order: whether `a` comes before `b`.
pub fn bytes_less(a: &[u8], b: &[u8]) -> (r: bool)
    requires
        a@.len() == b@.len(),
    ensures
        r == bytes_lt(a@, b@),
{
    let mut i: usize = 0;
    assert(a@.skip(0) =~= a@);
    assert(b@.skip(0) =~= b@);
    while i < a.len()
        invariant
            a@.len() == b@.len(),
            i <= a@.len(),
            a@.take(i as int) == b@.take(i as int),
            bytes_lt(a@, b@) == bytes_lt(a@.skip(i as int), b@.skip(i as int)),
        decreases a@.len() - i,
    {
        let ghost sa = a@.skip(i as int);
        let ghost sb = b@.skip(i as int);
        assert(sa.skip(1) =~= a@.skip(i + 1));
        assert(sb.skip(1) =~= b@.skip(i + 1));
        if a[i] < b[i] {
            return true;
        }
        if a[i] > b[i] {
            return false;
        }
        assert(a@.take(i + 1) =~= a@.take(i as int).push(a@[i as int]));
        assert(b@.take(i + 1) =~= b@.take(i as int).push(b@[i as int]));
        i += 1;
    }
    false
}

/// The ordering bytes of a kernel (see `kernel_key`).
pub fn kernel_key_bytes(k: &Kernel) -> (r: Vec<u8>)
    ensures
        r@ == kernel_key(k@),
{
    let mut out: Vec<u8> = Vec::new();
    let mut i: usize = 0;
    let e = k.excess.as_bytes();
    while i < 33
        invariant
            i <= 33,
            e@ == k@.excess,
            out@ == k@.excess.take(i as int),
        decreases 33 - i,
    {
        out.push(e[i]);
        i += 1;
        assert(out@ =~= k@.excess.take(i as int));
    }
    assert(k@.excess.take(33) =~= k@.excess);
    let s = k.signature.as_bytes();
    let mut i: usize = 0;
    while i < 64
        invariant
            i <= 64,
            s@ == k@.signature,
            out@ == k@.excess + k@.signature.take(i as int),
        decreases 64 - i,
    {
        out.push(s[i]);
        i += 1;
        assert(out@ =~= k@.excess + k@.signature.take(i as int));
    }
    assert(k@.signature.take(64) =~= k@.signature);
    let mut fee = [0u8; 8];
    to_be_bytes_u64(k.fee, &mut fee);
    let mut i: usize = 0;
    while i < 8
        invariant
            i <= 8,
            fee@ == u64_be_bytes(k@.fee),
            out@ == k@.excess + k@.signature + fee@.take(i as int),
        decreases 8 - i,
    {
        out.push(fee[i]);
        i += 1;
        assert(out@ =~= k@.excess + k@.signature + fee@.take(i as int));
    }
    assert(fee@.take(8) =~= fee@);
    out.push(k.features);
    assert(out@ =~= kernel_key(k@));
    out
}

} // verus!
