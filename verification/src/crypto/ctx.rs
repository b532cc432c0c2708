use vstd::prelude::*;
use crate::base::error::Error;
use crate::crypto::cpsrng::{aes_ctr_output, Cpsrng};
use crate::crypto::keys::{drawn_end, drawn_key, PublicKey, SecretKey};
use crate::crypto::pedersen::Commitment;
use crate::crypto::range_proof::{RangeProof, MAX_PROOF_SIZE};
use crate::crypto::secp::{
    aggsig_verifies, blind_total, commit_of, commits_balance, pubkey_parsed, range_proof_verifies,
    scalar_ok, secp_add_signatures, secp_blind_sum, secp_bullet_proof, secp_commit, secp_context,
    secp_seckey_verify, secp_sign_single, secp_rewind_bullet_proof, range_proof_rewound, secp_verify_bullet_proof, secp_verify_commit_sum,
    secp_verify_single, seckey_valid, signatures_total, schnorr_sig_of, bullet_proof_of, CommitContext,
};
use crate::crypto::signature::{Message, Signature};
use crate::base::misc::be_value;

verus! {

/// The cryptographic context: the curve library's context and a secure random generator.
pub struct Ctx {
    secp: CommitContext,
    rng: Cpsrng,
}

impl Ctx {
    /// The random generator.
    pub closed spec fn rng(&self) -> Cpsrng {
        self.rng
    }

    /// A context whose generator is seeded from the system's source of randomness;
    /// `InsufficientEntropy` when that fails.
    pub fn new() -> (r: Result<Self, Error>)
        ensures
            r matches Ok(c) ==> c.rng().spec_offset() == 0,
            r is Err ==> r == Err::<Self, Error>(Error::InsufficientEntropy),
    {
        let rng = Cpsrng::new()?;
        Ok(Ctx { secp: secp_context(), rng })
    }

    /// A context whose generator has the given key and IV.
    pub fn seed(key: [u8; 32], iv: [u8; 16]) -> (r: Result<Self, Error>)
        ensures
            r matches Ok(c) && c.rng().spec_key() == key@ && c.rng().spec_iv() == iv@
                && c.rng().spec_offset() == 0,
    {
        let rng = Cpsrng::test_seed(key, iv)?;
        Ok(Ctx { secp: secp_context(), rng })
    }

    /// XORs the next keystream bytes of the generator into `b` (see `Cpsrng::gen`).
    pub fn gen(&mut self, b: &mut [u8])
        ensures
            final(b)@ == aes_ctr_output(old(self).rng().spec_key(), old(self).rng().spec_iv(),
                old(self).rng().spec_offset(), old(b)@),
            final(b)@.len() == old(b)@.len(),
            final(self).rng().spec_key() == old(self).rng().spec_key(),
            final(self).rng().spec_iv() == old(self).rng().spec_iv(),
            final(self).rng().spec_offset() == (old(self).rng().spec_offset() + old(b)@.len())
                % 0x1_0000_0000_0000_0000,
    {
        self.rng.gen(b);
    }

    /// The curve library's context.
    pub(crate) fn secp(&self) -> (r: &secp256k1zkp::Secp256k1)
        ensures
            *r == self.spec_curve(),
    {
        self.secp.curve()
    }

    /// The curve library's context.
    pub fn as_ptr(&self) -> (r: &secp256k1zkp::Secp256k1)
        ensures
            *r == self.spec_curve(),
    {
        self.secp.curve()
    }
}

/// A holder of the curve library's context.
pub trait CurveContext {
    /// The curve library's context that the holder keeps.
    spec fn spec_curve(&self) -> secp256k1zkp::Secp256k1;

    /// The curve library's context.
    fn curve(&self) -> (r: &secp256k1zkp::Secp256k1)
        ensures
            *r == self.spec_curve();

    /// The context that signs, verifies and commits.
    fn commit_context(&self) -> (r: &CommitContext)
        ensures
            r.spec_inner() == self.spec_curve();
}

impl CurveContext for Ctx {
    closed spec fn spec_curve(&self) -> secp256k1zkp::Secp256k1 {
        self.secp.spec_inner()
    }

    fn curve(&self) -> (r: &secp256k1zkp::Secp256k1) {
        self.secp.curve()
    }

    fn commit_context(&self) -> (r: &CommitContext) {
        &self.secp
    }
}

/// The most signatures that `aggregate_signatures` adds.
pub const MAX_AGGREGATE_SIGNATURES: usize = 16;

/// The most keys that `blind_sum` takes.
pub const BLIND_SUM_MAX_KEYS: usize = 64;

/// The serialized commitments of a list of commitments.
pub open spec fn commit_views(v: Seq<Commitment>) -> Seq<Seq<u8>> {
    v.map_values(|c: Commitment| c@)
}

/// The bytes of a list of secret keys.
pub open spec fn key_views(v: Seq<&SecretKey>) -> Seq<Seq<u8>> {
    v.map_values(|k: &SecretKey| k@)
}

/// The bytes of a list of signatures.
pub open spec fn sig_views(v: Seq<&Signature>) -> Seq<Seq<u8>> {
    v.map_values(|s: &Signature| s@)
}

/// What `verify_balance` checks, for every blinding factor `b` that it may draw: the
/// positive commitments and a commitment to the negated overage balance the negative ones
/// and a commitment to the overage (both blinded by `b`).
pub open spec fn balances_with(pos: Seq<Seq<u8>>, neg: Seq<Seq<u8>>, overage: i128, b: Seq<u8>) -> bool {
    let p: u64 = if overage < 0 { (-overage) as u64 } else { 0 };
    let n: u64 = if overage > 0 { overage as u64 } else { 0 };
    commits_balance(pos.push(commit_of(p, b)), neg.push(commit_of(n, b)))
}

impl Ctx {
    /// The Pedersen commitment to `v` blinded by `blind`; `OperationFailed` when the curve
    /// library refuses.
    pub fn commit(&self, v: u64, blind: &SecretKey) -> (r: Result<Commitment, Error>)
        ensures
            r matches Ok(c) && c@ == commit_of(v, blind@),
    {
        match secp_commit(&self.secp, v, blind.as_bytes()) {
            Some(bytes) => Ok(Commitment::from_bytes(bytes)),
            None => Err(Error::OperationFailed),
        }
    }

    /// A partial Schnorr signature of `msg` by `seckey` with the secret nonce `secnonce`,
    /// for the public nonce `pubnonce` and the key `pe` in the challenge.
    /// `OperationFailed` when a secret key is invalid, a public key does not parse, or the
    /// curve library refuses.
    pub fn sign(&mut self, msg: &Message, seckey: &SecretKey, secnonce: &SecretKey, pubnonce: &PublicKey,
        pe: &PublicKey) -> (r: Result<Signature, Error>)
        ensures
            (pubkey_parsed(pubnonce@) is None || pubkey_parsed(pe@) is None) ==> r == Err::<
                Signature,
                Error,
            >(Error::OperationFailed),
            (!seckey_valid(seckey@) || !seckey_valid(secnonce@)) ==> r == Err::<Signature, Error>(
                Error::OperationFailed),
            r is Err ==> r == Err::<Signature, Error>(Error::OperationFailed),
            pubkey_parsed(pubnonce@) is Some && pubkey_parsed(pe@) is Some && seckey_valid(seckey@)
                && seckey_valid(secnonce@) ==> match schnorr_sig_of(msg@, seckey@, secnonce@, pubnonce@,
                pe@, pubnonce@) {
                Some(sv) => r matches Ok(sig) && sig@ == sv,
                None => r is Err,
            },
            *final(self) == *old(self),
    {
        pubnonce.decompress(self)?;
        pe.decompress(self)?;
        if !secp_seckey_verify(self.secp.curve(), seckey.as_bytes()) || !secp_seckey_verify(self.secp.curve(),
            secnonce.as_bytes()) {
            return Err(Error::OperationFailed);
        }
        match secp_sign_single(self.secp.curve(), msg.as_bytes(), seckey.as_bytes(), secnonce.as_bytes(),
            pubnonce.as_bytes(), pe.as_bytes(), pubnonce.as_bytes()) {
            Some(bytes) => Ok(Signature::from_bytes(bytes)),
            None => Err(Error::OperationFailed),
        }
    }

    /// Checks a (partial or completed) Schnorr signature: `OperationFailed` when a key does
    /// not parse, `ValidationFailed` when the signature does not verify.
    pub fn verify(&self, sig: &Signature, msg: &Message, pubnonce: &PublicKey, pubkey: &PublicKey,
        pe: &PublicKey, is_partial: bool) -> (r: Result<(), Error>)
        ensures
            (pubkey_parsed(pubnonce@) is None || pubkey_parsed(pe@) is None || pubkey_parsed(
                pubkey@) is None) ==> r == Err::<(), Error>(Error::OperationFailed),
            !(pubkey_parsed(pubnonce@) is None || pubkey_parsed(pe@) is None || pubkey_parsed(
                pubkey@) is None) ==> (r is Ok <==> aggsig_verifies(sig@, msg@, pubnonce@,
                pubkey@, pe@, is_partial) == Some(true)),
            r is Err ==> (r == Err::<(), Error>(Error::OperationFailed) || r == Err::<(), Error>(
                Error::ValidationFailed)),
    {
        pubnonce.decompress(self)?;
        pe.decompress(self)?;
        pubkey.decompress(self)?;
        match secp_verify_single(self.secp.curve(), sig.as_bytes(), msg.as_bytes(), pubnonce.as_bytes(),
            pubkey.as_bytes(), pe.as_bytes(), is_partial) {
            Some(true) => Ok(()),
            _ => Err(Error::ValidationFailed),
        }
    }

    /// Adds partial signatures into the completed signature for the sum of public nonces:
    /// `OperationFailed` when the nonce sum does not parse or the signatures cannot be added,
    /// `IllegalArgument` for more than `MAX_AGGREGATE_SIGNATURES` signatures.
    pub fn aggregate_signatures(&self, partial_sigs: &[&Signature], nonce_sum: &PublicKey) -> (r:
        Result<Signature, Error>)
        ensures
            pubkey_parsed(nonce_sum@) is None ==> r == Err::<Signature, Error>(
                Error::OperationFailed),
            pubkey_parsed(nonce_sum@) is Some && partial_sigs@.len() > MAX_AGGREGATE_SIGNATURES
                ==> r == Err::<Signature, Error>(Error::IllegalArgument),
            pubkey_parsed(nonce_sum@) is Some && partial_sigs@.len() <= MAX_AGGREGATE_SIGNATURES
                ==> match signatures_total(sig_views(partial_sigs@), nonce_sum@) {
                Some(v) => r matches Ok(s) && s@ == v,
                None => r == Err::<Signature, Error>(Error::OperationFailed),
            },
    {
        nonce_sum.decompress(self)?;
        if partial_sigs.len() > MAX_AGGREGATE_SIGNATURES {
            return Err(Error::IllegalArgument);
        }
        let mut sigs: Vec<[u8; 64]> = Vec::new();
        let mut i: usize = 0;
        while i < partial_sigs.len()
            invariant
                i <= partial_sigs@.len(),
                sigs@.len() == i,
                forall|j: int| 0 <= j < i ==> (#[trigger] sigs@[j])@ == partial_sigs@[j]@,
            decreases partial_sigs@.len() - i,
        {
            let b = *partial_sigs[i].as_bytes();
            sigs.push(b);
            i += 1;
        }
        assert(sigs@.map_values(|x: [u8; 64]| x@) =~= sig_views(partial_sigs@));
        match secp_add_signatures(self.secp.curve(), &sigs, nonce_sum.as_bytes()) {
            Some(bytes) => Ok(Signature::from_bytes(bytes)),
            None => Err(Error::OperationFailed),
        }
    }

    /// The blinding sum: the positive keys minus the negative keys modulo the group order
    /// (the all-zero key when that is zero); `IllegalArgument` for more than
    /// `BLIND_SUM_MAX_KEYS` keys.
    pub fn blind_sum(&self, positive: &[&SecretKey], negative: &[&SecretKey]) -> (r: Result<
        SecretKey,
        Error,
    >)
        ensures
            positive@.len() + negative@.len() > BLIND_SUM_MAX_KEYS ==> r == Err::<SecretKey, Error>(
                Error::IllegalArgument),
            positive@.len() + negative@.len() <= BLIND_SUM_MAX_KEYS ==> (r matches Ok(k)
                && be_value(k@) == blind_total(key_views(positive@), key_views(negative@))),
    {
        if positive.len() > BLIND_SUM_MAX_KEYS || negative.len() > BLIND_SUM_MAX_KEYS - positive.len() {
            return Err(Error::IllegalArgument);
        }
        let pos = key_bytes(positive);
        let neg = key_bytes(negative);
        match secp_blind_sum(self.secp.curve(), &pos, &neg) {
            Some(bytes) => {
                proof {
                    let t = blind_total(key_views(positive@), key_views(negative@));
                    assert(t < curve_order_int());
                }
                Ok(SecretKey::from_scalar(bytes))
            },
            None => {
                let z = SecretKey::zero();
                proof { crate::crypto::keys::lemma_be_value_zeros(32); }
                Ok(z)
            },
        }
    }
}

impl Ctx {
    /// Checks that the positive commitments, with a commitment to the negated overage, sum
    /// to the negative ones with a commitment to the overage; both extra commitments share a
    /// freshly drawn blinding factor (none are added for a zero overage). An overage beyond
    /// `u64` is refused with `Overflow` or `Underflow`, an imbalance with `ValidationFailed`.
    pub fn verify_balance(&mut self, positive: &[&Commitment], negative: &[&Commitment], overage: i128)
        -> (r: Result<(), Error>)
        ensures
            balance_outcome(positive@.map_values(|c: &Commitment| c@), negative@.map_values(
                |c: &Commitment| c@), overage, r),
            drawn_outcome(positive@.map_values(|c: &Commitment| c@), negative@.map_values(|c: &Commitment| c@), overage, drawn_key(old(self).rng()), r),
    {
        let mut pos: Vec<[u8; 33]> = Vec::new();
        let mut i: usize = 0;
        while i < positive.len()
            invariant
                i <= positive@.len(),
                pos@.len() == i,
                forall|j: int| 0 <= j < i ==> (#[trigger] pos@[j])@ == positive@[j]@,
            decreases positive@.len() - i,
        {
            pos.push(*positive[i].as_bytes());
            i += 1;
        }
        let mut neg: Vec<[u8; 33]> = Vec::new();
        let mut i: usize = 0;
        while i < negative.len()
            invariant
                i <= negative@.len(),
                neg@.len() == i,
                forall|j: int| 0 <= j < i ==> (#[trigger] neg@[j])@ == negative@[j]@,
            decreases negative@.len() - i,
        {
            neg.push(*negative[i].as_bytes());
            i += 1;
        }
        assert(pos@.map_values(|x: [u8; 33]| x@) =~= positive@.map_values(|c: &Commitment| c@));
        assert(neg@.map_values(|x: [u8; 33]| x@) =~= negative@.map_values(|c: &Commitment| c@));
        self.verify_balance_impl(pos, neg, overage)
    }

    /// `verify_balance` for lists of commitments held by value.
    pub fn verify_balance_owned(&mut self, positive: &[Commitment], negative: &[Commitment], overage: i128)
        -> (r: Result<(), Error>)
        ensures
            balance_outcome(commit_views(positive@), commit_views(negative@), overage, r),
            drawn_outcome(commit_views(positive@), commit_views(negative@), overage, drawn_key(old(self).rng()), r),
            final(self).rng().spec_key() == old(self).rng().spec_key(),
            final(self).rng().spec_iv() == old(self).rng().spec_iv(),
            r is Ok ==> final(self).rng().spec_offset() == balance_offset(old(self).rng(), overage),
    {
        let mut pos: Vec<[u8; 33]> = Vec::new();
        let mut i: usize = 0;
        while i < positive.len()
            invariant
                i <= positive@.len(),
                pos@.len() == i,
                forall|j: int| 0 <= j < i ==> (#[trigger] pos@[j])@ == positive@[j]@,
            decreases positive@.len() - i,
        {
            pos.push(*positive[i].as_bytes());
            i += 1;
        }
        let mut neg: Vec<[u8; 33]> = Vec::new();
        let mut i: usize = 0;
        while i < negative.len()
            invariant
                i <= negative@.len(),
                neg@.len() == i,
                forall|j: int| 0 <= j < i ==> (#[trigger] neg@[j])@ == negative@[j]@,
            decreases negative@.len() - i,
        {
            neg.push(*negative[i].as_bytes());
            i += 1;
        }
        assert(pos@.map_values(|x: [u8; 33]| x@) =~= commit_views(positive@));
        assert(neg@.map_values(|x: [u8; 33]| x@) =~= commit_views(negative@));
        self.verify_balance_impl(pos, neg, overage)
    }

    fn verify_balance_impl(&mut self, pos_vec: Vec<[u8; 33]>, neg_vec: Vec<[u8; 33]>, overage: i128)
        -> (r: Result<(), Error>)
        ensures
            balance_outcome(pos_vec@.map_values(|x: [u8; 33]| x@), neg_vec@.map_values(
                |x: [u8; 33]| x@), overage, r),
            drawn_outcome(pos_vec@.map_values(|x: [u8; 33]| x@), neg_vec@.map_values(|x: [u8; 33]| x@), overage, drawn_key(old(self).rng()), r),
            final(self).rng().spec_key() == old(self).rng().spec_key(),
            final(self).rng().spec_iv() == old(self).rng().spec_iv(),
            r is Ok ==> final(self).rng().spec_offset() == balance_offset(old(self).rng(), overage),
    {
        proof { crate::crypto::keys::lemma_drawn_end_found(self.rng()); }
        let ghost pos0 = pos_vec@.map_values(|x: [u8; 33]| x@);
        let ghost neg0 = neg_vec@.map_values(|x: [u8; 33]| x@);
        if overage > 0xFFFF_FFFF_FFFF_FFFF_i128 {
            return Err(Error::Overflow);
        } else if overage < -0xFFFF_FFFF_FFFF_FFFF_i128 {
            return Err(Error::Underflow);
        }
        let mut pos_vec = pos_vec;
        let mut neg_vec = neg_vec;
        let ghost mut blind: Seq<u8> = Seq::empty();
        if overage != 0 {
            let rblind = SecretKey::gen(self)?;
            let p = if overage < 0 {
                self.commit((0i128 - overage) as u64, &rblind)?
            } else {
                self.commit(0, &rblind)?
            };
            let n = if overage > 0 {
                self.commit(overage as u64, &rblind)?
            } else {
                self.commit(0, &rblind)?
            };
            pos_vec.push(p.as_raw());
            neg_vec.push(n.as_raw());
            proof {
                blind = rblind@;
                assert(pos_vec@.map_values(|x: [u8; 33]| x@) =~= pos0.push(p@));
                assert(neg_vec@.map_values(|x: [u8; 33]| x@) =~= neg0.push(n@));
                assert(seckey_valid(blind));
            }
        }
        let ok = secp_verify_commit_sum(self.secp.curve(), &pos_vec, &neg_vec);
        proof {
            if overage != 0 {
                assert(seckey_valid(blind));
                assert(balances_with(pos0, neg0, overage, blind) == ok);
            }
        }
        if ok {
            Ok(())
        } else {
            Err(Error::ValidationFailed)
        }
    }

    /// A 64-bit bullet range proof for the commitment to `value` blinded by `blind`, with a
    /// freshly drawn private nonce; `OperationFailed` for an invalid blinding factor.
    pub fn range_proof(&mut self, value: u64, blind: &SecretKey) -> (r: Result<RangeProof, Error>)
        ensures
            r matches Ok(p) ==> p.plen <= MAX_PROOF_SIZE,
            r is Ok ==> seckey_valid(blind@),
            drawn_key(old(self).rng()) is None ==> r == Err::<RangeProof, Error>(Error::InsufficientEntropy),
            drawn_key(old(self).rng()) is Some && !seckey_valid(blind@) ==> r == Err::<RangeProof, Error>(
                Error::OperationFailed),
            drawn_key(old(self).rng()) is Some && seckey_valid(blind@) ==> (r matches Ok(p) && p.bytes()
                == bullet_proof_of(value, blind@, drawn_key(old(self).rng())->Some_0)),
            final(self).rng().spec_key() == old(self).rng().spec_key(),
            final(self).rng().spec_iv() == old(self).rng().spec_iv(),
            drawn_end(old(self).rng()) matches Some(o) ==> final(self).rng().spec_offset() == o,
    {
        let private_nonce = SecretKey::gen(self)?;
        if !secp_seckey_verify(self.secp.curve(), blind.as_bytes()) {
            return Err(Error::OperationFailed);
        }
        let bytes = secp_bullet_proof(self.secp.curve(), value, blind.as_bytes(), private_nonce.as_bytes());
        let mut proof = [0u8; MAX_PROOF_SIZE];
        let mut k: usize = 0;
        while k < bytes.len()
            invariant
                bytes@.len() <= MAX_PROOF_SIZE,
                k <= bytes@.len(),
                proof@.len() == MAX_PROOF_SIZE,
                forall|j: int| 0 <= j < k ==> proof@[j] == bytes@[j],
            decreases bytes@.len() - k,
        {
            proof[k] = bytes[k];
            k += 1;
        }
        let r = RangeProof { proof, plen: bytes.len() };
        assert(r.bytes() =~= bytes@);
        Ok(r)
    }

    /// Checks a range proof for a commitment: `IllegalArgument` when the proof's length is
    /// beyond `MAX_PROOF_SIZE`, `OperationFailed` when it does not verify.
    pub fn verify_range_proof(&self, commit: &Commitment, proof: &RangeProof) -> (r: Result<(), Error>)
        ensures
            proof.plen > MAX_PROOF_SIZE ==> r == Err::<(), Error>(Error::IllegalArgument),
            proof.plen <= MAX_PROOF_SIZE ==> (r is Ok <==> range_proof_verifies(commit@,
                proof.bytes())),
            proof.plen <= MAX_PROOF_SIZE && r is Err ==> r == Err::<(), Error>(
                Error::OperationFailed),
    {
        if proof.plen > MAX_PROOF_SIZE {
            return Err(Error::IllegalArgument);
        }
        let bytes = &proof.proof[0..proof.plen];
        assert(bytes@ =~= proof.bytes());
        if secp_verify_bullet_proof(self.secp.curve(), commit.as_bytes(), bytes) {
            Ok(())
        } else {
            Err(Error::OperationFailed)
        }
    }

    /// The value a range proof for `commit` was made for, recovered with `blind` as the
    /// rewind nonce: `IllegalArgument` for a proof length of zero or beyond
    /// `MAX_PROOF_SIZE`, `OperationFailed` when it does not rewind.
    pub fn rewind_range_proof(&self, commit: &Commitment, blind: &SecretKey, proof: &RangeProof) -> (r:
        Result<u64, Error>)
        ensures
            (proof.plen > MAX_PROOF_SIZE || proof.plen == 0) ==> r == Err::<u64, Error>(
                Error::IllegalArgument),
            !(proof.plen > MAX_PROOF_SIZE || proof.plen == 0) ==> match range_proof_rewound(commit@,
                blind@, proof.bytes()) {
                Some(v) => r == Ok::<u64, Error>(v),
                None => r == Err::<u64, Error>(Error::OperationFailed),
            },
    {
        if proof.plen > MAX_PROOF_SIZE || proof.plen == 0 {
            return Err(Error::IllegalArgument);
        }
        let bytes = &proof.proof[0..proof.plen];
        assert(bytes@ =~= proof.bytes());
        match secp_rewind_bullet_proof(self.secp.curve(), commit.as_bytes(), blind.as_bytes(), bytes) {
            Some(v) => Ok(v),
            None => Err(Error::OperationFailed),
        }
    }
}

/// What a balance check answers: overages beyond `u64` are refused with `Overflow` or
/// `Underflow`; with no overage, success exactly when the commitments balance; otherwise
/// success only if they balance with the extra commitments for some blinding factor, and a
/// `ValidationFailed` only if they do not for some blinding factor; drawing the factor may
/// fail with `InsufficientEntropy`, committing with `OperationFailed`.
pub open spec fn balance_outcome(pos: Seq<Seq<u8>>, neg: Seq<Seq<u8>>, overage: i128, r: Result<(), Error>) -> bool {
    if overage > 0xFFFF_FFFF_FFFF_FFFF_i128 {
        r == Err::<(), Error>(Error::Overflow)
    } else if overage < -0xFFFF_FFFF_FFFF_FFFF_i128 {
        r == Err::<(), Error>(Error::Underflow)
    } else if overage == 0 {
        &&& (r is Ok <==> commits_balance(pos, neg))
        &&& (r is Err ==> r == Err::<(), Error>(Error::ValidationFailed))
    } else {
        &&& (r is Ok ==> exists|b: Seq<u8>| #[trigger] seckey_valid(b) && balances_with(pos, neg, overage, b))
        &&& (r == Err::<(), Error>(Error::ValidationFailed) ==> exists|b: Seq<u8>| #[trigger] seckey_valid(b)
            && !balances_with(pos, neg, overage, b))
        &&& (r is Err ==> (r == Err::<(), Error>(Error::ValidationFailed) || r == Err::<(), Error>(
            Error::InsufficientEntropy) || r == Err::<(), Error>(Error::OperationFailed)))
    }
}

/// With an overage other than zero that fits in `u64`, the outcome of a balance check whose
/// extra commitments are blinded by the key the generator draws: `InsufficientEntropy` when it
/// draws none, otherwise `Ok` exactly when the commitments balance with that key, and
/// `ValidationFailed` when they do not.
pub open spec fn drawn_outcome(pos: Seq<Seq<u8>>, neg: Seq<Seq<u8>>, overage: i128, drawn: Option<Seq<u8>>,
    r: Result<(), Error>) -> bool {
    overage != 0 && -0xFFFF_FFFF_FFFF_FFFF_i128 <= overage <= 0xFFFF_FFFF_FFFF_FFFF_i128 ==> match drawn {
        None => r == Err::<(), Error>(Error::InsufficientEntropy),
        Some(b) => (r is Ok <==> balances_with(pos, neg, overage, b)) && (r is Err ==> r == Err::<(), Error>(
            Error::ValidationFailed)),
    }
}

/// The generator's offset after a successful balance check with the given overage: unchanged
/// for a zero overage, just past the drawn blinding factor otherwise.
pub open spec fn balance_offset(g: Cpsrng, overage: i128) -> u64 {
    if overage == 0 {
        g.spec_offset()
    } else {
        drawn_end(g)->Some_0
    }
}

/// The group order as an integer.
pub open spec fn curve_order_int() -> int {
    crate::crypto::secp::curve_order() as int
}

/// The bytes of the given keys, in order.
pub(crate) fn key_bytes(keys: &[&SecretKey]) -> (r: Vec<[u8; 32]>)
    ensures
        r@.map_values(|x: [u8; 32]| x@) == key_views(keys@),
        forall|i: int| 0 <= i < r@.len() ==> scalar_ok(#[trigger] r@[i]@),
{
    let mut out: Vec<[u8; 32]> = Vec::new();
    let mut i: usize = 0;
    while i < keys.len()
        invariant
            i <= keys@.len(),
            out@.len() == i,
            forall|j: int| 0 <= j < i ==> (#[trigger] out@[j])@ == keys@[j]@,
            forall|j: int| 0 <= j < out@.len() ==> scalar_ok(#[trigger] out@[j]@),
        decreases keys@.len() - i,
    {
        let b = *keys[i].as_bytes();
        out.push(b);
        i += 1;
    }
    assert(out@.map_values(|x: [u8; 32]| x@) =~= key_views(keys@));
    out
}

} // verus!
