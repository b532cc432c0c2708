use vstd::prelude::*;
use crate::base::error::Error;
use crate::base::misc::{be_value, to_le_bytes_u64, u64_le_bytes};
use crate::crypto::cpsrng::Cpsrng;
use crate::crypto::keys::{drawn_key, first_valid_draw, PublicKey, PublicKeyUncompressed, SecretKey};
use crate::crypto::pedersen::Commitment;
use crate::crypto::secp::{
    aggsig_multi_verifies, aggsig_verifies, commit_of, commits_balance, curve_order, pubkey_parsed,
    pubkey_internal_of, secp_pubkey_create_internal, aggsig_combine, aggsig_context_new, aggsig_generate_nonce, aggsig_partial_sign, secp_clone, SigningContext,
    scalar_ok, schnorr_sig_of, secp_commit_sum, commit_total, secp_aggsig_verify, secp_commit, CommitContext, secp_context, secp_pubkey_parse, secp_scalar_add,
    secp_scalar_negate, secp_seckey_verify, secp_sign_single, secp_verify_commit_sum,
    secp_verify_single, seckey_valid,
};
use crate::crypto::sha3::{sha3_256_spec, Sha3_256};
use crate::crypto::signature::Signature;
use secp256k1zkp::AggSigPartialSignature;
use crate::crypto::ctx::{key_bytes, key_views, sig_views, CurveContext, MAX_AGGREGATE_SIGNATURES};
use crate::crypto::secp::{
    blind_total, commit_pubkey, ecdsa_compact_of, kernel_sig_verifies, pubkey_sum, signatures_total,
    secp_add_signatures, secp_blind_sum, secp_commit_to_pubkey, secp_pubkey_combine, secp_sign_ecdsa,
    secp_verify_completed,
};

verus! {

/// A 32-byte message, as the signing functions of `Secp` take it.
#[derive(Clone, Copy, Debug)]
pub struct Message {
    bytes: [u8; 32],
}

impl Message {
    /// The message's bytes.
    pub closed spec fn view(&self) -> Seq<u8> {
        self.bytes@
    }

    /// A message with the given bytes.
    pub fn new(msg: [u8; 32]) -> (r: Self)
        ensures
            r@ == msg@,
    {
        Message { bytes: msg }
    }
}

/// The scalar half of a signature: 32 bytes.
#[derive(Clone, Copy, Debug)]
pub struct SignatureScalar {
    bytes: [u8; 32],
}

impl SignatureScalar {
    /// The scalar's bytes.
    pub closed spec fn view(&self) -> Seq<u8> {
        self.bytes@
    }

    /// The scalar's bytes.
    pub fn as_bytes(&self) -> (r: &[u8; 32])
        ensures
            r@ == self@,
    {
        &self.bytes
    }

    /// The zero scalar.
    pub fn zero() -> (r: Self)
        ensures
            r@ == Seq::new(32, |i: int| 0u8),
    {
        let bytes = [0u8; 32];
        assert(bytes@ =~= Seq::new(32, |i: int| 0u8));
        SignatureScalar { bytes }
    }

    /// The scalar with the given 32 bytes; `IllegalArgument` for any other length.
    pub fn from_bytes(b: &[u8]) -> (r: Result<Self, Error>)
        ensures
            b@.len() == 32 ==> (r matches Ok(s) && s@ == b@),
            b@.len() != 32 ==> r == Err::<Self, Error>(Error::IllegalArgument),
    {
        if b.len() != 32 {
            return Err(Error::IllegalArgument);
        }
        let mut bytes = [0u8; 32];
        let mut i: usize = 0;
        while i < 32
            invariant
                b@.len() == 32,
                i <= 32,
                forall|j: int| 0 <= j < i ==> bytes@[j] == b@[j],
            decreases 32 - i,
        {
            bytes[i] = b[i];
            i += 1;
        }
        assert(bytes@ =~= b@);
        Ok(SignatureScalar { bytes })
    }

    /// Adds `other` modulo the group order: `InvalidScalar` (and the scalar becomes zero)
    /// when `other` is not below the order or the sum is zero.
    pub fn add(&mut self, secp: &Secp, other: &SignatureScalar) -> (r: Result<(), Error>)
        ensures
            r is Ok <==> (be_value(other@) < curve_order() && (be_value(old(self)@) % curve_order()
                + be_value(other@)) % curve_order() != 0),
            r is Ok ==> be_value(final(self)@) == (be_value(old(self)@) % curve_order() + be_value(
                other@)) % curve_order(),
            r is Err ==> r == Err::<(), Error>(Error::InvalidScalar) && final(self)@ == Seq::new(
                32, |i: int| 0u8),
    {
        match secp_scalar_add(secp.secp.curve(), &self.bytes, &other.bytes) {
            Some(bytes) => {
                self.bytes = bytes;
                Ok(())
            },
            None => {
                *self = SignatureScalar::zero();
                Err(Error::InvalidScalar)
            },
        }
    }

    /// Subtracts `other` modulo the group order (adds its negation): `InvalidScalar` (and the
    /// scalar becomes zero) when `other` is not below the order or the difference is zero.
    pub fn sub(&mut self, secp: &Secp, other: &SignatureScalar) -> (r: Result<(), Error>)
        ensures
            be_value(other@) >= curve_order() ==> r == Err::<(), Error>(Error::InvalidScalar),
            r is Ok ==> be_value(final(self)@) == (be_value(old(self)@) % curve_order() + (
                curve_order() - be_value(other@)) % (curve_order() as int)) % (curve_order() as int),
            r is Err ==> r == Err::<(), Error>(Error::InvalidScalar) && final(self)@ == Seq::new(
                32, |i: int| 0u8),
    {
        let neg = match secp_scalar_negate(secp.secp.curve(), &other.bytes) {
            Some(n) => n,
            None => {
                *self = SignatureScalar::zero();
                return Err(Error::InvalidScalar);
            },
        };
        match secp_scalar_add(secp.secp.curve(), &self.bytes, &neg) {
            Some(bytes) => {
                self.bytes = bytes;
                Ok(())
            },
            None => {
                *self = SignatureScalar::zero();
                Err(Error::InvalidScalar)
            },
        }
    }
}

/// Subtracting a scalar undoes adding it: for a scalar `s` and a scalar `t` below the group
/// order, the value `SignatureScalar::sub` gives for `t` after `SignatureScalar::add` of `t`
/// is `s` modulo the order.
pub proof fn lemma_add_then_sub(s: int, t: int)
    requires
        0 <= s,
        0 <= t < curve_order(),
    ensures
        ({
            let n = curve_order() as int;
            let a = (s % n + t) % n;
            (a % n + (n - t) % n) % n == s % n
        }),
{
    let n = curve_order() as int;
    let sm = s % n;
    vstd::arithmetic::div_mod::lemma_mod_bound(s, n);
    let a = (sm + t) % n;
    vstd::arithmetic::div_mod::lemma_mod_bound(sm + t, n);
    vstd::arithmetic::div_mod::lemma_mod_twice(sm + t, n);
    assert(a % n == a);
    // a + (n - t) % n and sm agree modulo n
    vstd::arithmetic::div_mod::lemma_add_mod_noop(sm + t, n - t, n);
    vstd::arithmetic::div_mod::lemma_add_mod_noop(a, n - t, n);
    vstd::arithmetic::div_mod::lemma_mod_twice(n - t, n);
    vstd::arithmetic::div_mod::lemma_add_mod_noop(a, (n - t) % n, n);
    assert((sm + t + (n - t)) == sm + n);
    vstd::arithmetic::div_mod::lemma_mod_add_multiples_vanish(sm, n);
    vstd::arithmetic::div_mod::lemma_small_mod(sm as nat, n as nat);
}

/// The message a kernel signs in the older signing layer: SHA3-256 of the excess, then the
/// fee and the features as eight little-endian bytes each.
pub open spec fn kernel_hash(excess: Seq<u8>, fee: u64, features: u64) -> Seq<u8> {
    sha3_256_spec(excess + u64_le_bytes(fee) + u64_le_bytes(features))
}

/// What `Secp::verify_balance` checks, for every blinding factor `b` it may draw: with a
/// commitment to zero added to the positive side and one to the fee to the negative side
/// (none for a zero fee), the sides balance.
pub open spec fn balances_with_fee(pos: Seq<Seq<u8>>, neg: Seq<Seq<u8>>, fee: u64, b: Seq<u8>) -> bool {
    commits_balance(pos.push(commit_of(0, b)), neg.push(commit_of(fee, b)))
}

/// The curve library's context with its own random generator (the older signing layer).
pub struct Secp {
    secp: CommitContext,
    rng: Cpsrng,
}

impl Secp {
    /// The random generator.
    pub closed spec fn rng(&self) -> Cpsrng {
        self.rng
    }

    /// A context with a generator seeded from the system's source of randomness;
    /// `InsufficientEntropy` when that fails.
    pub fn new() -> (r: Result<Self, Error>)
        ensures
            r is Err ==> r == Err::<Self, Error>(Error::InsufficientEntropy),
    {
        let rng = Cpsrng::new()?;
        Ok(Secp { secp: secp_context(), rng })
    }

    /// The message a kernel signs (see `kernel_hash`).
    pub fn hash_kernel(&self, excess: &Commitment, fee: u64, features: u64) -> (r: Result<Message, Error>)
        ensures
            r matches Ok(m) && m@ == kernel_hash(excess@, fee, features),
    {
        let mut sha3 = Sha3_256::new();
        sha3.update(excess.as_bytes());
        let mut fee_bytes = [0u8; 8];
        let _ = to_le_bytes_u64(fee, &mut fee_bytes);
        sha3.update(&fee_bytes);
        let mut features_bytes = [0u8; 8];
        let _ = to_le_bytes_u64(features, &mut features_bytes);
        sha3.update(&features_bytes);
        Ok(Message::new(sha3.finalize()))
    }

    /// The Pedersen commitment to `v` blinded by `blind`; `OperationFailed` when the curve
    /// library refuses.
    pub fn commit(&self, v: u64, blind: &SecretKey) -> (r: Result<Commitment, Error>)
        ensures
            r matches Ok(c) && c@ == commit_of(v, blind@),
    {
        match secp_commit(&self.secp, v, blind.as_bytes()) {
            Some(bytes) => Ok(Commitment::from_bytes(bytes)),
            None => Err(Error::OperationFailed),
        }
    }

    /// A Schnorr signature of `msg` by `seckey` with the secret nonce `secnonce`, for the
    /// public nonce `pubnonce`, the key `pe` in the challenge and the final nonce sum:
    /// `InvalidPublicKey` when a public key does not parse, `InvalidSignature` when a secret
    /// key is invalid or the curve library refuses.
    pub fn sign_single(&self, msg: &Message, seckey: &SecretKey, secnonce: &SecretKey, pubnonce: &PublicKey,
        pe: &PublicKey, final_nonce_sum: &PublicKey) -> (r: Result<Signature, Error>)
        ensures
            (pubkey_parsed(pubnonce@) is None || pubkey_parsed(pe@) is None || pubkey_parsed(
                final_nonce_sum@) is None) ==> r == Err::<Signature, Error>(Error::InvalidPublicKey),
            pubkey_parsed(pubnonce@) is Some && pubkey_parsed(pe@) is Some && pubkey_parsed(
                final_nonce_sum@) is Some && (!seckey_valid(seckey@) || !seckey_valid(secnonce@))
                ==> r == Err::<Signature, Error>(Error::InvalidSignature),
            r is Err ==> (r == Err::<Signature, Error>(Error::InvalidPublicKey) || r == Err::<
                Signature,
                Error,
            >(Error::InvalidSignature)),
            pubkey_parsed(pubnonce@) is Some && pubkey_parsed(pe@) is Some && pubkey_parsed(
                final_nonce_sum@) is Some && seckey_valid(seckey@) && seckey_valid(secnonce@)
                ==> match schnorr_sig_of(msg@, seckey@, secnonce@, pubnonce@, pe@, final_nonce_sum@) {
                Some(sv) => r matches Ok(sig) && sig@ == sv,
                None => r == Err::<Signature, Error>(Error::InvalidSignature),
            },
    {
        if secp_pubkey_parse(self.secp.curve(), pubnonce.as_bytes()).is_none() || secp_pubkey_parse(
            self.secp.curve(), pe.as_bytes()).is_none() || secp_pubkey_parse(self.secp.curve(),
            final_nonce_sum.as_bytes()).is_none() {
            return Err(Error::InvalidPublicKey);
        }
        if !secp_seckey_verify(self.secp.curve(), seckey.as_bytes()) || !secp_seckey_verify(self.secp.curve(),
            secnonce.as_bytes()) {
            return Err(Error::InvalidSignature);
        }
        match secp_sign_single(self.secp.curve(), &msg.bytes, seckey.as_bytes(), secnonce.as_bytes(),
            pubnonce.as_bytes(), pe.as_bytes(), final_nonce_sum.as_bytes()) {
            Some(bytes) => Ok(Signature::from_bytes(bytes)),
            None => Err(Error::InvalidSignature),
        }
    }

    /// Whether a (partial or completed) Schnorr signature verifies; `InvalidPublicKey` when a
    /// public key does not parse.
    pub fn verify_single(&self, sig: &Signature, msg: &Message, pubnonce: &PublicKey, pubkey: &PublicKey,
        pe: &PublicKey, is_partial: bool) -> (r: Result<bool, Error>)
        ensures
            (pubkey_parsed(pubnonce@) is None || pubkey_parsed(pe@) is None || pubkey_parsed(
                pubkey@) is None) ==> r == Err::<bool, Error>(Error::InvalidPublicKey),
            !(pubkey_parsed(pubnonce@) is None || pubkey_parsed(pe@) is None || pubkey_parsed(
                pubkey@) is None) ==> r == Ok::<bool, Error>(aggsig_verifies(sig@, msg@,
                pubnonce@, pubkey@, pe@, is_partial) == Some(true)),
    {
        if secp_pubkey_parse(self.secp.curve(), pubnonce.as_bytes()).is_none() || secp_pubkey_parse(
            self.secp.curve(), pe.as_bytes()).is_none() || secp_pubkey_parse(self.secp.curve(),
            pubkey.as_bytes()).is_none() {
            return Err(Error::InvalidPublicKey);
        }
        let ok = secp_verify_single(self.secp.curve(), sig.as_bytes(), &msg.bytes, pubnonce.as_bytes(),
            pubkey.as_bytes(), pe.as_bytes(), is_partial);
        Ok(match ok {
            Some(true) => true,
            _ => false,
        })
    }

    /// A random valid secret key drawn from the context's generator (see `SecretKey::new`).
    fn random_key(&mut self) -> (r: Result<SecretKey, Error>)
        ensures
            r matches Ok(k) ==> seckey_valid(k@),
            r is Err ==> r == Err::<SecretKey, Error>(Error::InsufficientEntropy),
            match drawn_key(old(self).rng()) {
                Some(k) => r matches Ok(key) && key@ == k,
                None => r is Err,
            },
            final(self).rng().spec_key() == old(self).rng().spec_key(),
            final(self).rng().spec_iv() == old(self).rng().spec_iv(),
    {
        let mut v = [0u8; 32];
        let mut draws: u32 = 0;
        assert(v@ =~= Seq::new(32, |i: int| 0u8));
        while draws < crate::crypto::keys::MAX_KEY_DRAWS
            invariant
                draws <= crate::crypto::keys::MAX_KEY_DRAWS,
                v@.len() == 32,
                self.rng().spec_key() == old(self).rng().spec_key(),
                self.rng().spec_iv() == old(self).rng().spec_iv(),
                drawn_key(old(self).rng()) == first_valid_draw(self.rng().spec_key(), self.rng().spec_iv(),
                    self.rng().spec_offset(), v@, (crate::crypto::keys::MAX_KEY_DRAWS - draws) as nat),
            decreases crate::crypto::keys::MAX_KEY_DRAWS - draws,
        {
            self.rng.gen(&mut v);
            if secp_seckey_verify(self.secp.curve(), &v) {
                return Ok(SecretKey::from_scalar(v));
            }
            draws += 1;
        }
        Err(Error::InsufficientEntropy)
    }

    /// Whether every commitment parses as a point (see `commit_parses`).
    fn commits_parse(&self, cs: &Vec<[u8; 33]>) -> (r: bool)
        ensures
            r == all_commits_parse(cs@.map_values(|x: [u8; 33]| x@)),
    {
        let mut i: usize = 0;
        while i < cs.len()
            invariant
                i <= cs@.len(),
                forall|j: int| 0 <= j < i ==> commit_parses(#[trigger] cs@[j]@),
            decreases cs@.len() - i,
        {
            let mut one: Vec<[u8; 33]> = Vec::new();
            one.push(cs[i]);
            let none: Vec<[u8; 33]> = Vec::new();
            assert(one@.map_values(|x: [u8; 33]| x@) =~= seq![cs@[i as int]@]);
            assert(none@.map_values(|x: [u8; 33]| x@) =~= Seq::<Seq<u8>>::empty());
            if secp_commit_sum(self.secp.curve(), &one, &none).is_none() {
                assert(cs@.map_values(|x: [u8; 33]| x@)[i as int] == cs@[i as int]@);
                assert(!commit_parses(cs@.map_values(|x: [u8; 33]| x@)[i as int]));
                return false;
            }
            i += 1;
        }
        true
    }

    /// Whether the positive commitments, with a commitment to zero, sum to the negative ones
    /// with a commitment to the fee; both extra commitments share a freshly drawn blinding
    /// factor, and none are added for a zero fee.
    pub fn verify_balance(&mut self, positive: &[&Commitment], negative: &[&Commitment], fee: u64) -> (r:
        Result<bool, Error>)
        ensures
            ({
                let pos = positive@.map_values(|c: &Commitment| c@);
                let neg = negative@.map_values(|c: &Commitment| c@);
                let parse = all_commits_parse(pos) && all_commits_parse(neg);
                &&& !parse ==> r == Err::<bool, Error>(Error::Secp)
                &&& parse && fee == 0 ==> r == Ok::<bool, Error>(commits_balance(pos, neg))
                &&& fee != 0 && r == Ok::<bool, Error>(true) ==> exists|b: Seq<u8>| #[trigger]
                    seckey_valid(b) && balances_with_fee(pos, neg, fee, b)
                &&& fee != 0 && r == Ok::<bool, Error>(false) ==> exists|b: Seq<u8>| #[trigger]
                    seckey_valid(b) && !balances_with_fee(pos, neg, fee, b)
                &&& r is Err ==> (r == Err::<bool, Error>(Error::InsufficientEntropy) || r == Err::<
                    bool,
                    Error,
                >(Error::OperationFailed) || r == Err::<bool, Error>(Error::Secp))
                &&& parse && fee != 0 ==> match drawn_key(old(self).rng()) {
                    None => r == Err::<bool, Error>(Error::InsufficientEntropy),
                    Some(b) => r == Ok::<bool, Error>(balances_with_fee(pos, neg, fee, b)),
                }
            }),
    {
        let mut pos_vec: Vec<[u8; 33]> = Vec::new();
        let mut i: usize = 0;
        while i < positive.len()
            invariant
                i <= positive@.len(),
                pos_vec@.len() == i,
                forall|j: int| 0 <= j < i ==> (#[trigger] pos_vec@[j])@ == positive@[j]@,
            decreases positive@.len() - i,
        {
            pos_vec.push(*positive[i].as_bytes());
            i += 1;
        }
        let mut neg_vec: Vec<[u8; 33]> = Vec::new();
        let mut i: usize = 0;
        while i < negative.len()
            invariant
                i <= negative@.len(),
                neg_vec@.len() == i,
                forall|j: int| 0 <= j < i ==> (#[trigger] neg_vec@[j])@ == negative@[j]@,
            decreases negative@.len() - i,
        {
            neg_vec.push(*negative[i].as_bytes());
            i += 1;
        }
        let ghost pos0 = positive@.map_values(|c: &Commitment| c@);
        let ghost neg0 = negative@.map_values(|c: &Commitment| c@);
        assert(pos_vec@.map_values(|x: [u8; 33]| x@) =~= pos0);
        assert(neg_vec@.map_values(|x: [u8; 33]| x@) =~= neg0);
        if !self.commits_parse(&pos_vec) || !self.commits_parse(&neg_vec) {
            return Err(Error::Secp);
        }
        let ghost mut blind: Seq<u8> = Seq::empty();
        if fee != 0 {
            let rblind = self.random_key()?;
            let p = self.commit(0, &rblind)?;
            let n = self.commit(fee, &rblind)?;
            pos_vec.push(p.as_raw());
            neg_vec.push(n.as_raw());
            proof {
                blind = rblind@;
                assert(pos_vec@.map_values(|x: [u8; 33]| x@) =~= pos0.push(p@));
                assert(neg_vec@.map_values(|x: [u8; 33]| x@) =~= neg0.push(n@));
            }
        }
        let ok = secp_verify_commit_sum(self.secp.curve(), &pos_vec, &neg_vec);
        proof {
            if fee != 0 {
                assert(seckey_valid(blind));
                assert(balances_with_fee(pos0, neg0, fee, blind) == ok);
            }
        }
        Ok(ok)
    }
}

/// A commitment parses as a point of the curve: the curve library can take its sum alone.
pub open spec fn commit_parses(c: Seq<u8>) -> bool {
    commit_total(seq![c], Seq::empty()) is Some
}

/// Every commitment parses (see `commit_parses`).
pub open spec fn all_commits_parse(cs: Seq<Seq<u8>>) -> bool {
    forall|i: int| 0 <= i < cs.len() ==> commit_parses(#[trigger] cs[i])
}

impl CurveContext for Secp {
    closed spec fn spec_curve(&self) -> secp256k1zkp::Secp256k1 {
        self.secp.spec_inner()
    }

    fn curve(&self) -> (r: &secp256k1zkp::Secp256k1) {
        self.secp.curve()
    }

    fn commit_context(&self) -> (r: &CommitContext) {
        &self.secp
    }
}

impl Secp {
    /// The public key of `skey` in the curve library's internal form; `InvalidPublicKey` for
    /// an invalid secret key or when the curve library refuses.
    pub fn pubkey_uncompressed(&self, skey: &SecretKey) -> (r: Result<PublicKeyUncompressed, Error>)
        ensures
            !seckey_valid(skey@) ==> r == Err::<PublicKeyUncompressed, Error>(Error::InvalidPublicKey),
            r is Err ==> r == Err::<PublicKeyUncompressed, Error>(Error::InvalidPublicKey),
            r matches Ok(u) ==> u@ == pubkey_internal_of(skey@),
    {
        if !secp_seckey_verify(self.secp.curve(), skey.as_bytes()) {
            return Err(Error::InvalidPublicKey);
        }
        match secp_pubkey_create_internal(self.secp.curve(), skey.as_bytes()) {
            Some(v) => Ok(PublicKeyUncompressed::new(v)),
            None => Err(Error::InvalidPublicKey),
        }
    }

    /// The scalar half (the last 32 bytes of the compact form) of the ECDSA signature of
    /// `msg` by `seckey`; `Secp` for an invalid secret key or when the curve library refuses.
    pub fn sign_ecdsa(&self, msg: &[u8; 32], seckey: &SecretKey) -> (r: Result<SignatureScalar, Error>)
        ensures
            !seckey_valid(seckey@) ==> r == Err::<SignatureScalar, Error>(Error::Secp),
            r matches Ok(s) ==> s@ == ecdsa_compact_of(msg@, seckey@).skip(32),
            r is Err ==> r == Err::<SignatureScalar, Error>(Error::Secp),
    {
        if !secp_seckey_verify(self.secp.curve(), seckey.as_bytes()) {
            return Err(Error::Secp);
        }
        match secp_sign_ecdsa(self.secp.curve(), msg, seckey.as_bytes()) {
            Some(sig) => {
                let r = SignatureScalar::from_bytes(&sig[32..64]);
                assert(sig@.subrange(32, 64) =~= sig@.skip(32));
                match r {
                    Ok(s) => Ok(s),
                    Err(_) => Err(Error::Secp),
                }
            },
            None => Err(Error::Secp),
        }
    }

    /// Adds partial signatures into the completed signature for the sum of public nonces:
    /// `InvalidPublicKey` when the nonce sum does not parse, `TooManySignatures` for more than
    /// `MAX_AGGREGATE_SIGNATURES` signatures, `InvalidSignature` when they cannot be added.
    pub fn aggregate_signatures(&self, partial_sigs: &[&Signature], nonce_sum: &PublicKey) -> (r:
        Result<Signature, Error>)
        ensures
            pubkey_parsed(nonce_sum@) is None ==> r == Err::<Signature, Error>(Error::InvalidPublicKey),
            pubkey_parsed(nonce_sum@) is Some && partial_sigs@.len() > MAX_AGGREGATE_SIGNATURES
                ==> r == Err::<Signature, Error>(Error::TooManySignatures),
            pubkey_parsed(nonce_sum@) is Some && partial_sigs@.len() <= MAX_AGGREGATE_SIGNATURES
                ==> match signatures_total(sig_views(partial_sigs@), nonce_sum@) {
                Some(v) => r matches Ok(s) && s@ == v,
                None => r == Err::<Signature, Error>(Error::InvalidSignature),
            },
    {
        if secp_pubkey_parse(self.secp.curve(), nonce_sum.as_bytes()).is_none() {
            return Err(Error::InvalidPublicKey);
        }
        if partial_sigs.len() > MAX_AGGREGATE_SIGNATURES {
            return Err(Error::TooManySignatures);
        }
        let mut sigs: Vec<[u8; 64]> = Vec::new();
        let mut i: usize = 0;
        while i < partial_sigs.len()
            invariant
                i <= partial_sigs@.len(),
                sigs@.len() == i,
                forall|j: int| 0 <= j < i ==> (#[trigger] sigs@[j])@ == partial_sigs@[j]@,
            decreases partial_sigs@.len() - i,
        {
            let b = *partial_sigs[i].as_bytes();
            sigs.push(b);
            i += 1;
        }
        assert(sigs@.map_values(|x: [u8; 64]| x@) =~= sig_views(partial_sigs@));
        match secp_add_signatures(self.secp.curve(), &sigs, nonce_sum.as_bytes()) {
            Some(bytes) => Ok(Signature::from_bytes(bytes)),
            None => Err(Error::InvalidSignature),
        }
    }

    /// The blinding sum: the positive keys minus the negative keys modulo the group order
    /// (the all-zero key when that is zero).
    pub fn blind_sum(&self, positive: &[&SecretKey], negative: &[&SecretKey]) -> (r: Result<
        SecretKey,
        Error,
    >)
        ensures
            r matches Ok(k) && be_value(k@) == blind_total(key_views(positive@), key_views(negative@)),
    {
        let pos = key_bytes(positive);
        let neg = key_bytes(negative);
        match secp_blind_sum(self.secp.curve(), &pos, &neg) {
            Some(bytes) => {
                proof {
                    let t = blind_total(key_views(positive@), key_views(negative@));
                    assert(t < curve_order());
                }
                Ok(SecretKey::from_scalar(bytes))
            },
            None => {
                let z = SecretKey::zero();
                proof { crate::crypto::keys::lemma_be_value_zeros(32); }
                Ok(z)
            },
        }
    }

    /// A partial signature of `msg` by the blinding sum of `inputs` minus `outputs`, with the
    /// secret nonce `sec_nonce`, the total nonce sum (as public nonce and final nonce sum) and
    /// the total key sum; the errors are those of `sign_single`.
    pub fn sign_partial(&self, msg: &Message, inputs: &[&SecretKey], outputs: &[&SecretKey],
        sec_nonce: &SecretKey, nonce_sum: &PublicKey, pubkey_sum: &PublicKey) -> (r: Result<Signature, Error>)
        ensures
            (pubkey_parsed(nonce_sum@) is None || pubkey_parsed(pubkey_sum@) is None) ==> r == Err::<
                Signature,
                Error,
            >(Error::InvalidPublicKey),
            !seckey_valid(sec_nonce@) && pubkey_parsed(nonce_sum@) is Some && pubkey_parsed(
                pubkey_sum@) is Some ==> r == Err::<Signature, Error>(Error::InvalidSignature),
            blind_total(key_views(inputs@), key_views(outputs@)) == 0 && pubkey_parsed(nonce_sum@) is Some
                && pubkey_parsed(pubkey_sum@) is Some ==> r == Err::<Signature, Error>(
                Error::InvalidSignature),
            r is Err ==> (r == Err::<Signature, Error>(Error::InvalidPublicKey) || r == Err::<
                Signature,
                Error,
            >(Error::InvalidSignature)),
    {
        let seckey = self.blind_sum(inputs, outputs)?;
        proof {
            if blind_total(key_views(inputs@), key_views(outputs@)) == 0 {
                assert(!seckey_valid(seckey@));
            }
        }
        self.sign_single(msg, &seckey, sec_nonce, nonce_sum, pubkey_sum, nonce_sum)
    }

    /// Checks a partial signature of `msg` by the key `pubkey` with the public nonce `nonce`
    /// against the total key sum: `IncorrectSignature` when it does not verify or a key does
    /// not parse.
    pub fn verify_partial(&self, msg: &Message, sig: &Signature, pubkey: &PublicKey, nonce: &PublicKey,
        pubkey_sum: &PublicKey) -> (r: Result<(), Error>)
        ensures
            r is Ok <==> (pubkey_parsed(nonce@) is Some && pubkey_parsed(pubkey@) is Some && pubkey_parsed(
                pubkey_sum@) is Some && aggsig_verifies(sig@, msg@, nonce@, pubkey@, pubkey_sum@, true)
                == Some(true)),
            r is Err ==> r == Err::<(), Error>(Error::IncorrectSignature),
    {
        match self.verify_single(sig, msg, nonce, pubkey, pubkey_sum, true) {
            Ok(true) => Ok(()),
            _ => Err(Error::IncorrectSignature),
        }
    }

    /// Checks a completed signature of `msg` under the public key of the commitment
    /// `excess`: `InvalidCommitment` when the commitment has no public key,
    /// `IncorrectSignature` when the signature does not verify.
    pub fn verify_kernel(&self, msg: &Message, sig: &Signature, excess: &Commitment) -> (r: Result<(), Error>)
        ensures
            match commit_pubkey(excess@) {
                None => r == Err::<(), Error>(Error::InvalidCommitment),
                Some(pk) => if kernel_sig_verifies(sig@, msg@, pk) {
                    r is Ok
                } else {
                    r == Err::<(), Error>(Error::IncorrectSignature)
                },
            },
    {
        match secp_commit_to_pubkey(self.secp.curve(), excess.as_bytes()) {
            None => Err(Error::InvalidCommitment),
            Some(pk) => {
                if secp_verify_completed(self.secp.curve(), sig.as_bytes(), &msg.bytes, &pk) {
                    Ok(())
                } else {
                    Err(Error::IncorrectSignature)
                }
            },
        }
    }
}

impl PublicKey {
    /// The sum of two public keys: `InvalidPublicKey` when either is no public key or the
    /// sum cannot be formed.
    pub fn add(&self, secp: &Secp, other: &PublicKey) -> (r: Result<Self, Error>)
        ensures
            (pubkey_parsed(self@) is None || pubkey_parsed(other@) is None) ==> r == Err::<Self, Error>(
                Error::InvalidPublicKey),
            (pubkey_parsed(self@) is Some && pubkey_parsed(other@) is Some) ==> match pubkey_sum(self@, other@) {
                Some(v) => r matches Ok(k) && k@ == v,
                None => r == Err::<Self, Error>(Error::InvalidPublicKey),
            },
    {
        if secp_pubkey_parse(secp.secp.curve(), self.as_bytes()).is_none() || secp_pubkey_parse(secp.secp.curve(),
            other.as_bytes()).is_none() {
            return Err(Error::InvalidPublicKey);
        }
        match secp_pubkey_combine(secp.secp.curve(), self.as_bytes(), other.as_bytes()) {
            Some(bytes) => Ok(PublicKey::from_bytes(bytes)),
            None => Err(Error::InvalidPublicKey),
        }
    }
}

impl Commitment {
    /// The bytes of the sum of the two commitments' public keys, taken as a commitment:
    /// `InvalidPublicKey` when either commitment has no public key or the keys cannot be
    /// added.
    pub fn add(&self, secp: &Secp, other: &Commitment) -> (r: Result<Commitment, Error>)
        ensures
            (commit_pubkey(self@) is None || commit_pubkey(other@) is None) ==> r == Err::<Commitment, Error>(
                Error::InvalidPublicKey),
            (commit_pubkey(self@) is Some && commit_pubkey(other@) is Some) ==> match pubkey_sum(
                commit_pubkey(self@).unwrap(),
                commit_pubkey(other@).unwrap(),
            ) {
                Some(v) => r matches Ok(c) && c@ == v,
                None => r == Err::<Commitment, Error>(Error::InvalidPublicKey),
            },
    {
        let pk1 = match secp_commit_to_pubkey(secp.secp.curve(), self.as_bytes()) {
            Some(k) => k,
            None => return Err(Error::InvalidPublicKey),
        };
        let pk2 = match secp_commit_to_pubkey(secp.secp.curve(), other.as_bytes()) {
            Some(k) => k,
            None => return Err(Error::InvalidPublicKey),
        };
        match secp_pubkey_combine(secp.secp.curve(), &pk1, &pk2) {
            Some(bytes) => Ok(Commitment::from_bytes(bytes)),
            None => Err(Error::InvalidPublicKey),
        }
    }
}

impl SecretKey {
    /// A random valid secret key drawn from the generator of `secp`: keystream bytes are
    /// drawn into the key until it is valid; `InsufficientEntropy` after `MAX_KEY_DRAWS`
    /// draws.
    pub fn new(secp: &mut Secp) -> (r: Result<Self, Error>)
        ensures
            r matches Ok(k) ==> seckey_valid(k@),
            r is Err ==> r == Err::<Self, Error>(Error::InsufficientEntropy),
    {
        secp.random_key()
    }
}

/// An interactive aggregated signature over a list of public keys: the signing state that
/// the curve library keeps for it, and the partial signature made so far for each key.
pub struct AggSig {
    ctx: Option<SigningContext>,
    secp: secp256k1zkp::Secp256k1,
    pkeys: Vec<[u8; 33]>,
    partial_sigs: Vec<Option<AggSigPartialSignature>>,
}

impl AggSig {
    /// The keys.
    pub closed spec fn keys(&self) -> Seq<Seq<u8>> {
        self.pkeys@.map_values(|x: [u8; 33]| x@)
    }

    /// For each key, whether its partial signature has been made.
    pub closed spec fn signed(&self) -> Seq<bool> {
        self.partial_sigs@.map_values(|p: Option<AggSigPartialSignature>| p is Some)
    }

    /// One slot per key, and a signing state exactly when there are keys.
    pub closed spec fn wf(&self) -> bool {
        &&& self.partial_sigs@.len() == self.pkeys@.len()
        &&& (self.ctx is Some <==> self.pkeys@.len() > 0)
        &&& (self.ctx matches Some(c) ==> c.nsigs() == self.pkeys@.len())
    }

    /// An aggregated signature over the given keys, with no partial signature yet;
    /// `OperationFailed` when a key does not parse.
    pub fn new(secp: &Secp, pkeys: &[PublicKey]) -> (r: Result<Self, Error>)
        ensures
            (exists|i: int| 0 <= i < pkeys@.len() && pubkey_parsed(#[trigger] pkeys@[i]@) is None)
                ==> r == Err::<Self, Error>(Error::OperationFailed),
            (forall|i: int| 0 <= i < pkeys@.len() ==> pubkey_parsed(#[trigger] pkeys@[i]@) is Some) ==> r is Ok,
            r matches Ok(a) ==> a.wf() && a.keys() == pkeys@.map_values(|k: PublicKey| k@)
                && a.signed() == Seq::new(pkeys@.len(), |i: int| false),
    {
        let mut keys: Vec<[u8; 33]> = Vec::new();
        let mut slots: Vec<Option<AggSigPartialSignature>> = Vec::new();
        let mut i: usize = 0;
        while i < pkeys.len()
            invariant
                i <= pkeys@.len(),
                keys@.len() == i,
                slots@.len() == i,
                forall|j: int| 0 <= j < i ==> (#[trigger] keys@[j])@ == pkeys@[j]@,
                forall|j: int| 0 <= j < i ==> pubkey_parsed(#[trigger] pkeys@[j]@) is Some,
                forall|j: int| 0 <= j < i ==> (#[trigger] slots@[j]) is None,
            decreases pkeys@.len() - i,
        {
            if secp_pubkey_parse(secp.secp.curve(), pkeys[i].as_bytes()).is_none() {
                return Err(Error::OperationFailed);
            }
            keys.push(*pkeys[i].as_bytes());
            slots.push(None);
            i += 1;
        }
        assert(keys@.map_values(|x: [u8; 33]| x@) =~= pkeys@.map_values(|k: PublicKey| k@));
        let own = secp_clone(secp.secp.curve());
        let ctx = if keys.len() == 0 {
            None
        } else {
            assert forall|j: int| 0 <= j < keys@.len() implies pubkey_parsed((#[trigger] keys@[j])@) is Some by {
                assert(keys@[j]@ == pkeys@[j]@);
            }
            match aggsig_context_new(&own, &keys) {
                Some(c) => Some(c),
                None => return Err(Error::OperationFailed),
            }
        };
        let r = AggSig { ctx, secp: own, pkeys: keys, partial_sigs: slots };
        assert(r.signed() =~= Seq::new(pkeys@.len(), |i: int| false));
        Ok(r)
    }

    /// Whether an aggregated signature of `msg` verifies under the keys (false when there
    /// are none).
    pub fn verify(&self, msg: &Message, sig: &Signature) -> (r: bool)
        ensures
            self.keys().len() == 0 ==> !r,
            self.keys().len() > 0 ==> r == aggsig_multi_verifies(sig@, msg@, self.keys()),
    {
        if self.pkeys.len() == 0 {
            return false;
        }
        secp_aggsig_verify(&self.secp, sig.as_bytes(), &msg.bytes, &self.pkeys)
    }

    /// Makes the nonce of the key at `index`; false when there is no such key or its nonce
    /// was made before.
    pub fn gen_nonce(&self, index: usize) -> (r: bool)
        requires
            self.wf(),
        ensures
            index >= self.keys().len() ==> !r,
    {
        if index >= self.pkeys.len() {
            return false;
        }
        match &self.ctx {
            Some(c) => aggsig_generate_nonce(c, index),
            None => false,
        }
    }

    /// Makes the partial signature of `msg` by `skey` for the key at `index`, once every key
    /// has its nonce; false (and nothing kept) when there is no such key or the curve library
    /// refuses.
    pub fn partial_sign(&mut self, index: usize, msg: &Message, skey: &SecretKey) -> (r: bool)
        requires
            old(self).wf(),
        ensures
            final(self).wf(),
            final(self).keys() == old(self).keys(),
            index >= old(self).keys().len() ==> !r,
            r ==> final(self).signed() == old(self).signed().update(index as int, true),
            !r ==> final(self).signed() == old(self).signed(),
    {
        if index >= self.pkeys.len() {
            return false;
        }
        let n = self.pkeys.len();
        let part = match &self.ctx {
            Some(c) => aggsig_partial_sign(c, &msg.bytes, skey.as_bytes(), index),
            None => None,
        };
        match part {
            Some(p) => {
                self.partial_sigs.set(index, Some(p));
                assert(self.signed() =~= old(self).signed().update(index as int, true));
                assert(self.keys() =~= old(self).keys());
                true
            },
            None => false,
        }
    }

    /// Combines the partial signatures into `sig`; false (and `sig` unchanged) when a key's
    /// partial signature is missing or the curve library refuses.
    pub fn final_signature(&self, sig: &mut Signature) -> (r: bool)
        requires
            self.wf(),
        ensures
            (exists|i: int| 0 <= i < self.signed().len() && !(#[trigger] self.signed()[i])) ==> !r,
            !r ==> *final(sig) == *old(sig),
    {
        let ctx = match &self.ctx {
            Some(c) => c,
            None => return false,
        };
        let mut parts: Vec<AggSigPartialSignature> = Vec::new();
        let mut i: usize = 0;
        while i < self.partial_sigs.len()
            invariant
                i <= self.partial_sigs@.len(),
                parts@.len() == i,
                forall|j: int| 0 <= j < i ==> (#[trigger] self.signed()[j]),
            decreases self.partial_sigs@.len() - i,
        {
            match self.partial_sigs[i] {
                Some(p) => parts.push(p),
                None => {
                    return false;
                },
            }
            i += 1;
        }
        if parts.len() == 0 {
            return false;
        }
        match aggsig_combine(ctx, &parts) {
            Some(bytes) => {
                *sig = Signature::from_bytes(bytes);
                true
            },
            None => false,
        }
    }
}

} // verus!
