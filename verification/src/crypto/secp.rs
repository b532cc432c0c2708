use vstd::prelude::*;
use crate::base::misc::be_value;
use secp256k1zkp::{aggsig, ecdh, ffi, key, pedersen, AggSigPartialSignature, ContextFlag, Message, Secp256k1, Signature};

verus! {

// ---------------------------------------------------------------------------
// Scalars
// ---------------------------------------------------------------------------

/// The order `n` of the secp256k1 group.
pub open spec fn curve_order() -> nat {
    0xFFFFFFFFFFFFFFFFFFFFFFFFFFFFFFFEBAAEDCE6AF48A03BBFD25E8CD0364141nat
}

/// A 32-byte string is a valid secret key: as a big-endian number it is neither zero nor
/// at least the group order.
pub open spec fn seckey_valid(b: Seq<u8>) -> bool {
    b.len() == 32 && 0 < be_value(b) < curve_order()
}

/// A 32-byte string encodes a scalar: as a big-endian number it is below the group order.
pub open spec fn scalar_ok(b: Seq<u8>) -> bool {
    b.len() == 32 && be_value(b) < curve_order()
}

/// The sum of the scalars `s`, as an integer.
pub open spec fn scalar_total(s: Seq<Seq<u8>>) -> int
    decreases s.len(),
{
    if s.len() == 0 {
        0
    } else {
        scalar_total(s.drop_last()) + be_value(s.last()) as int
    }
}

/// The blinding sum: the positive scalars minus the negative ones, modulo the group order.
pub open spec fn blind_total(pos: Seq<Seq<u8>>, neg: Seq<Seq<u8>>) -> int {
    (scalar_total(pos) - scalar_total(neg)) % (curve_order() as int)
}

/// A key taken on both sides of a blinding sum cancels: adding the same scalar to the
/// positive and to the negative keys leaves the blinding sum as it was.
pub proof fn lemma_blind_total_cancels(pos: Seq<Seq<u8>>, neg: Seq<Seq<u8>>, k: Seq<u8>)
    ensures
        blind_total(pos.push(k), neg.push(k)) == blind_total(pos, neg),
{
    assert(pos.push(k).drop_last() =~= pos);
    assert(neg.push(k).drop_last() =~= neg);
}

/// A blinding sum of the same keys on both sides is zero.
pub proof fn lemma_blind_total_same(s: Seq<Seq<u8>>)
    ensures
        blind_total(s, s) == 0,
{
}

// ---------------------------------------------------------------------------
// Names for what the curve operations return
// ---------------------------------------------------------------------------

/// The compressed (33-byte) public key of a secret key.
pub uninterp spec fn pubkey_of(sk: Seq<u8>) -> Seq<u8>;

/// The compressed sum of two compressed public keys; `None` when either does not parse or
/// the sum is the point at infinity.
pub uninterp spec fn pubkey_sum(a: Seq<u8>, b: Seq<u8>) -> Option<Seq<u8>>;

/// The 64-byte internal form of a compressed public key; `None` when it does not parse.
pub uninterp spec fn pubkey_parsed(pk: Seq<u8>) -> Option<Seq<u8>>;

/// The Pedersen commitment (33 bytes) to `value` with blinding factor `blind`.
pub uninterp spec fn commit_of(value: u64, blind: Seq<u8>) -> Seq<u8>;

/// The sum of the positive commitments minus the negative ones; `None` when one does not
/// parse or the sum is the point at infinity.
pub uninterp spec fn commit_total(pos: Seq<Seq<u8>>, neg: Seq<Seq<u8>>) -> Option<Seq<u8>>;

/// Whether the positive commitments sum to the negative ones (false when one does not
/// parse).
pub uninterp spec fn commits_balance(pos: Seq<Seq<u8>>, neg: Seq<Seq<u8>>) -> bool;

/// The public key (33 bytes) that a commitment stands for; `None` when it does not parse.
pub uninterp spec fn commit_pubkey(c: Seq<u8>) -> Option<Seq<u8>>;

/// Whether a Schnorr signature (aggsig single form) verifies for the message and keys;
/// `None` when one of the keys does not parse.
pub uninterp spec fn aggsig_verifies(sig: Seq<u8>, msg: Seq<u8>, pubnonce: Seq<u8>, pubkey: Seq<
    u8>, pe: Seq<u8>, is_partial: bool) -> Option<bool>;

/// Whether a completed signature verifies for the message under a public key (no public
/// nonce given; the key itself is the key in the challenge).
pub uninterp spec fn kernel_sig_verifies(sig: Seq<u8>, msg: Seq<u8>, pubkey: Seq<u8>) -> bool;

/// The sum of partial signatures for the given sum of public nonces; `None` when the nonce
/// sum does not parse or the signatures cannot be added.
pub uninterp spec fn signatures_total(sigs: Seq<Seq<u8>>, nonce_sum: Seq<u8>) -> Option<Seq<u8>>;

/// Whether a bullet proof shows that the committed value lies in [0, 2^64).
pub uninterp spec fn range_proof_verifies(commit: Seq<u8>, proof: Seq<u8>) -> bool;

/// The compact serialization of the ECDSA signature (RFC 6979 nonce) of a message by a
/// secret key.
pub uninterp spec fn ecdsa_compact_of(msg: Seq<u8>, sk: Seq<u8>) -> Seq<u8>;

/// The value that rewinding a range proof for a commitment with a nonce recovers, if it does.
pub uninterp spec fn range_proof_rewound(commit: Seq<u8>, nonce: Seq<u8>, proof: Seq<u8>) -> Option<u64>;

/// Whether an aggregated signature verifies for the message under the given public keys
/// (false when a key does not parse).
pub uninterp spec fn aggsig_multi_verifies(sig: Seq<u8>, msg: Seq<u8>, pks: Seq<Seq<u8>>) -> bool;

/// The 32-byte shared secret of a public key and a secret key.
pub uninterp spec fn shared_secret_of(pk: Seq<u8>, sk: Seq<u8>) -> Seq<u8>;

// ---------------------------------------------------------------------------
// The curve context
// ---------------------------------------------------------------------------

// Every `Secp256k1` this library holds is made by `secp_context`, with the capability to sign,
// verify and commit (`ContextFlag::Commit`), or copied from one by `secp_clone`, which keeps
// the capabilities. The wrappers below that take a bare `&Secp256k1` rely on that: a context
// without those capabilities would make some of the curve library's calls fail.

#[verifier::external_type_specification]
#[verifier::external_body]
pub struct ExSecp256k1(secp256k1zkp::Secp256k1);

/// A context of the curve library made with the capability to sign, verify and commit (its
/// only constructor is `secp_context`).
pub struct CommitContext {
    secp: Secp256k1,
}

impl CommitContext {
    /// The curve library's context.
    pub closed spec fn spec_inner(&self) -> Secp256k1 {
        self.secp
    }

    /// The curve library's context.
    pub(crate) fn curve(&self) -> (r: &Secp256k1)
        ensures
            *r == self.spec_inner(),
    {
        &self.secp
    }
}

/// Calls `Secp256k1::with_caps(ContextFlag::Commit)`: a context that signs, verifies and
/// commits.
#[verifier::external_body]
pub(crate) fn secp_context() -> (r: CommitContext) {
    CommitContext { secp: Secp256k1::with_caps(ContextFlag::Commit) }
}

/// Calls `key::SecretKey::from_slice`, which accepts exactly the valid secret keys
/// (`secp256k1_ec_seckey_verify`: non-zero and below the group order).
#[verifier::external_body]
pub(crate) fn secp_seckey_verify(secp: &Secp256k1, sk: &[u8; 32]) -> (r: bool)
    ensures
        r == seckey_valid(sk@),
{
    key::SecretKey::from_slice(secp, sk).is_ok()
}

/// Calls `key::PublicKey::from_secret_key` and serializes the key compressed; the contract
/// names the result `pubkey_of` the secret key. The call fails only in a context that cannot
/// sign, and a `CommitContext` can, so a valid key always gives its public key.
#[verifier::external_body]
pub(crate) fn secp_pubkey_create(ctx: &CommitContext, sk: &[u8; 32]) -> (r: Option<[u8; 33]>)
    requires
        seckey_valid(sk@),
    ensures
        r is Some,
        r matches Some(v) ==> v@ == pubkey_of(sk@),
{
    let pk = key::PublicKey::from_secret_key(&ctx.secp, &key::SecretKey(*sk)).ok()?;
    let mut out = [0u8; 33];
    out.copy_from_slice(&pk.serialize_vec(&ctx.secp, true)[..]);
    Some(out)
}

/// The internal 64-byte form of the public key of a secret key.
pub uninterp spec fn pubkey_internal_of(sk: Seq<u8>) -> Seq<u8>;

/// The compressed (33-byte) serialization of a public key given in internal form.
pub uninterp spec fn pubkey_serialized(internal: Seq<u8>) -> Seq<u8>;

/// An internal-form key whose x coordinate is not zero (the serializer refuses, and the C
/// code aborts on, a zero one).
pub open spec fn internal_x_nonzero(internal: Seq<u8>) -> bool {
    exists|i: int| 0 <= i < 32 && internal[i] != 0
}

/// Calls `key::PublicKey::from_secret_key` and gives the key's internal 64 bytes (which
/// `pubkey_internal_of` names). The call asserts success, so the key must be valid.
#[verifier::external_body]
pub(crate) fn secp_pubkey_create_internal(secp: &Secp256k1, sk: &[u8; 32]) -> (r: Option<[u8; 64]>)
    requires
        seckey_valid(sk@),
    ensures
        r matches Some(v) ==> v@ == pubkey_internal_of(sk@),
{
    key::PublicKey::from_secret_key(secp, &key::SecretKey(*sk)).ok().map(|k| (k.0).0)
}

/// Calls `key::PublicKey::serialize_vec` with compression on the key with the given internal
/// bytes (`secp256k1_ec_pubkey_serialize`), which gives the 33 bytes that
/// `pubkey_serialized` names.
#[verifier::external_body]
pub(crate) fn secp_pubkey_serialize(secp: &Secp256k1, internal: &[u8; 64]) -> (r: [u8; 33])
    requires
        internal_x_nonzero(internal@),
    ensures
        r@ == pubkey_serialized(internal@),
{
    let v = key::PublicKey(ffi::PublicKey(*internal)).serialize_vec(secp, true);
    let mut out = [0u8; 33];
    out.copy_from_slice(&v[..]);
    out
}

/// Calls `key::PublicKey::from_slice` and gives the parsed key's internal 64 bytes.
#[verifier::external_body]
pub(crate) fn secp_pubkey_parse(secp: &Secp256k1, pk: &[u8; 33]) -> (r: Option<[u8; 64]>)
    ensures
        match r {
            Some(v) => pubkey_parsed(pk@) == Some(v@),
            None => pubkey_parsed(pk@) is None,
        },
{
    key::PublicKey::from_slice(secp, pk).ok().map(|k| (k.0).0)
}

/// Calls `key::PublicKey::from_combination` on the two parsed keys and serializes the sum
/// compressed.
#[verifier::external_body]
pub(crate) fn secp_pubkey_combine(secp: &Secp256k1, a: &[u8; 33], b: &[u8; 33]) -> (r: Option<[u8; 33]>)
    ensures
        match r {
            Some(v) => pubkey_sum(a@, b@) == Some(v@),
            None => pubkey_sum(a@, b@) is None,
        },
{
    let ka = key::PublicKey::from_slice(secp, a).ok()?;
    let kb = key::PublicKey::from_slice(secp, b).ok()?;
    let sum = key::PublicKey::from_combination(secp, vec![&ka, &kb]).ok()?;
    let mut out = [0u8; 33];
    out.copy_from_slice(&sum.serialize_vec(secp, true)[..]);
    Some(out)
}

/// Calls `Secp256k1::commit`: the Pedersen commitment to `value` blinded by `blind`. On a
/// context with the commit capability the call only fails on that capability (the return
/// value of `secp256k1_pedersen_commit` is not looked at), so it always gives a commitment.
#[verifier::external_body]
pub(crate) fn secp_commit(secp: &CommitContext, value: u64, blind: &[u8; 32]) -> (r: Option<[u8; 33]>)
    requires
        scalar_ok(blind@),
    ensures
        r is Some,
        r matches Some(c) ==> c@ == commit_of(value, blind@),
{
    secp.secp.commit(value, key::SecretKey(*blind)).ok().map(|c| c.0)
}

/// Calls `Secp256k1::commit_sum`: the positive commitments minus the negative ones.
#[verifier::external_body]
pub(crate) fn secp_commit_sum(secp: &Secp256k1, pos: &Vec<[u8; 33]>, neg: &Vec<[u8; 33]>) -> (r:
    Option<[u8; 33]>)
    ensures
        match r {
            Some(c) => commit_total(pos@.map_values(|x: [u8; 33]| x@), neg@.map_values(
                |x: [u8; 33]| x@)) == Some(c@),
            None => commit_total(pos@.map_values(|x: [u8; 33]| x@), neg@.map_values(
                |x: [u8; 33]| x@)) is None,
        },
{
    let p = pos.iter().map(|c| pedersen::Commitment(*c)).collect();
    let n = neg.iter().map(|c| pedersen::Commitment(*c)).collect();
    secp.commit_sum(p, n).ok().map(|c| c.0)
}

/// Calls `Secp256k1::verify_commit_sum`: whether the positive commitments sum to the
/// negative ones.
#[verifier::external_body]
pub(crate) fn secp_verify_commit_sum(secp: &Secp256k1, pos: &Vec<[u8; 33]>, neg: &Vec<[u8; 33]>) -> (r: bool)
    ensures
        r == commits_balance(pos@.map_values(|x: [u8; 33]| x@), neg@.map_values(|x: [u8; 33]| x@)),
{
    let p = pos.iter().map(|c| pedersen::Commitment(*c)).collect();
    let n = neg.iter().map(|c| pedersen::Commitment(*c)).collect();
    secp.verify_commit_sum(p, n)
}

/// Calls `pedersen::Commitment::to_pubkey` and serializes the key compressed.
#[verifier::external_body]
pub(crate) fn secp_commit_to_pubkey(secp: &Secp256k1, c: &[u8; 33]) -> (r: Option<[u8; 33]>)
    ensures
        match r {
            Some(v) => commit_pubkey(c@) == Some(v@),
            None => commit_pubkey(c@) is None,
        },
{
    let k = pedersen::Commitment(*c).to_pubkey(secp).ok()?;
    let mut out = [0u8; 33];
    out.copy_from_slice(&k.serialize_vec(secp, true)[..]);
    Some(out)
}

/// Calls `Secp256k1::blind_sum`: the positive scalars minus the negative ones modulo the
/// group order (`secp256k1_pedersen_blind_sum`), refused by the final key check when that is
/// zero. Every scalar must be below the group order (the call asserts it).
#[verifier::external_body]
pub(crate) fn secp_blind_sum(secp: &Secp256k1, pos: &Vec<[u8; 32]>, neg: &Vec<[u8; 32]>) -> (r:
    Option<[u8; 32]>)
    requires
        forall|i: int| 0 <= i < pos@.len() ==> scalar_ok(#[trigger] pos@[i]@),
        forall|i: int| 0 <= i < neg@.len() ==> scalar_ok(#[trigger] neg@[i]@),
    ensures
        r is None <==> blind_total(pos@.map_values(|x: [u8; 32]| x@), neg@.map_values(
            |x: [u8; 32]| x@)) == 0,
        r matches Some(s) ==> be_value(s@) == blind_total(pos@.map_values(|x: [u8; 32]| x@),
            neg@.map_values(|x: [u8; 32]| x@)),
{
    let p = pos.iter().map(|k| key::SecretKey(*k)).collect();
    let n = neg.iter().map(|k| key::SecretKey(*k)).collect();
    secp.blind_sum(p, n).ok().map(|k| k.0)
}

/// The Schnorr signature (64 bytes) of `msg` by `seckey` with the given secret nonce, the
/// public nonce `pubnonce` and key `pe` in the challenge and the final nonce sum; `None` when
/// a public key does not parse or the curve library refuses.
pub uninterp spec fn schnorr_sig_of(msg: Seq<u8>, seckey: Seq<u8>, secnonce: Seq<u8>, pubnonce: Seq<u8>,
    pe: Seq<u8>, final_nonce_sum: Seq<u8>) -> Option<Seq<u8>>;

/// Calls `aggsig::sign_single` with the given secret nonce, the public nonce for `e`, `pe`
/// as the key for `e` and the final nonce sum. The call draws a seed, which the curve library
/// uses only when no secret nonce is given; with one, the signature is a function of the
/// arguments, named `schnorr_sig_of`.
#[verifier::external_body]
pub(crate) fn secp_sign_single(secp: &Secp256k1, msg: &[u8; 32], seckey: &[u8; 32], secnonce: &[u8; 32],
    pubnonce: &[u8; 33], pe: &[u8; 33], final_nonce_sum: &[u8; 33]) -> (r: Option<[u8; 64]>)
    requires
        seckey_valid(seckey@),
        seckey_valid(secnonce@),
    ensures
        match r {
            Some(s) => schnorr_sig_of(msg@, seckey@, secnonce@, pubnonce@, pe@, final_nonce_sum@) == Some(s@),
            None => schnorr_sig_of(msg@, seckey@, secnonce@, pubnonce@, pe@, final_nonce_sum@) is None,
        },
{
    let pn = key::PublicKey::from_slice(secp, pubnonce).ok()?;
    let pk = key::PublicKey::from_slice(secp, pe).ok()?;
    let fns = key::PublicKey::from_slice(secp, final_nonce_sum).ok()?;
    let (sk, sn) = (key::SecretKey(*seckey), key::SecretKey(*secnonce));
    let sig = aggsig::sign_single(secp, &Message::from(*msg), &sk, Some(&sn), None, Some(&pn),
        Some(&pk), Some(&fns)).ok()?;
    Some(sig.to_raw_data())
}

/// Calls `key::SecretKey::add_assign` (`secp256k1_ec_privkey_tweak_add`): the first scalar
/// (reduced modulo the group order) plus the second, modulo the group order; refused when the
/// second is not below the order or the sum is zero.
#[verifier::external_body]
pub(crate) fn secp_scalar_add(secp: &Secp256k1, a: &[u8; 32], b: &[u8; 32]) -> (r: Option<[u8; 32]>)
    ensures
        r is Some <==> (be_value(b@) < curve_order() && (be_value(a@) % curve_order()
            + be_value(b@)) % curve_order() != 0),
        r matches Some(s) ==> be_value(s@) == (be_value(a@) % curve_order() + be_value(b@))
            % curve_order(),
{
    let mut k = key::SecretKey(*a);
    k.add_assign(secp, &key::SecretKey(*b)).ok()?;
    Some(k.0)
}

/// Calls `key::SecretKey::neg_assign` (`secp256k1_ec_privkey_tweak_neg`): the group order
/// minus the scalar, modulo the order; refused when the scalar is not below the order.
#[verifier::external_body]
pub(crate) fn secp_scalar_negate(secp: &Secp256k1, a: &[u8; 32]) -> (r: Option<[u8; 32]>)
    ensures
        r is Some <==> be_value(a@) < curve_order(),
        r matches Some(s) ==> be_value(s@) == (curve_order() - be_value(a@)) % (curve_order() as int),
{
    let mut k = key::SecretKey(*a);
    k.neg_assign(secp).ok()?;
    Some(k.0)
}

/// Calls `aggsig::verify_single` after parsing the signature and the three keys.
#[verifier::external_body]
pub(crate) fn secp_verify_single(secp: &Secp256k1, sig: &[u8; 64], msg: &[u8; 32], pubnonce: &[u8; 33],
    pubkey: &[u8; 33], pe: &[u8; 33], is_partial: bool) -> (r: Option<bool>)
    ensures
        r == aggsig_verifies(sig@, msg@, pubnonce@, pubkey@, pe@, is_partial),
{
    let s = Signature::from_raw_data(sig).ok()?;
    let pn = key::PublicKey::from_slice(secp, pubnonce).ok()?;
    let pk = key::PublicKey::from_slice(secp, pubkey).ok()?;
    let e = key::PublicKey::from_slice(secp, pe).ok()?;
    Some(aggsig::verify_single(secp, &s, &Message::from(*msg), Some(&pn), &pk, Some(&e), None, is_partial))
}

/// Calls `aggsig::verify_single` for a completed signature, with no public nonce, under the
/// given public key, which also stands as the key in the challenge.
#[verifier::external_body]
pub(crate) fn secp_verify_completed(secp: &Secp256k1, sig: &[u8; 64], msg: &[u8; 32], pubkey: &[u8; 33])
    -> (r: bool)
    ensures
        r == kernel_sig_verifies(sig@, msg@, pubkey@),
{
    let (s, pk) = match (Signature::from_raw_data(sig), key::PublicKey::from_slice(secp, pubkey)) {
        (Ok(s), Ok(pk)) => (s, pk),
        _ => return false,
    };
    aggsig::verify_single(secp, &s, &Message::from(*msg), None, &pk, Some(&pk), None, false)
}

/// Calls `aggsig::add_signatures_single` after parsing the signatures and the nonce sum.
#[verifier::external_body]
pub(crate) fn secp_add_signatures(secp: &Secp256k1, sigs: &Vec<[u8; 64]>, nonce_sum: &[u8; 33]) -> (r:
    Option<[u8; 64]>)
    ensures
        match r {
            Some(s) => signatures_total(sigs@.map_values(|x: [u8; 64]| x@), nonce_sum@) == Some(s@),
            None => signatures_total(sigs@.map_values(|x: [u8; 64]| x@), nonce_sum@) is None,
        },
{
    let ns = key::PublicKey::from_slice(secp, nonce_sum).ok()?;
    let parsed: Vec<Signature> = sigs.iter().map(|s| Signature::from_raw_data(s)).collect::<Result<
        _, _>>().ok()?;
    let sum = aggsig::add_signatures_single(secp, parsed.iter().collect(), &ns).ok()?;
    Some(sum.to_raw_data())
}

/// The 64-bit bullet range proof for the commitment to `value` blinded by `blind`, with
/// `blind` as the rewind nonce, the given private nonce and no extra data.
pub uninterp spec fn bullet_proof_of(value: u64, blind: Seq<u8>, private_nonce: Seq<u8>) -> Seq<u8>;

/// Calls `Secp256k1::bullet_proof` for a 64-bit range proof with the blinding factor as the
/// rewind nonce and no extra data; the proof is a function of the value, the blinding factor
/// and the private nonce, named `bullet_proof_of`, of at most 5134 bytes.
#[verifier::external_body]
pub(crate) fn secp_bullet_proof(secp: &Secp256k1, value: u64, blind: &[u8; 32], private_nonce: &[u8; 32])
    -> (r: Vec<u8>)
    requires
        seckey_valid(blind@),
        seckey_valid(private_nonce@),
    ensures
        r@.len() <= 5134,
        r@ == bullet_proof_of(value, blind@, private_nonce@),
{
    let (b, n) = (key::SecretKey(*blind), key::SecretKey(*private_nonce));
    let p = secp.bullet_proof(value, b, key::SecretKey(*blind), n, None, None);
    p.proof[..p.plen].to_vec()
}

/// Calls `Secp256k1::verify_bullet_proof` with no extra data.
#[verifier::external_body]
pub(crate) fn secp_verify_bullet_proof(secp: &Secp256k1, commit: &[u8; 33], proof: &[u8]) -> (r: bool)
    requires
        proof@.len() <= 5134,
    ensures
        r == range_proof_verifies(commit@, proof@),
{
    let mut p = pedersen::RangeProof::zero();
    p.proof[..proof.len()].copy_from_slice(proof);
    p.plen = proof.len();
    secp.verify_bullet_proof(pedersen::Commitment(*commit), p, None).is_ok()
}

/// Calls `Secp256k1::rewind_bullet_proof` with no extra data: the value recovered from the
/// proof with the nonce, or none when the commitment does not parse or the proof does not
/// rewind.
#[verifier::external_body]
pub(crate) fn secp_rewind_bullet_proof(secp: &Secp256k1, commit: &[u8; 33], nonce: &[u8; 32], proof: &[u8])
    -> (r: Option<u64>)
    requires
        proof@.len() <= 5134,
    ensures
        r == range_proof_rewound(commit@, nonce@, proof@),
{
    let mut p = pedersen::RangeProof::zero();
    p.proof[..proof.len()].copy_from_slice(proof);
    p.plen = proof.len();
    let info = secp.rewind_bullet_proof(pedersen::Commitment(*commit), key::SecretKey(*nonce), None, p);
    info.ok().map(|i| i.value)
}

/// Calls `Secp256k1::sign` (ECDSA with an RFC 6979 nonce) and serializes the signature in
/// compact form.
#[verifier::external_body]
pub(crate) fn secp_sign_ecdsa(secp: &Secp256k1, msg: &[u8; 32], sk: &[u8; 32]) -> (r: Option<[u8; 64]>)
    requires
        seckey_valid(sk@),
    ensures
        r matches Some(s) ==> s@ == ecdsa_compact_of(msg@, sk@),
{
    let sig = secp.sign(&Message::from(*msg), &key::SecretKey(*sk)).ok()?;
    Some(sig.serialize_compact(secp))
}

/// Calls `ecdh::SharedSecret::new` on the parsed public key.
#[verifier::external_body]
pub(crate) fn secp_ecdh(secp: &Secp256k1, pk: &[u8; 33], sk: &[u8; 32]) -> (r: Option<[u8; 32]>)
    requires
        seckey_valid(sk@),
    ensures
        r matches Some(s) ==> s@ == shared_secret_of(pk@, sk@),
{
    let point = key::PublicKey::from_slice(secp, pk).ok()?;
    let ss = ecdh::SharedSecret::new(secp, &point, &key::SecretKey(*sk));
    let mut out = [0u8; 32];
    out.copy_from_slice(&ss[..]);
    Some(out)
}

/// Builds an `aggsig::AggSigContext` over the parsed keys and calls its `verify`.
#[verifier::external_body]
pub(crate) fn secp_aggsig_verify(secp: &Secp256k1, sig: &[u8; 64], msg: &[u8; 32], pks: &Vec<[u8; 33]>) -> (r: bool)
    requires
        pks@.len() > 0,
    ensures
        r == aggsig_multi_verifies(sig@, msg@, pks@.map_values(|x: [u8; 33]| x@)),
{
    let keys: Vec<key::PublicKey> = match pks.iter().map(|p| key::PublicKey::from_slice(secp, p)).collect() {
        Ok(k) => k,
        Err(_) => return false,
    };
    let s = match Signature::from_raw_data(sig) {
        Ok(s) => s,
        Err(_) => return false,
    };
    aggsig::AggSigContext::new(secp, &keys).verify(s, Message::from(*msg), &keys)
}

// ---------------------------------------------------------------------------
// Interactive aggregated signatures
// ---------------------------------------------------------------------------

#[verifier::external_type_specification]
#[verifier::external_body]
pub struct ExAggSigContext(aggsig::AggSigContext);

#[verifier::external_type_specification]
#[verifier::external_body]
pub struct ExAggSigPartialSignature(AggSigPartialSignature);

/// Calls `Secp256k1::clone`, which copies the context (`secp256k1_context_clone`) with the
/// same capabilities; nothing is claimed of the copy.
#[verifier::external_body]
pub(crate) fn secp_clone(secp: &Secp256k1) -> (r: Secp256k1) {
    secp.clone()
}

/// The curve library's aggregated-signature context together with the number of keys it was
/// made over (set when it is made, and never changed).
pub struct SigningContext {
    ctx: aggsig::AggSigContext,
    nsigs: usize,
}

impl SigningContext {
    /// The number of keys the context was made over.
    pub closed spec fn nsigs(&self) -> nat {
        self.nsigs as nat
    }
}

/// Calls `aggsig::AggSigContext::new` over the keys parsed by `key::PublicKey::from_slice`
/// (`None` when one does not parse, which is what `pubkey_parsed` names), and keeps the number
/// of keys with it. The context draws a random seed and holds the signing state of each key,
/// which is not modelled.
#[verifier::external_body]
pub(crate) fn aggsig_context_new(secp: &Secp256k1, pks: &Vec<[u8; 33]>) -> (r: Option<SigningContext>)
    requires
        pks@.len() > 0,
    ensures
        (forall|i: int| 0 <= i < pks@.len() ==> pubkey_parsed((#[trigger] pks@[i])@) is Some) ==> r is Some,
        r matches Some(c) ==> c.nsigs() == pks@.len(),
{
    let keys: Vec<key::PublicKey> =
        pks.iter().map(|p| key::PublicKey::from_slice(secp, p)).collect::<Result<_, _>>().ok()?;
    Some(SigningContext { ctx: aggsig::AggSigContext::new(secp, &keys), nsigs: pks.len() })
}

/// Calls `aggsig::AggSigContext::generate_nonce` for the key at `index` (below the number of
/// keys: the C code aborts otherwise): `false` when a nonce was made for it before. The
/// result depends on the context's state, which is not modelled, so nothing is claimed of it.
#[verifier::external_body]
pub(crate) fn aggsig_generate_nonce(ctx: &SigningContext, index: usize) -> (r: bool)
    requires
        index < ctx.nsigs(),
{
    ctx.ctx.generate_nonce(index)
}

/// Calls `aggsig::AggSigContext::partial_sign` for the key at `index` (below the number of
/// keys): `None` unless every key has a nonce and this one was made here, or when the secret
/// key is not below the group order. The partial signature depends on the nonces drawn, so
/// nothing is claimed of it.
#[verifier::external_body]
pub(crate) fn aggsig_partial_sign(ctx: &SigningContext, msg: &[u8; 32], sk: &[u8; 32], index: usize) -> (r:
    Option<AggSigPartialSignature>)
    requires
        index < ctx.nsigs(),
{
    ctx.ctx.partial_sign(Message::from(*msg), key::SecretKey(*sk), index).ok()
}

/// Calls `aggsig::AggSigContext::combine_signatures` and gives the signature's 64 bytes;
/// `None` when the number of partial signatures is not the number of keys or one of them
/// does not encode a scalar. What is combined depends on the context's nonces, so nothing is
/// claimed of the signature.
#[verifier::external_body]
pub(crate) fn aggsig_combine(ctx: &SigningContext, partials: &Vec<AggSigPartialSignature>) -> (r: Option<[u8; 64]>)
    requires
        partials@.len() > 0,
{
    ctx.ctx.combine_signatures(partials).ok().map(|s| s.to_raw_data())
}

} // verus!
