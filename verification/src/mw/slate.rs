use vstd::prelude::*;
use crate::base::error::Error;
use crate::base::misc::be_value;
use crate::crypto::ctx::{commit_views, key_views, sig_views, Ctx, BLIND_SUM_MAX_KEYS, MAX_AGGREGATE_SIGNATURES};
use crate::crypto::keys::{draws_succeed, drawn_end, drawn_key, lemma_drawn_end_found, PublicKey, SecretKey};
use crate::crypto::pedersen::Commitment;
use crate::crypto::range_proof::RangeProof;
use crate::crypto::secp::{aggsig_verifies, blind_total, commit_of, commit_total, pubkey_of, pubkey_parsed, pubkey_sum, schnorr_sig_of, seckey_valid, signatures_total};
use crate::crypto::signature::{Message, Signature};
use crate::mw::kernel::{kernel_message, Kernel, KernelView};
use crate::mw::transaction::Transaction;

verus! {

/// What one participant of a slate contributed.
struct ParticipantData {
    inputs: Vec<Commitment>,
    outputs: Vec<(Commitment, RangeProof)>,
    pub_blind_excess: PublicKey,
    excess_commit: Commitment,
    pub_nonce: PublicKey,
    part_sig: Option<Signature>,
    sec_nonce: SecretKey,
}

/// A participant's contribution as plain values: its input and output commitments, its
/// outputs' range proofs, its public blinding excess and excess commitment, its public and
/// secret nonces, and its partial signature once it has signed.
pub struct ParticipantView {
    pub inputs: Seq<Seq<u8>>,
    pub outputs: Seq<Seq<u8>>,
    pub output_proofs: Seq<Seq<u8>>,
    pub pub_blind_excess: Seq<u8>,
    pub excess_commit: Seq<u8>,
    pub pub_nonce: Seq<u8>,
    pub part_sig: Option<Seq<u8>>,
    pub sec_nonce: Seq<u8>,
}

impl ParticipantData {
    spec fn view(&self) -> ParticipantView {
        ParticipantView {
            inputs: commit_views(self.inputs@),
            outputs: self.outputs@.map_values(|o: (Commitment, RangeProof)| o.0@),
            output_proofs: self.outputs@.map_values(|o: (Commitment, RangeProof)| o.1.bytes()),
            pub_blind_excess: self.pub_blind_excess@,
            excess_commit: self.excess_commit@,
            pub_nonce: self.pub_nonce@,
            part_sig: match self.part_sig {
                Some(sig) => Some(sig@),
                None => None,
            },
            sec_nonce: self.sec_nonce@,
        }
    }
}

/// The sum of two public keys, when both parse and the sum can be formed.
pub open spec fn key_add(a: Seq<u8>, b: Seq<u8>) -> Option<Seq<u8>> {
    if pubkey_parsed(a) is Some && pubkey_parsed(b) is Some {
        pubkey_sum(a, b)
    } else {
        None
    }
}

/// The public keys added up left to right; `None` for none, or when a sum fails.
pub open spec fn key_fold(ks: Seq<Seq<u8>>) -> Option<Seq<u8>>
    decreases ks.len(),
{
    if ks.len() == 0 {
        None
    } else if ks.len() == 1 {
        Some(ks[0])
    } else {
        match key_fold(ks.drop_last()) {
            Some(a) => key_add(a, ks.last()),
            None => None,
        }
    }
}

/// The commitments added up left to right; `None` for none, or when a sum fails.
pub open spec fn commit_fold(cs: Seq<Seq<u8>>) -> Option<Seq<u8>>
    decreases cs.len(),
{
    if cs.len() == 0 {
        None
    } else if cs.len() == 1 {
        Some(cs[0])
    } else {
        match commit_fold(cs.drop_last()) {
            Some(a) => commit_total(seq![a, cs.last()], Seq::empty()),
            None => None,
        }
    }
}

/// A sum that fails on a prefix fails on the whole.
proof fn lemma_folds_fail(s: Seq<Seq<u8>>, j: int)
    requires
        1 <= j <= s.len(),
    ensures
        key_fold(s.take(j)) is None ==> key_fold(s) is None,
        commit_fold(s.take(j)) is None ==> commit_fold(s) is None,
    decreases s.len() - j,
{
    if j < s.len() {
        lemma_folds_fail(s, j + 1);
        assert(s.take(j + 1).drop_last() =~= s.take(j));
    } else {
        assert(s.take(j) =~= s);
    }
}

/// The participants' public nonces.
pub open spec fn pub_nonces(ps: Seq<ParticipantView>) -> Seq<Seq<u8>> {
    ps.map_values(|p: ParticipantView| p.pub_nonce)
}

/// The participants' public blinding excesses.
pub open spec fn pub_excesses(ps: Seq<ParticipantView>) -> Seq<Seq<u8>> {
    ps.map_values(|p: ParticipantView| p.pub_blind_excess)
}

/// The participants' excess commitments.
pub open spec fn excess_commits(ps: Seq<ParticipantView>) -> Seq<Seq<u8>> {
    ps.map_values(|p: ParticipantView| p.excess_commit)
}

/// A participant's partial signature, when it has one, verifies for `msg` against the sum
/// of public nonces and the sum of public blinding excesses, with the participant's public
/// blinding excess as its key (all of them parsing).
pub open spec fn part_sig_ok(p: ParticipantView, msg: Seq<u8>, nonce_sum: Seq<u8>, blind_sum: Seq<u8>) -> bool {
    match p.part_sig {
        Some(sig) => pubkey_parsed(nonce_sum) is Some && pubkey_parsed(p.pub_blind_excess) is Some
            && pubkey_parsed(blind_sum) is Some && aggsig_verifies(sig, msg, nonce_sum,
            p.pub_blind_excess, blind_sum, true) == Some(true),
        None => true,
    }
}

/// The commitments to the given values under the given blinding keys.
pub open spec fn commits_of(keys: Seq<(&SecretKey, u64)>) -> Seq<Seq<u8>> {
    keys.map_values(|p: (&SecretKey, u64)| commit_of(p.1, p.0@))
}

/// The secret keys of a list of keys with values.
pub open spec fn pair_keys(keys: Seq<(&SecretKey, u64)>) -> Seq<Seq<u8>> {
    keys.map_values(|p: (&SecretKey, u64)| p.0@)
}

/// The keys taken away in a participant's blinding excess: its output keys, then the offset
/// when it is the first participant.
pub open spec fn excess_negatives(outputs: Seq<(&SecretKey, u64)>, first: bool, offset: Seq<u8>) -> Seq<Seq<u8>> {
    if first {
        pair_keys(outputs).push(offset)
    } else {
        pair_keys(outputs)
    }
}

/// The participant that `Slate::commit` adds for the given keys when the generator gave
/// `nonce`: the commitments to its inputs and outputs, a range proof per output, no partial
/// signature yet, the drawn secret nonce and its public key, and the public key and the
/// commitment to zero of its blinding excess (the inputs' keys minus the outputs' keys,
/// minus the offset for the first participant).
pub open spec fn committed(p: ParticipantView, inputs: Seq<(&SecretKey, u64)>, outputs: Seq<(&SecretKey, u64)>,
    first: bool, offset: Seq<u8>, nonce: Option<Seq<u8>>) -> bool {
    &&& p.inputs == commits_of(inputs)
    &&& p.outputs == commits_of(outputs)
    &&& p.output_proofs.len() == outputs.len()
    &&& p.part_sig is None
    &&& nonce == Some(p.sec_nonce)
    &&& p.pub_nonce == pubkey_of(p.sec_nonce)
    &&& exists|k: Seq<u8>| k.len() == 32 && be_value(k) == blind_total(pair_keys(inputs), excess_negatives(
        outputs, first, offset)) && #[trigger] pubkey_of(k) == p.pub_blind_excess && p.excess_commit
        == commit_of(0, k)
}

/// What `Slate::commit` needs to succeed: the generator finds a key for the nonce and one for
/// each output's range proof, the output keys are valid, the blinding sum takes at most
/// `BLIND_SUM_MAX_KEYS` keys and is not zero.
pub open spec fn commit_succeeds(rng_key: Seq<u8>, rng_iv: Seq<u8>, rng_offset: u64, inputs: Seq<(&SecretKey, u64)>,
    outputs: Seq<(&SecretKey, u64)>, first: bool, offset: Seq<u8>) -> bool {
    &&& draws_succeed(rng_key, rng_iv, rng_offset, outputs.len() + 1)
    &&& forall|i: int| 0 <= i < outputs.len() ==> seckey_valid((#[trigger] outputs[i]).0@)
    &&& inputs.len() + excess_negatives(outputs, first, offset).len() <= BLIND_SUM_MAX_KEYS
    &&& blind_total(pair_keys(inputs), excess_negatives(outputs, first, offset)) != 0
}

/// The keys taken away in a participant's excess when it signs: its output keys, then the
/// offset for the first participant.
pub open spec fn sign_negatives(outputs: Seq<&SecretKey>, first: bool, offset: Seq<u8>) -> Seq<Seq<u8>> {
    if first {
        key_views(outputs).push(offset)
    } else {
        key_views(outputs)
    }
}

/// The kernel message of a slate with participants `ps` and fee `fee`: that of the summed
/// excess commitment, the fee and no features.
pub open spec fn slate_message(ps: Seq<ParticipantView>, fee: u64) -> Seq<u8> {
    kernel_message(commit_fold(excess_commits(ps))->Some_0, fee, 0)
}

/// The sums of the excess commitments, public nonces and public blinding excesses of `ps`
/// can be formed.
pub open spec fn sums_formed(ps: Seq<ParticipantView>) -> bool {
    &&& commit_fold(excess_commits(ps)) is Some
    &&& key_fold(pub_nonces(ps)) is Some
    &&& key_fold(pub_excesses(ps)) is Some
}

/// What `Slate::sign` needs to succeed for participant `pid` with a blinding excess of the
/// keys `pos` minus `neg`: a known participant, at most `BLIND_SUM_MAX_KEYS` keys, sums that
/// can be formed and parse, the other partial signatures verifying, a valid secret nonce, a
/// non-zero excess, and the curve library signing.
pub open spec fn sign_succeeds(ps: Seq<ParticipantView>, fee: u64, pid: int, pos: Seq<Seq<u8>>, neg: Seq<Seq<u8>>)
    -> bool {
    let ns = key_fold(pub_nonces(ps))->Some_0;
    let bs = key_fold(pub_excesses(ps))->Some_0;
    &&& 0 <= pid < ps.len()
    &&& pos.len() + neg.len() <= BLIND_SUM_MAX_KEYS
    &&& sums_formed(ps)
    &&& pubkey_parsed(ns) is Some
    &&& pubkey_parsed(bs) is Some
    &&& forall|j: int| 0 <= j < ps.len() && j != pid ==> part_sig_ok(#[trigger] ps[j], slate_message(ps, fee), ns, bs)
    &&& seckey_valid(ps[pid].sec_nonce)
    &&& blind_total(pos, neg) != 0
    &&& forall|k: Seq<u8>| k.len() == 32 && be_value(k) == blind_total(pos, neg) ==> (#[trigger] schnorr_sig_of(
        slate_message(ps, fee), k, ps[pid].sec_nonce, ns, bs, ns)) is Some
}

/// Participant `pid` of `ps` after signing: the partial signature of the slate message with
/// its blinding excess (the key whose value is the blinding sum of `pos` minus `neg`) and its
/// secret nonce, and the secret nonce cleared; nothing else changes.
pub open spec fn signed_as(p: ParticipantView, ps: Seq<ParticipantView>, fee: u64, pid: int, pos: Seq<Seq<u8>>,
    neg: Seq<Seq<u8>>) -> bool {
    &&& sums_formed(ps)
    &&& p == (ParticipantView { part_sig: p.part_sig, sec_nonce: Seq::new(32, |i: int| 0u8), ..ps[pid] })
    &&& p.part_sig is Some
    &&& exists|k: Seq<u8>| k.len() == 32 && be_value(k) == blind_total(pos, neg) && p.part_sig == #[trigger] schnorr_sig_of(
        slate_message(ps, fee), k, ps[pid].sec_nonce, key_fold(pub_nonces(ps))->Some_0, key_fold(pub_excesses(ps))->Some_0,
        key_fold(pub_nonces(ps))->Some_0)
}

/// The participants' partial signatures (those they have).
pub open spec fn part_sigs(ps: Seq<ParticipantView>) -> Seq<Seq<u8>> {
    ps.map_values(|p: ParticipantView| p.part_sig->Some_0)
}

/// All participants' input commitments, in order.
pub open spec fn all_inputs(ps: Seq<ParticipantView>) -> Seq<Seq<u8>> {
    ps.map_values(|p: ParticipantView| p.inputs).flatten()
}

/// All participants' output commitments, in order.
pub open spec fn all_outputs(ps: Seq<ParticipantView>) -> Seq<Seq<u8>> {
    ps.map_values(|p: ParticipantView| p.outputs).flatten()
}

/// All participants' range proofs, in order.
pub open spec fn all_output_proofs(ps: Seq<ParticipantView>) -> Seq<Seq<u8>> {
    ps.map_values(|p: ParticipantView| p.output_proofs).flatten()
}

/// What `Slate::finalize` needs to succeed: participants, all signed, at most
/// `MAX_AGGREGATE_SIGNATURES` of them, sums that can be formed, a nonce sum that parses and
/// partial signatures that the curve library adds up.
pub open spec fn finalize_succeeds(ps: Seq<ParticipantView>) -> bool {
    &&& ps.len() > 0
    &&& ps.len() <= MAX_AGGREGATE_SIGNATURES
    &&& commit_fold(excess_commits(ps)) is Some
    &&& key_fold(pub_nonces(ps)) is Some
    &&& pubkey_parsed(key_fold(pub_nonces(ps))->Some_0) is Some
    &&& forall|j: int| 0 <= j < ps.len() ==> (#[trigger] ps[j]).part_sig is Some
    &&& signatures_total(part_sigs(ps), key_fold(pub_nonces(ps))->Some_0) is Some
}

/// An interactive transaction being built by its participants: each commits to its inputs and
/// outputs, then signs, and the finalized slate is a transaction with one kernel.
pub struct Slate {
    pdata: Vec<ParticipantData>,
    fee: u64,
    offset: SecretKey,
}

impl Slate {
    /// The participants' contributions, in the order they committed.
    pub closed spec fn participants(&self) -> Seq<ParticipantView> {
        self.pdata@.map_values(|p: ParticipantData| p@)
    }

    /// The fee.
    pub closed spec fn spec_fee(&self) -> u64 {
        self.fee
    }

    /// The offset.
    pub closed spec fn spec_offset(&self) -> Seq<u8> {
        self.offset@
    }

    /// A slate without participants, for the given fee and offset.
    pub fn new(fee: u64, offset: SecretKey) -> (r: Self)
        ensures
            r.participants().len() == 0,
            r.spec_fee() == fee,
            r.spec_offset() == offset@,
    {
        Slate { pdata: Vec::new(), fee, offset }
    }

    /// Adds a participant: its inputs and outputs (keys with values) are committed to, the
    /// outputs get range proofs, a secret nonce is drawn, and the participant's public nonce,
    /// blinding excess (inputs minus outputs, minus the offset for the first participant) and
    /// its public key and commitment are kept. Gives the participant's index.
    pub fn commit(&mut self, ctx: &mut Ctx, input_keys: &[(&SecretKey, u64)], output_keys: &[(&SecretKey, u64)])
        -> (r: Result<usize, Error>)
        ensures
            final(self).spec_fee() == old(self).spec_fee(),
            final(self).spec_offset() == old(self).spec_offset(),
            r is Err ==> final(self).participants() == old(self).participants(),
            drawn_key(old(ctx).rng()) is None ==> r == Err::<usize, Error>(Error::InsufficientEntropy),
            (exists|i: int| 0 <= i < output_keys@.len() && !seckey_valid((#[trigger] output_keys@[i]).0@))
                ==> r is Err,
            input_keys@.len() + excess_negatives(output_keys@, old(self).participants().len() == 0,
                old(self).spec_offset()).len() > BLIND_SUM_MAX_KEYS ==> r is Err,
            blind_total(pair_keys(input_keys@), excess_negatives(output_keys@, old(self).participants().len()
                == 0, old(self).spec_offset())) == 0 ==> r is Err,
            commit_succeeds(old(ctx).rng().spec_key(), old(ctx).rng().spec_iv(), old(ctx).rng().spec_offset(),
                input_keys@, output_keys@, old(self).participants().len() == 0, old(self).spec_offset())
                ==> r is Ok,
            r matches Ok(id) ==> id == old(self).participants().len() && final(self).participants().len()
                == old(self).participants().len() + 1 && final(self).participants().drop_last()
                == old(self).participants() && committed(final(self).participants().last(), input_keys@,
                output_keys@, old(self).participants().len() == 0, old(self).spec_offset(), drawn_key(
                old(ctx).rng())),
    {
        let mut inputs: Vec<Commitment> = Vec::new();
        let mut outputs: Vec<(Commitment, RangeProof)> = Vec::new();
        let mut input_keys_only: Vec<&SecretKey> = Vec::new();
        let mut output_keys_only: Vec<&SecretKey> = Vec::new();
        let ghost good = commit_succeeds(ctx.rng().spec_key(), ctx.rng().spec_iv(), ctx.rng().spec_offset(),
            input_keys@, output_keys@, self.participants().len() == 0, self.spec_offset());
        let ghost rk = ctx.rng().spec_key();
        let ghost riv = ctx.rng().spec_iv();
        proof {
            lemma_drawn_end_found(ctx.rng());
        }
        let sec_nonce = SecretKey::gen(ctx)?;

        let mut i: usize = 0;
        while i < input_keys.len()
            invariant
                i <= input_keys@.len(),
                commit_views(inputs@) == commits_of(input_keys@.take(i as int)),
                key_views(input_keys_only@) == pair_keys(input_keys@.take(i as int)),
                output_keys_only@.len() == 0,
                drawn_key(old(ctx).rng()) is Some,
                sec_nonce@ == drawn_key(old(ctx).rng())->Some_0,
                ctx.rng().spec_key() == rk,
                ctx.rng().spec_iv() == riv,
                good == commit_succeeds(old(ctx).rng().spec_key(), old(ctx).rng().spec_iv(),
                    old(ctx).rng().spec_offset(), input_keys@, output_keys@, old(self).participants().len()
                    == 0, old(self).spec_offset()),
                good ==> draws_succeed(rk, riv, ctx.rng().spec_offset(), output_keys@.len() as nat),
            decreases input_keys@.len() - i,
        {
            let commit = ctx.commit(input_keys[i].1, input_keys[i].0)?;
            let ghost before = commit_views(inputs@);
            inputs.push(commit);
            input_keys_only.push(input_keys[i].0);
            proof {
                assert(commit_views(inputs@) =~= before.push(commit@));
                assert(commits_of(input_keys@.take(i + 1)) =~= commits_of(input_keys@.take(i as int)).push(
                    commit_of(input_keys@[i as int].1, input_keys@[i as int].0@)));
                assert(pair_keys(input_keys@.take(i + 1)) =~= pair_keys(input_keys@.take(i as int)).push(
                    input_keys@[i as int].0@));
                assert(key_views(input_keys_only@) =~= pair_keys(input_keys@.take(i + 1)));
            }
            i += 1;
        }
        let mut i: usize = 0;
        while i < output_keys.len()
            invariant
                i <= output_keys@.len(),
                commit_views(inputs@) == commits_of(input_keys@),
                outputs@.map_values(|o: (Commitment, RangeProof)| o.0@) == commits_of(output_keys@.take(
                    i as int)),
                outputs@.len() == i,
                sec_nonce@ == drawn_key(old(ctx).rng())->Some_0,
                key_views(input_keys_only@) == pair_keys(input_keys@),
                key_views(output_keys_only@) == pair_keys(output_keys@.take(i as int)),
                forall|j: int| 0 <= j < i ==> seckey_valid((#[trigger] output_keys@[j]).0@),
                drawn_key(old(ctx).rng()) is Some,
                ctx.rng().spec_key() == rk,
                ctx.rng().spec_iv() == riv,
                good == commit_succeeds(old(ctx).rng().spec_key(), old(ctx).rng().spec_iv(),
                    old(ctx).rng().spec_offset(), input_keys@, output_keys@, old(self).participants().len()
                    == 0, old(self).spec_offset()),
                good ==> draws_succeed(rk, riv, ctx.rng().spec_offset(), (output_keys@.len() - i) as nat),
                good ==> forall|j: int| 0 <= j < output_keys@.len() ==> seckey_valid((#[trigger] output_keys@[j]).0@),
            decreases output_keys@.len() - i,
        {
            proof {
                lemma_drawn_end_found(ctx.rng());
                if good {
                    assert(seckey_valid(output_keys@[i as int].0@));
                    assert(drawn_end(ctx.rng()) is Some);
                }
            }
            let commit = ctx.commit(output_keys[i].1, output_keys[i].0)?;
            let proof_bytes = ctx.range_proof(output_keys[i].1, output_keys[i].0)?;
            let ghost before = outputs@.map_values(|o: (Commitment, RangeProof)| o.0@);
            outputs.push((commit, proof_bytes));
            output_keys_only.push(output_keys[i].0);
            proof {
                assert(outputs@.map_values(|o: (Commitment, RangeProof)| o.0@) =~= before.push(commit@));
                assert(commits_of(output_keys@.take(i + 1)) =~= commits_of(output_keys@.take(i as int)).push(
                    commit_of(output_keys@[i as int].1, output_keys@[i as int].0@)));
                assert(pair_keys(output_keys@.take(i + 1)) =~= pair_keys(output_keys@.take(i as int)).push(
                    output_keys@[i as int].0@));
                assert(key_views(output_keys_only@) =~= pair_keys(output_keys@.take(i + 1)));
            }
            i += 1;
        }
        proof {
            assert(input_keys@.take(input_keys@.len() as int) =~= input_keys@);
            assert(output_keys@.take(output_keys@.len() as int) =~= output_keys@);
        }
        let ghost before_offset = key_views(output_keys_only@);
        if self.pdata.len() == 0 {
            output_keys_only.push(&self.offset);
            assert(key_views(output_keys_only@) =~= before_offset.push(self.offset@));
        }
        assert(key_views(output_keys_only@) == excess_negatives(output_keys@, old(self).participants().len()
            == 0, old(self).spec_offset()));
        let pub_nonce = PublicKey::from(ctx, &sec_nonce)?;
        let blind_excess = ctx.blind_sum(input_keys_only.as_slice(), output_keys_only.as_slice())?;
        let excess_commit = ctx.commit(0, &blind_excess)?;
        proof {
            if good {
                blind_excess.lemma_len();
                assert(seckey_valid(blind_excess@));
            }
        }
        let pub_blind_excess = PublicKey::from(ctx, &blind_excess)?;

        let pd = ParticipantData {
            inputs,
            outputs,
            pub_nonce,
            pub_blind_excess,
            excess_commit,
            part_sig: None,
            sec_nonce,
        };
        let ghost before = self.participants();
        self.pdata.push(pd);
        proof {
            assert(self.participants() =~= before.push(pd@));
            assert(self.participants().drop_last() =~= before);
            blind_excess.lemma_len();
            assert(pubkey_of(blind_excess@) == pd@.pub_blind_excess);
        }
        Ok(self.pdata.len() - 1)
    }

    /// The sum of the participants' excess commitments (see `commit_fold`); `IllegalState`
    /// without participants.
    fn excess_commit_sum(&self, ctx: &Ctx) -> (r: Result<Commitment, Error>)
        ensures
            self.pdata@.len() == 0 ==> r == Err::<Commitment, Error>(Error::IllegalState),
            match commit_fold(excess_commits(self.participants())) {
                Some(v) => r matches Ok(c) && c@ == v,
                None => r is Err,
            },
    {
        let ghost cs = excess_commits(self.participants());
        if self.pdata.len() == 0 {
            return Err(Error::IllegalState);
        }
        let mut ret = self.pdata[0].excess_commit;
        assert(cs.take(1) =~= seq![cs[0]]);
        let mut i: usize = 1;
        while i < self.pdata.len()
            invariant
                1 <= i <= self.pdata@.len(),
                cs == excess_commits(self.participants()),
                commit_fold(cs.take(i as int)) == Some(ret@),
            decreases self.pdata@.len() - i,
        {
            assert(cs.take(i + 1).drop_last() =~= cs.take(i as int));
            match ret.combine(ctx, &self.pdata[i].excess_commit) {
                Ok(c) => {
                    ret = c;
                },
                Err(e) => {
                    proof { lemma_folds_fail(cs, i + 1); }
                    return Err(e);
                },
            }
            i += 1;
        }
        assert(cs.take(i as int) =~= cs);
        Ok(ret)
    }

    /// The sum of the participants' public nonces (see `key_fold`); `IllegalState` without
    /// participants.
    fn pub_nonce_sum(&self, ctx: &Ctx) -> (r: Result<PublicKey, Error>)
        ensures
            self.pdata@.len() == 0 ==> r == Err::<PublicKey, Error>(Error::IllegalState),
            match key_fold(pub_nonces(self.participants())) {
                Some(v) => r matches Ok(k) && k@ == v,
                None => r is Err,
            },
    {
        let ghost ks = pub_nonces(self.participants());
        if self.pdata.len() == 0 {
            return Err(Error::IllegalState);
        }
        let mut ret = self.pdata[0].pub_nonce;
        assert(ks.take(1) =~= seq![ks[0]]);
        let mut i: usize = 1;
        while i < self.pdata.len()
            invariant
                1 <= i <= self.pdata@.len(),
                ks == pub_nonces(self.participants()),
                key_fold(ks.take(i as int)) == Some(ret@),
            decreases self.pdata@.len() - i,
        {
            assert(ks.take(i + 1).drop_last() =~= ks.take(i as int));
            match ret.combine(ctx, &self.pdata[i].pub_nonce) {
                Ok(k) => {
                    ret = k;
                },
                Err(e) => {
                    proof { lemma_folds_fail(ks, i + 1); }
                    return Err(e);
                },
            }
            i += 1;
        }
        assert(ks.take(i as int) =~= ks);
        Ok(ret)
    }

    /// The sum of the participants' public blinding excesses (see `key_fold`); `IllegalState`
    /// without participants.
    fn pub_blind_sum(&self, ctx: &Ctx) -> (r: Result<PublicKey, Error>)
        ensures
            self.pdata@.len() == 0 ==> r == Err::<PublicKey, Error>(Error::IllegalState),
            match key_fold(pub_excesses(self.participants())) {
                Some(v) => r matches Ok(k) && k@ == v,
                None => r is Err,
            },
    {
        let ghost ks = pub_excesses(self.participants());
        if self.pdata.len() == 0 {
            return Err(Error::IllegalState);
        }
        let mut ret = self.pdata[0].pub_blind_excess;
        assert(ks.take(1) =~= seq![ks[0]]);
        let mut i: usize = 1;
        while i < self.pdata.len()
            invariant
                1 <= i <= self.pdata@.len(),
                ks == pub_excesses(self.participants()),
                key_fold(ks.take(i as int)) == Some(ret@),
            decreases self.pdata@.len() - i,
        {
            assert(ks.take(i + 1).drop_last() =~= ks.take(i as int));
            match ret.combine(ctx, &self.pdata[i].pub_blind_excess) {
                Ok(k) => {
                    ret = k;
                },
                Err(e) => {
                    proof { lemma_folds_fail(ks, i + 1); }
                    return Err(e);
                },
            }
            i += 1;
        }
        assert(ks.take(i as int) =~= ks);
        Ok(ret)
    }

    /// Checks the partial signatures of the other participants that have signed: `Ok`
    /// exactly when each verifies (see `part_sig_ok`); otherwise `OperationFailed` (a key does
    /// not parse) or `ValidationFailed`.
    fn verify_part_sigs(&self, ctx: &Ctx, participant_id: usize, msg: &Message, pub_nonce_sum: &PublicKey,
        pub_blind_sum: &PublicKey) -> (r: Result<(), Error>)
        ensures
            r is Ok <==> forall|j: int| 0 <= j < self.participants().len() && j != participant_id ==> part_sig_ok(
                #[trigger] self.participants()[j], msg@, pub_nonce_sum@, pub_blind_sum@),
            r is Err ==> (r == Err::<(), Error>(Error::OperationFailed) || r == Err::<(), Error>(
                Error::ValidationFailed)),
    {
        let mut i: usize = 0;
        while i < self.pdata.len()
            invariant
                i <= self.pdata@.len(),
                forall|j: int| 0 <= j < i && j != participant_id ==> part_sig_ok(
                    #[trigger] self.participants()[j], msg@, pub_nonce_sum@, pub_blind_sum@),
            decreases self.pdata@.len() - i,
        {
            proof { assert(self.participants()[i as int] == self.pdata@[i as int]@); }
            if i != participant_id {
                match &self.pdata[i].part_sig {
                    Some(part_sig) => {
                        ctx.verify(part_sig, msg, pub_nonce_sum, &self.pdata[i].pub_blind_excess,
                            pub_blind_sum, true)?;
                    },
                    None => {},
                }
            }
            i += 1;
        }
        Ok(())
    }

    /// The participant `participant_id` signs: its blinding excess is recomputed from its
    /// keys (minus the offset for the first participant), the other participants' partial
    /// signatures are checked, and its partial signature of the kernel message is stored; its
    /// secret nonce is then cleared. An unknown participant is refused with `IllegalArgument`.
    pub fn sign(&mut self, ctx: &mut Ctx, participant_id: usize, input_keys: &[&SecretKey], output_keys: &[&SecretKey])
        -> (r: Result<(), Error>)
        ensures
            final(self).spec_fee() == old(self).spec_fee(),
            final(self).spec_offset() == old(self).spec_offset(),
            participant_id >= old(self).participants().len() ==> r == Err::<(), Error>(
                Error::IllegalArgument),
            final(self).participants().len() == old(self).participants().len(),
            forall|j: int| 0 <= j < old(self).participants().len() && j != participant_id
                ==> #[trigger] final(self).participants()[j] == old(self).participants()[j],
            sign_succeeds(old(self).participants(), old(self).spec_fee(), participant_id as int, key_views(
                input_keys@), sign_negatives(output_keys@, participant_id == 0, old(self).spec_offset()))
                ==> r is Ok,
            r is Ok ==> signed_as(final(self).participants()[participant_id as int], old(self).participants(),
                old(self).spec_fee(), participant_id as int, key_views(input_keys@), sign_negatives(
                output_keys@, participant_id == 0, old(self).spec_offset())),
            r is Err ==> final(self).participants() == old(self).participants(),
    {
        if participant_id >= self.pdata.len() {
            return Err(Error::IllegalArgument);
        }
        let ghost ps = self.participants();
        let mut output_keys_vec: Vec<&SecretKey> = Vec::new();
        let mut i: usize = 0;
        while i < output_keys.len()
            invariant
                i <= output_keys@.len(),
                output_keys_vec@ == output_keys@.take(i as int),
            decreases output_keys@.len() - i,
        {
            output_keys_vec.push(output_keys[i]);
            i += 1;
            assert(output_keys_vec@ =~= output_keys@.take(i as int));
        }
        assert(output_keys@.take(i as int) =~= output_keys@);
        let ghost before = key_views(output_keys_vec@);
        if participant_id == 0 {
            output_keys_vec.push(&self.offset);
            assert(key_views(output_keys_vec@) =~= before.push(self.offset@));
        }
        assert(key_views(output_keys_vec@) == sign_negatives(output_keys@, participant_id == 0, self.spec_offset()));
        let excess_blind = ctx.blind_sum(input_keys, output_keys_vec.as_slice())?;
        let pub_nonce_sum = self.pub_nonce_sum(ctx)?;
        let pub_blind_sum = self.pub_blind_sum(ctx)?;
        let excess_commit = self.excess_commit_sum(ctx)?;
        let msg = Kernel::message_for(&excess_commit, self.fee, 0);

        self.verify_part_sigs(ctx, participant_id, &msg, &pub_nonce_sum, &pub_blind_sum)?;
        let sec_nonce = self.pdata[participant_id].sec_nonce;
        proof {
            excess_blind.lemma_len();
            assert(ps[participant_id as int].sec_nonce == sec_nonce@);
        }
        let part_sig = ctx.sign(&msg, &excess_blind, &sec_nonce, &pub_nonce_sum, &pub_blind_sum)?;

        let ghost before = self.participants();
        let mut pd = self.pdata.remove(participant_id);
        pd.part_sig = Some(part_sig);
        // after signing the secret nonce is cleared so that it cannot leak later
        pd.sec_nonce = SecretKey::zero();
        self.pdata.insert(participant_id, pd);
        proof {
            assert(self.participants() =~= before.update(participant_id as int, pd@));
            assert(schnorr_sig_of(msg@, excess_blind@, ps[participant_id as int].sec_nonce,
                pub_nonce_sum@, pub_blind_sum@, pub_nonce_sum@) == pd@.part_sig);
        }
        Ok(())
    }

    /// The finished transaction: one kernel with the summed excess, the aggregated signature,
    /// the fee and no features; every participant's inputs and outputs, in order; the slate's
    /// offset. `IllegalState` without participants or while one has not signed.
    pub fn finalize(&mut self, ctx: &mut Ctx) -> (r: Result<Transaction, Error>)
        ensures
            *final(self) == *old(self),
            old(self).participants().len() == 0 ==> r == Err::<Transaction, Error>(Error::IllegalState),
            (exists|j: int| 0 <= j < old(self).participants().len() && (#[trigger] old(self).participants()[j]).part_sig is None)
                ==> r is Err,
            sums_formed(old(self).participants()) && (exists|j: int| 0 <= j < old(self).participants().len()
                && (#[trigger] old(self).participants()[j]).part_sig is None)
                ==> r == Err::<Transaction, Error>(Error::IllegalState),
            finalize_succeeds(old(self).participants()) ==> r is Ok,
            r matches Ok(tx) ==> tx.wf() && tx.kernel_views() == seq![KernelView {
                excess: commit_fold(excess_commits(old(self).participants()))->Some_0,
                signature: signatures_total(part_sigs(old(self).participants()), key_fold(pub_nonces(
                    old(self).participants()))->Some_0)->Some_0,
                fee: old(self).spec_fee(),
                features: 0,
            }] && tx.offset_view() == Some(old(self).spec_offset())
                && tx.input_views() == all_inputs(old(self).participants())
                && tx.output_commits() == all_outputs(old(self).participants())
                && tx.output_proofs() == all_output_proofs(old(self).participants()),
    {
        let ghost ps = self.participants();
        if self.pdata.len() == 0 {
            return Err(Error::IllegalState);
        }
        let excess_commit = self.excess_commit_sum(ctx)?;
        let pub_nonce_sum = self.pub_nonce_sum(ctx)?;

        let mut partial_sigs: Vec<&Signature> = Vec::new();
        let mut i: usize = 0;
        while i < self.pdata.len()
            invariant
                i <= self.pdata@.len(),
                ps == self.participants(),
                forall|j: int| 0 <= j < i ==> (#[trigger] ps[j]).part_sig is Some,
                sig_views(partial_sigs@) == part_sigs(ps.take(i as int)),
            decreases self.pdata@.len() - i,
        {
            match &self.pdata[i].part_sig {
                Some(part_sig) => {
                    proof {
                        assert(ps[i as int] == self.pdata@[i as int]@);
                        assert(ps[i as int].part_sig == Some(part_sig@));
                    }
                    let ghost before = sig_views(partial_sigs@);
                    partial_sigs.push(part_sig);
                    proof {
                        assert(sig_views(partial_sigs@) =~= before.push(part_sig@));
                        assert(part_sigs(ps.take(i + 1)) =~= part_sigs(ps.take(i as int)).push(part_sig@));
                        assert(sig_views(partial_sigs@) =~= part_sigs(ps.take(i + 1)));
                    }
                },
                None => {
                    proof { assert(ps[i as int].part_sig is None); }
                    return Err(Error::IllegalState);
                },
            }
            i += 1;
        }
        assert(ps.take(i as int) =~= ps);
        let aggsig = ctx.aggregate_signatures(partial_sigs.as_slice(), &pub_nonce_sum)?;
        let kernel = Kernel::new(excess_commit, aggsig, self.fee, 0);
        let mut tx = Transaction::new(self.offset);
        tx.add_kernel(kernel)?;
        proof {
            assert(tx.kernel_views() =~= seq![kernel@]);
            assert(ps.take(0).map_values(|p: ParticipantView| p.inputs).flatten_alt() =~= Seq::<Seq<u8>>::empty());
            assert(ps.take(0).map_values(|p: ParticipantView| p.outputs).flatten_alt() =~= Seq::<Seq<u8>>::empty());
            assert(ps.take(0).map_values(|p: ParticipantView| p.output_proofs).flatten_alt() =~= Seq::<Seq<u8>>::empty());
        }
        let mut i: usize = 0;
        while i < self.pdata.len()
            invariant
                i <= self.pdata@.len(),
                ps == self.participants(),
                tx.wf(),
                tx.kernel_views() == seq![kernel@],
                tx.offset_view() == Some(self.offset@),
                tx.input_views() == ps.take(i as int).map_values(|p: ParticipantView| p.inputs).flatten_alt(),
                tx.output_commits() == ps.take(i as int).map_values(|p: ParticipantView| p.outputs).flatten_alt(),
                tx.output_proofs() == ps.take(i as int).map_values(|p: ParticipantView| p.output_proofs).flatten_alt(),
            decreases self.pdata@.len() - i,
        {
            let ghost in0 = tx.input_views();
            let ghost out0 = tx.output_commits();
            let ghost pr0 = tx.output_proofs();
            let mut j: usize = 0;
            while j < self.pdata[i].inputs.len()
                invariant
                    i < self.pdata@.len(),
                    j <= self.pdata@[i as int].inputs@.len(),
                    tx.wf(),
                    tx.kernel_views() == seq![kernel@],
                    tx.offset_view() == Some(self.offset@),
                    tx.input_views() == in0 + commit_views(self.pdata@[i as int].inputs@.take(j as int)),
                    tx.output_commits() == out0,
                    tx.output_proofs() == pr0,
                decreases self.pdata@[i as int].inputs@.len() - j,
            {
                tx.add_input(self.pdata[i].inputs[j])?;
                j += 1;
                assert(commit_views(self.pdata@[i as int].inputs@.take(j as int)) =~= commit_views(
                    self.pdata@[i as int].inputs@.take(j - 1)).push(self.pdata@[i as int].inputs@[j - 1]@));
                assert(tx.input_views() =~= in0 + commit_views(self.pdata@[i as int].inputs@.take(j as int)));
            }
            let mut j: usize = 0;
            while j < self.pdata[i].outputs.len()
                invariant
                    i < self.pdata@.len(),
                    j <= self.pdata@[i as int].outputs@.len(),
                    tx.wf(),
                    tx.kernel_views() == seq![kernel@],
                    tx.offset_view() == Some(self.offset@),
                    tx.input_views() == in0 + commit_views(self.pdata@[i as int].inputs@),
                    tx.output_commits() == out0 + self.pdata@[i as int].outputs@.take(j as int).map_values(
                        |o: (Commitment, RangeProof)| o.0@),
                    tx.output_proofs() == pr0 + self.pdata@[i as int].outputs@.take(j as int).map_values(
                        |o: (Commitment, RangeProof)| o.1.bytes()),
                decreases self.pdata@[i as int].outputs@.len() - j,
            {
                let (c, p) = self.pdata[i].outputs[j];
                tx.add_output(c, p)?;
                j += 1;
                assert(tx.output_commits() =~= out0 + self.pdata@[i as int].outputs@.take(j as int).map_values(
                    |o: (Commitment, RangeProof)| o.0@));
                assert(tx.output_proofs() =~= pr0 + self.pdata@[i as int].outputs@.take(j as int).map_values(
                    |o: (Commitment, RangeProof)| o.1.bytes()));
            }
            proof {
                assert(self.pdata@[i as int].inputs@.take(self.pdata@[i as int].inputs@.len() as int)
                    =~= self.pdata@[i as int].inputs@);
                assert(self.pdata@[i as int].outputs@.take(self.pdata@[i as int].outputs@.len() as int)
                    =~= self.pdata@[i as int].outputs@);
                assert(ps.take(i + 1).map_values(|p: ParticipantView| p.inputs).drop_last() =~= ps.take(
                    i as int).map_values(|p: ParticipantView| p.inputs));
                assert(ps.take(i + 1).map_values(|p: ParticipantView| p.outputs).drop_last() =~= ps.take(
                    i as int).map_values(|p: ParticipantView| p.outputs));
                assert(ps.take(i + 1).map_values(|p: ParticipantView| p.output_proofs).drop_last() =~= ps.take(
                    i as int).map_values(|p: ParticipantView| p.output_proofs));
            }
            i += 1;
        }
        proof {
            assert(ps.take(i as int) =~= ps);
            ps.map_values(|p: ParticipantView| p.inputs).lemma_flatten_and_flatten_alt_are_equivalent();
            ps.map_values(|p: ParticipantView| p.outputs).lemma_flatten_and_flatten_alt_are_equivalent();
            ps.map_values(|p: ParticipantView| p.output_proofs).lemma_flatten_and_flatten_alt_are_equivalent();
        }
        Ok(tx)
    }
}

} // verus!
