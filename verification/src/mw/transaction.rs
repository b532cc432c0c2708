use vstd::prelude::*;
use crate::base::error::Error;
use crate::crypto::ctx::{balance_offset, balance_outcome, balances_with, commit_views, drawn_outcome, Ctx};
use crate::crypto::keys::{drawn_key, SecretKey};
use crate::crypto::pedersen::Commitment;
use crate::crypto::range_proof::{RangeProof, MAX_PROOF_SIZE};
use crate::crypto::secp::{blind_total, commit_of, commit_pubkey, commits_balance, kernel_sig_verifies, range_proof_verifies};
use crate::crypto::sha3::{sha3_256_spec, Sha3_256};
use crate::crypto::signature::Message;
use crate::base::misc::be_value;
use crate::lmdb::txn::bytes_eq;
use crate::mw::kernel::{
    bytes_less, bytes_lt, kernel_key, kernel_key_bytes, kernel_message, lemma_bytes_lt_irreflexive,
    lemma_bytes_lt_total, lemma_bytes_lt_transitive, Kernel, KernelView,
};

verus! {

/// Kernels in strictly increasing order of their ordering bytes (so without duplicates).
pub open spec fn kernels_sorted(ks: Seq<KernelView>) -> bool {
    forall|i: int, j: int| 0 <= i < j < ks.len() ==> bytes_lt(kernel_key(ks[i]), kernel_key(ks[j]))
}

/// The ordering bytes of some kernels.
pub open spec fn kernel_keys(ks: Seq<KernelView>) -> Seq<Seq<u8>> {
    ks.map_values(|k: KernelView| kernel_key(k))
}

/// The sum of the kernels' fees, as an integer.
pub open spec fn fee_sum(ks: Seq<KernelView>) -> int
    decreases ks.len(),
{
    if ks.len() == 0 {
        0
    } else {
        fee_sum(ks.drop_last()) + ks.last().fee
    }
}

/// The fees of kernels add up: none sum to 0, one kernel to its fee, and the kernels of two
/// lists together to the sum of both lists' fees.
pub proof fn lemma_fee_sum_adds(a: Seq<KernelView>, b: Seq<KernelView>, k: KernelView)
    ensures
        fee_sum(Seq::empty()) == 0,
        fee_sum(seq![k]) == k.fee,
        fee_sum(a + b) == fee_sum(a) + fee_sum(b),
    decreases b.len(),
{
    assert(seq![k].drop_last() =~= Seq::<KernelView>::empty());
    if b.len() == 0 {
        assert(a + b =~= a);
    } else {
        lemma_fee_sum_adds(a, b.drop_last(), k);
        assert((a + b).drop_last() =~= a + b.drop_last());
        assert((a + b).last() == b.last());
    }
}

/// One level of the kernel Merkle tree: the hash of each pair from the left, an odd last
/// hash paired with itself.
pub open spec fn merkle_level(s: Seq<Seq<u8>>) -> Seq<Seq<u8>>
    decreases s.len(),
{
    if s.len() == 0 {
        Seq::empty()
    } else if s.len() == 1 {
        seq![sha3_256_spec(s[0] + s[0])]
    } else {
        seq![sha3_256_spec(s[0] + s[1])] + merkle_level(s.skip(2))
    }
}

/// Pairing halves the number of hashes, rounding up.
pub proof fn lemma_merkle_level_len(s: Seq<Seq<u8>>)
    ensures
        merkle_level(s).len() == (s.len() + 1) / 2,
    decreases s.len(),
{
    if s.len() >= 2 {
        lemma_merkle_level_len(s.skip(2));
    }
}

/// Each node of a level of the kernel Merkle tree is the SHA3-256 of its two children, left
/// then right, in order: node `i` hashes hashes `2i` and `2i + 1`, and when the level below
/// has an odd number of hashes its last node hashes the last hash twice.
pub proof fn lemma_merkle_level_nodes(s: Seq<Seq<u8>>)
    ensures
        merkle_level(s).len() == (s.len() + 1) / 2,
        forall|i: int| 0 <= i && 2 * i + 1 < s.len()
            ==> #[trigger] merkle_level(s)[i] == sha3_256_spec(s[2 * i] + s[2 * i + 1]),
        s.len() % 2 == 1 ==> merkle_level(s)[(s.len() - 1) / 2] == sha3_256_spec(s.last() + s.last()),
    decreases s.len(),
{
    lemma_merkle_level_len(s);
    if s.len() >= 2 {
        let t = s.skip(2);
        lemma_merkle_level_nodes(t);
        assert(merkle_level(s) == seq![sha3_256_spec(s[0] + s[1])] + merkle_level(t));
        assert forall|i: int| 0 <= i && 2 * i + 1 < s.len()
            implies #[trigger] merkle_level(s)[i] == sha3_256_spec(s[2 * i] + s[2 * i + 1]) by {
            if i > 0 {
                assert(merkle_level(s)[i] == merkle_level(t)[i - 1]);
                assert(2 * (i - 1) + 1 < t.len());
                assert(t[2 * (i - 1)] == s[2 * i]);
                assert(t[2 * (i - 1) + 1] == s[2 * i + 1]);
            }
        }
        if s.len() % 2 == 1 {
            assert(t.len() % 2 == 1);
            assert(t.last() == s.last());
            assert(merkle_level(s)[(s.len() - 1) / 2] == merkle_level(t)[(t.len() - 1) / 2]);
        }
    }
}

/// Levels of the Merkle tree until one hash is left.
pub open spec fn merkle_top(s: Seq<Seq<u8>>) -> Seq<Seq<u8>>
    decreases s.len(),
{
    if s.len() > 1 {
        proof { lemma_merkle_level_len(s); }
        merkle_top(merkle_level(s))
    } else {
        s
    }
}

/// The Merkle tree leaves one hash when it has leaves.
pub proof fn lemma_merkle_top_len(s: Seq<Seq<u8>>)
    requires
        s.len() > 0,
    ensures
        merkle_top(s).len() == 1,
    decreases s.len(),
{
    if s.len() > 1 {
        lemma_merkle_level_len(s);
        lemma_merkle_top_len(merkle_level(s));
    }
}

/// The root is reached level by level: one hash is its own root, and the root of more hashes
/// is the root of the level above them; it is always a single hash.
pub proof fn lemma_merkle_top_levels(s: Seq<Seq<u8>>)
    requires
        s.len() > 0,
    ensures
        s.len() == 1 ==> merkle_top(s) == s,
        s.len() > 1 ==> merkle_top(s) == merkle_top(merkle_level(s)) && merkle_level(s).len() < s.len(),
        merkle_top(s).len() == 1,
{
    lemma_merkle_level_len(s);
    lemma_merkle_top_len(s);
}

/// The messages of some kernels.
pub open spec fn kernel_messages(ks: Seq<KernelView>) -> Seq<Seq<u8>> {
    ks.map_values(|k: KernelView| kernel_message(k.excess, k.fee, k.features))
}

/// A transaction: outputs with their range proofs, inputs, kernels in increasing order, and
/// an optional offset.
pub struct Transaction {
    outputs: Vec<(Commitment, RangeProof)>,
    inputs: Vec<Commitment>,
    kernels: Vec<Kernel>,
    offset: Option<SecretKey>,
}

impl Transaction {
    /// The kernels, in increasing order.
    pub closed spec fn kernel_views(&self) -> Seq<KernelView> {
        self.kernels@.map_values(|k: Kernel| k@)
    }

    /// The inputs.
    pub closed spec fn input_views(&self) -> Seq<Seq<u8>> {
        commit_views(self.inputs@)
    }

    /// The outputs' commitments.
    pub closed spec fn output_commits(&self) -> Seq<Seq<u8>> {
        self.outputs@.map_values(|o: (Commitment, RangeProof)| o.0@)
    }

    /// The outputs' range proofs.
    pub closed spec fn output_proofs(&self) -> Seq<Seq<u8>> {
        self.outputs@.map_values(|o: (Commitment, RangeProof)| o.1.bytes())
    }

    /// The lengths recorded with the outputs' range proofs.
    pub closed spec fn output_proof_lens(&self) -> Seq<usize> {
        self.outputs@.map_values(|o: (Commitment, RangeProof)| o.1.plen)
    }

    /// There is one range proof, and one recorded proof length, per output.
    pub proof fn lemma_outputs_len(&self)
        ensures
            self.output_proofs().len() == self.output_commits().len(),
            self.output_proof_lens().len() == self.output_commits().len(),
    {
    }

    /// The offset.
    pub closed spec fn offset_view(&self) -> Option<Seq<u8>> {
        match self.offset {
            Some(k) => Some(k@),
            None => None,
        }
    }

    /// The kernels are in strictly increasing order.
    pub closed spec fn wf(&self) -> bool {
        kernels_sorted(self.kernel_views())
    }

    /// An empty transaction with the given offset.
    pub fn new(offset: SecretKey) -> (r: Self)
        ensures
            r.wf(),
            r.kernel_views().len() == 0,
            r.input_views().len() == 0,
            r.output_commits().len() == 0,
            r.output_proofs().len() == 0,
            r.output_proof_lens().len() == 0,
            r.offset_view() == Some(offset@),
    {
        Transaction { outputs: Vec::new(), inputs: Vec::new(), kernels: Vec::new(), offset: Some(offset) }
    }

    /// An empty transaction without an offset.
    pub fn empty() -> (r: Self)
        ensures
            r.wf(),
            r.kernel_views().len() == 0,
            r.input_views().len() == 0,
            r.output_commits().len() == 0,
            r.output_proofs().len() == 0,
            r.output_proof_lens().len() == 0,
            r.offset_view() is None,
    {
        Transaction { outputs: Vec::new(), inputs: Vec::new(), kernels: Vec::new(), offset: None }
    }

    /// The outputs with their range proofs.
    pub fn outputs(&self) -> (r: &Vec<(Commitment, RangeProof)>)
        ensures
            r@.map_values(|o: (Commitment, RangeProof)| o.0@) == self.output_commits(),
            r@.map_values(|o: (Commitment, RangeProof)| o.1.bytes()) == self.output_proofs(),
    {
        &self.outputs
    }

    /// The inputs.
    pub fn inputs(&self) -> (r: &Vec<Commitment>)
        ensures
            commit_views(r@) == self.input_views(),
    {
        &self.inputs
    }

    /// The kernels, in increasing order.
    pub fn kernels(&self) -> (r: &Vec<Kernel>)
        ensures
            r@.map_values(|k: Kernel| k@) == self.kernel_views(),
    {
        &self.kernels
    }

    /// The offset, if any.
    pub fn offset(&self) -> (r: Option<&SecretKey>)
        ensures
            match r {
                Some(k) => self.offset_view() == Some(k@),
                None => self.offset_view() is None,
            },
    {
        match &self.offset {
            Some(k) => Some(k),
            None => None,
        }
    }

    /// Removes the offset.
    pub fn set_offset_zero(&mut self)
        ensures
            final(self).offset_view() is None,
            final(self).kernel_views() == old(self).kernel_views(),
            final(self).input_views() == old(self).input_views(),
            final(self).output_commits() == old(self).output_commits(),
            final(self).output_proofs() == old(self).output_proofs(),
            final(self).output_proof_lens() == old(self).output_proof_lens(),
            final(self).wf() == old(self).wf(),
    {
        self.offset = None;
    }

    /// Adds an input.
    pub fn add_input(&mut self, input: Commitment) -> (r: Result<(), Error>)
        ensures
            r is Ok,
            final(self).input_views() == old(self).input_views().push(input@),
            final(self).kernel_views() == old(self).kernel_views(),
            final(self).output_commits() == old(self).output_commits(),
            final(self).output_proofs() == old(self).output_proofs(),
            final(self).offset_view() == old(self).offset_view(),
            final(self).wf() == old(self).wf(),
    {
        self.inputs.push(input);
        assert(commit_views(self.inputs@) =~= commit_views(old(self).inputs@).push(input@));
        Ok(())
    }

    /// Adds an output with its range proof.
    pub fn add_output(&mut self, output: Commitment, proof: RangeProof) -> (r: Result<(), Error>)
        ensures
            r is Ok,
            final(self).output_commits() == old(self).output_commits().push(output@),
            final(self).output_proofs() == old(self).output_proofs().push(proof.bytes()),
            final(self).output_proof_lens() == old(self).output_proof_lens().push(proof.plen),
            final(self).input_views() == old(self).input_views(),
            final(self).kernel_views() == old(self).kernel_views(),
            final(self).offset_view() == old(self).offset_view(),
            final(self).wf() == old(self).wf(),
    {
        self.outputs.push((output, proof));
        assert(self.outputs@.map_values(|o: (Commitment, RangeProof)| o.0@) =~= old(
            self).output_commits().push(output@));
        assert(self.outputs@.map_values(|o: (Commitment, RangeProof)| o.1.bytes()) =~= old(
            self).output_proofs().push(proof.bytes()));
        Ok(())
    }

    /// Adds a kernel at its place in the order; a kernel equal to one already there is
    /// refused with `Duplicate`.
    pub fn add_kernel(&mut self, kernel: Kernel) -> (r: Result<(), Error>)
        requires
            old(self).wf(),
        ensures
            final(self).wf(),
            kernel_keys(old(self).kernel_views()).contains(kernel_key(kernel@)) ==> r == Err::<
                (),
                Error,
            >(Error::Duplicate) && *final(self) == *old(self),
            !kernel_keys(old(self).kernel_views()).contains(kernel_key(kernel@)) ==> r is Ok && (
            exists|i: int|
                0 <= i <= old(self).kernel_views().len() && final(self).kernel_views() == old(
                    self).kernel_views().insert(i, kernel@)),
            final(self).input_views() == old(self).input_views(),
            final(self).output_commits() == old(self).output_commits(),
            final(self).output_proofs() == old(self).output_proofs(),
            final(self).output_proof_lens() == old(self).output_proof_lens(),
            final(self).offset_view() == old(self).offset_view(),
    {
        let ghost ks = self.kernel_views();
        let key = kernel_key_bytes(&kernel);
        proof { kernel.lemma_key_len(); }
        let mut i: usize = 0;
        while i < self.kernels.len()
            invariant_except_break
                i <= ks.len(),
                ks == self.kernel_views(),
                *self == *old(self),
                kernels_sorted(ks),
                key@ == kernel_key(kernel@),
                key@.len() == 106,
                forall|j: int| 0 <= j < i ==> bytes_lt(#[trigger] kernel_key(ks[j]), key@),
            ensures
                i <= ks.len(),
                ks == self.kernel_views(),
                *self == *old(self),
                forall|j: int| 0 <= j < i ==> bytes_lt(#[trigger] kernel_key(ks[j]), key@),
                i < ks.len() ==> bytes_lt(key@, kernel_key(ks[i as int])),
            decreases ks.len() - i,
        {
            let ki = kernel_key_bytes(&self.kernels[i]);
            proof {
                self.kernels@[i as int].lemma_key_len();
                assert(ks[i as int] == self.kernels@[i as int]@);
            }
            if bytes_less(&ki, &key) {
                i += 1;
            } else if bytes_eq(&ki, &key) {
                proof {
                    assert(kernel_keys(ks)[i as int] == kernel_key(kernel@));
                }
                return Err(Error::Duplicate);
            } else {
                proof { lemma_bytes_lt_total(ki@, key@); }
                break;
            }
        }
        proof {
            // the key is not there: everything before `i` is below it, everything from `i` on
            // above it
            assert forall|j: int| 0 <= j < ks.len() implies kernel_keys(ks)[j] != kernel_key(kernel@) by {
                lemma_bytes_lt_irreflexive(key@);
                if j < i {
                } else {
                    if j > i {
                        lemma_bytes_lt_transitive(key@, kernel_key(ks[i as int]), kernel_key(ks[j]));
                    }
                }
            }
            if kernel_keys(ks).contains(kernel_key(kernel@)) {
                let j = choose|j: int| 0 <= j < kernel_keys(ks).len() && #[trigger] kernel_keys(ks)[j] == kernel_key(kernel@);
                assert(false);
            }
        }
        self.kernels.insert(i, kernel);
        proof {
            let nks = self.kernel_views();
            assert(nks =~= ks.insert(i as int, kernel@));
            assert forall|a: int, b: int| 0 <= a < b < nks.len() implies bytes_lt(kernel_key(nks[a]),
                kernel_key(nks[b])) by {
                if b < i {
                } else if a < i && b == i {
                } else if a < i && b > i {
                    assert(bytes_lt(kernel_key(ks[a]), key@));
                    lemma_bytes_lt_transitive(kernel_key(ks[a]), key@, kernel_key(ks[i as int]));
                    if b - 1 > i {
                        lemma_bytes_lt_transitive(kernel_key(ks[a]), kernel_key(ks[i as int]), kernel_key(ks[b - 1]));
                    }
                } else if a == i {
                    if b - 1 > i {
                        lemma_bytes_lt_transitive(key@, kernel_key(ks[i as int]), kernel_key(ks[b - 1]));
                    }
                } else {
                }
            }
        }
        Ok(())
    }
}

impl Transaction {
    /// The sum of the kernels' fees, modulo 2^64.
    pub fn fees(&self) -> (r: u64)
        ensures
            r == fee_sum(self.kernel_views()) % 0x1_0000_0000_0000_0000,
    {
        let ghost ks = self.kernel_views();
        let mut fee: u64 = 0;
        let mut i: usize = 0;
        while i < self.kernels.len()
            invariant
                i <= ks.len(),
                ks == self.kernel_views(),
                fee == fee_sum(ks.take(i as int)) % 0x1_0000_0000_0000_0000,
            decreases ks.len() - i,
        {
            let f = self.kernels[i].fee();
            proof {
                assert(ks.take(i + 1).drop_last() =~= ks.take(i as int));
                assert(ks[i as int] == self.kernels@[i as int]@);
                vstd::arithmetic::div_mod::lemma_add_mod_noop(fee_sum(ks.take(i as int)), f as int,
                    0x1_0000_0000_0000_0000);
            }
            fee = fee.wrapping_add(f);
            i += 1;
        }
        assert(ks.take(ks.len() as int) =~= ks);
        fee
    }

    /// The root of the Merkle tree over the kernels' messages in kernel order (an odd last
    /// hash is paired with itself); the zero message when there are no kernels.
    pub fn kernel_merkle_root(&self) -> (r: Result<Message, Error>)
        ensures
            self.kernel_views().len() == 0 ==> (r matches Ok(m) && m@ == Seq::new(32, |i: int| 0u8)),
            self.kernel_views().len() > 0 ==> (r matches Ok(m) && m@ == merkle_top(kernel_messages(
                self.kernel_views()))[0]),
    {
        if self.kernels.len() == 0 {
            return Ok(Message::zero());
        }
        let ghost ks = self.kernel_views();
        let mut leaves: Vec<Message> = Vec::new();
        let mut i: usize = 0;
        while i < self.kernels.len()
            invariant
                i <= ks.len(),
                ks == self.kernel_views(),
                leaves@.len() == i,
                forall|j: int| 0 <= j < i ==> (#[trigger] leaves@[j])@ == kernel_messages(ks)[j],
            decreases ks.len() - i,
        {
            let m = self.kernels[i].message();
            proof { assert(ks[i as int] == self.kernels@[i as int]@); }
            leaves.push(m);
            i += 1;
        }
        assert(leaves@.map_values(|m: Message| m@) =~= kernel_messages(ks));
        while leaves.len() > 1
            invariant
                leaves@.len() >= 1,
                merkle_top(leaves@.map_values(|m: Message| m@)) == merkle_top(kernel_messages(ks)),
            decreases leaves@.len(),
        {
            let ghost cur = leaves@.map_values(|m: Message| m@);
            let mut next_level: Vec<Message> = Vec::new();
            let mut j: usize = 0;
            proof { assert(cur.skip(0) =~= cur); }
            while j < leaves.len()
                invariant
                    j <= leaves@.len(),
                    cur == leaves@.map_values(|m: Message| m@),
                    next_level@.map_values(|m: Message| m@) + merkle_level(cur.skip(j as int))
                        == merkle_level(cur),
                decreases leaves@.len() - j,
            {
                let left = leaves[j];
                let pair = j + 1 < leaves.len();
                let right = if pair {
                    leaves[j + 1]
                } else {
                    left
                };
                let mut sha3 = Sha3_256::new();
                sha3.update(left.as_bytes());
                sha3.update(right.as_bytes());
                let h = Message::new(sha3.finalize());
                let ghost acc = next_level@.map_values(|m: Message| m@);
                next_level.push(h);
                proof {
                    let t = cur.skip(j as int);
                    assert(t[0] == left@);
                    assert(next_level@.map_values(|m: Message| m@) =~= acc.push(h@));
                    if pair {
                        assert(t[1] == right@);
                        assert(t.skip(2) =~= cur.skip(j + 2));
                        assert(acc + merkle_level(t) =~= acc.push(h@) + merkle_level(cur.skip(j + 2)));
                    } else {
                        assert(t.len() == 1);
                        assert(cur.skip(j + 1) =~= Seq::<Seq<u8>>::empty());
                        assert(acc + merkle_level(t) =~= acc.push(h@) + merkle_level(cur.skip(j + 1)));
                    }
                }
                if pair {
                    j += 2;
                } else {
                    j += 1;
                }
            }
            proof {
                if j > leaves.len() {
                    assert(cur.skip(j as int) =~= Seq::<Seq<u8>>::empty());
                } else {
                    assert(cur.skip(j as int) =~= Seq::<Seq<u8>>::empty());
                }
                assert(next_level@.map_values(|m: Message| m@) =~= merkle_level(cur));
                lemma_merkle_level_len(cur);
            }
            leaves = next_level;
        }
        proof {
            lemma_merkle_top_len(kernel_messages(ks));
        }
        if leaves.len() == 1 {
            Ok(leaves[0])
        } else {
            Err(Error::IllegalState)
        }
    }
}

/// The commitments a validation puts on the output side: the outputs' commitments, then
/// the commitment to zero blinded by the offset (when there is one), then the kernels'
/// excesses in kernel order.
pub open spec fn validation_outputs(outputs: Seq<Seq<u8>>, offset: Option<Seq<u8>>, ks: Seq<KernelView>) -> Seq<Seq<u8>> {
    outputs + match offset {
        Some(o) => seq![commit_of(0, o)],
        None => Seq::empty(),
    } + ks.map_values(|k: KernelView| k.excess)
}

/// The overage a validation balances with: the fees for an ordinary transaction (no
/// overage), the negated overage otherwise.
pub open spec fn validation_adjustment(fee: u64, overage: u64) -> i128 {
    if overage == 0 {
        fee as i128
    } else {
        (0 - overage) as i128
    }
}

/// A kernel is valid: its excess stands for a public key under which its signature of its
/// message verifies.
pub open spec fn kernel_valid(k: KernelView) -> bool {
    match commit_pubkey(k.excess) {
        Some(pk) => kernel_sig_verifies(k.signature, kernel_message(k.excess, k.fee, k.features), pk),
        None => false,
    }
}

impl Transaction {
    /// Validates the transaction: it must have a kernel and an output (else `NotFound`),
    /// every range proof and every kernel signature must verify, and the inputs must balance
    /// the outputs, the offset's commitment and the excesses, with the fees (or, for a
    /// coinbase, the negated overage) as the overage (see `Ctx::verify_balance_owned`).
    pub fn validate(&self, ctx: &mut Ctx, overage: u64) -> (r: Result<(), Error>)
        ensures
            (self.kernel_views().len() == 0 || self.output_commits().len() == 0) ==> r == Err::<
                (),
                Error,
            >(Error::NotFound),
            r is Ok ==> forall|i: int| 0 <= i < self.output_commits().len() ==> range_proof_verifies(
                #[trigger] self.output_commits()[i], self.output_proofs()[i]),
            r is Ok ==> forall|i: int| 0 <= i < self.kernel_views().len() ==> kernel_valid(
                #[trigger] self.kernel_views()[i]),
            r is Ok ==> balance_outcome(self.input_views(), validation_outputs(self.output_commits(),
                self.offset_view(), self.kernel_views()), validation_adjustment(
                (fee_sum(self.kernel_views()) % 0x1_0000_0000_0000_0000) as u64, overage), r),
            r is Ok <==> {
                &&& self.kernel_views().len() > 0
                &&& self.output_commits().len() > 0
                &&& forall|i: int| 0 <= i < self.output_commits().len() ==> #[trigger] self.output_proof_lens()[i]
                    <= MAX_PROOF_SIZE && range_proof_verifies(self.output_commits()[i], self.output_proofs()[i])
                &&& forall|i: int| 0 <= i < self.kernel_views().len() ==> kernel_valid(
                    #[trigger] self.kernel_views()[i])
                &&& balance_ok(self.input_views(), validation_outputs(self.output_commits(),
                    self.offset_view(), self.kernel_views()), validation_adjustment(
                    (fee_sum(self.kernel_views()) % 0x1_0000_0000_0000_0000) as u64, overage),
                    drawn_key(old(ctx).rng()))
            },
            final(ctx).rng().spec_key() == old(ctx).rng().spec_key(),
            final(ctx).rng().spec_iv() == old(ctx).rng().spec_iv(),
            r is Ok ==> final(ctx).rng().spec_offset() == balance_offset(old(ctx).rng(), validation_adjustment(
                (fee_sum(self.kernel_views()) % 0x1_0000_0000_0000_0000) as u64, overage)),
    {
        if self.kernels.len() == 0 || self.outputs.len() == 0 {
            return Err(Error::NotFound);
        }
        let ghost outs = self.output_commits();
        let ghost proofs = self.output_proofs();
        let mut i: usize = 0;
        while i < self.outputs.len()
            invariant
                i <= self.outputs@.len(),
                self.kernels@.len() > 0,
                outs == self.output_commits(),
                proofs == self.output_proofs(),
                forall|j: int| 0 <= j < i ==> range_proof_verifies(#[trigger] outs[j], proofs[j]),
                forall|j: int| 0 <= j < i ==> #[trigger] self.output_proof_lens()[j] <= MAX_PROOF_SIZE,
                ctx.rng() == old(ctx).rng(),
            decreases self.outputs@.len() - i,
        {
            assert(self.output_proof_lens()[i as int] == self.outputs@[i as int].1.plen);
            assert(outs[i as int] == self.outputs@[i as int].0@);
            assert(proofs[i as int] == self.outputs@[i as int].1.bytes());
            ctx.verify_range_proof(&self.outputs[i].0, &self.outputs[i].1)?;
            i += 1;
        }
        let mut input_commits: Vec<Commitment> = Vec::new();
        let mut i: usize = 0;
        while i < self.inputs.len()
            invariant
                i <= self.inputs@.len(),
                input_commits@ == self.inputs@.take(i as int),
            decreases self.inputs@.len() - i,
        {
            input_commits.push(self.inputs[i]);
            i += 1;
            assert(input_commits@ =~= self.inputs@.take(i as int));
        }
        assert(self.inputs@.take(self.inputs@.len() as int) =~= self.inputs@);
        let mut output_commits: Vec<Commitment> = Vec::new();
        let mut i: usize = 0;
        while i < self.outputs.len()
            invariant
                i <= self.outputs@.len(),
                outs == self.output_commits(),
                commit_views(output_commits@) == outs.take(i as int),
            decreases self.outputs@.len() - i,
        {
            let c = self.outputs[i].0;
            let ghost before = commit_views(output_commits@);
            output_commits.push(c);
            proof {
                assert(outs[i as int] == self.outputs@[i as int].0@);
                assert(commit_views(output_commits@) =~= before.push(c@));
                assert(outs.take(i + 1) =~= outs.take(i as int).push(outs[i as int]));
            }
            i += 1;
        }
        assert(outs.take(outs.len() as int) =~= outs);
        let ghost off_part: Seq<Seq<u8>> = Seq::empty();
        if let Some(offset) = &self.offset {
            let c = ctx.commit(0, offset)?;
            output_commits.push(c);
            proof { off_part = seq![c@]; }
        }
        assert(commit_views(output_commits@) =~= outs + off_part);
        let fee = self.fees();
        let ghost ks = self.kernel_views();
        let ghost base = outs + off_part;
        let mut i: usize = 0;
        while i < self.kernels.len()
            invariant
                i <= ks.len(),
                ks == self.kernel_views(),
                self.outputs@.len() > 0,
                commit_views(output_commits@) == base + ks.take(i as int).map_values(
                    |k: KernelView| k.excess),
                forall|j: int| 0 <= j < i ==> kernel_valid(#[trigger] ks[j]),
                ctx.rng() == old(ctx).rng(),
            decreases ks.len() - i,
        {
            let e = *self.kernels[i].excess();
            let ghost before = commit_views(output_commits@);
            output_commits.push(e);
            proof {
                assert(ks[i as int] == self.kernels@[i as int]@);
                assert(commit_views(output_commits@) =~= before.push(e@));
                assert(ks.take(i + 1).map_values(|k: KernelView| k.excess) =~= ks.take(i as int).map_values(
                    |k: KernelView| k.excess).push(ks[i as int].excess));
            }
            self.kernels[i].validate(ctx)?;
            proof {
                assert(ks[i as int] == self.kernels@[i as int]@);
                assert(commit_views(output_commits@) =~= base + ks.take(i + 1).map_values(
                    |k: KernelView| k.excess));
            }
            i += 1;
        }
        assert(ks.take(ks.len() as int) =~= ks);
        let adjustment: i128 = if overage == 0 {
            fee as i128
        } else {
            0i128 - (overage as i128)
        };
        proof {
            assert(adjustment == validation_adjustment(fee, overage));
            assert(commit_views(input_commits@) == self.input_views());
            assert(fee == (fee_sum(self.kernel_views()) % 0x1_0000_0000_0000_0000) as u64);
            assert(commit_views(output_commits@) =~= validation_outputs(outs, self.offset_view(), ks));
        }
        ctx.verify_balance_owned(input_commits.as_slice(), output_commits.as_slice(), adjustment)
    }
}

/// Whether a balance check of `pos` against `neg` with overage `adj` (within `u64` either
/// way) succeeds, its extra commitments (for an overage other than zero) blinded by the key
/// `drawn` that the generator gives, if any.
pub open spec fn balance_ok(pos: Seq<Seq<u8>>, neg: Seq<Seq<u8>>, adj: i128, drawn: Option<Seq<u8>>) -> bool {
    if adj == 0 {
        commits_balance(pos, neg)
    } else {
        match drawn {
            Some(b) => balances_with(pos, neg, adj, b),
            None => false,
        }
    }
}

/// No kernel of `b` has the ordering bytes of a kernel of `a`.
pub open spec fn keys_disjoint(a: Seq<KernelView>, b: Seq<KernelView>) -> bool {
    forall|m: int| 0 <= m < b.len() ==> !kernel_keys(a).contains(#[trigger] kernel_key(b[m]))
}

/// The offset of a merged transaction: the blinding sum of both offsets (given by its value),
/// or whichever one there is.
pub open spec fn merged_offset_ok(a: Option<Seq<u8>>, b: Option<Seq<u8>>, m: Option<Seq<u8>>) -> bool {
    match (a, b) {
        (Some(x), Some(y)) => m matches Some(o) && be_value(o) == blind_total(seq![x, y], Seq::empty()),
        (None, _) => m == b,
        (Some(_), None) => m == a,
    }
}

/// Inserting a kernel adds its ordering bytes to those present.
proof fn lemma_insert_keys(cur: Seq<KernelView>, j: int, k: KernelView, a: Seq<KernelView>, b: Seq<KernelView>)
    requires
        0 <= j <= cur.len(),
        forall|y: Seq<u8>| kernel_keys(cur).contains(y) <==> (kernel_keys(a).contains(y)
            || kernel_keys(b).contains(y)),
    ensures
        forall|y: Seq<u8>| kernel_keys(cur.insert(j, k)).contains(y) <==> (kernel_keys(a).contains(y)
            || kernel_keys(b.push(k)).contains(y)),
{
    let n = cur.insert(j, k);
    assert(kernel_keys(n) =~= kernel_keys(cur).insert(j, kernel_key(k)));
    assert(kernel_keys(b.push(k)) =~= kernel_keys(b).push(kernel_key(k)));
    assert forall|y: Seq<u8>| kernel_keys(n).contains(y) implies (kernel_keys(a).contains(y)
        || kernel_keys(b.push(k)).contains(y)) by {
        let q = choose|q: int| 0 <= q < kernel_keys(n).len() && #[trigger] kernel_keys(n)[q] == y;
        if q == j {
            assert(kernel_keys(b.push(k))[b.len() as int] == y);
        } else {
            let c = if q < j { q } else { q - 1 };
            assert(kernel_keys(cur)[c] == y);
            assert(kernel_keys(cur).contains(y));
            if kernel_keys(b).contains(y) {
                let d = choose|d: int| 0 <= d < kernel_keys(b).len() && #[trigger] kernel_keys(b)[d] == y;
                assert(kernel_keys(b.push(k))[d] == y);
            }
        }
    }
    assert forall|y: Seq<u8>| (kernel_keys(a).contains(y) || kernel_keys(b.push(k)).contains(y))
        implies kernel_keys(n).contains(y) by {
        if y == kernel_key(k) {
            assert(kernel_keys(n)[j] == y);
        } else {
            if kernel_keys(b.push(k)).contains(y) {
                let q = choose|q: int| 0 <= q < kernel_keys(b.push(k)).len() && #[trigger] kernel_keys(b.push(k))[q] == y;
                assert(q < b.len());
                assert(kernel_keys(b)[q] == y);
            }
            assert(kernel_keys(cur).contains(y));
            let c = choose|c: int| 0 <= c < kernel_keys(cur).len() && #[trigger] kernel_keys(cur)[c] == y;
            if c < j {
                assert(kernel_keys(n)[c] == y);
            } else {
                assert(kernel_keys(n)[c + 1] == y);
            }
        }
    }
}

/// A key of `a` is a key of a sequence holding the keys of `a` and `b`.
proof fn lemma_keys_contains_of(cur: Seq<KernelView>, a: Seq<KernelView>, b: Seq<KernelView>, y: Seq<u8>)
    requires
        kernel_keys(a).contains(y),
        forall|z: Seq<u8>| kernel_keys(cur).contains(z) <==> (kernel_keys(a).contains(z)
            || kernel_keys(b).contains(z)),
    ensures
        kernel_keys(cur).contains(y),
{
}

/// Extending the disjoint part by a kernel whose key is not among `a`'s.
proof fn lemma_disjoint_push(a: Seq<KernelView>, b: Seq<KernelView>, k: KernelView)
    requires
        keys_disjoint(a, b),
    ensures
        !kernel_keys(a).contains(kernel_key(k)) ==> keys_disjoint(a, b.push(k)),
{
    if !kernel_keys(a).contains(kernel_key(k)) {
        assert forall|m: int| 0 <= m < b.push(k).len() implies !kernel_keys(a).contains(
            #[trigger] kernel_key(b.push(k)[m])) by {
            if m < b.len() {
                assert(b.push(k)[m] == b[m]);
            }
        }
    }
}

impl Transaction {
    /// Merges `t` into this transaction: its inputs and outputs are appended, the offsets are
    /// added (or the one there is kept), and its kernels are added in order. A kernel of `t`
    /// equal to one already here is refused with `Duplicate`: the inputs, outputs and offset
    /// are then as they were, and the kernels of `t` added before it stay.
    pub fn merge(&mut self, ctx: &Ctx, t: Transaction) -> (r: Result<(), Error>)
        requires
            old(self).wf(),
            t.wf(),
        ensures
            final(self).wf(),
            r is Ok <==> keys_disjoint(old(self).kernel_views(), t.kernel_views()),
            r is Err ==> r == Err::<(), Error>(Error::Duplicate),
            r is Err ==> final(self).input_views() == old(self).input_views()
                && final(self).output_commits() == old(self).output_commits()
                && final(self).output_proofs() == old(self).output_proofs()
                && final(self).offset_view() == old(self).offset_view(),
            r is Ok ==> final(self).input_views() == old(self).input_views() + t.input_views(),
            r is Ok ==> final(self).output_commits() == old(self).output_commits() + t.output_commits(),
            r is Ok ==> final(self).output_proofs() == old(self).output_proofs() + t.output_proofs(),
            r is Ok ==> merged_offset_ok(old(self).offset_view(), t.offset_view(), final(self).offset_view()),
            r is Ok ==> forall|y: Seq<u8>| #[trigger] kernel_keys(final(self).kernel_views()).contains(y) <==> (
                kernel_keys(old(self).kernel_views()).contains(y) || kernel_keys(t.kernel_views()).contains(y)),
            r is Ok ==> final(self).kernel_views().len() == old(self).kernel_views().len()
                + t.kernel_views().len(),
            r is Ok ==> final(self).kernel_views().to_multiset() == old(self).kernel_views().to_multiset().add(
                t.kernel_views().to_multiset()),
            r is Ok ==> final(self).output_proof_lens() == old(self).output_proof_lens() + t.output_proof_lens(),
    {
        let ghost old_in = self.input_views();
        let ghost old_out = self.output_commits();
        let ghost old_proofs = self.output_proofs();
        let ghost old_ks = self.kernel_views();
        let ghost tks = t.kernel_views();
        let ilen = self.inputs.len();
        let olen = self.outputs.len();
        let mut i: usize = 0;
        while i < t.inputs.len()
            invariant
                i <= t.inputs@.len(),
                ilen == old_in.len(),
                self.input_views() == old_in + t.input_views().take(i as int),
                self.output_commits() == old_out,
                self.output_proofs() == old_proofs,
                self.output_proof_lens() == old(self).output_proof_lens(),
                self.kernel_views() == old_ks,
                self.offset == old(self).offset,
                self.offset_view() == old(self).offset_view(),
            decreases t.inputs@.len() - i,
        {
            let ghost before = self.input_views();
            self.inputs.push(t.inputs[i]);
            proof {
                assert(t.input_views()[i as int] == t.inputs@[i as int]@);
                assert(self.input_views() =~= before.push(t.input_views()[i as int]));
                assert(t.input_views().take(i + 1) =~= t.input_views().take(i as int).push(
                    t.input_views()[i as int]));
            }
            i += 1;
            assert(self.input_views() =~= old_in + t.input_views().take(i as int));
        }
        assert(t.input_views().take(t.inputs@.len() as int) =~= t.input_views());
        assert(old(self).output_proof_lens() + t.output_proof_lens().take(0) =~= old(self).output_proof_lens());
        let mut i: usize = 0;
        while i < t.outputs.len()
            invariant
                i <= t.outputs@.len(),
                olen == old_out.len(),
                self.input_views() == old_in + t.input_views(),
                self.output_commits() == old_out + t.output_commits().take(i as int),
                self.output_proofs() == old_proofs + t.output_proofs().take(i as int),
                self.output_proof_lens() == old(self).output_proof_lens() + t.output_proof_lens().take(i as int),
                self.kernel_views() == old_ks,
                self.offset == old(self).offset,
                self.offset_view() == old(self).offset_view(),
            decreases t.outputs@.len() - i,
        {
            let ghost bc = self.output_commits();
            let ghost bp = self.output_proofs();
            let ghost bl = self.output_proof_lens();
            self.outputs.push(t.outputs[i]);
            proof {
                assert(t.output_proof_lens()[i as int] == t.outputs@[i as int].1.plen);
                assert(self.output_proof_lens() =~= bl.push(t.output_proof_lens()[i as int]));
                assert(t.output_proof_lens().take(i + 1) =~= t.output_proof_lens().take(i as int).push(
                    t.output_proof_lens()[i as int]));
                assert(t.output_commits()[i as int] == t.outputs@[i as int].0@);
                assert(t.output_proofs()[i as int] == t.outputs@[i as int].1.bytes());
                assert(self.output_commits() =~= bc.push(t.output_commits()[i as int]));
                assert(self.output_proofs() =~= bp.push(t.output_proofs()[i as int]));
                assert(t.output_commits().take(i + 1) =~= t.output_commits().take(i as int).push(
                    t.output_commits()[i as int]));
                assert(t.output_proofs().take(i + 1) =~= t.output_proofs().take(i as int).push(
                    t.output_proofs()[i as int]));
            }
            i += 1;
            assert(self.output_commits() =~= old_out + t.output_commits().take(i as int));
            assert(self.output_proofs() =~= old_proofs + t.output_proofs().take(i as int));
        }
        assert(t.output_commits().take(t.outputs@.len() as int) =~= t.output_commits());
        assert(t.output_proofs().take(t.outputs@.len() as int) =~= t.output_proofs());
        assert(t.output_proof_lens().take(t.outputs@.len() as int) =~= t.output_proof_lens());

        let original_offset = self.offset;
        match self.offset {
            Some(a) => match t.offset {
                Some(b) => {
                    match ctx.blind_sum(&[&a, &b], &[]) {
                        Ok(o) => {
                            proof {
                                let ps: Seq<&SecretKey> = seq![&a, &b];
                                assert(crate::crypto::ctx::key_views(ps) =~= seq![a@, b@]);
                                assert(crate::crypto::ctx::key_views(Seq::<&SecretKey>::empty())
                                    =~= Seq::<Seq<u8>>::empty());
                            }
                            self.offset = Some(o);
                        },
                        Err(e) => {
                            self.inputs.truncate(ilen);
                            self.outputs.truncate(olen);
                            assert(self.input_views() =~= old_in);
                            assert(self.output_commits() =~= old_out);
                            assert(self.output_proofs() =~= old_proofs);
                            return Err(e);
                        },
                    }
                },
                None => {},
            },
            None => match t.offset {
                Some(b) => self.offset = Some(b),
                None => {},
            },
        }

        proof {
            broadcast use vstd::seq_lib::group_to_multiset_ensures;
            assert(tks.take(0) =~= Seq::<KernelView>::empty());
            assert(old_ks.to_multiset().add(tks.take(0).to_multiset()) =~= old_ks.to_multiset());
        }
        let mut i: usize = 0;
        while i < t.kernels.len()
            invariant
                i <= tks.len(),
                tks == t.kernel_views(),
                kernels_sorted(tks),
                self.wf(),
                ilen == old_in.len(),
                olen == old_out.len(),
                olen == old_proofs.len(),
                old_ks == old(self).kernel_views(),
                old_in == old(self).input_views(),
                old_out == old(self).output_commits(),
                old_proofs == old(self).output_proofs(),
                self.input_views() == old_in + t.input_views(),
                self.output_commits() == old_out + t.output_commits(),
                self.output_proofs() == old_proofs + t.output_proofs(),
                merged_offset_ok(old(self).offset_view(), t.offset_view(), self.offset_view()),
                original_offset == old(self).offset,
                keys_disjoint(old_ks, tks.take(i as int)),
                forall|y: Seq<u8>| kernel_keys(self.kernel_views()).contains(y) <==> (kernel_keys(
                    old_ks).contains(y) || kernel_keys(tks.take(i as int)).contains(y)),
                self.kernel_views().len() == old_ks.len() + i,
                self.kernel_views().to_multiset() == old_ks.to_multiset().add(tks.take(i as int).to_multiset()),
                self.output_proof_lens() == old(self).output_proof_lens() + t.output_proof_lens(),
            decreases tks.len() - i,
        {
            let k = t.kernels[i];
            let ghost cur = self.kernel_views();
            proof { assert(tks[i as int] == k@); }
            match self.add_kernel(k) {
                Ok(_) => {
                    proof {
                        let j = choose|j: int| 0 <= j <= cur.len() && self.kernel_views() == cur.insert(j, k@);
                        assert(tks.take(i + 1) =~= tks.take(i as int).push(k@));
                        lemma_insert_keys(cur, j, k@, old_ks, tks.take(i as int));
                        if kernel_keys(old_ks).contains(kernel_key(k@)) {
                            lemma_keys_contains_of(cur, old_ks, tks.take(i as int), kernel_key(k@));
                        }
                        lemma_disjoint_push(old_ks, tks.take(i as int), k@);
                        broadcast use vstd::seq_lib::group_to_multiset_ensures;
                        vstd::seq_lib::to_multiset_insert(cur, j, k@);
                        assert(self.kernel_views().to_multiset() =~= old_ks.to_multiset().add(
                            tks.take(i + 1).to_multiset()));
                    }
                },
                Err(e) => {
                    proof {
                        // the duplicate comes from this transaction's own kernels only if two
                        // of `t`'s kernels were equal, which their order rules out
                        assert(kernel_keys(cur).contains(kernel_key(k@)));
                        if !kernel_keys(old_ks).contains(kernel_key(k@)) {
                            assert(kernel_keys(tks.take(i as int)).contains(kernel_key(k@)));
                            let q = choose|q: int| 0 <= q < kernel_keys(tks.take(i as int)).len() && #[trigger] kernel_keys(tks.take(i as int))[q] == kernel_key(k@);
                            assert(bytes_lt(kernel_key(tks[q]), kernel_key(tks[i as int])));
                            lemma_bytes_lt_irreflexive(kernel_key(k@));
                            assert(false);
                        }
                        assert(!keys_disjoint(old_ks, tks));
                    }
                    self.offset = original_offset;
                    let ghost bi = self.inputs@;
                    let ghost bo = self.outputs@;
                    proof {
                        assert(commit_views(bi).len() == bi.len());
                        assert(bo.map_values(|o: (Commitment, RangeProof)| o.0@).len() == bo.len());
                        assert(ilen <= bi.len());
                        assert(olen <= bo.len());
                    }
                    self.inputs.truncate(ilen);
                    self.outputs.truncate(olen);
                    proof {
                        assert(self.inputs@ == bi.subrange(0, ilen as int));
                        assert(self.outputs@ == bo.subrange(0, olen as int));
                        assert(commit_views(bi) == old_in + t.input_views());
                        assert forall|q: int| 0 <= q < ilen implies commit_views(self.inputs@)[q] == old_in[q] by {
                            assert(commit_views(self.inputs@)[q] == commit_views(bi)[q]);
                        }
                        assert forall|q: int| 0 <= q < olen implies #[trigger] self.outputs@[q].0@ == old_out[q]
                            && self.outputs@[q].1.bytes() == old_proofs[q] by {
                            assert(self.outputs@[q] == bo[q]);
                            assert(bo.map_values(|o: (Commitment, RangeProof)| o.0@)[q] == old_out[q]);
                            assert(bo.map_values(|o: (Commitment, RangeProof)| o.1.bytes())[q] == old_proofs[q]);
                        }
                    }
                    assert(self.input_views() =~= old_in);
                    assert(self.output_commits() =~= old_out);
                    assert forall|q: int| 0 <= q < olen implies #[trigger] self.output_proofs()[q] == old_proofs[q] by {
                        assert(self.output_proofs()[q] == self.outputs@[q].1.bytes());
                        assert(self.outputs@[q].0@ == old_out[q]);
                    }
                    assert(self.output_proofs() =~= old_proofs);
                    return Err(e);
                },
            }
            i += 1;
        }
        assert(tks.take(tks.len() as int) =~= tks);
        Ok(())
    }

    /// A copy of the transaction.
    pub fn try_clone(&self) -> (r: Result<Self, Error>)
        ensures
            r matches Ok(c) && c.kernel_views() == self.kernel_views() && c.input_views()
                == self.input_views() && c.output_commits() == self.output_commits()
                && c.output_proofs() == self.output_proofs() && c.offset_view() == self.offset_view()
                && c.output_proof_lens() == self.output_proof_lens() && c.wf() == self.wf(),
    {
        let mut outputs: Vec<(Commitment, RangeProof)> = Vec::new();
        let mut i: usize = 0;
        while i < self.outputs.len()
            invariant
                i <= self.outputs@.len(),
                outputs@ == self.outputs@.take(i as int),
            decreases self.outputs@.len() - i,
        {
            outputs.push(self.outputs[i]);
            i += 1;
            assert(outputs@ =~= self.outputs@.take(i as int));
        }
        let mut inputs: Vec<Commitment> = Vec::new();
        let mut i: usize = 0;
        while i < self.inputs.len()
            invariant
                i <= self.inputs@.len(),
                inputs@ == self.inputs@.take(i as int),
            decreases self.inputs@.len() - i,
        {
            inputs.push(self.inputs[i]);
            i += 1;
            assert(inputs@ =~= self.inputs@.take(i as int));
        }
        let mut kernels: Vec<Kernel> = Vec::new();
        let mut i: usize = 0;
        while i < self.kernels.len()
            invariant
                i <= self.kernels@.len(),
                kernels@ == self.kernels@.take(i as int),
            decreases self.kernels@.len() - i,
        {
            kernels.push(self.kernels[i]);
            i += 1;
            assert(kernels@ =~= self.kernels@.take(i as int));
        }
        assert(outputs@ =~= self.outputs@);
        assert(inputs@ =~= self.inputs@);
        assert(kernels@ =~= self.kernels@);
        Ok(Transaction { outputs, inputs, kernels, offset: self.offset })
    }
}

} // verus!
