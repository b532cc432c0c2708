use vstd::prelude::*;
use crate::base::error::Error;
use crate::base::misc::{subslice, from_le_bytes_u64, be_value, to_le_bytes_u32, from_le_bytes_u32, to_le_bytes_u64, u256_less_than_or_equal, u64_le_bytes, u32_le_bytes, le_value};
use crate::crypto::ctx::Ctx;
use crate::crypto::keys::{drawn_end_at, drawn_key, drawn_key_at, lemma_drawn_end_found, PublicKey, SecretKey};
use crate::crypto::sha3::{sha3_256_spec, Sha3_256};
use crate::mw::kernel::Kernel;
use crate::mw::transaction::{merkle_top, kernel_messages, fee_sum, kernel_valid, validation_outputs, validation_adjustment, Transaction, keys_disjoint, kernel_keys, merged_offset_ok};
use crate::crypto::secp::{blind_total, bullet_proof_of, commit_of, curve_order, pubkey_of, pubkey_parsed, range_proof_verifies, schnorr_sig_of, seckey_valid};
use crate::crypto::cpsrng::Cpsrng;
use crate::crypto::range_proof::MAX_PROOF_SIZE;
use crate::mw::kernel::{kernel_key, kernel_message, KernelView};
use crate::mw::transaction::balance_ok;
use crate::crypto::ctx::key_views;
use crate::crypto::ctx::balance_outcome;
use crate::bible::{verse_spec, Bible};
use vstd::string::StringSliceAdditionalSpecFns;

verus! {

/// The header version this library writes.
pub const BLOCK_HEADER_VERSION: u8 = 0;

/// A block header: 114 bytes of fields, in this order.
#[derive(Clone, Copy, Debug)]
pub struct BlockHeader {
    header_version: u8,
    timestamp: [u8; 5],
    nonce: [u8; 4],
    prev_hash: [u8; 32],
    sync_state_hash: [u8; 32],
    kp_proposed: [u8; 4],
    ki_proposed: [u8; 4],
    aux_data_hash: [u8; 32],
}

/// Values kept by miners while validating a block but not broadcast.
pub struct ShadowHeader {
    pub hash: [u8; 32],
    pub height: u32,
    pub target: [u8; 32],
    pub difficulty: u64,
    pub cumulative_difficulty: u64,
    pub kp: [u8; 4],
    pub ki: [u8; 4],
}

/// A block header's fields as plain values.
pub struct HeaderView {
    pub header_version: u8,
    pub timestamp: Seq<u8>,
    pub nonce: Seq<u8>,
    pub prev_hash: Seq<u8>,
    pub sync_state_hash: Seq<u8>,
    pub kp_proposed: Seq<u8>,
    pub ki_proposed: Seq<u8>,
    pub aux_data_hash: Seq<u8>,
}

/// The header's bytes: its fields one after the other.
pub open spec fn header_bytes(h: HeaderView) -> Seq<u8> {
    seq![h.header_version] + h.timestamp + h.nonce + h.prev_hash + h.sync_state_hash
        + h.kp_proposed + h.ki_proposed + h.aux_data_hash
}

/// The nonce that round `k` of `mine_block` tries, starting from `n0`: the round numbers
/// 0, 1, ..., `k` are added to it in turn, wrapping at 2^32.
pub open spec fn tried_nonce(n0: u32, k: nat) -> u32
    decreases k,
{
    if k == 0 {
        n0
    } else {
        ((tried_nonce(n0, (k - 1) as nat) + k) % 0x1_0000_0000) as u32
    }
}

/// The header's 114 bytes hold each field at a fixed place: the version at 0, the timestamp
/// at 1 to 5, the nonce at 6 to 9, the previous hash at 10 to 41, the sync state hash at 42
/// to 73, the proposed PI values at 74 to 77 and 78 to 81, the auxiliary data hash at 82 to
/// 113. So the verse a header's hash takes in is the one numbered by the last eight bytes
/// of its previous hash.
pub proof fn lemma_header_layout(h: HeaderView, bible_text: Seq<u8>, bible_index: Seq<u32>)
    requires
        h.timestamp.len() == 5,
        h.nonce.len() == 4,
        h.prev_hash.len() == 32,
        h.sync_state_hash.len() == 32,
        h.kp_proposed.len() == 4,
        h.ki_proposed.len() == 4,
        h.aux_data_hash.len() == 32,
    ensures
        header_bytes(h).len() == 114,
        header_bytes(h)[0] == h.header_version,
        header_bytes(h).subrange(1, 6) == h.timestamp,
        header_bytes(h).subrange(6, 10) == h.nonce,
        header_bytes(h).subrange(10, 42) == h.prev_hash,
        header_bytes(h).subrange(42, 74) == h.sync_state_hash,
        header_bytes(h).subrange(74, 78) == h.kp_proposed,
        header_bytes(h).subrange(78, 82) == h.ki_proposed,
        header_bytes(h).subrange(82, 114) == h.aux_data_hash,
        header_verse(bible_text, bible_index, header_bytes(h)) == verse_spec(bible_text, bible_index,
            ((le_value(h.prev_hash.subrange(24, 32)) as u64) as usize) as int),
{
    let b = header_bytes(h);
    assert(b.subrange(1, 6) =~= h.timestamp);
    assert(b.subrange(6, 10) =~= h.nonce);
    assert(b.subrange(10, 42) =~= h.prev_hash);
    assert(b.subrange(42, 74) =~= h.sync_state_hash);
    assert(b.subrange(74, 78) =~= h.kp_proposed);
    assert(b.subrange(78, 82) =~= h.ki_proposed);
    assert(b.subrange(82, 114) =~= h.aux_data_hash);
    assert(b.subrange(34, 42) =~= h.prev_hash.subrange(24, 32));
}

/// Round `k` of mining tries the starting nonce plus `0 + 1 + ... + k`, that is plus
/// `k (k + 1) / 2`, modulo 2^32.
pub proof fn lemma_tried_nonce_closed_form(n0: u32, k: nat)
    ensures
        tried_nonce(n0, k) == (n0 + k * (k + 1) / 2) % 0x1_0000_0000,
    decreases k,
{
    if k > 0 {
        let j = (k - 1) as nat;
        lemma_tried_nonce_closed_form(n0, j);
        let a: int = (j * (j + 1)) as int;
        let q: int = a / 2;
        let r: int = a % 2;
        vstd::arithmetic::div_mod::lemma_fundamental_div_mod(a, 2);
        vstd::arithmetic::div_mod::lemma_mod_pos_bound(a, 2);
        assert(k * (k + 1) == a + 2 * k) by (nonlinear_arith)
            requires
                k == j + 1,
                a == j * (j + 1),
        ;
        assert(k * (k + 1) == 2 * (q + k) + r);
        vstd::arithmetic::div_mod::lemma_div_multiples_vanish_fancy(q + k, r, 2);
        assert(k * (k + 1) / 2 == q + k);
        let x: int = n0 + q;
        vstd::arithmetic::div_mod::lemma_add_mod_noop_right(k as int, x, 0x1_0000_0000);
        assert(tried_nonce(n0, k) == ((tried_nonce(n0, j) + k) % 0x1_0000_0000) as u32);
        assert(tried_nonce(n0, j) == x % 0x1_0000_0000);
        assert((k + x % 0x1_0000_0000) % 0x1_0000_0000 == (k + x) % 0x1_0000_0000);
    } else {
        assert(k * (k + 1) / 2 == 0) by (nonlinear_arith) requires k == 0;
        vstd::arithmetic::div_mod::lemma_small_mod(n0 as nat, 0x1_0000_0000);
    }
}

/// The header that round `k` of `mine_block` hashes: `h` with the nonce of that round.
pub open spec fn mined_header(h: HeaderView, k: nat) -> HeaderView {
    HeaderView { nonce: u32_le_bytes(tried_nonce(le_value(h.nonce.take(4)) as u32, k)), ..h }
}

/// In round `k` of mining from header `h`, the hasher gave a hash above `target`.
pub open spec fn round_misses<F: Fn(&[u8; 114]) -> [u8; 32]>(hasher: F, h: HeaderView, target: Seq<u8>, k: nat) -> bool {
    exists|b: &[u8; 114], x: [u8; 32]| b@ == header_bytes(mined_header(h, k)) && #[trigger] call_ensures(
        hasher, (b,), x) && be_value(x@) > be_value(target)
}

/// The bytes a block hash is taken over: the header's bytes, the verse, then zeros up to
/// 1024 bytes.
pub open spec fn hash_buffer_spec(header: Seq<u8>, verse: Seq<u8>) -> Seq<u8> {
    header + verse + Seq::new((1024 - header.len() - verse.len()) as nat, |i: int| 0u8)
}

/// The verse a header's hash takes in: the one numbered by the last eight bytes of the
/// previous hash (bytes 34 to 41 of the header, little-endian).
pub open spec fn header_verse(bible_text: Seq<u8>, bible_index: Seq<u32>, header: Seq<u8>) -> Option<Seq<u8>> {
    verse_spec(bible_text, bible_index, ((le_value(header.subrange(34, 42)) as u64) as usize) as int)
}

/// The 1024 bytes that a block's proof-of-work hash is taken over, for the header's bytes
/// `header`: the header, the verse of `bible` chosen by the end of the previous hash (see
/// `header_verse`), then zeros. `None` when that verse cannot be read or is longer than the
/// 910 bytes left after the header.
pub fn hash_buffer(header: &[u8; 114], bible: &Bible) -> (r: Option<[u8; 1024]>)
    requires
        bible.wf(),
    ensures
        match header_verse(bible.text(), bible.index(), header@) {
            Some(v) => if v.len() <= 910 {
                r matches Some(b) && b@ == hash_buffer_spec(header@, v)
            } else {
                r is None
            },
            None => r is None,
        },
{
    let end = match subslice(header, 34, 8) {
        Ok(e) => e,
        Err(_) => {
            return None;
        },
    };
    assert(end@.take(8) =~= header@.subrange(34, 42));
    let val = match from_le_bytes_u64(end) {
        Ok(v) => v,
        Err(_) => {
            return None;
        },
    };
    assert(val == le_value(header@.subrange(34, 42)) as u64);
    let verse = match bible.find_mod(val as usize) {
        Some(v) => v,
        None => {
            return None;
        },
    };
    let vb = verse.as_bytes();
    if vb.len() > 910 {
        return None;
    }
    let mut buf = [0u8; 1024];
    let mut i: usize = 0;
    while i < 114
        invariant
            i <= 114,
            buf@.len() == 1024,
            forall|j: int| 0 <= j < i ==> buf@[j] == header@[j],
            forall|j: int| i <= j < 1024 ==> buf@[j] == 0u8,
        decreases 114 - i,
    {
        buf[i] = header[i];
        i += 1;
    }
    let mut k: usize = 0;
    while k < vb.len()
        invariant
            k <= vb@.len(),
            vb@.len() <= 910,
            buf@.len() == 1024,
            forall|j: int| 0 <= j < 114 ==> buf@[j] == header@[j],
            forall|j: int| 0 <= j < k ==> buf@[114 + j] == vb@[j],
            forall|j: int| 114 + k <= j < 1024 ==> buf@[j] == 0u8,
        decreases vb@.len() - k,
    {
        buf[114 + k] = vb[k];
        k += 1;
    }
    assert(buf@ =~= hash_buffer_spec(header@, vb@));
    Some(buf)
}

/// The value of the coinbase's blinding excess: minus the output's blinding factor, and minus
/// the negated block offset `noffset` when the block has an offset (modulo the group order).
pub open spec fn coinbase_excess(blind: Seq<u8>, offset: Option<Seq<u8>>, noffset: Seq<u8>) -> int {
    match offset {
        Some(_) => blind_total(Seq::empty(), seq![blind, noffset]),
        None => blind_total(Seq::empty(), seq![blind]),
    }
}

/// `noffset` is what `SecretKey::negate` makes of the block offset: its negation modulo the
/// group order (any 32 bytes when there is no offset).
pub open spec fn negated_offset(offset: Option<Seq<u8>>, noffset: Seq<u8>) -> bool {
    &&& noffset.len() == 32
    &&& offset matches Some(o) ==> be_value(noffset) == (curve_order() - be_value(o)) % (curve_order() as int)
}

/// What the coinbase of `with_coinbase` needs, once the negated offset `noffset` and the
/// excess key `k` are known, for a block whose transaction is `tx`, the output blinding factor
/// `blind`, the overage `overage` and a generator in state `g` (whose first two draws give the
/// range proof's nonce and the signature's nonce): the excess is not zero; the public nonce and
/// key parse and the curve library signs; the coinbase's range proof and kernel verify and it
/// balances (with a third draw when its overage is not zero); its kernel is new to the block;
/// and the merged transaction, whatever the order of its kernels, balances (with the next draw
/// when its adjustment is not zero).
pub open spec fn coinbase_ok(tx: Transaction, blind: Seq<u8>, overage: u64, g: Cpsrng, noffset: Seq<u8>, k: Seq<u8>)
    -> bool {
    let key = g.spec_key();
    let iv = g.spec_iv();
    let v = (fee_sum(tx.kernel_views()) % 0x1_0000_0000_0000_0000 + overage) as u64;
    let o1 = drawn_end_at(key, iv, g.spec_offset())->Some_0;
    let o2 = drawn_end_at(key, iv, o1)->Some_0;
    let proof_nonce = drawn_key_at(key, iv, g.spec_offset())->Some_0;
    let sig_nonce = drawn_key_at(key, iv, o1)->Some_0;
    let cb_offset: Option<Seq<u8>> = match tx.offset_view() {
        Some(_) => Some(noffset),
        None => None,
    };
    let pub_nonce = pubkey_of(sig_nonce);
    let pub_key = pubkey_of(k);
    let excess = commit_of(0, k);
    let sig = schnorr_sig_of(kernel_message(excess, 0, 0), k, sig_nonce, pub_nonce, pub_key, pub_nonce);
    let kv = KernelView { excess, signature: sig->Some_0, fee: 0, features: 0 };
    let out = commit_of(v, blind);
    let cb_adj = validation_adjustment(0, v);
    let o3 = if cb_adj == 0 { o2 } else { drawn_end_at(key, iv, o2)->Some_0 };
    &&& be_value(k) != 0
    &&& pubkey_parsed(pub_nonce) is Some
    &&& pubkey_parsed(pub_key) is Some
    &&& sig is Some
    &&& range_proof_verifies(out, bullet_proof_of(v, blind, proof_nonce))
    &&& kernel_valid(kv)
    &&& balance_ok(Seq::empty(), validation_outputs(seq![out], cb_offset, seq![kv]), cb_adj, drawn_key_at(key,
        iv, o2))
    &&& keys_disjoint(tx.kernel_views(), seq![kv])
    &&& merged_balances(tx, out, kv, overage, drawn_key_at(key, iv, o3))
}

/// The transaction `tx` with the output `out` and the kernel `kv` added, and without an offset,
/// balances for the overage `overage` (with the drawn key `drawn` when its adjustment is not
/// zero), whatever the order of its kernels.
pub open spec fn merged_balances(tx: Transaction, out: Seq<u8>, kv: KernelView, overage: u64, drawn: Option<Seq<u8>>)
    -> bool {
    forall|ks: Seq<KernelView>| ks.to_multiset() == tx.kernel_views().to_multiset().insert(kv) ==> #[trigger] balance_ok(
        tx.input_views(), validation_outputs(tx.output_commits().push(out), None, ks), validation_adjustment(
        (fee_sum(ks) % 0x1_0000_0000_0000_0000) as u64, overage), drawn)
}

/// What `with_coinbase` needs to succeed for a block whose transaction is `tx`: a valid output
/// blinding factor, a generator that finds the range proof's and the signature's nonces, the
/// block's own range proofs and kernels verifying, and the coinbase conditions (see
/// `coinbase_ok`) for the negated offset and the excess key.
pub open spec fn coinbase_succeeds(tx: Transaction, blind: Seq<u8>, overage: u64, g: Cpsrng) -> bool {
    let key = g.spec_key();
    let iv = g.spec_iv();
    &&& seckey_valid(blind)
    &&& drawn_key_at(key, iv, g.spec_offset()) is Some
    &&& drawn_key_at(key, iv, drawn_end_at(key, iv, g.spec_offset())->Some_0) is Some
    &&& forall|i: int| 0 <= i < tx.output_commits().len() ==> #[trigger] tx.output_proof_lens()[i] <= MAX_PROOF_SIZE
        && range_proof_verifies(tx.output_commits()[i], tx.output_proofs()[i])
    &&& forall|i: int| 0 <= i < tx.kernel_views().len() ==> kernel_valid(#[trigger] tx.kernel_views()[i])
    &&& forall|noffset: Seq<u8>, k: Seq<u8>| negated_offset(tx.offset_view(), noffset) && k.len() == 32
        && be_value(k) == coinbase_excess(blind, tx.offset_view(), noffset) ==> #[trigger] coinbase_ok(tx, blind,
        overage, g, noffset, k)
}

/// The five low bytes of a number of seconds, least significant first.
pub open spec fn timestamp_bytes(seconds: u64) -> Seq<u8> {
    u64_le_bytes(seconds).take(5)
}

impl BlockHeader {
    /// The header's fields.
    pub closed spec fn view(&self) -> HeaderView {
        HeaderView {
            header_version: self.header_version,
            timestamp: self.timestamp@,
            nonce: self.nonce@,
            prev_hash: self.prev_hash@,
            sync_state_hash: self.sync_state_hash@,
            kp_proposed: self.kp_proposed@,
            ki_proposed: self.ki_proposed@,
            aux_data_hash: self.aux_data_hash@,
        }
    }

    /// A header of the current version for the given previous hash, auxiliary data hash and
    /// proposed PI values, stamped with `now_secs` (seconds since the epoch); nonce and sync
    /// state hash are zero.
    fn new(prev_hash: [u8; 32], aux_data_hash: [u8; 32], ki_proposed: [u8; 4], kp_proposed: [u8; 4],
        now_secs: u64) -> (r: Self)
        ensures
            r@.header_version == BLOCK_HEADER_VERSION,
            r@.timestamp == timestamp_bytes(now_secs),
            r@.nonce == Seq::new(4, |i: int| 0u8),
            r@.prev_hash == prev_hash@,
            r@.sync_state_hash == Seq::new(32, |i: int| 0u8),
            r@.kp_proposed == kp_proposed@,
            r@.ki_proposed == ki_proposed@,
            r@.aux_data_hash == aux_data_hash@,
    {
        let timestamp = Self::timestamp_to_bytes_le(now_secs);
        let sync_state_hash = [0u8; 32];
        let nonce = [0u8; 4];
        assert(sync_state_hash@ =~= Seq::new(32, |i: int| 0u8));
        assert(nonce@ =~= Seq::new(4, |i: int| 0u8));
        BlockHeader {
            header_version: BLOCK_HEADER_VERSION,
            prev_hash,
            timestamp,
            aux_data_hash,
            sync_state_hash,
            nonce,
            ki_proposed,
            kp_proposed,
        }
    }

    /// The five low bytes of `seconds`, least significant first.
    pub fn timestamp_to_bytes_le(seconds: u64) -> (r: [u8; 5])
        ensures
            r@ == timestamp_bytes(seconds),
    {
        let mut bytes = [0u8; 8];
        let _ = to_le_bytes_u64(seconds, &mut bytes);
        let r = [bytes[0], bytes[1], bytes[2], bytes[3], bytes[4]];
        assert(r@ =~= timestamp_bytes(seconds));
        r
    }

    /// The header's 114 bytes (see `header_bytes`).
    pub fn to_bytes(&self) -> (r: [u8; 114])
        ensures
            r@ == header_bytes(self@),
    {
        let mut out = [0u8; 114];
        out[0] = self.header_version;
        assert(out@.take(1) =~= seq![self.header_version]);
        put_bytes(&mut out, 1, &self.timestamp);
        put_bytes(&mut out, 6, &self.nonce);
        put_bytes(&mut out, 10, &self.prev_hash);
        put_bytes(&mut out, 42, &self.sync_state_hash);
        put_bytes(&mut out, 74, &self.kp_proposed);
        put_bytes(&mut out, 78, &self.ki_proposed);
        put_bytes(&mut out, 82, &self.aux_data_hash);
        assert(out@.take(114) =~= out@);
        out
    }
}

/// Writes `src` into `out` from `pos` on, keeping what comes before `pos`.
fn put_bytes(out: &mut [u8; 114], pos: usize, src: &[u8])
    requires
        pos + src@.len() <= 114,
    ensures
        final(out)@.len() == 114,
        final(out)@.take(pos + src@.len()) == old(out)@.take(pos as int) + src@,
{
    let mut i: usize = 0;
    while i < src.len()
        invariant
            pos + src@.len() <= 114,
            i <= src@.len(),
            out@.len() == 114,
            forall|j: int| 0 <= j < pos ==> out@[j] == old(out)@[j],
            forall|j: int| 0 <= j < i ==> out@[pos + j] == src@[j],
        decreases src.len() - i,
    {
        out[pos + i] = src[i];
        i += 1;
    }
    assert(out@.take(pos + src@.len()) =~= old(out)@.take(pos as int) + src@);
}

/// A block: its header and its (merged) transaction.
pub struct Block {
    header: BlockHeader,
    tx: Transaction,
}

impl Block {
    /// The header.
    pub closed spec fn spec_header(&self) -> HeaderView {
        self.header@
    }

    /// The transaction.
    pub closed spec fn spec_tx(&self) -> Transaction {
        self.tx
    }

    /// The block is well formed: its transaction's kernels are in order.
    pub closed spec fn wf(&self) -> bool {
        self.tx.wf()
    }

    /// A block with an empty transaction and a fresh header (see `BlockHeader`) stamped with
    /// `now_secs`.
    pub fn new(prev_hash: [u8; 32], aux_data_hash: [u8; 32], ki_proposed: [u8; 4], kp_proposed: [u8; 4],
        now_secs: u64) -> (r: Self)
        ensures
            r.wf(),
            r.spec_header().prev_hash == prev_hash@,
            r.spec_header().aux_data_hash == aux_data_hash@,
            r.spec_header().ki_proposed == ki_proposed@,
            r.spec_header().kp_proposed == kp_proposed@,
            r.spec_header().timestamp == timestamp_bytes(now_secs),
            r.spec_header().nonce == Seq::new(4, |i: int| 0u8),
            r.spec_tx().kernel_views().len() == 0,
            r.spec_tx().input_views().len() == 0,
            r.spec_tx().output_commits().len() == 0,
            r.spec_tx().offset_view() is None,
    {
        let header = BlockHeader::new(prev_hash, aux_data_hash, ki_proposed, kp_proposed, now_secs);
        let tx = Transaction::empty();
        Block { header, tx }
    }

    /// The header.
    pub fn header(&self) -> (r: &BlockHeader)
        ensures
            r@ == self.spec_header(),
    {
        &self.header
    }

    /// The transaction.
    pub fn tx(&self) -> (r: &Transaction)
        ensures
            *r == self.spec_tx(),
    {
        &self.tx
    }

    /// Replaces the auxiliary data hash of the header.
    pub fn set_aux_data_hash(&mut self, aux_data_hash: [u8; 32])
        ensures
            final(self).spec_header() == (HeaderView { aux_data_hash: aux_data_hash@, ..old(self).spec_header() }),
            final(self).spec_tx() == old(self).spec_tx(),
    {
        self.header.aux_data_hash = aux_data_hash;
    }

    /// Merges a transaction into the block's transaction (see `Transaction::merge`).
    pub fn add_tx(&mut self, ctx: &Ctx, tx: Transaction) -> (r: Result<(), Error>)
        requires
            old(self).wf(),
            tx.wf(),
        ensures
            final(self).wf(),
            final(self).spec_header() == old(self).spec_header(),
            r is Ok <==> keys_disjoint(old(self).spec_tx().kernel_views(), tx.kernel_views()),
            r is Err ==> r == Err::<(), Error>(Error::Duplicate),
            r is Err ==> final(self).spec_tx().input_views() == old(self).spec_tx().input_views()
                && final(self).spec_tx().output_commits() == old(self).spec_tx().output_commits()
                && final(self).spec_tx().output_proofs() == old(self).spec_tx().output_proofs()
                && final(self).spec_tx().offset_view() == old(self).spec_tx().offset_view(),
            r is Ok ==> final(self).spec_tx().input_views() == old(self).spec_tx().input_views()
                + tx.input_views(),
            r is Ok ==> final(self).spec_tx().output_commits() == old(self).spec_tx().output_commits()
                + tx.output_commits(),
            r is Ok ==> final(self).spec_tx().output_proofs() == old(self).spec_tx().output_proofs()
                + tx.output_proofs(),
            r is Ok ==> merged_offset_ok(old(self).spec_tx().offset_view(), tx.offset_view(),
                final(self).spec_tx().offset_view()),
            r is Ok ==> forall|y: Seq<u8>| kernel_keys(final(self).spec_tx().kernel_views()).contains(y)
                <==> (kernel_keys(old(self).spec_tx().kernel_views()).contains(y) || kernel_keys(
                tx.kernel_views()).contains(y)),
            r is Ok ==> final(self).spec_tx().kernel_views().len() == old(self).spec_tx().kernel_views().len()
                + tx.kernel_views().len(),
    {
        self.tx.merge(ctx, tx)
    }

    /// The sum of the block's fees (modulo 2^64).
    pub fn fees(&self) -> (r: u64)
        ensures
            r == crate::mw::transaction::fee_sum(self.spec_tx().kernel_views()) % 0x1_0000_0000_0000_0000,
    {
        self.tx.fees()
    }

    /// Searches for a nonce: for each of `iterations` rounds the nonce (read from the header,
    /// little-endian) grows by the round number, the header's bytes are hashed with `hasher`,
    /// and the first hash at most `target` (as big-endian numbers) is given; `NotFound` when
    /// none is. The header keeps the last nonce tried. For the chain's proof of work the
    /// hasher is the Bip52 hash of the `hash_buffer` of the bytes it is given.
    pub fn mine_block<F: Fn(&[u8; 114]) -> [u8; 32]>(&mut self, hasher: &F, iterations: u32, target: [u8; 32])
        -> (r: Result<[u8; 32], Error>)
        requires
            forall|b: &[u8; 114]| call_requires(*hasher, (b,)),
        ensures
            final(self).spec_tx() == old(self).spec_tx(),
            final(self).spec_header() == (HeaderView { nonce: final(self).spec_header().nonce, ..old(self).spec_header() }),
            r matches Ok(h) ==> be_value(h@) <= be_value(target@),
            r matches Ok(h) ==> (exists|b: &[u8; 114]| call_ensures(*hasher, (b,), h)
                && b@ == header_bytes(final(self).spec_header())),
            r is Ok ==> exists|k: int| 0 <= k < iterations && final(self).spec_header() == #[trigger] mined_header(
                old(self).spec_header(), k as nat) && forall|j: int| 0 <= j < k ==> #[trigger] round_misses(*hasher,
                old(self).spec_header(), target@, j as nat),
            r is Err ==> r == Err::<[u8; 32], Error>(Error::NotFound) && forall|k: int| 0 <= k < iterations
                ==> #[trigger] round_misses(*hasher, old(self).spec_header(), target@, k as nat),
            iterations == 0 ==> r == Err::<[u8; 32], Error>(Error::NotFound),
    {
        let mut nonce = match from_le_bytes_u32(&self.header.nonce) {
            Ok(n) => n,
            Err(e) => return Err(e),
        };
        let ghost h0 = self.spec_header();
        let ghost n0 = nonce;
        assert(n0 == le_value(h0.nonce.take(4)) as u32);
        let mut i: u32 = 0;
        while i < iterations
            invariant
                forall|b: &[u8; 114]| call_requires(*hasher, (b,)),
                self.tx == old(self).tx,
                h0 == old(self).spec_header(),
                n0 == le_value(h0.nonce.take(4)) as u32,
                self.spec_header() == (HeaderView { nonce: self.spec_header().nonce, ..old(self).spec_header() }),
                self.header.nonce@.len() == 4,
                i == 0 ==> nonce == n0,
                i > 0 ==> nonce == tried_nonce(n0, (i - 1) as nat),
                forall|j: int| 0 <= j < i ==> #[trigger] round_misses(*hasher, h0, target@, j as nat),
            decreases iterations - i,
        {
            let ghost prev = nonce;
            nonce = nonce.wrapping_add(i);
            assert(nonce == tried_nonce(n0, i as nat)) by {
                if i > 0 {
                    assert(tried_nonce(n0, i as nat) == ((tried_nonce(n0, (i - 1) as nat) + i) % 0x1_0000_0000) as u32);
                }
            }
            let _ = to_le_bytes_u32(nonce, &mut self.header.nonce);
            assert(self.header.nonce@ =~= u32_le_bytes(nonce));
            assert(self.spec_header() == mined_header(h0, i as nat));
            let bytes = self.header.to_bytes();
            let hash = hasher(&bytes);
            if u256_less_than_or_equal(&target, &hash) {
                let ghost k: int = i as int;
                assert(mined_header(old(self).spec_header(), k as nat) == self.spec_header());
                assert(forall|j: int| 0 <= j < k ==> #[trigger] round_misses(*hasher, old(self).spec_header(),
                    target@, j as nat));
                assert(0 <= k < iterations);
                return Ok(hash);
            }
            assert(round_misses(*hasher, h0, target@, i as nat));
            i += 1;
        }
        Err(Error::NotFound)
    }

    /// Checks a block hash: it must be at most `target` and equal to `hasher` applied to the
    /// header's bytes (else `ValidationFailed`).
    pub fn validate_hash<F: Fn(&[u8; 114]) -> [u8; 32]>(&self, hasher: &F, target: [u8; 32], hash: [u8; 32])
        -> (r: Result<(), Error>)
        requires
            forall|b: &[u8; 114]| call_requires(*hasher, (b,)),
        ensures
            be_value(hash@) > be_value(target@) ==> r == Err::<(), Error>(Error::ValidationFailed),
            r is Ok ==> be_value(hash@) <= be_value(target@) && (exists|b: &[u8; 114], h: [u8; 32]|
                call_ensures(*hasher, (b,), h) && b@ == header_bytes(self.spec_header()) && h@ == hash@),
            r is Err ==> r == Err::<(), Error>(Error::ValidationFailed),
            be_value(hash@) <= be_value(target@) && (forall|b: &[u8; 114], h: [u8; 32]| b@ == header_bytes(
                self.spec_header()) && #[trigger] call_ensures(*hasher, (b,), h) ==> h@ == hash@) ==> r is Ok,
    {
        if !u256_less_than_or_equal(&target, &hash) {
            return Err(Error::ValidationFailed);
        }
        let bytes = self.header.to_bytes();
        let hash_calc = hasher(&bytes);
        let ghost exact = forall|b: &[u8; 114], h: [u8; 32]| b@ == header_bytes(self.spec_header())
            && #[trigger] call_ensures(*hasher, (b,), h) ==> h@ == hash@;
        proof {
            if exact {
                assert(call_ensures(*hasher, (&bytes,), hash_calc));
                assert(hash_calc@ == hash@);
            }
        }
        let mut k: usize = 0;
        while k < 32
            invariant
                k <= 32,
                exact ==> hash_calc@ == hash@,
                exact == forall|b: &[u8; 114], h: [u8; 32]| b@ == header_bytes(self.spec_header())
                    && #[trigger] call_ensures(*hasher, (b,), h) ==> h@ == hash@,
                forall|j: int| 0 <= j < k ==> hash@[j] == hash_calc@[j],
            decreases 32 - k,
        {
            if hash[k] != hash_calc[k] {
                return Err(Error::ValidationFailed);
            }
            k += 1;
        }
        assert(hash@ =~= hash_calc@);
        Ok(())
    }

    /// Stamps the header with `now_secs` and sets its sync state hash to SHA3-256 of the
    /// kernel Merkle root of the block's transaction.
    pub fn finalize_header(&mut self, now_secs: u64) -> (r: Result<(), Error>)
        ensures
            final(self).spec_tx() == old(self).spec_tx(),
            r is Ok,
            final(self).spec_header().timestamp == timestamp_bytes(now_secs),
            old(self).spec_tx().kernel_views().len() > 0 ==> final(self).spec_header().sync_state_hash
                == sha3_256_spec(merkle_top(kernel_messages(old(self).spec_tx().kernel_views()))[0]),
            old(self).spec_tx().kernel_views().len() == 0 ==> final(self).spec_header().sync_state_hash
                == sha3_256_spec(Seq::new(32, |i: int| 0u8)),
            final(self).spec_header().prev_hash == old(self).spec_header().prev_hash,
            final(self).spec_header().nonce == old(self).spec_header().nonce,
            final(self).spec_header().aux_data_hash == old(self).spec_header().aux_data_hash,
    {
        self.header.timestamp = BlockHeader::timestamp_to_bytes_le(now_secs);
        let kmr = self.tx.kernel_merkle_root()?;
        let mut sha3 = Sha3_256::new();
        sha3.update(kmr.as_bytes());
        self.header.sync_state_hash = sha3.finalize();
        Ok(())
    }

    /// The block completed with a coinbase: a transaction holding one output committing to
    /// the fees plus `overage` under `output_blind` (with its range proof), one kernel with
    /// fee 0 and features 0 whose excess commits to 0 under the blinding factor that balances
    /// it (the block offset's negation taken into it, when there is one), signed with a fresh
    /// nonce. The coinbase is validated with the fees plus `overage` as its overage, merged
    /// into a copy of the block's transaction, the offset is removed and the result is
    /// validated with `overage`. The header is copied.
    pub fn with_coinbase(&self, ctx: &mut Ctx, output_blind: &SecretKey, overage: u64) -> (r: Result<Self, Error>)
        requires
            self.wf(),
            fee_sum(self.spec_tx().kernel_views()) % 0x1_0000_0000_0000_0000 + overage <= u64::MAX,
        ensures
            !seckey_valid(output_blind@) ==> r is Err,
            drawn_key(old(ctx).rng()) is None ==> r is Err,
            coinbase_succeeds(self.spec_tx(), output_blind@, overage, old(ctx).rng()) ==> r is Ok,
            r matches Ok(b) ==> {
                &&& b.wf()
                &&& b.spec_header() == self.spec_header()
                &&& b.spec_tx().offset_view() is None
                &&& b.spec_tx().input_views() == self.spec_tx().input_views()
                &&& b.spec_tx().output_commits() == self.spec_tx().output_commits().push(commit_of(
                    (fee_sum(self.spec_tx().kernel_views()) % 0x1_0000_0000_0000_0000 + overage) as u64,
                    output_blind@))
                &&& b.spec_tx().kernel_views().len() == self.spec_tx().kernel_views().len() + 1
                &&& forall|i: int| 0 <= i < b.spec_tx().output_commits().len() ==> range_proof_verifies(
                    #[trigger] b.spec_tx().output_commits()[i], b.spec_tx().output_proofs()[i])
                &&& forall|i: int| 0 <= i < b.spec_tx().kernel_views().len() ==> kernel_valid(
                    #[trigger] b.spec_tx().kernel_views()[i])
                &&& balance_outcome(b.spec_tx().input_views(), validation_outputs(
                    b.spec_tx().output_commits(), None, b.spec_tx().kernel_views()),
                    validation_adjustment((fee_sum(b.spec_tx().kernel_views()) % 0x1_0000_0000_0000_0000) as u64,
                    overage), Ok(()))
            },
    {
        let ghost g0 = ctx.rng();
        let ghost key = g0.spec_key();
        let ghost iv = g0.spec_iv();
        let ghost good = coinbase_succeeds(self.spec_tx(), output_blind@, overage, g0);
        let fees = self.fees();
        let v = fees + overage;
        // stands for the negated offset when the block has none
        let ghost mut nb: Seq<u8> = output_blind@;
        proof { output_blind.lemma_len(); }
        let (mut coinbase, excess_blind) = match self.tx.offset() {
            Some(offset) => {
                let mut noffset = *offset;
                noffset.negate(ctx)?;
                proof {
                    nb = noffset@;
                    noffset.lemma_len();
                }
                let neg = [output_blind, &noffset];
                let pos: [&SecretKey; 0] = [];
                assert(key_views(neg@) =~= seq![output_blind@, noffset@]);
                assert(key_views(pos@) =~= Seq::<Seq<u8>>::empty());
                let excess_blind = ctx.blind_sum(&pos, &neg)?;
                (Transaction::new(noffset), excess_blind)
            },
            None => {
                let neg = [output_blind];
                let pos: [&SecretKey; 0] = [];
                assert(key_views(neg@) =~= seq![output_blind@]);
                assert(key_views(pos@) =~= Seq::<Seq<u8>>::empty());
                let excess_blind = ctx.blind_sum(&pos, &neg)?;
                (Transaction::empty(), excess_blind)
            },
        };
        proof {
            excess_blind.lemma_len();
            assert(negated_offset(self.spec_tx().offset_view(), nb));
            assert(be_value(excess_blind@) == coinbase_excess(output_blind@, self.spec_tx().offset_view(), nb));
            if good {
                assert(coinbase_ok(self.spec_tx(), output_blind@, overage, g0, nb, excess_blind@));
            }
            lemma_drawn_end_found(g0);
        }
        let ghost o1 = drawn_end_at(key, iv, g0.spec_offset())->Some_0;
        let ghost o2 = drawn_end_at(key, iv, o1)->Some_0;
        let output = ctx.commit(v, output_blind)?;
        let range_proof = ctx.range_proof(v, output_blind)?;
        proof {
            assert(ctx.rng().spec_offset() == o1);
            lemma_drawn_end_found(ctx.rng());
        }
        let excess = ctx.commit(0, &excess_blind)?;
        let msg = Kernel::message_for(&excess, 0, 0);
        let nonce = SecretKey::gen(ctx)?;
        proof {
            assert(nonce@ == drawn_key_at(key, iv, o1)->Some_0);
            assert(ctx.rng().spec_offset() == o2);
        }
        let pubnonce = PublicKey::from(ctx, &nonce)?;
        let pubkey = PublicKey::from(ctx, &excess_blind)?;
        let sig = ctx.sign(&msg, &excess_blind, &nonce, &pubnonce, &pubkey)?;
        let kernel = Kernel::new(excess, sig, 0, 0);
        let ghost cb_off = coinbase.offset_view();
        proof {
            assert(coinbase.kernel_views().len() == 0);
            assert(!kernel_keys(coinbase.kernel_views()).contains(kernel_key(kernel@)));
        }
        coinbase.add_kernel(kernel)?;
        assert(coinbase.kernel_views() =~= seq![kernel@]);
        coinbase.add_output(output, range_proof)?;
        proof {
            assert(coinbase.output_commits() =~= seq![output@]);
            assert(coinbase.output_proofs() =~= seq![range_proof.bytes()]);
            assert(coinbase.output_proof_lens() =~= seq![range_proof.plen]);
            assert(coinbase.input_views() =~= Seq::<Seq<u8>>::empty());
            assert(fee_sum(seq![kernel@]) == 0) by {
                assert(seq![kernel@].drop_last() =~= Seq::<KernelView>::empty());
                assert(fee_sum(Seq::<KernelView>::empty()) == 0);
                assert(kernel@.fee == 0);
            }
            lemma_drawn_end_found(ctx.rng());
        }
        let ghost g2 = ctx.rng();
        coinbase.validate(ctx, v)?;
        let ghost o3 = ctx.rng().spec_offset();
        let mut tx = self.tx.try_clone()?;
        let ghost cbl = coinbase.output_proof_lens();
        let ghost cbp = coinbase.output_proofs();
        tx.merge(ctx, coinbase)?;
        tx.set_offset_zero();
        proof {
            self.spec_tx().lemma_outputs_len();
            tx.lemma_outputs_len();
            assert(tx.output_proof_lens() == self.spec_tx().output_proof_lens() + cbl);
            assert(tx.output_proofs() == self.spec_tx().output_proofs() + cbp);
            broadcast use vstd::seq_lib::group_to_multiset_ensures;
            let ks = tx.kernel_views();
            let tks = self.spec_tx().kernel_views();
            assert(seq![kernel@].to_multiset() =~= vstd::multiset::Multiset::<KernelView>::empty().insert(kernel@));
            assert(ks.to_multiset() =~= tks.to_multiset().insert(kernel@));
            assert(tx.input_views() =~= self.spec_tx().input_views());
            assert(tx.output_commits() =~= self.spec_tx().output_commits().push(output@));
            if good {
                assert(coinbase_ok(self.spec_tx(), output_blind@, overage, g0, nb, excess_blind@));
                assert(g2.spec_offset() == o2);
                assert(kernel@ == (KernelView {
                    excess: commit_of(0, excess_blind@),
                    signature: schnorr_sig_of(kernel_message(commit_of(0, excess_blind@), 0, 0), excess_blind@,
                        drawn_key_at(key, iv, o1)->Some_0, pubkey_of(drawn_key_at(key, iv, o1)->Some_0),
                        pubkey_of(excess_blind@), pubkey_of(drawn_key_at(key, iv, o1)->Some_0))->Some_0,
                    fee: 0,
                    features: 0,
                }));
                assert(ks.to_multiset() == self.spec_tx().kernel_views().to_multiset().insert(kernel@));
                assert(ctx.rng().spec_key() == key && ctx.rng().spec_iv() == iv);
                assert(ctx.rng().spec_offset() == (if validation_adjustment(0, v) == 0 { o2 } else {
                    drawn_end_at(key, iv, o2)->Some_0 }));
                let o3 = if validation_adjustment(0, v) == 0 { o2 } else { drawn_end_at(key, iv, o2)->Some_0 };
                assert(drawn_key(ctx.rng()) == drawn_key_at(key, iv, o3));
                assert(merged_balances(self.spec_tx(), output@, kernel@, overage, drawn_key(ctx.rng())));
                assert(balance_ok(self.spec_tx().input_views(), validation_outputs(
                    self.spec_tx().output_commits().push(output@), None, ks), validation_adjustment(
                    (fee_sum(ks) % 0x1_0000_0000_0000_0000) as u64, overage), drawn_key(ctx.rng())));

                assert forall|i: int| 0 <= i < ks.len() implies kernel_valid(#[trigger] ks[i]) by {
                    assert(ks.to_multiset().count(ks[i]) > 0);
                    if ks[i] != kernel@ {
                        assert(tks.to_multiset().count(ks[i]) > 0);
                        assert(tks.contains(ks[i]));
                        let j = choose|j: int| 0 <= j < tks.len() && tks[j] == ks[i];
                        assert(kernel_valid(tks[j]));
                    }
                }
                assert forall|i: int| 0 <= i < tx.output_commits().len() implies #[trigger] tx.output_proof_lens()[i]
                    <= MAX_PROOF_SIZE && range_proof_verifies(tx.output_commits()[i], tx.output_proofs()[i]) by {
                    if i < self.spec_tx().output_commits().len() {
                        assert(tx.output_proof_lens()[i] == self.spec_tx().output_proof_lens()[i]);
                        assert(tx.output_proofs()[i] == self.spec_tx().output_proofs()[i]);
                    } else {
                        assert(tx.output_proof_lens()[i] == range_proof.plen);
                        assert(tx.output_proofs()[i] == range_proof.bytes());
                    }
                }
            }
        }
        tx.validate(ctx, overage)?;
        Ok(Block { header: self.header, tx })
    }
}

} // verus!
