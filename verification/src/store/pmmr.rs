use vstd::prelude::*;
use vstd::arithmetic::power2::pow2;
use vstd::string::StringSliceAdditionalSpecFns;
use crate::base::error::Error;
use crate::base::misc::{
    from_le_bytes_u64, le_value, lemma_le_bytes_u64_roundtrip, slice_copy, subslice,
    to_le_bytes_u64, u64_le_bytes,
};
use crate::crypto::sha3::{sha3_256_spec, Sha3_256};
use crate::lmdb::db::Lmdb;
use crate::lmdb::txn::{copy_bytes, LmdbTxn};
use crate::store::keys::{
    lemma_suffixes_differ, lemma_be8_injective, BITMAP_SIZE, pmmr_key, leaf_tag, data_tag, node_tag, meta_tag, bitmap_tag, size_suffix, peaks_suffix, be8, leaf_key, node_key, data_key, size_key, peaks_key, bitmap_key, lemma_tags_differ, make_key, be8_bytes, be16_bytes, read_u64, read_chunk, bit_chunk, bit_byte, bit_offset, chunk_bit, chunk_with_bit,
};

verus! {

// ---------------------------------------------------------------------------
// Positions in a Merkle Mountain Range (post-order numbering from 0)
// ---------------------------------------------------------------------------

/// Peels mountains of sizes `ps`, `ps / 2`, ... (each of the form 2^k - 1) off `size`,
/// largest first, recording in `map` (most significant first) which ones were taken; what is
/// left at the end is the height of the next node.
pub open spec fn peak_map_rec(size: nat, ps: nat, map: nat) -> (nat, nat)
    decreases ps,
{
    if ps == 0 {
        (map, size)
    } else if size >= ps {
        peak_map_rec((size - ps) as nat, ps / 2, 2 * map + 1)
    } else {
        peak_map_rec(size, ps / 2, 2 * map)
    }
}

/// The number of bits needed to write `n`.
pub open spec fn bit_len(n: nat) -> nat
    decreases n,
{
    if n == 0 {
        0
    } else {
        1 + bit_len(n / 2)
    }
}

/// The peak bitmap and the height of the next node of an MMR with `size` nodes: bit `h` of
/// the map is set when a mountain of height `h` is present.
pub open spec fn peak_map_height_spec(size: u64) -> (nat, nat) {
    if size == 0 {
        (0, 0)
    } else {
        peak_map_rec(size as nat, (pow2(bit_len(size as nat)) - 1) as nat, 0)
    }
}

pub proof fn lemma_bit_len(n: nat)
    ensures
        n < pow2(bit_len(n)),
        n > 0 ==> pow2((bit_len(n) - 1) as nat) <= n,
    decreases n,
{
    if n > 0 {
        vstd::arithmetic::power2::lemma_pow2_unfold(bit_len(n));
        lemma_bit_len(n / 2);
        vstd::arithmetic::power2::lemma_pow2_unfold(bit_len(n / 2) + 1);
        if n / 2 > 0 {
            vstd::arithmetic::power2::lemma_pow2_unfold(bit_len(n / 2));
        } else {
            vstd::arithmetic::power2::lemma2_to64();
        }
    } else {
        vstd::arithmetic::power2::lemma2_to64();
    }
}

proof fn lemma_bit_len_leading_zeros(i: u64)
    ensures
        bit_len(i as nat) + vstd::std_specs::bits::u64_leading_zeros(i) == 64,
    decreases i,
{
    reveal(vstd::std_specs::bits::u64_leading_zeros);
    if i > 0 {
        lemma_bit_len_leading_zeros(i / 2);
    }
}

/// `pow2(k) - 1` shifted right once is `pow2(k - 1) - 1`.
proof fn lemma_ones_half(k: nat)
    requires
        k >= 1,
    ensures
        ((pow2(k) - 1) as nat) / 2 == (pow2((k - 1) as nat) - 1) as nat,
        pow2(k) == 2 * pow2((k - 1) as nat),
{
    vstd::arithmetic::power2::lemma_pow2_unfold(k);
    vstd::arithmetic::power2::lemma_pow2_pos((k - 1) as nat);
    let q = pow2((k - 1) as nat);
    assert((2 * q - 1) / 2 == q - 1) by {
        vstd::arithmetic::div_mod::lemma_fundamental_div_mod_converse(2 * q - 1, 2, q - 1, 1);
    }
}

/// The peak bitmap and height of the next node in an MMR of the given size.
/// Example: on size 4 it gives (0b11, 0): mountains of heights 1 and 0, and a leaf next.
fn peak_map_height(size0: u64) -> (r: (u64, u64))
    ensures
        r.0 as nat == peak_map_height_spec(size0).0,
        r.1 as nat == peak_map_height_spec(size0).1,
        r.1 < 64,
        size0 < 0x4000_0000_0000_0000 ==> r.1 < 62,
{
    if size0 == 0 {
        return (0, 0);
    }
    let mut size = size0;
    let lz = size.leading_zeros();
    let ghost big_k = bit_len(size0 as nat);
    proof {
        lemma_bit_len_leading_zeros(size0);
        lemma_bit_len(size0 as nat);
        vstd::bits::lemma_u64_shr_is_div(0xFFFF_FFFF_FFFF_FFFFu64, lz as u64);
        vstd::arithmetic::power2::lemma_pow2_adds(big_k, lz as nat);
        vstd::arithmetic::power2::lemma2_to64();
        vstd::arithmetic::power2::lemma2_to64_rest();
        vstd::arithmetic::power2::lemma_pow2_pos(lz as nat);
        vstd::arithmetic::power2::lemma_pow2_pos(big_k);
        let p = pow2(big_k);
        let d = pow2(lz as nat);
        assert(p * d == 0x1_0000_0000_0000_0000);
        assert((0xFFFF_FFFF_FFFF_FFFFnat) / d == p - 1) by {
            assert((p - 1) * d + (d - 1) == 0xFFFF_FFFF_FFFF_FFFF) by (nonlinear_arith)
                requires p * d == 0x1_0000_0000_0000_0000;
            vstd::arithmetic::div_mod::lemma_fundamental_div_mod_converse(
                0xFFFF_FFFF_FFFF_FFFF, d as int, (p - 1) as int, (d - 1) as int);
        }
        if size0 < 0x4000_0000_0000_0000 {
            if big_k > 62 {
                vstd::arithmetic::power2::lemma_pow2_strictly_increases(62, (big_k - 1) as nat);
                if big_k - 1 > 62 {
                } else {
                    assert(big_k - 1 == 62);
                }
            }
        }
    }
    let mut peak_size: u64 = 0xFFFF_FFFF_FFFF_FFFF >> lz;
    let mut peak_map: u64 = 0;
    let ghost mut k: nat = big_k;
    while peak_size != 0
        invariant
            1 <= big_k <= 64,
            k <= big_k,
            peak_size == pow2(k) - 1,
            peak_map < pow2((big_k - k) as nat),
            k == big_k ==> size <= peak_size && peak_map == 0,
            k < big_k ==> size <= 2 * peak_size + (big_k - k) - 1,
            size0 < 0x4000_0000_0000_0000 ==> big_k <= 62,
            peak_map_rec(size as nat, peak_size as nat, peak_map as nat)
                == peak_map_height_spec(size0),
        decreases k,
    {
        proof {
            vstd::arithmetic::power2::lemma_pow2_pos(k);
            vstd::arithmetic::power2::lemma2_to64();
            assert(k >= 1);
            lemma_ones_half(k);
            vstd::arithmetic::power2::lemma_pow2_unfold((big_k - k + 1) as nat);
            vstd::arithmetic::power2::lemma2_to64_rest();
            if big_k - k + 1 < 64 {
                vstd::arithmetic::power2::lemma_pow2_strictly_increases(
                    (big_k - k + 1) as nat, 64);
            }
            vstd::bits::lemma_u64_shl_is_mul(peak_map, 1);
            vstd::bits::lemma_u64_shr_is_div(peak_size, 1);
        }
        peak_map = peak_map << 1;
        if size >= peak_size {
            size = size - peak_size;
            assert(peak_map | 1 == peak_map + 1) by (bit_vector)
                requires peak_map % 2 == 0;
            peak_map = peak_map | 1;
        }
        peak_size = peak_size >> 1;
        proof { k = (k - 1) as nat; }
    }
    proof {
        vstd::arithmetic::power2::lemma2_to64();
    }
    (peak_map, size)
}


// ---------------------------------------------------------------------------
// Peaks and their byte encoding
// ---------------------------------------------------------------------------

/// A peak of the PMMR: its hash, its height and its position.
pub struct PeakInfo {
    hash: [u8; 32],
    height: u8,
    pos: u64,
}

/// The plain values of a peak.
pub struct PeakView {
    pub hash: Seq<u8>,
    pub height: u8,
    pub pos: u64,
}

impl PeakInfo {
    /// The peak as plain values.
    pub closed spec fn view(&self) -> PeakView {
        PeakView { hash: self.hash@, height: self.height, pos: self.pos }
    }

    fn new(hash: [u8; 32], pos: u64, height: u8) -> (r: Self)
        ensures
            r@ == (PeakView { hash: hash@, height, pos }),
    {
        Self { hash, pos, height }
    }

    /// The peak's hash.
    pub fn hash(&self) -> (r: [u8; 32])
        ensures
            r@ == self@.hash,
    {
        self.hash
    }

    /// The peak's height.
    pub fn height(&self) -> (r: u8)
        ensures
            r == self@.height,
    {
        self.height
    }

    /// The peak's position.
    pub fn pos(&self) -> (r: u64)
        ensures
            r == self@.pos,
    {
        self.pos
    }

    /// The 41-byte encoding: hash, position (8 bytes, little-endian), height.
    fn serialize(&self) -> (r: Result<Vec<u8>, Error>)
        ensures
            r matches Ok(v) && v@ == peak_bytes(self@),
            r is Ok,
    {
        let mut ret: Vec<u8> = copy_bytes(&self.hash);
        let mut pos_bytes = [0u8; 8];
        let _ = to_le_bytes_u64(self.pos, &mut pos_bytes);
        let mut i: usize = 0;
        while i < 8
            invariant
                0 <= i <= 8,
                pos_bytes@ == u64_le_bytes(self.pos),
                ret@ == self.hash@ + pos_bytes@.take(i as int),
            decreases 8 - i,
        {
            ret.push(pos_bytes[i]);
            i += 1;
            assert(ret@ =~= self.hash@ + pos_bytes@.take(i as int));
        }
        ret.push(self.height);
        assert(ret@ =~= peak_bytes(self@));
        Ok(ret)
    }

    /// Reads a peak back from its 41-byte encoding; fails with `IllegalArgument` for any other
    /// length.
    fn deserialize(bytes: &[u8]) -> (r: Result<Self, Error>)
        ensures
            bytes@.len() != 41 ==> r == Err::<Self, Error>(Error::IllegalArgument),
            bytes@.len() == 41 ==> (r matches Ok(p) && p@ == peak_from_bytes(bytes@)),
    {
        if bytes.len() != 41 {
            return Err(Error::IllegalArgument);
        }
        let mut hash = [0u8; 32];
        let _ = slice_copy(bytes, &mut hash, 32);
        let pos_slice = subslice(bytes, 32, 8)?;
        let pos = from_le_bytes_u64(pos_slice)?;
        let height = bytes[40];
        proof {
            assert(hash@ =~= bytes@.take(32));
            assert(pos_slice@.take(8) =~= bytes@.subrange(32, 40));
        }
        Ok(Self { pos, hash, height })
    }
}

/// The 41-byte encoding of a peak.
pub open spec fn peak_bytes(p: PeakView) -> Seq<u8> {
    p.hash + u64_le_bytes(p.pos) + seq![p.height]
}

/// The peak that 41 bytes encode.
pub open spec fn peak_from_bytes(b: Seq<u8>) -> PeakView {
    PeakView { hash: b.take(32), pos: le_value(b.subrange(32, 40)) as u64, height: b[40] }
}

/// The encoding of a list of peaks: their encodings one after the other.
pub open spec fn peaks_bytes(ps: Seq<PeakView>) -> Seq<u8>
    decreases ps.len(),
{
    if ps.len() == 0 {
        Seq::empty()
    } else {
        peaks_bytes(ps.drop_last()) + peak_bytes(ps.last())
    }
}

/// The peaks that a byte string encodes, 41 bytes each.
pub open spec fn peaks_from_bytes(b: Seq<u8>) -> Seq<PeakView> {
    Seq::new(b.len() / 41, |i: int| peak_from_bytes(b.subrange(41 * i, 41 * i + 41)))
}

/// Reading a peak back from its encoding gives the peak (for a 32-byte hash).
pub proof fn lemma_peak_roundtrip(p: PeakView)
    requires
        p.hash.len() == 32,
    ensures
        peak_bytes(p).len() == 41,
        peak_from_bytes(peak_bytes(p)) == p,
{
    let b = peak_bytes(p);
    assert(b.take(32) =~= p.hash);
    assert(b.subrange(32, 40) =~= u64_le_bytes(p.pos));
    lemma_le_bytes_u64_roundtrip(p.pos);
}

/// Reading a list of peaks back from its encoding gives the list (for 32-byte hashes).
pub proof fn lemma_peaks_roundtrip(ps: Seq<PeakView>)
    requires
        forall|i: int| 0 <= i < ps.len() ==> (#[trigger] ps[i]).hash.len() == 32,
    ensures
        peaks_bytes(ps).len() == 41 * ps.len(),
        peaks_from_bytes(peaks_bytes(ps)) == ps,
    decreases ps.len(),
{
    if ps.len() > 0 {
        let init = ps.drop_last();
        lemma_peaks_roundtrip(init);
        lemma_peak_roundtrip(ps.last());
        let b = peaks_bytes(ps);
        let bi = peaks_bytes(init);
        assert(b == bi + peak_bytes(ps.last()));
        assert forall|i: int| 0 <= i < ps.len() implies #[trigger] peaks_from_bytes(b)[i] == ps[i]
            by {
            if i < ps.len() - 1 {
                assert(b.subrange(41 * i, 41 * i + 41) =~= bi.subrange(41 * i, 41 * i + 41));
                assert(peaks_from_bytes(bi)[i] == init[i]);
            } else {
                assert(b.subrange(41 * i, 41 * i + 41) =~= peak_bytes(ps.last()));
            }
        }
        assert(peaks_from_bytes(b) =~= ps);
    } else {
        assert(peaks_from_bytes(Seq::<u8>::empty()) =~= Seq::<PeakView>::empty());
    }
}

/// The plain values of a list of peaks.
pub open spec fn peak_views(v: Seq<PeakInfo>) -> Seq<PeakView> {
    Seq::new(v.len(), |i: int| v[i]@)
}


impl PeakInfo {
    /// The stored hash is 32 bytes long.
    pub proof fn lemma_hash_len(&self)
        ensures
            self@.hash.len() == 32,
    {
    }
}

/// The stored peaks, none when absent; an encoding whose length is not a multiple of 41 is
/// refused.
pub open spec fn read_peaks(m: Map<Seq<u8>, Seq<u8>>, k: Seq<u8>) -> Result<Seq<PeakView>, Error> {
    if !m.contains_key(k) {
        Ok(Seq::empty())
    } else if m[k].len() % 41 == 0 {
        Ok(peaks_from_bytes(m[k]))
    } else {
        Err(Error::IllegalArgument)
    }
}

/// The number of nodes of a perfect tree of height `h` (at most 63): `2^(h+1) - 1`, the
/// `h + 1` low bits set.
pub open spec fn tree_size(h: int) -> u64 {
    0xFFFF_FFFF_FFFF_FFFFu64 >> ((63 - h) as u64)
}

/// The peaks (position, height), left to right, of an MMR of `size` nodes whose first node
/// is at `offset`, taking trees of height `h` and below, largest first; `None` when `size`
/// is not a sum of such trees.
pub open spec fn peak_shape(size: u64, offset: u64, h: int) -> Option<Seq<(u64, u8)>>
    decreases h + 1,
{
    if h < 0 {
        if size == 0 { Some(Seq::empty()) } else { None }
    } else {
        let t = tree_size(h);
        if size >= t {
            match peak_shape((size - t) as u64, (offset + t) as u64, h - 1) {
                Some(rest) => Some(seq![(((offset + t) - 1) as u64, h as u8)] + rest),
                None => None,
            }
        } else {
            peak_shape(size, offset, h - 1)
        }
    }
}

/// The stored hash of the node at `pos` of height `h`: a leaf's under its leaf key, an inner
/// node's under its node key, when it is there and 32 bytes long.
pub open spec fn stored_node(m: Map<Seq<u8>, Seq<u8>>, prefix: Seq<u8>, pos: u64, h: u8) -> Option<Seq<u8>> {
    let k = if h == 0 { leaf_key(prefix, pos) } else { node_key(prefix, h as u64, pos) };
    if m.contains_key(k) && m[k].len() == 32 { Some(m[k]) } else { None }
}

/// The peaks of the given shape with their stored hashes; `None` when one is missing.
pub open spec fn shape_peaks(m: Map<Seq<u8>, Seq<u8>>, prefix: Seq<u8>, shape: Seq<(u64, u8)>) -> Option<Seq<PeakView>>
    decreases shape.len(),
{
    if shape.len() == 0 {
        Some(Seq::empty())
    } else {
        match (stored_node(m, prefix, shape[0].0, shape[0].1), shape_peaks(m, prefix, shape.drop_first())) {
            (Some(hash), Some(rest)) => Some(seq![PeakView { hash, height: shape[0].1, pos: shape[0].0 }] + rest),
            _ => None,
        }
    }
}

/// The position `q` holds a leaf (the next node of an MMR of `q` nodes has height zero).
pub open spec fn is_leaf_pos(q: u64) -> bool {
    peak_map_height_spec(q).1 == 0
}

/// The outcome of rewinding to `p` the store `m` (a write transaction's contents) into `m2`:
/// the size reads `p`, the peaks are those of an MMR of `p` nodes with their stored hashes,
/// every leaf from `p` up to the old size is gone together with its position record, the
/// leaves before `p` stay, and no other key is added or changed.
pub open spec fn rewound(m: Map<Seq<u8>, Seq<u8>>, m2: Map<Seq<u8>, Seq<u8>>, prefix: Seq<u8>, p: u64, n: u64,
    ps: Seq<PeakView>) -> bool {
    &&& read_u64(m2, size_key(prefix)) == Ok::<u64, Error>(p)
    &&& read_peaks(m2, peaks_key(prefix)) == Ok::<Seq<PeakView>, Error>(ps)
    &&& forall|q: u64| p <= q < n && #[trigger] is_leaf_pos(q) ==> !m2.contains_key(leaf_key(prefix, q))
    &&& forall|q: u64| p <= q < n && #[trigger] is_leaf_pos(q) && m.contains_key(leaf_key(prefix, q))
        && m[leaf_key(prefix, q)].len() == 32 ==> !m2.contains_key(data_key(prefix, m[leaf_key(prefix, q)]))
    &&& forall|q: u64| q < p && #[trigger] m.contains_key(leaf_key(prefix, q)) ==> m2.contains_key(
        leaf_key(prefix, q))
    &&& forall|k: Seq<u8>| #[trigger] m2.contains_key(k) && k != size_key(prefix) && k != peaks_key(
        prefix) ==> m.contains_key(k) && m2[k] == m[k]
}

/// What rewinding the store `m` to `p` gives (`write`: whether the transaction may write):
/// an unreadable size is passed on; `IllegalArgument` when `p` is beyond the size or is no
/// MMR size; `IllegalState` when a peak's node is missing or the transaction is read-only;
/// nothing changes on an error. Otherwise it succeeds with `rewound`.
pub open spec fn rewind_outcome(m: Map<Seq<u8>, Seq<u8>>, m2: Map<Seq<u8>, Seq<u8>>, prefix: Seq<u8>,
    p: u64, write: bool, r: Result<(), Error>) -> bool {
    match read_u64(m, size_key(prefix)) {
        Err(e) => r == Err::<(), Error>(e) && m2 == m,
        Ok(n) => if p > n {
            r == Err::<(), Error>(Error::IllegalArgument) && m2 == m
        } else {
            match peak_shape(p, 0, 63) {
                None => r == Err::<(), Error>(Error::IllegalArgument) && m2 == m,
                Some(sh) => match shape_peaks(m, prefix, sh) {
                    None => r == Err::<(), Error>(Error::IllegalState) && m2 == m,
                    Some(ps) => if !write {
                        r == Err::<(), Error>(Error::IllegalState) && m2 == m
                    } else {
                        r is Ok && rewound(m, m2, prefix, p, n, ps)
                    },
                },
            }
        },
    }
}

/// Peaks read from the store carry 32-byte hashes.
proof fn lemma_shape_peaks_hashes(m: Map<Seq<u8>, Seq<u8>>, prefix: Seq<u8>, shape: Seq<(u64, u8)>)
    requires
        shape_peaks(m, prefix, shape) is Some,
    ensures
        forall|i: int| 0 <= i < shape_peaks(m, prefix, shape)->Some_0.len() ==> (#[trigger]
            shape_peaks(m, prefix, shape)->Some_0[i]).hash.len() == 32,
    decreases shape.len(),
{
    if shape.len() > 0 {
        lemma_shape_peaks_hashes(m, prefix, shape.drop_first());
        let ps = shape_peaks(m, prefix, shape)->Some_0;
        let rest = shape_peaks(m, prefix, shape.drop_first())->Some_0;
        assert forall|i: int| 0 <= i < ps.len() implies (#[trigger] ps[i]).hash.len() == 32 by {
            if i > 0 {
                assert(ps[i] == rest[i - 1]);
            }
        }
    }
}

/// A Merkle Mountain Range whose nodes, leaf index, bitmap of live leaves and peaks are kept
/// in a database under a prefix.
pub struct Pmmr {
    db: Lmdb,
    prefix: Vec<u8>,
}

impl Pmmr {
    /// The key prefix.
    pub closed spec fn prefix(&self) -> Seq<u8> {
        self.prefix@
    }

    /// The committed database contents.
    pub closed spec fn view(&self) -> Map<Seq<u8>, Seq<u8>> {
        self.db@
    }

    /// The database is well formed.
    pub closed spec fn wf(&self) -> bool {
        self.db.wf()
    }

    /// What a read sees: the given transaction, or else the committed contents.
    pub open spec fn visible(&self, txn: Option<&LmdbTxn>) -> Map<Seq<u8>, Seq<u8>> {
        match txn {
            Some(t) => t@,
            None => self@,
        }
    }

    /// A PMMR over `db` whose keys start with `prefix_str`; fails with `IllegalArgument` when
    /// the prefix is empty or holds a ':'.
    pub fn new(db: Lmdb, prefix_str: &str) -> (r: Result<Self, Error>)
        requires
            db.wf(),
        ensures
            (prefix_str.spec_bytes().len() == 0 || prefix_str.spec_bytes().contains(58u8))
                ==> r == Err::<Self, Error>(Error::IllegalArgument),
            !(prefix_str.spec_bytes().len() == 0 || prefix_str.spec_bytes().contains(58u8))
                ==> (r matches Ok(p) && p.wf() && p@ == db@ && p.prefix()
                == prefix_str.spec_bytes()),
    {
        let bytes = prefix_str.as_bytes();
        if bytes.len() == 0 {
            return Err(Error::IllegalArgument);
        }
        let mut i: usize = 0;
        while i < bytes.len()
            invariant
                0 <= i <= bytes@.len(),
                bytes@ == prefix_str.spec_bytes(),
                forall|j: int| 0 <= j < i ==> bytes@[j] != 58u8,
            decreases bytes@.len() - i,
        {
            if bytes[i] == 58u8 {
                assert(bytes@[i as int] == 58u8);
                assert(prefix_str.spec_bytes().contains(58u8));
                return Err(Error::IllegalArgument);
            }
            i += 1;
        }
        let prefix = copy_bytes(bytes);
        Ok(Self { prefix, db })
    }

    fn lookup<'a>(&'a self, txn: Option<&'a LmdbTxn>, key: &[u8]) -> (r: Option<&'a [u8]>)
        requires
            self.wf(),
            txn matches Some(t) ==> t.wf(),
        ensures
            r matches Some(v) ==> self.visible(txn).contains_key(key@) && v@ == self.visible(
                txn)[key@],
            r is None ==> !self.visible(txn).contains_key(key@),
    {
        match txn {
            Some(t) => match t.get(key) {
                Ok(v) => v,
                Err(_) => None,
            },
            None => self.db.get(key),
        }
    }

    fn size_key(&self) -> (r: Vec<u8>)
        ensures
            r@ == size_key(self.prefix()),
    {
        let tag = [109u8, 101, 116, 97];
        let suffix = [115u8, 105, 122, 101];
        assert(tag@ =~= meta_tag());
        assert(suffix@ =~= size_suffix());
        make_key(self.prefix.as_slice(), &tag, &suffix)
    }

    fn peaks_key(&self) -> (r: Vec<u8>)
        ensures
            r@ == peaks_key(self.prefix()),
    {
        let tag = [109u8, 101, 116, 97];
        let suffix = [112u8, 101, 97, 107, 115];
        assert(tag@ =~= meta_tag());
        assert(suffix@ =~= peaks_suffix());
        make_key(self.prefix.as_slice(), &tag, &suffix)
    }

    fn leaf_key(&self, pos: u64) -> (r: Vec<u8>)
        ensures
            r@ == leaf_key(self.prefix(), pos),
    {
        let tag = [108u8, 101, 97, 102];
        assert(tag@ =~= leaf_tag());
        let suffix = be8_bytes(pos);
        make_key(self.prefix.as_slice(), &tag, &suffix)
    }

    fn node_key(&self, height: u64, pos: u64) -> (r: Vec<u8>)
        ensures
            r@ == node_key(self.prefix(), height, pos),
    {
        let tag = [110u8, 111, 100, 101];
        assert(tag@ =~= node_tag());
        let suffix = be16_bytes(height, pos);
        make_key(self.prefix.as_slice(), &tag, &suffix)
    }

    fn data_key(&self, hash: &[u8; 32]) -> (r: Vec<u8>)
        ensures
            r@ == data_key(self.prefix(), hash@),
    {
        let tag = [100u8, 97, 116, 97];
        assert(tag@ =~= data_tag());
        make_key(self.prefix.as_slice(), &tag, hash)
    }

    fn bitmap_key(&self, index: u64) -> (r: Vec<u8>)
        ensures
            r@ == bitmap_key(self.prefix(), index),
    {
        let tag = [98u8, 105, 116, 109, 97, 112];
        assert(tag@ =~= bitmap_tag());
        let suffix = be8_bytes(index);
        make_key(self.prefix.as_slice(), &tag, &suffix)
    }

    /// The SHA3-256 hash of `data`.
    pub fn hash_data(&self, data: &[u8]) -> (r: [u8; 32])
        ensures
            r@ == sha3_256_spec(data@),
    {
        let mut sha3 = Sha3_256::new();
        sha3.update(data);
        sha3.finalize()
    }

    /// The hash of two children: SHA3-256 of the left hash followed by the right hash.
    pub fn hash_children(&self, left: &[u8], right: &[u8]) -> (r: [u8; 32])
        requires
            left@.len() == 32,
            right@.len() == 32,
        ensures
            r@ == sha3_256_spec(left@ + right@),
    {
        let mut sha3 = Sha3_256::new();
        sha3.update(left);
        sha3.update(right);
        sha3.finalize()
    }

    /// The last position (the number of nodes) of the PMMR.
    pub fn last_pos(&self, txn: Option<&LmdbTxn>) -> (r: Result<u64, Error>)
        requires
            self.wf(),
            txn matches Some(t) ==> t.wf(),
        ensures
            r == read_u64(self.visible(txn), size_key(self.prefix())),
    {
        let key = self.size_key();
        match self.lookup(txn, key.as_slice()) {
            Some(bytes) => from_le_bytes_u64(bytes),
            None => Ok(0),
        }
    }

    /// The position of the leaf holding `data`, or `None` when it is not in the PMMR.
    pub fn pos(&self, data: &[u8], txn: Option<&LmdbTxn>) -> (r: Result<Option<u64>, Error>)
        requires
            self.wf(),
            txn matches Some(t) ==> t.wf(),
        ensures
            ({
                let k = data_key(self.prefix(), sha3_256_spec(data@));
                let m = self.visible(txn);
                &&& !m.contains_key(k) ==> r == Ok::<Option<u64>, Error>(None)
                &&& m.contains_key(k) ==> match read_u64(m, k) {
                    Ok(v) => r == Ok::<Option<u64>, Error>(Some(v)),
                    Err(e) => r == Err::<Option<u64>, Error>(e),
                }
            }),
    {
        let hash = self.hash_data(data);
        let key = self.data_key(&hash);
        match self.lookup(txn, key.as_slice()) {
            Some(bytes) => match from_le_bytes_u64(bytes) {
                Ok(v) => Ok(Some(v)),
                Err(e) => Err(e),
            },
            None => Ok(None),
        }
    }

    /// The bitmap position of the leaf holding `data`, or `None` when it is not in the PMMR.
    pub fn bit_pos(&self, data: &[u8], txn: Option<&LmdbTxn>) -> (r: Result<Option<u64>, Error>)
        requires
            self.wf(),
            txn matches Some(t) ==> t.wf(),
        ensures
            ({
                let k = data_key(self.prefix(), sha3_256_spec(data@));
                let m = self.visible(txn);
                &&& !m.contains_key(k) ==> r == Ok::<Option<u64>, Error>(None)
                &&& m.contains_key(k) ==> match read_u64(m, k) {
                    Ok(v) => r == Ok::<Option<u64>, Error>(Some(
                        peak_map_height_spec(v).0 as u64)),
                    Err(e) => r == Err::<Option<u64>, Error>(e),
                }
            }),
    {
        let hash = self.hash_data(data);
        let key = self.data_key(&hash);
        match self.lookup(txn, key.as_slice()) {
            Some(bytes) => {
                let leaf_pos = from_le_bytes_u64(bytes)?;
                Ok(Some(peak_map_height(leaf_pos).0))
            },
            None => Ok(None),
        }
    }

    /// The SHA3-256 hash of the encoded peaks; fails with `IllegalState` when there are none.
    pub fn peak_data_hash(&self, txn: Option<&LmdbTxn>) -> (r: Result<[u8; 32], Error>)
        requires
            self.wf(),
            txn matches Some(t) ==> t.wf(),
        ensures
            ({
                let k = peaks_key(self.prefix());
                let m = self.visible(txn);
                &&& m.contains_key(k) ==> (r matches Ok(h) && h@ == sha3_256_spec(m[k]))
                &&& !m.contains_key(k) ==> r == Err::<[u8; 32], Error>(Error::IllegalState)
            }),
    {
        let key = self.peaks_key();
        match self.lookup(txn, key.as_slice()) {
            Some(peaks_bytes) => {
                let mut sha3 = Sha3_256::new();
                sha3.update(peaks_bytes);
                Ok(sha3.finalize())
            },
            None => Err(Error::IllegalState),
        }
    }

    /// Takes the PMMR back to `last_pos` nodes (for reorganisations): the size becomes
    /// `last_pos`, the peaks become those of an MMR of that size (read from the stored nodes),
    /// and the leaves from there to the old size are removed with their position records.
    /// `IllegalArgument` when `last_pos` is beyond the size or is no MMR size, `IllegalState`
    /// when a peak's node is missing or the transaction is read-only; nothing changes then.
    /// Works in the given transaction, or else in a transaction of its own that it commits.
    pub fn rewind(&mut self, last_pos: u64, txn: Option<&mut LmdbTxn>) -> (r: Result<(), Error>)
        requires
            old(self).wf(),
            txn matches Some(t) ==> t.wf(),
        ensures
            final(self).wf(),
            final(self).prefix() == old(self).prefix(),
            match txn {
                Some(t) => *final(self) == *old(self) && final(t).wf() && rewind_outcome(t@, final(t)@,
                    old(self).prefix(), last_pos, t.is_write(), r),
                None => rewind_outcome(old(self)@, final(self)@, old(self).prefix(), last_pos, true, r),
            },
    {
        match txn {
            Some(t) => self.rewind_in(last_pos, t),
            None => {
                let mut t = self.db.write()?;
                let r = self.rewind_in(last_pos, &mut t);
                match r {
                    Ok(()) => self.db.commit(t),
                    Err(e) => Err(e),
                }
            },
        }
    }

    /// Rewinds to `p` in the given transaction (see `rewind`).
    fn rewind_in(&mut self, p: u64, txn: &mut LmdbTxn) -> (r: Result<(), Error>)
        requires
            old(self).wf(),
            old(txn).wf(),
        ensures
            *final(self) == *old(self),
            final(txn).wf(),
            final(txn).is_write() == old(txn).is_write(),
            rewind_outcome(old(txn)@, final(txn)@, old(self).prefix(), p, old(txn).is_write(), r),
    {
        let ghost prefix = self.prefix();
        let ghost m = txn@;
        let n = self.last_pos(Some(&*txn))?;
        if p > n {
            return Err(Error::IllegalArgument);
        }
        let shape = match Self::shape_of(p) {
            Some(sh) => sh,
            None => {
                return Err(Error::IllegalArgument);
            },
        };
        let peaks = match self.read_shape(&shape, &*txn) {
            Some(ps) => ps,
            None => {
                return Err(Error::IllegalState);
            },
        };
        if !txn.is_write_flag() {
            return Err(Error::IllegalState);
        }
        let mut q: u64 = p;
        while q < n
            invariant
                p <= q <= n,
                txn.wf(),
                txn.is_write(),
                prefix == self.prefix(),
                forall|k: Seq<u8>| #[trigger] txn@.contains_key(k) ==> m.contains_key(k) && txn@[k]
                    == m[k],
                forall|q2: u64| !(p <= q2 < q) && #[trigger] m.contains_key(leaf_key(prefix, q2))
                    ==> txn@.contains_key(leaf_key(prefix, q2)),
                forall|q2: u64| p <= q2 < q && #[trigger] is_leaf_pos(q2) ==> !txn@.contains_key(
                    leaf_key(prefix, q2)),
                forall|q2: u64| p <= q2 < q && #[trigger] is_leaf_pos(q2) && m.contains_key(
                    leaf_key(prefix, q2)) && m[leaf_key(prefix, q2)].len() == 32
                    ==> !txn@.contains_key(data_key(prefix, m[leaf_key(prefix, q2)])),
            decreases n - q,
        {
            if peak_map_height(q).1 == 0 {
                let lk = self.leaf_key(q);
                let mut hash = [0u8; 32];
                let mut found = false;
                match txn.get(lk.as_slice()) {
                    Ok(Some(v)) => {
                        if v.len() == 32 {
                            let _ = slice_copy(v, &mut hash, 32);
                            assert(hash@ =~= v@);
                            found = true;
                        }
                    },
                    _ => {},
                }
                let ghost t0 = txn@;
                if found {
                    let dk = self.data_key(&hash);
                    let _ = txn.del(dk.as_slice());
                    proof {
                        assert forall|q2: u64| #[trigger] t0.contains_key(leaf_key(prefix, q2))
                            implies txn@.contains_key(leaf_key(prefix, q2)) by {
                            lemma_tags_differ(prefix, data_tag(), hash@, leaf_tag(), be8(q2));
                        }
                    }
                }
                let ghost t1 = txn@;
                let _ = txn.del(lk.as_slice());
                proof {
                    assert forall|q2: u64| q2 != q && #[trigger] t1.contains_key(leaf_key(prefix, q2))
                        implies txn@.contains_key(leaf_key(prefix, q2)) by {
                        lemma_be8_injective(q2, q);
                        lemma_suffixes_differ(prefix, leaf_tag(), be8(q2), be8(q));
                    }
                    if m.contains_key(leaf_key(prefix, q)) && m[leaf_key(prefix, q)].len() == 32 {
                        assert(t0.contains_key(leaf_key(prefix, q)));
                        assert(found && hash@ == m[leaf_key(prefix, q)]);
                    }
                }
            }
            q += 1;
        }
        let mut size_bytes = [0u8; 8];
        let _ = to_le_bytes_u64(p, &mut size_bytes);
        let sk = self.size_key();
        let ghost t2 = txn@;
        txn.put(sk.as_slice(), &size_bytes)?;
        let ghost ps = peak_views(peaks@);
        self.set_peaks(peaks, txn)?;
        proof {
            let m2 = txn@;
            let skey = size_key(prefix);
            let pkey = peaks_key(prefix);
            assert(size_suffix().len() != peaks_suffix().len());
            lemma_suffixes_differ(prefix, meta_tag(), size_suffix(), peaks_suffix());
            lemma_le_bytes_u64_roundtrip(p);
            assert(m2[skey].take(8) =~= m2[skey]);
            lemma_shape_peaks_hashes(m, prefix, peak_shape(p, 0, 63)->Some_0);
            lemma_peaks_roundtrip(ps);
            vstd::arithmetic::div_mod::lemma_mod_multiples_basic(ps.len() as int, 41);
            assert forall|q2: u64| p <= q2 < n && #[trigger] is_leaf_pos(q2) implies !m2.contains_key(
                leaf_key(prefix, q2)) by {
                lemma_tags_differ(prefix, leaf_tag(), be8(q2), meta_tag(), size_suffix());
                lemma_tags_differ(prefix, leaf_tag(), be8(q2), meta_tag(), peaks_suffix());
            }
            assert forall|q2: u64| p <= q2 < n && #[trigger] is_leaf_pos(q2) && m.contains_key(
                leaf_key(prefix, q2)) && m[leaf_key(prefix, q2)].len() == 32 implies !m2.contains_key(
                data_key(prefix, m[leaf_key(prefix, q2)])) by {
                let h = m[leaf_key(prefix, q2)];
                lemma_tags_differ(prefix, data_tag(), h, meta_tag(), size_suffix());
                lemma_tags_differ(prefix, data_tag(), h, meta_tag(), peaks_suffix());
            }
            assert forall|q2: u64| q2 < p && #[trigger] m.contains_key(leaf_key(prefix, q2))
                implies m2.contains_key(leaf_key(prefix, q2)) by {
                assert(t2.contains_key(leaf_key(prefix, q2)));
            }
            assert forall|k: Seq<u8>| #[trigger] m2.contains_key(k) && k != skey && k != pkey
                implies m.contains_key(k) && m2[k] == m[k] by {
                assert(t2.contains_key(k));
            }
        }
        Ok(())
    }

    /// The peak positions and heights of an MMR of `size` nodes (see `peak_shape`).
    fn shape_of(size: u64) -> (r: Option<Vec<(u64, u8)>>)
        ensures
            match peak_shape(size, 0, 63) {
                Some(sh) => r matches Some(v) && v@ == sh,
                None => r is None,
            },
    {
        let mut out: Vec<(u64, u8)> = Vec::new();
        let mut rem: u64 = size;
        let mut off: u64 = 0;
        let mut h: i32 = 63;
        while h >= 0
            invariant
                -1 <= h <= 63,
                off as int + rem as int == size as int,
                match peak_shape(size, 0, 63) {
                    Some(sh) => peak_shape(rem, off, h as int) matches Some(t) && sh == out@ + t,
                    None => peak_shape(rem, off, h as int) is None,
                },
            decreases h + 1,
        {
            let t: u64 = 0xFFFF_FFFF_FFFF_FFFFu64 >> ((63 - h) as u64);
            assert(t == tree_size(h as int));
            if rem >= t {
                let ghost o = out@;
                proof {
                    assert(t >= 1) by (bit_vector)
                        requires t == 0xFFFF_FFFF_FFFF_FFFFu64 >> ((63 - h) as u64), 0 <= h <= 63;
                }
                out.push(((off + t) - 1, h as u8));
                proof {
                    match peak_shape(size, 0, 63) {
                        Some(sh) => {
                            let rest = peak_shape((rem - t) as u64, (off + t) as u64, h - 1)->Some_0;
                            assert(sh == o + (seq![(((off + t) - 1) as u64, h as u8)] + rest));
                            assert(sh =~= out@ + rest);
                        },
                        None => {},
                    }
                }
                rem = rem - t;
                off = off + t;
            }
            h -= 1;
        }
        if rem == 0 {
            proof {
                if let Some(sh) = peak_shape(size, 0, 63) {
                    assert(out@ =~= sh);
                }
            }
            Some(out)
        } else {
            None
        }
    }

    /// The peaks of the given shape with their stored hashes (see `shape_peaks`).
    fn read_shape(&self, shape: &Vec<(u64, u8)>, txn: &LmdbTxn) -> (r: Option<Vec<PeakInfo>>)
        requires
            txn.wf(),
        ensures
            match shape_peaks(txn@, self.prefix(), shape@) {
                Some(ps) => r matches Some(v) && peak_views(v@) == ps,
                None => r is None,
            },
    {
        let mut out: Vec<PeakInfo> = Vec::new();
        let mut j: usize = 0;
        proof {
            assert(shape@.skip(0) =~= shape@);
            if let Some(rest) = shape_peaks(txn@, self.prefix(), shape@) {
                assert(peak_views(out@) + rest =~= rest);
            }
        }
        while j < shape.len()
            invariant
                j <= shape@.len(),
                txn.wf(),
                shape_peaks(txn@, self.prefix(), shape@) == match shape_peaks(txn@, self.prefix(),
                    shape@.skip(j as int)) {
                    Some(rest) => Some(peak_views(out@) + rest),
                    None => None::<Seq<PeakView>>,
                },
            decreases shape@.len() - j,
        {
            let (pos, h) = shape[j];
            let key = if h == 0 { self.leaf_key(pos) } else { self.node_key(h as u64, pos) };
            let ghost sk = shape@.skip(j as int);
            assert(sk[0] == (pos, h));
            assert(sk.drop_first() =~= shape@.skip(j + 1));
            match txn.get(key.as_slice()) {
                Ok(Some(v)) => {
                    if v.len() != 32 {
                        return None;
                    }
                    let mut hash = [0u8; 32];
                    let _ = slice_copy(v, &mut hash, 32);
                    assert(hash@ =~= v@);
                    let ghost before = peak_views(out@);
                    out.push(PeakInfo::new(hash, pos, h));
                    proof {
                        assert(peak_views(out@) =~= before.push(PeakView { hash: hash@, height: h, pos }));
                        match shape_peaks(txn@, self.prefix(), shape@.skip(j + 1)) {
                            Some(rest) => {
                                assert(before + (seq![PeakView { hash: hash@, height: h, pos }] + rest)
                                    =~= peak_views(out@) + rest);
                            },
                            None => {},
                        }
                    }
                },
                _ => {
                    return None;
                },
            }
            j += 1;
        }
        proof {
            assert(shape@.skip(shape@.len() as int) =~= Seq::<(u64, u8)>::empty());
            assert(peak_views(out@) + Seq::<PeakView>::empty() =~= peak_views(out@));
        }
        Some(out)
    }

    /// The peaks, left to right.
    pub fn get_peaks(&self, txn: Option<&LmdbTxn>) -> (r: Result<Vec<PeakInfo>, Error>)
        requires
            self.wf(),
            txn matches Some(t) ==> t.wf(),
        ensures
            match read_peaks(self.visible(txn), peaks_key(self.prefix())) {
                Ok(ps) => r matches Ok(v) && peak_views(v@) == ps,
                Err(e) => r == Err::<Vec<PeakInfo>, Error>(e),
            },
    {
        let key = self.peaks_key();
        match self.lookup(txn, key.as_slice()) {
            Some(bytes) => Self::deserialize_peaks(bytes),
            None => {
                let v: Vec<PeakInfo> = Vec::new();
                assert(peak_views(v@) =~= Seq::<PeakView>::empty());
                Ok(v)
            },
        }
    }

    fn serialize_peaks(peaks: Vec<PeakInfo>) -> (r: Result<Vec<u8>, Error>)
        ensures
            r matches Ok(v) && v@ == peaks_bytes(peak_views(peaks@)),
    {
        let mut result: Vec<u8> = Vec::new();
        let mut i: usize = 0;
        while i < peaks.len()
            invariant
                0 <= i <= peaks@.len(),
                result@ == peaks_bytes(peak_views(peaks@.take(i as int))),
            decreases peaks@.len() - i,
        {
            let b = peaks[i].serialize()?;
            let ghost before = result@;
            let mut j: usize = 0;
            while j < b.len()
                invariant
                    0 <= j <= b@.len(),
                    result@ == before + b@.take(j as int),
                decreases b@.len() - j,
            {
                result.push(b[j]);
                j += 1;
                assert(result@ =~= before + b@.take(j as int));
            }
            assert(b@.take(b@.len() as int) =~= b@);
            assert(peak_views(peaks@.take(i + 1)).drop_last() =~= peak_views(peaks@.take(i as int)));
            i += 1;
        }
        assert(peaks@.take(peaks@.len() as int) =~= peaks@);
        Ok(result)
    }

    fn deserialize_peaks(bytes: &[u8]) -> (r: Result<Vec<PeakInfo>, Error>)
        ensures
            bytes@.len() % 41 != 0 ==> r == Err::<Vec<PeakInfo>, Error>(Error::IllegalArgument),
            bytes@.len() % 41 == 0 ==> (r matches Ok(v) && peak_views(v@) == peaks_from_bytes(
                bytes@)),
    {
        let bytes_len = bytes.len();
        if bytes_len % 41 != 0 {
            return Err(Error::IllegalArgument);
        }
        let mut ret: Vec<PeakInfo> = Vec::new();
        let mut i: usize = 0;
        while i < bytes_len
            invariant
                bytes_len == bytes@.len(),
                bytes_len % 41 == 0,
                i % 41 == 0,
                i <= bytes_len,
                ret@.len() == i / 41,
                forall|k: int| 0 <= k < ret@.len() ==> (#[trigger] ret@[k])@ == peak_from_bytes(
                    bytes@.subrange(41 * k, 41 * k + 41)),
            decreases bytes_len - i,
        {
            let bytes_ref = subslice(bytes, i, 41)?;
            let p = PeakInfo::deserialize(bytes_ref)?;
            ret.push(p);
            i += 41;
        }
        assert(i == bytes_len);
        assert(peak_views(ret@) =~= peaks_from_bytes(bytes@));
        Ok(ret)
    }

    fn set_peaks(&mut self, peaks: Vec<PeakInfo>, txn: &mut LmdbTxn) -> (r: Result<(), Error>)
        requires
            old(txn).wf(),
        ensures
            final(txn).wf(),
            final(txn).is_write() == old(txn).is_write(),
            *final(self) == *old(self),
            old(txn).is_write() ==> r is Ok && final(txn)@ == old(txn)@.insert(peaks_key(
                old(self).prefix()), peaks_bytes(peak_views(peaks@))),
            !old(txn).is_write() ==> r == Err::<(), Error>(Error::IllegalState) && final(txn)@
                == old(txn)@,
    {
        let key = self.peaks_key();
        let ser = Self::serialize_peaks(peaks)?;
        txn.put(key.as_slice(), ser.as_slice())
    }

    /// Bitmap chunk `index`: the stored chunk, or zeros when none is stored.
    pub fn get_bitmap(&self, index: u64, txn: &LmdbTxn) -> (r: Result<[u8; BITMAP_SIZE], Error>)
        requires
            txn.wf(),
        ensures
            match read_chunk(txn@, bitmap_key(self.prefix(), index)) {
                Ok(c) => r matches Ok(a) && a@ == c,
                Err(e) => r == Err::<[u8; BITMAP_SIZE], Error>(e),
            },
    {
        let key = self.bitmap_key(index);
        let zeros = [0u8; BITMAP_SIZE];
        let bytes: &[u8] = match txn.get(key.as_slice()) {
            Ok(Some(b)) => b,
            _ => &zeros,
        };
        let mut ret = [0u8; BITMAP_SIZE];
        slice_copy(bytes, &mut ret, BITMAP_SIZE)?;
        proof {
            assert(ret@ =~= bytes@.take(BITMAP_SIZE as int));
            assert(zeros@ =~= Seq::new(BITMAP_SIZE as nat, |i: int| 0u8));
        }
        Ok(ret)
    }

    fn set_bitmap(&mut self, index: u64, bytes: [u8; BITMAP_SIZE], txn: &mut LmdbTxn) -> (r: Result<
        (),
        Error,
    >)
        requires
            old(txn).wf(),
        ensures
            final(txn).wf(),
            final(txn).is_write() == old(txn).is_write(),
            *final(self) == *old(self),
            old(txn).is_write() ==> r is Ok && final(txn)@ == old(txn)@.insert(bitmap_key(
                old(self).prefix(), index), bytes@),
            !old(txn).is_write() ==> r == Err::<(), Error>(Error::IllegalState) && final(txn)@
                == old(txn)@,
    {
        let key = self.bitmap_key(index);
        txn.put(key.as_slice(), &bytes)
    }

    /// Whether bit `bit` of the bitmap is set.
    pub fn bit_is_set(&self, bit: u64, txn: &LmdbTxn) -> (r: Result<bool, Error>)
        requires
            txn.wf(),
        ensures
            match read_chunk(txn@, bitmap_key(self.prefix(), bit_chunk(bit))) {
                Ok(c) => r == Ok::<bool, Error>(chunk_bit(c, bit)),
                Err(e) => r == Err::<bool, Error>(e),
            },
    {
        let index = bit / (BITMAP_SIZE as u64 * 8);
        let bmp = self.get_bitmap(index, txn)?;
        let byte = (bit / 8) % BITMAP_SIZE as u64;
        let offset = bit % 8;
        if byte >= BITMAP_SIZE as u64 {
            Err(Error::IllegalState)
        } else {
            let b = bmp[byte as usize];
            let off = offset as u8;
            assert((b & (1u8 << off) != 0) == ((b >> off) & 1 == 1)) by (bit_vector)
                requires off < 8;
            Ok(b & (1u8 << off) != 0)
        }
    }

    /// Sets (`value` true) or clears bit `bit` of the bitmap.
    pub fn update_bit(&mut self, bit: u64, value: bool, txn: &mut LmdbTxn) -> (r: Result<(), Error>)
        requires
            old(txn).wf(),
        ensures
            final(txn).wf(),
            final(txn).is_write() == old(txn).is_write(),
            *final(self) == *old(self),
            ({
                let k = bitmap_key(old(self).prefix(), bit_chunk(bit));
                match read_chunk(old(txn)@, k) {
                    Ok(c) => if old(txn).is_write() {
                        r is Ok && final(txn)@ == old(txn)@.insert(k, chunk_with_bit(c, bit, value))
                    } else {
                        r == Err::<(), Error>(Error::IllegalState) && final(txn)@ == old(txn)@
                    },
                    Err(e) => r == Err::<(), Error>(e) && final(txn)@ == old(txn)@,
                }
            }),
    {
        let index = bit / (BITMAP_SIZE as u64 * 8);
        let mut cur = self.get_bitmap(index, txn)?;
        let byte = (bit / 8) % BITMAP_SIZE as u64;
        let offset = bit % 8;
        if byte >= BITMAP_SIZE as u64 {
            return Err(Error::IllegalState);
        }
        let off = offset as u8;
        if value {
            cur[byte as usize] = cur[byte as usize] | (1u8 << off);
        } else {
            cur[byte as usize] = cur[byte as usize] & !(1u8 << off);
        }
        self.set_bitmap(index, cur, txn)
    }

    /// A write transaction: the given one (the caller then commits), or a new one on the
    /// database (the flag says that whoever asked must commit it).
    pub fn get_write_txn(&mut self, txn: Option<LmdbTxn>) -> (r: Result<(LmdbTxn, bool), Error>)
        requires
            old(self).wf(),
            txn matches Some(t) ==> t.wf(),
        ensures
            *final(self) == *old(self),
            r is Ok,
            r matches Ok((t, commit)) ==> t.wf() && match txn {
                Some(given) => t == given && !commit,
                None => t@ == old(self)@ && t.is_write() && commit,
            },
    {
        match txn {
            Some(t) => Ok((t, false)),
            None => {
                let t = self.db.write()?;
                Ok((t, true))
            },
        }
    }

    /// A read transaction: the given one, or a new one on the database.
    pub fn get_read_txn(&self, txn: Option<LmdbTxn>) -> (r: Result<LmdbTxn, Error>)
        requires
            self.wf(),
            txn matches Some(t) ==> t.wf(),
        ensures
            r matches Ok(t) ==> t.wf() && match txn {
                Some(given) => t == given,
                None => t@ == self@,
            },
            r is Ok,
    {
        match txn {
            Some(t) => Ok(t),
            None => self.db.read(),
        }
    }
}

/// Reading a bit back after setting or clearing it gives what was written.
pub proof fn lemma_bit_read_after_write(c: Seq<u8>, bit: u64, value: bool)
    requires
        c.len() == BITMAP_SIZE,
    ensures
        chunk_with_bit(c, bit, value).len() == BITMAP_SIZE,
        chunk_bit(chunk_with_bit(c, bit, value), bit) == value,
{
    let b = c[bit_byte(bit)];
    let off = bit_offset(bit);
    assert(off < 8);
    assert(((b | (1u8 << off)) >> off) & 1 == 1) by (bit_vector) requires off < 8;
    assert(((b & !(1u8 << off)) >> off) & 1 == 0) by (bit_vector) requires off < 8;
}

/// Setting or clearing a bit leaves every other bit as it was.
pub proof fn lemma_bit_write_keeps_others(c: Seq<u8>, bit: u64, other: u64, value: bool)
    requires
        c.len() == BITMAP_SIZE,
        bit_chunk(bit) == bit_chunk(other),
        bit != other,
    ensures
        chunk_bit(chunk_with_bit(c, bit, value), other) == chunk_bit(c, other),
{
    let i = bit_byte(bit);
    let j = bit_byte(other);
    if i == j {
        let b = c[i];
        let o1 = bit_offset(bit);
        let o2 = bit_offset(other);
        assert(o1 != o2) by {
            vstd::arithmetic::div_mod::lemma_div_denominator(bit as int, 8, 4096);
            vstd::arithmetic::div_mod::lemma_div_denominator(other as int, 8, 4096);
            vstd::arithmetic::div_mod::lemma_fundamental_div_mod((bit / 8) as int, 4096);
            vstd::arithmetic::div_mod::lemma_fundamental_div_mod((other / 8) as int, 4096);
            assert(bit / 8 == other / 8);
            vstd::arithmetic::div_mod::lemma_fundamental_div_mod(bit as int, 8);
            vstd::arithmetic::div_mod::lemma_fundamental_div_mod(other as int, 8);
        }
        assert(((b | (1u8 << o1)) >> o2) & 1 == (b >> o2) & 1) by (bit_vector)
            requires o1 < 8, o2 < 8, o1 != o2;
        assert(((b & !(1u8 << o1)) >> o2) & 1 == (b >> o2) & 1) by (bit_vector)
            requires o1 < 8, o2 < 8, o1 != o2;
    }
}


/// Positions and counters above this bound are refused as corrupt (they cannot arise from
/// appends).
pub const POS_LIMIT: u64 = 0x4000_0000_0000_0000;

/// The peak that joins two neighbouring peaks of equal height: the hash of the left one's hash
/// followed by the right one's, one level up, at the position just after the right one.
pub open spec fn joined(left: PeakView, right: PeakView) -> PeakView {
    PeakView {
        hash: sha3_256_spec(left.hash + right.hash),
        height: (right.height + 1) as u8,
        pos: (right.pos + 1) as u64,
    }
}

/// The peak `p`, added on the right of `ps`, joins the last of them: they have the same height
/// (below the greatest height a peak records).
pub open spec fn joins(ps: Seq<PeakView>, p: PeakView) -> bool {
    ps.len() > 0 && ps.last().height == p.height && p.height < 255
}

/// The peaks after `p` is added on the right of `ps`: as long as the last peak has the height
/// of the new one, the two join into one.
pub open spec fn push_peak(ps: Seq<PeakView>, p: PeakView) -> Seq<PeakView>
    decreases ps.len(),
{
    if joins(ps, p) {
        push_peak(ps.drop_last(), joined(ps.last(), p))
    } else {
        ps.push(p)
    }
}

/// `m` with the inner nodes that adding `p` to `ps` makes: each joined peak's hash under the
/// node key of its height and position.
pub open spec fn joined_nodes(m: Map<Seq<u8>, Seq<u8>>, prefix: Seq<u8>, ps: Seq<PeakView>, p: PeakView)
    -> Map<Seq<u8>, Seq<u8>>
    decreases ps.len(),
{
    if joins(ps, p) {
        let q = joined(ps.last(), p);
        joined_nodes(m.insert(node_key(prefix, q.height as u64, q.pos), q.hash), prefix, ps.drop_last(), q)
    } else {
        m
    }
}

/// What appending `data` does to the store `m` (`write`: whether the transaction may write):
/// the outcome and the contents after it. With `n` the size: the hash of `data` is stored as
/// the leaf at `n`, `n` under the data key of the hash, and the leaf's bit is set in the
/// bitmap; the leaf then joins the stored peaks (see `push_peak`), each inner node made is
/// stored (see `joined_nodes`), the new peaks are stored and the size becomes the position
/// after the last peak. Empty data is refused with `IllegalArgument`; a size at
/// `POS_LIMIT` or beyond, or a read-only transaction, with `IllegalState` (nothing written);
/// an unreadable size, bitmap chunk or peaks record passes its error on, keeping what was
/// written before it.
pub open spec fn append_effect(m: Map<Seq<u8>, Seq<u8>>, prefix: Seq<u8>, data: Seq<u8>, write: bool)
    -> (Result<(), Error>, Map<Seq<u8>, Seq<u8>>) {
    let h = sha3_256_spec(data);
    if data.len() == 0 {
        (Err(Error::IllegalArgument), m)
    } else {
        match read_u64(m, size_key(prefix)) {
            Err(e) => (Err(e), m),
            Ok(n) => if n >= POS_LIMIT || !write {
                (Err(Error::IllegalState), m)
            } else {
                let m1 = m.insert(data_key(prefix, h), u64_le_bytes(n)).insert(leaf_key(prefix, n), h);
                let b = peak_map_height_spec(n).0 as u64;
                let bk = bitmap_key(prefix, bit_chunk(b));
                match read_chunk(m1, bk) {
                    Err(e) => (Err(e), m1),
                    Ok(c) => {
                        let m2 = m1.insert(bk, chunk_with_bit(c, b, true));
                        match read_peaks(m2, peaks_key(prefix)) {
                            Err(e) => (Err(e), m2),
                            Ok(ps) => {
                                let leaf = PeakView { hash: h, height: 0, pos: n };
                                let np = push_peak(ps, leaf);
                                (Ok(()), joined_nodes(m2, prefix, ps, leaf).insert(peaks_key(prefix),
                                    peaks_bytes(np)).insert(size_key(prefix), u64_le_bytes(
                                    (np.last().pos + 1) as u64)))
                            },
                        }
                    },
                }
            },
        }
    }
}

/// The size of the MMR whose peaks are `ps`: the position after the last peak (0 for none).
pub open spec fn peaks_size(ps: Seq<PeakView>) -> u64 {
    if ps.len() == 0 {
        0
    } else {
        (ps.last().pos + 1) as u64
    }
}

/// The peaks of an MMR built from none by adding leaves with the hashes `hs` in turn, each at
/// the position after the last peak (see `push_peak`), as `append_effect` does.
pub open spec fn peaks_of_leaves(hs: Seq<Seq<u8>>) -> Seq<PeakView>
    decreases hs.len(),
{
    if hs.len() == 0 {
        Seq::empty()
    } else {
        let ps = peaks_of_leaves(hs.drop_last());
        push_peak(ps, PeakView { hash: hs.last(), height: 0, pos: peaks_size(ps) })
    }
}

/// The number of set bits of `n`.
pub open spec fn popcount(n: nat) -> nat
    decreases n,
{
    if n == 0 {
        0
    } else {
        n % 2 + popcount(n / 2)
    }
}

/// The number of low set bits of `n` before its first clear bit.
pub open spec fn trailing_ones(n: nat) -> nat
    decreases n,
{
    if n % 2 == 1 {
        1 + trailing_ones(n / 2)
    } else {
        0
    }
}

/// Each of the heights raised by `j`.
pub open spec fn raised(hs: Seq<nat>, j: nat) -> Seq<nat> {
    hs.map_values(|h: nat| h + j)
}

/// The positions of the set bits of `n`, highest first.
pub open spec fn set_bit_heights(n: nat) -> Seq<nat>
    decreases n,
{
    if n == 0 {
        Seq::empty()
    } else {
        raised(set_bit_heights(n / 2), 1) + if n % 2 == 1 { seq![0nat] } else { Seq::empty() }
    }
}

/// The heights of the peaks, left to right.
pub open spec fn peak_heights(ps: Seq<PeakView>) -> Seq<nat> {
    ps.map_values(|p: PeakView| p.height as nat)
}

/// Adding one flips the low set bits and sets the next one.
proof fn lemma_popcount_succ(x: nat)
    ensures
        popcount(x + 1) + trailing_ones(x) == popcount(x) + 1,
    decreases x,
{
    if x % 2 == 1 {
        lemma_popcount_succ(x / 2);
        assert((x + 1) / 2 == x / 2 + 1);
        assert(popcount(x + 1) == popcount(x / 2 + 1));
    } else {
        assert((x + 1) / 2 == x / 2);
    }
}

/// Numbers below `2^k` have at most `k` bits.
proof fn lemma_bit_len_below(n: nat, k: nat)
    requires
        n < pow2(k),
    ensures
        bit_len(n) <= k,
    decreases k,
{
    if n > 0 {
        if k == 0 {
            vstd::arithmetic::power2::lemma2_to64();
        } else {
            vstd::arithmetic::power2::lemma_pow2_unfold(k);
            lemma_bit_len_below(n / 2, (k - 1) as nat);
        }
    }
}

/// A top bit adds one to the count of set bits.
proof fn lemma_popcount_top(j: nat, x: nat)
    requires
        x < pow2(j),
    ensures
        popcount(pow2(j) + x) == 1 + popcount(x),
    decreases j,
{
    if j == 0 {
        vstd::arithmetic::power2::lemma2_to64();
        assert(x == 0);
        assert(popcount(1) == 1 + popcount(0));
    } else {
        vstd::arithmetic::power2::lemma_pow2_unfold(j);
        let q = pow2((j - 1) as nat);
        assert((pow2(j) + x) % 2 == x % 2);
        assert((pow2(j) + x) / 2 == q + x / 2);
        lemma_popcount_top((j - 1) as nat, x / 2);
    }
}

/// A number has at most as many set bits as its value, and at least one when it is not zero.
proof fn lemma_popcount_bounds(n: nat)
    ensures
        popcount(n) <= n,
        n > 0 ==> popcount(n) >= 1,
    decreases n,
{
    if n > 0 {
        lemma_popcount_bounds(n / 2);
    }
}

/// Peeling mountains off the size of an MMR of `l` leaves records `l` and leaves nothing.
proof fn lemma_peel_leaves(l: nat, k: nat, map: nat)
    requires
        l < pow2(k),
    ensures
        peak_map_rec((2 * l - popcount(l)) as nat, (pow2(k) - 1) as nat, map) == (map * pow2(k) + l, 0nat),
    decreases k,
{
    lemma_popcount_bounds(l);
    if k == 0 {
        vstd::arithmetic::power2::lemma2_to64();
        assert(l == 0);
        assert(pow2(0) == 1);
        assert(map * pow2(0) == map) by (nonlinear_arith) requires pow2(0) == 1;
        assert(peak_map_rec(0, 0, map) == (map, 0nat));
    } else {
        lemma_ones_half(k);
        let q = pow2((k - 1) as nat);
        vstd::arithmetic::power2::lemma_pow2_pos((k - 1) as nat);
        let size = (2 * l - popcount(l)) as nat;
        let ps = (pow2(k) - 1) as nat;
        assert(ps >= 1);
        if l >= q {
            let l2 = (l - q) as nat;
            lemma_popcount_top((k - 1) as nat, l2);
            lemma_popcount_bounds(l2);
            assert(size - ps == 2 * l2 - popcount(l2));
            assert(size >= ps);
            assert(peak_map_rec(size, ps, map) == peak_map_rec((size - ps) as nat, ps / 2, 2 * map + 1));
            lemma_peel_leaves(l2, (k - 1) as nat, 2 * map + 1);
            assert((2 * map + 1) * q + l2 == map * pow2(k) + l) by (nonlinear_arith)
                requires pow2(k) == 2 * q, l2 == l - q;
        } else {
            lemma_popcount_bounds(l);
            assert(size < ps);
            assert(peak_map_rec(size, ps, map) == peak_map_rec(size, ps / 2, 2 * map));
            lemma_peel_leaves(l, (k - 1) as nat, 2 * map);
            assert((2 * map) * q + l == map * pow2(k) + l) by (nonlinear_arith)
                requires pow2(k) == 2 * q;
        }
    }
}

/// The leaf appended as the `l`-th (counting from 0), which goes at position
/// `2l - popcount(l)`, has bitmap index `l`, and a leaf comes next at that position.
pub proof fn lemma_leaf_index(l: nat)
    requires
        2 * l - popcount(l) < 0x1_0000_0000_0000_0000,
    ensures
        peak_map_height_spec((2 * l - popcount(l)) as u64) == (l, 0nat),
{
    lemma_popcount_bounds(l);
    let s = (2 * l - popcount(l)) as nat;
    if s == 0 {
        assert(l == 0);
    } else {
        lemma_bit_len(s);
        lemma_peel_leaves(l, bit_len(s), 0);
    }
}

/// Adding a peak of height `j` to peaks whose heights are those of the set bits of `m` raised
/// by `j` gives the heights of the set bits of `m + 1` raised by `j`, with one join per low set
/// bit of `m`.
proof fn lemma_push_bits(ps: Seq<PeakView>, p: PeakView, m: nat, j: nat)
    requires
        peak_heights(ps) == raised(set_bit_heights(m), j),
        p.height == j,
        j + bit_len(m) < 255,
        p.pos + bit_len(m) + 1 < 0x1_0000_0000_0000_0000,
    ensures
        peak_heights(push_peak(ps, p)) == raised(set_bit_heights(m + 1), j),
        peaks_size(push_peak(ps, p)) == p.pos + trailing_ones(m) + 1,
    decreases m,
{
    if m % 2 == 1 {
        let h = set_bit_heights(m / 2);
        assert(set_bit_heights(m) == raised(h, 1) + seq![0nat]);
        assert(peak_heights(ps).len() == ps.len());
        assert(ps.len() == raised(h, 1).len() + 1);
        assert(peak_heights(ps)[ps.len() - 1] == j);
        assert(joins(ps, p));
        let q = joined(ps.last(), p);
        assert forall|i: int| 0 <= i < ps.len() - 1 implies #[trigger] peak_heights(ps.drop_last())[i]
            == raised(h, j + 1)[i] by {
            assert(peak_heights(ps.drop_last())[i] == ps[i].height as nat);
            assert(peak_heights(ps)[i] == ps[i].height as nat);
            assert(peak_heights(ps)[i] == set_bit_heights(m)[i] + j);
            assert(set_bit_heights(m)[i] == raised(h, 1)[i]);
        }
        assert(peak_heights(ps.drop_last()) =~= raised(h, j + 1));
        lemma_push_bits(ps.drop_last(), q, m / 2, j + 1);
        assert((m + 1) / 2 == m / 2 + 1);
        assert(set_bit_heights(m + 1) =~= raised(set_bit_heights(m / 2 + 1), 1));
        assert(raised(set_bit_heights(m + 1), j) =~= raised(set_bit_heights(m / 2 + 1), j + 1));
    } else {
        assert((m + 1) / 2 == m / 2);
        assert(set_bit_heights(m + 1) =~= set_bit_heights(m) + seq![0nat]);
        assert(peak_heights(ps).len() == ps.len());
        if ps.len() > 0 {
            if m == 0 {
                assert(set_bit_heights(0) =~= Seq::<nat>::empty());
            }
            assert(m > 0);
            let h2 = set_bit_heights(m / 2);
            assert(set_bit_heights(m) =~= raised(h2, 1));
            let last = ps.len() - 1;
            assert(peak_heights(ps)[last] == raised(h2, 1)[last] + j);
            assert(peak_heights(ps)[last] >= j + 1);
        }
        assert(!joins(ps, p));
        assert forall|i: int| 0 <= i < ps.len() + 1 implies #[trigger] peak_heights(ps.push(p))[i]
            == raised(set_bit_heights(m + 1), j)[i] by {
            if i < ps.len() {
                assert(peak_heights(ps.push(p))[i] == ps[i].height as nat);
                assert(peak_heights(ps)[i] == ps[i].height as nat);
                assert(set_bit_heights(m + 1)[i] == set_bit_heights(m)[i]);
            } else {
                assert(peak_heights(ps.push(p))[i] == p.height as nat);
                assert(set_bit_heights(m + 1)[i] == 0);
            }
        }
        assert(peak_heights(ps.push(p)) =~= raised(set_bit_heights(m + 1), j));
    }
}

/// An MMR of `n` leaves built by appends has `2n - popcount(n)` nodes and one peak per set bit
/// of `n`, the highest first (for fewer than 2^62 leaves).
pub proof fn lemma_peaks_of_leaves(hs: Seq<Seq<u8>>)
    requires
        hs.len() < 0x4000_0000_0000_0000,
    ensures
        peaks_size(peaks_of_leaves(hs)) == 2 * hs.len() - popcount(hs.len()),
        peak_heights(peaks_of_leaves(hs)) == set_bit_heights(hs.len()),
    decreases hs.len(),
{
    let n = hs.len();
    if n == 0 {
        assert(peak_heights(Seq::<PeakView>::empty()) =~= Seq::<nat>::empty());
    } else {
        let ps = peaks_of_leaves(hs.drop_last());
        lemma_peaks_of_leaves(hs.drop_last());
        let m = (n - 1) as nat;
        assert(raised(set_bit_heights(m), 0) =~= set_bit_heights(m));
        assert(raised(set_bit_heights(n), 0) =~= set_bit_heights(n));
        vstd::arithmetic::power2::lemma2_to64();
        vstd::arithmetic::power2::lemma2_to64_rest();
        lemma_bit_len_below(m, 62);
        lemma_popcount_succ(m);
        let leaf = PeakView { hash: hs.last(), height: 0, pos: peaks_size(ps) };
        lemma_push_bits(ps, leaf, m, 0);
    }
}

/// Adding a peak leaves at least one.
proof fn lemma_push_peak_nonempty(ps: Seq<PeakView>, p: PeakView)
    ensures
        push_peak(ps, p).len() > 0,
    decreases ps.len(),
{
    if joins(ps, p) {
        lemma_push_peak_nonempty(ps.drop_last(), joined(ps.last(), p));
    }
}

/// `joined_nodes` writes only under the "node" tag: every other key keeps its value.
proof fn lemma_joined_nodes_keep(m: Map<Seq<u8>, Seq<u8>>, prefix: Seq<u8>, ps: Seq<PeakView>, p: PeakView,
    t: Seq<u8>, suf: Seq<u8>)
    requires
        t.len() > 0,
        t[0] != node_tag()[0],
    ensures
        joined_nodes(m, prefix, ps, p).contains_key(pmmr_key(prefix, t, suf)) == m.contains_key(pmmr_key(
            prefix, t, suf)),
        joined_nodes(m, prefix, ps, p)[pmmr_key(prefix, t, suf)] == m[pmmr_key(prefix, t, suf)],
    decreases ps.len(),
{
    if joins(ps, p) {
        let q = joined(ps.last(), p);
        lemma_tags_differ(prefix, t, suf, node_tag(), be8(q.height as u64) + be8(q.pos));
        lemma_joined_nodes_keep(m.insert(node_key(prefix, q.height as u64, q.pos), q.hash), prefix,
            ps.drop_last(), q, t, suf);
    }
}

/// Appending to a store whose size and peaks are those of the leaves `hs` (see
/// `peaks_of_leaves`) gives, when it succeeds, a store whose size and peaks are those of `hs`
/// with the new leaf's hash added: the leaf is stored at the old size, that size under the data
/// key of its hash, and the size and peaks records hold the new size and peaks (read back as
/// such when the peaks' hashes are 32 bytes long).
pub proof fn lemma_append_adds_leaf(m: Map<Seq<u8>, Seq<u8>>, prefix: Seq<u8>, data: Seq<u8>, write: bool,
    hs: Seq<Seq<u8>>)
    requires
        read_u64(m, size_key(prefix)) == Ok::<u64, Error>(peaks_size(peaks_of_leaves(hs))),
        read_peaks(m, peaks_key(prefix)) == Ok::<Seq<PeakView>, Error>(peaks_of_leaves(hs)),
        append_effect(m, prefix, data, write).0 is Ok,
    ensures
        ({
            let m2 = append_effect(m, prefix, data, write).1;
            let h = sha3_256_spec(data);
            let n = peaks_size(peaks_of_leaves(hs));
            let np = peaks_of_leaves(hs.push(h));
            &&& read_u64(m2, size_key(prefix)) == Ok::<u64, Error>(peaks_size(np))
            &&& m2.contains_key(peaks_key(prefix)) && m2[peaks_key(prefix)] == peaks_bytes(np)
            &&& (forall|i: int| 0 <= i < np.len() ==> (#[trigger] np[i]).hash.len() == 32) ==> read_peaks(m2,
                peaks_key(prefix)) == Ok::<Seq<PeakView>, Error>(np)
            &&& m2.contains_key(leaf_key(prefix, n)) && m2[leaf_key(prefix, n)] == h
            &&& m2.contains_key(data_key(prefix, h)) && m2[data_key(prefix, h)] == u64_le_bytes(n)
        }),
{
    let h = sha3_256_spec(data);
    let ps = peaks_of_leaves(hs);
    let n = peaks_size(ps);
    let np = peaks_of_leaves(hs.push(h));
    assert(hs.push(h).drop_last() =~= hs);
    let leaf = PeakView { hash: h, height: 0, pos: n };
    assert(np == push_peak(ps, leaf));
    let m1 = m.insert(data_key(prefix, h), u64_le_bytes(n)).insert(leaf_key(prefix, n), h);
    let b = peak_map_height_spec(n).0 as u64;
    let bk = bitmap_key(prefix, bit_chunk(b));
    let c = read_chunk(m1, bk)->Ok_0;
    let m2 = m1.insert(bk, chunk_with_bit(c, b, true));
    lemma_tags_differ(prefix, leaf_tag(), be8(n), data_tag(), h);
    lemma_tags_differ(prefix, bitmap_tag(), be8(bit_chunk(b)), leaf_tag(), be8(n));
    lemma_tags_differ(prefix, bitmap_tag(), be8(bit_chunk(b)), data_tag(), h);
    lemma_tags_differ(prefix, bitmap_tag(), be8(bit_chunk(b)), meta_tag(), peaks_suffix());
    lemma_tags_differ(prefix, data_tag(), h, meta_tag(), peaks_suffix());
    lemma_tags_differ(prefix, leaf_tag(), be8(n), meta_tag(), peaks_suffix());
    lemma_tags_differ(prefix, data_tag(), h, meta_tag(), size_suffix());
    lemma_tags_differ(prefix, leaf_tag(), be8(n), meta_tag(), size_suffix());
    assert(read_peaks(m2, peaks_key(prefix)) == read_peaks(m, peaks_key(prefix)));
    let m3 = joined_nodes(m2, prefix, ps, leaf);
    lemma_joined_nodes_keep(m2, prefix, ps, leaf, leaf_tag(), be8(n));
    lemma_joined_nodes_keep(m2, prefix, ps, leaf, data_tag(), h);
    assert(size_suffix().len() != peaks_suffix().len());
    lemma_suffixes_differ(prefix, meta_tag(), size_suffix(), peaks_suffix());
    let m4 = m3.insert(peaks_key(prefix), peaks_bytes(np)).insert(size_key(prefix), u64_le_bytes(peaks_size(np)));
    lemma_push_peak_nonempty(ps, leaf);
    assert(peaks_size(np) == (np.last().pos + 1) as u64);
    assert(m4 == append_effect(m, prefix, data, write).1);
    lemma_le_bytes_u64_roundtrip(peaks_size(np));
    assert(m4[size_key(prefix)].take(8) =~= m4[size_key(prefix)]);
    if forall|i: int| 0 <= i < np.len() ==> (#[trigger] np[i]).hash.len() == 32 {
        lemma_peaks_roundtrip(np);
        vstd::arithmetic::div_mod::lemma_mod_multiples_basic(np.len() as int, 41);
    }
}

impl Pmmr {
    /// Appends a leaf holding `data` in the given transaction (see `append_effect`).
    fn append_in(&mut self, data: &[u8], txn: &mut LmdbTxn) -> (r: Result<(), Error>)
        requires
            old(self).wf(),
            old(txn).wf(),
        ensures
            *final(self) == *old(self),
            final(txn).wf(),
            final(txn).is_write() == old(txn).is_write(),
            r == append_effect(old(txn)@, old(self).prefix(), data@, old(txn).is_write()).0,
            final(txn)@ == append_effect(old(txn)@, old(self).prefix(), data@, old(txn).is_write()).1,
    {
        if data.len() == 0 {
            return Err(Error::IllegalArgument);
        }
        let ghost prefix = self.prefix();
        let ghost m0 = txn@;
        let last_pos = self.last_pos(Some(&*txn))?;
        if last_pos >= POS_LIMIT {
            return Err(Error::IllegalState);
        }
        let leaf_k = self.leaf_key(last_pos);
        let hash = self.hash_data(data);
        let data_k = self.data_key(&hash);
        let mut last_pos_bytes = [0u8; 8];
        let _ = to_le_bytes_u64(last_pos, &mut last_pos_bytes);
        txn.put(data_k.as_slice(), &last_pos_bytes)?;
        txn.put(leaf_k.as_slice(), &hash)?;

        let bit_pos = peak_map_height(last_pos).0;
        self.update_bit(bit_pos, true, txn)?;
        let ghost m2 = txn@;

        let mut peaks = self.get_peaks(Some(&*txn))?;
        let ghost ps0 = peak_views(peaks@);
        let ghost leaf = PeakView { hash: hash@, height: 0, pos: last_pos };
        let mut cur = PeakInfo::new(hash, last_pos, 0);
        loop
            invariant_except_break
                *self == *old(self),
                prefix == self.prefix(),
                txn.wf(),
                txn.is_write(),
                old(txn).is_write(),
                last_pos < POS_LIMIT,
                cur@.pos == last_pos + cur@.height,
                cur@.hash.len() == 32,
                push_peak(peak_views(peaks@), cur@) == push_peak(ps0, leaf),
                joined_nodes(txn@, prefix, peak_views(peaks@), cur@) == joined_nodes(m2, prefix, ps0, leaf),
            ensures
                *self == *old(self),
                txn.wf(),
                txn.is_write(),
                cur@.pos == last_pos + cur@.height,
                peak_views(peaks@).push(cur@) == push_peak(ps0, leaf),
                txn@ == joined_nodes(m2, prefix, ps0, leaf),
            decreases peaks@.len(),
        {
            let len = peaks.len();
            if len > 0 && peaks[len - 1].height() == cur.height() && cur.height() < 255 {
                let ghost pv = peak_views(peaks@);
                assert(pv.last() == peaks@[len - 1]@);
                let last = peaks.pop().unwrap();
                assert(peak_views(peaks@) =~= pv.drop_last());
                proof { last.lemma_hash_len(); }
                let h = self.hash_children(&last.hash(), &cur.hash());
                let q = PeakInfo::new(h, cur.pos() + 1, cur.height() + 1);
                assert(q@ == joined(pv.last(), cur@));
                let nk = self.node_key(q.height() as u64, q.pos());
                txn.put(nk.as_slice(), &h)?;
                cur = q;
            } else {
                assert(!joins(peak_views(peaks@), cur@));
                break;
            }
        }
        let ghost pv = peak_views(peaks@);
        let ghost cv = cur@;
        let new_size = cur.pos() + 1;
        peaks.push(cur);
        assert(peak_views(peaks@) =~= pv.push(cv));
        self.set_peaks(peaks, txn)?;
        let mut size_bytes = [0u8; 8];
        let _ = to_le_bytes_u64(new_size, &mut size_bytes);
        let size_k = self.size_key();
        txn.put(size_k.as_slice(), &size_bytes)?;
        Ok(())
    }

    /// Appends a leaf holding `data` (see `append_effect`): its hash becomes the leaf at the last
    /// position, the peaks it completes are joined and their inner nodes stored, the peaks are
    /// updated, the leaf's bit is set in the bitmap and the last position advances past the last
    /// peak. Works in the given transaction, or else in a transaction of its own that it commits
    /// when the append succeeds.
    pub fn append(&mut self, data: &[u8], txn: Option<&mut LmdbTxn>) -> (r: Result<(), Error>)
        requires
            old(self).wf(),
            txn matches Some(t) ==> t.wf(),
        ensures
            final(self).wf(),
            final(self).prefix() == old(self).prefix(),
            match txn {
                Some(t) => *final(self) == *old(self) && final(t).wf() && final(t).is_write() == t.is_write()
                    && r == append_effect(t@, old(self).prefix(), data@, t.is_write()).0
                    && final(t)@ == append_effect(t@, old(self).prefix(), data@, t.is_write()).1,
                None => r == append_effect(old(self)@, old(self).prefix(), data@, true).0
                    && (r is Ok ==> final(self)@ == append_effect(old(self)@, old(self).prefix(), data@, true).1)
                    && (r is Err ==> final(self)@ == old(self)@),
            },
    {
        match txn {
            Some(t) => self.append_in(data, t),
            None => {
                let mut t = match self.db.write() {
                    Ok(t) => t,
                    Err(e) => {
                        return Err(e);
                    },
                };
                match self.append_in(data, &mut t) {
                    Ok(()) => {
                        let _ = self.db.commit(t);
                        Ok(())
                    },
                    Err(e) => Err(e),
                }
            },
        }
    }
}


/// Two outcomes agree: both succeed, or both fail with the same error.
pub open spec fn same_outcome(a: Result<(), Error>, b: Result<(), Error>) -> bool {
    match b {
        Ok(_) => a is Ok,
        Err(e) => a == Err::<(), Error>(e),
    }
}

/// The effect of pruning `data`: the result, and what the transaction then holds. The leaf's
/// entry in the data index and its leaf hash are removed and its bit cleared; pruning the most
/// recently added node is refused with `IllegalState`, data not in the PMMR with `NotFound`.
pub open spec fn prune_effect(m: Map<Seq<u8>, Seq<u8>>, prefix: Seq<u8>, data: Seq<u8>, write: bool)
    -> (Result<(), Error>, Map<Seq<u8>, Seq<u8>>) {
    let dk = data_key(prefix, sha3_256_spec(data));
    match read_u64(m, size_key(prefix)) {
        Err(e) => (Err(e), m),
        Ok(last_pos) => if !m.contains_key(dk) {
            (Err(Error::NotFound), m)
        } else {
            match read_u64(m, dk) {
                Err(e) => (Err(e), m),
                Ok(pos) => if pos + 1 == last_pos {
                    (Err(Error::IllegalState), m)
                } else if !write {
                    (Err(Error::IllegalState), m)
                } else {
                    let m2 = m.remove(dk).remove(leaf_key(prefix, pos));
                    let b = peak_map_height_spec(pos).0 as u64;
                    let bk = bitmap_key(prefix, bit_chunk(b));
                    match read_chunk(m2, bk) {
                        Err(e) => (Err(e), m2),
                        Ok(c) => (Ok(()), m2.insert(bk, chunk_with_bit(c, b, false))),
                    }
                },
            }
        },
    }
}

/// A successful prune leaves the pruned data unknown (no position is found for it) and the
/// bitmap bit of its leaf clear.
pub proof fn lemma_prune_forgets(m: Map<Seq<u8>, Seq<u8>>, prefix: Seq<u8>, data: Seq<u8>, write: bool)
    requires
        prune_effect(m, prefix, data, write).0 is Ok,
    ensures
        ({
            let m2 = prune_effect(m, prefix, data, write).1;
            let pos = read_u64(m, data_key(prefix, sha3_256_spec(data)))->Ok_0;
            let b = peak_map_height_spec(pos).0 as u64;
            &&& !m2.contains_key(data_key(prefix, sha3_256_spec(data)))
            &&& !m2.contains_key(leaf_key(prefix, pos))
            &&& read_chunk(m2, bitmap_key(prefix, bit_chunk(b))) is Ok
            &&& !chunk_bit(read_chunk(m2, bitmap_key(prefix, bit_chunk(b)))->Ok_0, b)
        }),
{
    let dk = data_key(prefix, sha3_256_spec(data));
    let pos = read_u64(m, dk)->Ok_0;
    let b = peak_map_height_spec(pos).0 as u64;
    let bk = bitmap_key(prefix, bit_chunk(b));
    let m2 = m.remove(dk).remove(leaf_key(prefix, pos));
    let c = read_chunk(m2, bk)->Ok_0;
    assert(c.len() == BITMAP_SIZE);
    lemma_bit_read_after_write(c, b, false);
    lemma_tags_differ(prefix, bitmap_tag(), be8(bit_chunk(b)), data_tag(), sha3_256_spec(data));
    lemma_tags_differ(prefix, bitmap_tag(), be8(bit_chunk(b)), leaf_tag(), be8(pos));
    let m3 = m2.insert(bk, chunk_with_bit(c, b, false));
    assert(m3[bk].take(BITMAP_SIZE as int) =~= m3[bk]);
}

/// Pruning changes neither the size nor the peaks, and keeps every other leaf and every other
/// data entry: only the pruned data's entry, its leaf and its bitmap chunk change.
pub proof fn lemma_prune_keeps(m: Map<Seq<u8>, Seq<u8>>, prefix: Seq<u8>, data: Seq<u8>, write: bool, other: Seq<u8>,
    q: u64)
    requires
        prune_effect(m, prefix, data, write).0 is Ok,
        other != sha3_256_spec(data),
        q != read_u64(m, data_key(prefix, sha3_256_spec(data)))->Ok_0,
    ensures
        ({
            let m2 = prune_effect(m, prefix, data, write).1;
            &&& m2.contains_key(size_key(prefix)) == m.contains_key(size_key(prefix))
            &&& m2[size_key(prefix)] == m[size_key(prefix)]
            &&& m2.contains_key(peaks_key(prefix)) == m.contains_key(peaks_key(prefix))
            &&& m2[peaks_key(prefix)] == m[peaks_key(prefix)]
            &&& m2.contains_key(data_key(prefix, other)) == m.contains_key(data_key(prefix, other))
            &&& m2[data_key(prefix, other)] == m[data_key(prefix, other)]
            &&& m2.contains_key(leaf_key(prefix, q)) == m.contains_key(leaf_key(prefix, q))
            &&& m2[leaf_key(prefix, q)] == m[leaf_key(prefix, q)]
        }),
{
    let h = sha3_256_spec(data);
    let dk = data_key(prefix, h);
    let pos = read_u64(m, dk)->Ok_0;
    let b = peak_map_height_spec(pos).0 as u64;
    let bk = bitmap_key(prefix, bit_chunk(b));
    let lk = leaf_key(prefix, pos);
    lemma_tags_differ(prefix, meta_tag(), size_suffix(), data_tag(), h);
    lemma_tags_differ(prefix, meta_tag(), size_suffix(), leaf_tag(), be8(pos));
    lemma_tags_differ(prefix, meta_tag(), size_suffix(), bitmap_tag(), be8(bit_chunk(b)));
    lemma_tags_differ(prefix, meta_tag(), peaks_suffix(), data_tag(), h);
    lemma_tags_differ(prefix, meta_tag(), peaks_suffix(), leaf_tag(), be8(pos));
    lemma_tags_differ(prefix, meta_tag(), peaks_suffix(), bitmap_tag(), be8(bit_chunk(b)));
    lemma_suffixes_differ(prefix, data_tag(), other, h);
    lemma_tags_differ(prefix, data_tag(), other, leaf_tag(), be8(pos));
    lemma_tags_differ(prefix, data_tag(), other, bitmap_tag(), be8(bit_chunk(b)));
    lemma_be8_injective(q, pos);
    lemma_suffixes_differ(prefix, leaf_tag(), be8(q), be8(pos));
    lemma_tags_differ(prefix, leaf_tag(), be8(q), data_tag(), h);
    lemma_tags_differ(prefix, leaf_tag(), be8(q), bitmap_tag(), be8(bit_chunk(b)));
}

impl Pmmr {
    fn prune_in(&mut self, data: &[u8], last_pos: u64, txn: &mut LmdbTxn) -> (r: Result<(), Error>)
        requires
            old(self).wf(),
            old(txn).wf(),
            read_u64(old(txn)@, size_key(old(self).prefix())) == Ok::<u64, Error>(last_pos),
        ensures
            *final(self) == *old(self),
            final(txn).wf(),
            final(txn).is_write() == old(txn).is_write(),
            same_outcome(r, prune_effect(old(txn)@, old(self).prefix(), data@, old(txn).is_write()).0),
            final(txn)@ == prune_effect(old(txn)@, old(self).prefix(), data@, old(txn).is_write()).1,
    {
        let ghost prefix = self.prefix();
        let hash = self.hash_data(data);
        let data_k = self.data_key(&hash);
        let pos = match txn.get(data_k.as_slice())? {
            Some(data_bytes) => from_le_bytes_u64(data_bytes)?,
            None => return Err(Error::NotFound),
        };
        if last_pos > 0 && pos == last_pos - 1 {
            // refuse to delete the most recent addition: it would leave an invalid state;
            // append all outputs of a block before pruning its inputs
            return Err(Error::IllegalState);
        }
        let leaf_k = self.leaf_key(pos);
        if !txn.is_write_txn() {
            return Err(Error::IllegalState);
        }
        txn.del(data_k.as_slice())?;
        txn.del(leaf_k.as_slice())?;
        let bit_pos = peak_map_height(pos).0;
        self.update_bit(bit_pos, false, txn)
    }

    /// Prunes the leaf holding `data`: its entry in the data index and its leaf hash are
    /// removed and its bit in the bitmap is cleared (see `prune_effect`). Pruning must not hit
    /// the most recently added leaf: append a block's outputs before pruning its inputs.
    /// Works in the given transaction, or else in one of its own that it commits on success.
    pub fn prune(&mut self, data: &[u8], txn: Option<&mut LmdbTxn>) -> (r: Result<(), Error>)
        requires
            old(self).wf(),
            txn matches Some(t) ==> t.wf(),
        ensures
            final(self).wf(),
            final(self).prefix() == old(self).prefix(),
            match txn {
                Some(t) => *final(self) == *old(self) && final(t).wf() && match read_u64(t@,
                    size_key(old(self).prefix())) {
                    Err(e) => r == Err::<(), Error>(e) && final(t)@ == t@,
                    Ok(_) => same_outcome(r, prune_effect(t@, old(self).prefix(), data@, t.is_write()).0)
                        && final(t)@ == prune_effect(t@, old(self).prefix(), data@, t.is_write()).1,
                },
                None => match read_u64(old(self)@, size_key(old(self).prefix())) {
                    Err(e) => r == Err::<(), Error>(e) && final(self)@ == old(self)@,
                    Ok(_) => same_outcome(r, prune_effect(old(self)@, old(self).prefix(), data@, true).0)
                        && (r is Ok ==> final(self)@ == prune_effect(old(self)@,
                        old(self).prefix(), data@, true).1) && (r is Err ==> final(self)@
                        == old(self)@),
                },
            },
    {
        match txn {
            Some(t) => {
                let last_pos = self.last_pos(Some(&*t))?;
                self.prune_in(data, last_pos, t)
            },
            None => {
                let last_pos = self.last_pos(None)?;
                let mut t = self.db.write()?;
                self.prune_in(data, last_pos, &mut t)?;
                self.db.commit(t)
            },
        }
    }
}

} // verus!
