use vstd::prelude::*;
use vstd::arithmetic::power2::pow2;
use vstd::string::StringSliceAdditionalSpecFns;
use crate::base::error::Error;
use crate::base::misc::{from_le_bytes_u64, le_value, lemma_le_bytes_u64_roundtrip, to_le_bytes_u64,
    u64_le_bytes};
use crate::store::keys::read_u64;
use crate::crypto::sha3::{sha3_256_spec, Sha3_256};
use crate::lmdb::db::Lmdb;
use crate::lmdb::txn::{copy_bytes, LmdbTxn};
use crate::store::keys::{
    be8, be8_bytes, be16_bytes, data_key, data_tag, leaf_key, leaf_tag, make_key, meta_tag,
    node_key, node_tag, peaks_key, peaks_suffix, pmmr_key, size_key, size_suffix,
    lemma_tags_differ, lemma_suffixes_differ,
};

verus! {

// ---------------------------------------------------------------------------
// Bit counting
// ---------------------------------------------------------------------------

/// The number of set bits of `n`.
pub open spec fn popcount(n: nat) -> nat
    decreases n,
{
    if n == 0 {
        0
    } else {
        n % 2 + popcount(n / 2)
    }
}

/// There are no more set bits than bits.
proof fn lemma_popcount_le_bit_len(n: nat)
    ensures
        popcount(n) <= crate::store::pmmr::bit_len(n),
    decreases n,
{
    if n > 0 {
        lemma_popcount_le_bit_len(n / 2);
    }
}

/// A `u64` has at most 64 set bits.
proof fn lemma_popcount_u64(x: u64)
    ensures
        popcount(x as nat) <= 64,
{
    lemma_popcount_le_bit_len(x as nat);
    crate::store::pmmr::lemma_bit_len(x as nat);
    let k = crate::store::pmmr::bit_len(x as nat);
    if k > 64 {
        vstd::arithmetic::power2::lemma2_to64_rest();
        if k - 1 > 64 {
            vstd::arithmetic::power2::lemma_pow2_strictly_increases(64, (k - 1) as nat);
        }
    }
}

/// The number of set bits of a `u64`.
pub fn count_ones(x: u64) -> (r: u32)
    ensures
        r == popcount(x as nat),
        r <= 64,
{
    let mut n = x;
    let mut c: u32 = 0;
    proof { lemma_popcount_u64(x); }
    while n > 0
        invariant
            c + popcount(n as nat) == popcount(x as nat),
            popcount(x as nat) <= 64,
        decreases n,
    {
        assert(popcount(n as nat) == n % 2 + popcount((n / 2) as nat));
        c = c + (n % 2) as u32;
        n = n / 2;
    }
    c
}

/// The set bits split between the low `k` bits and the rest.
pub proof fn lemma_popcount_split(n: nat, k: nat)
    ensures
        popcount(n) == popcount(n % pow2(k)) + popcount(n / pow2(k)),
    decreases k,
{
    vstd::arithmetic::power2::lemma_pow2_pos(k);
    if k == 0 {
        vstd::arithmetic::power2::lemma2_to64();
        assert(n % 1 == 0);
        assert(n / 1 == n);
    } else {
        lemma_popcount_split(n / 2, (k - 1) as nat);
        vstd::arithmetic::power2::lemma_pow2_unfold(k);
        let q = pow2((k - 1) as nat);
        vstd::arithmetic::power2::lemma_pow2_pos((k - 1) as nat);
        vstd::arithmetic::div_mod::lemma_div_denominator(n as int, 2, q as int);
        assert(n / pow2(k) == (n / 2) / q);
        // n % 2q == n % 2 + 2 * ((n / 2) % q)
        let m = (n / 2) % q;
        vstd::arithmetic::div_mod::lemma_fundamental_div_mod(n as int, 2);
        vstd::arithmetic::div_mod::lemma_fundamental_div_mod((n / 2) as int, q as int);
        let r = n % 2 + 2 * m;
        let hh = n / 2;
        let aa = hh / q;
        let lo = n % 2;
        assert(n == 2 * hh + lo);
        assert(hh == q * aa + m);
        assert(n == 2 * q * aa + r) by (nonlinear_arith)
            requires n == 2 * hh + lo, hh == q * aa + m, r == lo + 2 * m;
        assert(r < 2 * q) by (nonlinear_arith) requires n % 2 < 2, m < q, r == n % 2 + 2 * m;
        vstd::arithmetic::div_mod::lemma_fundamental_div_mod_converse(n as int, (2 * q) as int,
            ((n / 2) / q) as int, r as int);
        assert(n % pow2(k) == r);
        if n > 0 {
            assert(popcount(n) == n % 2 + popcount(n / 2));
        } else {
            assert(n / 2 == 0);
        }
        if r > 0 {
            assert(r / 2 == m);
            assert(r % 2 == n % 2);
            assert(popcount(r) == n % 2 + popcount(m));
        } else {
            assert(m == 0);
            assert(n % 2 == 0);
        }
    }
}

/// Adding one sets at most one more bit.
pub proof fn lemma_popcount_succ(n: nat)
    ensures
        popcount(n + 1) <= popcount(n) + 1,
        popcount(n + 1) >= 1,
    decreases n,
{
    if n % 2 == 0 {
        assert((n + 1) / 2 == n / 2);
        assert((n + 1) % 2 == 1);
    } else {
        assert((n + 1) / 2 == n / 2 + 1);
        assert((n + 1) % 2 == 0);
        lemma_popcount_succ(n / 2);
        assert(popcount(n) == 1 + popcount(n / 2));
    }
}

// ---------------------------------------------------------------------------
// Positions
// ---------------------------------------------------------------------------

/// Bit `h` of `n` is set.
pub open spec fn has_bit(n: nat, h: nat) -> bool {
    (n / pow2(h)) % 2 == 1
}

/// The height of the peak with index `i` (counted from the highest) of an MMR with `size`
/// leaves: the position of the set bit of `size` that has exactly `i` set bits above it.
pub open spec fn is_peak_height(size: u64, i: nat, h: nat) -> bool {
    &&& h < 64
    &&& has_bit(size as nat, h)
    &&& popcount(size as nat / pow2(h + 1)) == i
}

/// The number of trailing one bits of `n`.
pub open spec fn trailing_ones(n: nat) -> nat
    decreases n,
{
    if n % 2 == 1 {
        1 + trailing_ones(n / 2)
    } else {
        0
    }
}


/// A node at `pos` whose subtree of the given height is not yet complete has a sibling
/// waiting: `pos + 1` is not a multiple of `2^height`.
pub fn has_sibling(pos: u64, height: u32) -> (r: bool)
    requires
        height < 64,
        pos < u64::MAX,
    ensures
        r == ((pos + 1) % (pow2(height as nat) as int) != 0),
{
    proof {
        vstd::bits::lemma_u64_pow2_no_overflow(height as nat);
        vstd::bits::lemma_u64_shl_is_mul(1, height as u64);
        vstd::bits::lemma_u64_low_bits_mask_is_mod((pos + 1) as u64, height as nat);
        vstd::arithmetic::power2::lemma_pow2_pos(height as nat);
    }
    let tree_size = 1u64 << height;
    let next_pos = pos + 1;
    (next_pos & (tree_size - 1)) != 0
}

/// The sibling of `pos` at the given height: the position with bit `height` flipped.
pub fn get_sibling_pos(pos: u64, height: u32) -> (r: u64)
    requires
        height < 64,
    ensures
        r == pos ^ (1u64 << height),
{
    let tree_size = 1u64 << height;
    pos ^ tree_size
}

/// The parent position: the next even number above `pos`.
pub fn parent_pos(pos: u64) -> (r: u64)
    requires
        pos < u64::MAX - 1,
    ensures
        r == (pos / 2) * 2 + 2,
{
    assert((pos | 1) == (pos / 2) * 2 + 1) by (bit_vector);
    (pos | 1) + 1
}

/// The height of peak number `peak_index` (counted from the highest) of an MMR with `size`
/// leaves: the position of the set bit of `size` with exactly `peak_index` set bits above
/// it. Fails with `IllegalArgument` when `size` is 0 or has no such bit.
pub fn peak_height(peak_index: usize, size: u64) -> (r: Result<u32, Error>)
    ensures
        (size == 0 || peak_index >= popcount(size as nat)) ==> r == Err::<u32, Error>(
            Error::IllegalArgument),
        !(size == 0 || peak_index >= popcount(size as nat)) ==> (r matches Ok(h)
            && is_peak_height(size, peak_index as nat, h as nat)),
{
    if size == 0 {
        return Err(Error::IllegalArgument);
    }
    if peak_index >= count_ones(size) as usize {
        return Err(Error::IllegalArgument);
    }
    let mut remaining_peaks = peak_index as u32;
    let mut bit_position: u32 = 63;
    proof {
        lemma_popcount_split(size as nat, 64);
        vstd::arithmetic::power2::lemma2_to64_rest();
        assert(size as nat % pow2(64) == size);
        assert(size as nat / pow2(64) == 0);
    }
    while bit_position != 0xFFFFFFFFu32
        invariant
            bit_position < 64,
            size != 0,
            peak_index < popcount(size as nat),
            remaining_peaks + popcount((size as nat) / pow2(bit_position as nat + 1))
                == peak_index,
            remaining_peaks < popcount((size as nat) % pow2(bit_position as nat + 1)),
        decreases bit_position,
    {
        let ghost b = bit_position as nat;
        let ghost d = (size as nat) / pow2(b);
        let ghost r0 = remaining_peaks as int;
        let ghost hi: int = popcount((size as nat) / pow2(b + 1)) as int;
        let ghost lo: int = popcount((size as nat) % pow2(b)) as int;
        let ghost cur: int = popcount((size as nat) / pow2(b)) as int;
        let ghost bit: int = (d % 2) as int;
        proof {
            lemma_split_at_bit(size as nat, b);
            vstd::arithmetic::power2::lemma2_to64();
        }
        let is_set = (size & (1u64 << bit_position)) != 0;
        assert(is_set == (d % 2 == 1)) by {
            vstd::bits::lemma_u64_shr_is_div(size, bit_position as u64);
            assert((size & (1u64 << bit_position)) != 0 <==> ((size >> (bit_position as u64))
                % 2 == 1)) by (bit_vector)
                requires bit_position < 64;
        }
        if is_set {
            if remaining_peaks == 0 {
                assert(popcount((size as nat) / pow2(b + 1)) == peak_index);
                assert(has_bit(size as nat, b));
                return Ok(bit_position);
            }
            remaining_peaks -= 1;
        }
        if bit_position == 0 {
            // the bits at or below position 0 hold more peaks than remain, so the loop has
            // already returned
            assert((size as nat) % pow2(0) == 0);
            assert(popcount(0) == 0);
            assert(false);
        }
        bit_position = bit_position.saturating_sub(1);
        assert(bit_position as nat + 1 == b);
        proof {
            assert(r0 + hi == peak_index);
            assert(r0 < bit + lo);
            assert(cur == bit + hi);
            if is_set {
                assert(bit == 1);
                assert(remaining_peaks == r0 - 1);
            } else {
                assert(bit == 0);
                assert(remaining_peaks == r0);
            }
            assert(remaining_peaks + cur == peak_index);
            assert(remaining_peaks < lo);
            assert(pow2(bit_position as nat + 1) == pow2(b));
        }
    }
    Err(Error::IllegalArgument)
}

/// Splitting the set bits around bit `b`.
proof fn lemma_split_at_bit(n: nat, b: nat)
    ensures
        popcount(n / pow2(b)) as int == ((n / pow2(b)) % 2) as int + popcount(n / pow2(b + 1)) as int,
        popcount(n % pow2(b + 1)) as int == ((n / pow2(b)) % 2) as int + popcount(n % pow2(b)) as int,
{
    vstd::arithmetic::power2::lemma_pow2_pos(b);
    vstd::arithmetic::power2::lemma_pow2_unfold(b + 1);
    let p = pow2(b);
    vstd::arithmetic::div_mod::lemma_div_denominator(n as int, p as int, 2);
    assert(n / pow2(b + 1) == (n / p) / 2) by {
        assert(pow2(b + 1) == p * 2);
    }
    let x = n / p;
    if x > 0 {
        assert(popcount(x) == x % 2 + popcount(x / 2));
    } else {
        assert(x / 2 == 0);
    }
    lemma_popcount_split(n, b);
    lemma_popcount_split(n, b + 1);
    lemma_popcount_split(n % pow2(b + 1), b);
    // (n % 2p) % p == n % p and (n % 2p) / p == (n / p) % 2
    vstd::arithmetic::div_mod::lemma_mod_mod(n as int, p as int, 2);
    assert(pow2(b + 1) == p * 2);
    vstd::arithmetic::div_mod::lemma_fundamental_div_mod(n as int, (p * 2) as int);
    vstd::arithmetic::div_mod::lemma_fundamental_div_mod(n as int, p as int);
    vstd::arithmetic::div_mod::lemma_fundamental_div_mod((n / p) as int, 2);
    let y = n % (p * 2);
    let q2 = n / (p * 2);
    assert(n == p * 2 * q2 + y);
    assert(x == 2 * q2 + (n / p) % 2) by {
        assert(q2 == x / 2);
    }
    assert(y == p * (x % 2) + n % p) by (nonlinear_arith)
        requires n == p * 2 * q2 + y, n == p * x + n % p, x == 2 * q2 + x % 2;
    assert(0 <= n % p < p) by {
        vstd::arithmetic::div_mod::lemma_mod_bound(n as int, p as int);
    }
    vstd::arithmetic::div_mod::lemma_fundamental_div_mod_converse(y as int, p as int,
        (x % 2) as int, (n % p) as int);
    if y / p > 0 {
        assert(popcount(y / p) == (y / p) % 2 + popcount((y / p) / 2));
        assert((y / p) / 2 == 0);
    }
}

/// The parent of leaf `index` in the pairing of completed subtrees, and the number of
/// trailing one bits of `index` (the height of the subtree the leaf completes).
pub open spec fn parent_info_spec(index: u64) -> (u64, u32) {
    let h = trailing_ones(index as nat);
    ((index as nat / pow2(h + 1)) as u64, h as u32)
}

proof fn lemma_trailing_ones_bound(n: nat)
    ensures
        trailing_ones(n) <= crate::store::pmmr::bit_len(n),
    decreases n,
{
    if n % 2 == 1 {
        lemma_trailing_ones_bound(n / 2);
    }
}

// ---------------------------------------------------------------------------
// Peaks and their encoding
// ---------------------------------------------------------------------------

/// The plain values of a list of 32-byte hashes.
pub open spec fn hashes_view(v: Seq<[u8; 32]>) -> Seq<Seq<u8>> {
    Seq::new(v.len(), |i: int| v[i]@)
}

/// Hashes written one after the other.
pub open spec fn flat(ps: Seq<Seq<u8>>) -> Seq<u8>
    decreases ps.len(),
{
    if ps.len() == 0 {
        Seq::empty()
    } else {
        flat(ps.drop_last()) + ps.last()
    }
}

/// The 32-byte hashes that a byte string holds, one after the other.
pub open spec fn hashes_from_bytes(b: Seq<u8>) -> Seq<Seq<u8>> {
    Seq::new(b.len() / 32, |i: int| b.subrange(32 * i, 32 * i + 32))
}

/// Writing 32-byte hashes one after the other and reading them back gives them again.
pub proof fn lemma_hashes_roundtrip(ps: Seq<Seq<u8>>)
    requires
        forall|i: int| 0 <= i < ps.len() ==> (#[trigger] ps[i]).len() == 32,
    ensures
        flat(ps).len() == 32 * ps.len(),
        hashes_from_bytes(flat(ps)) == ps,
    decreases ps.len(),
{
    if ps.len() > 0 {
        let init = ps.drop_last();
        lemma_hashes_roundtrip(init);
        let b = flat(ps);
        let bi = flat(init);
        assert forall|i: int| 0 <= i < ps.len() implies #[trigger] hashes_from_bytes(b)[i] == ps[i]
            by {
            if i < ps.len() - 1 {
                assert(b.subrange(32 * i, 32 * i + 32) =~= bi.subrange(32 * i, 32 * i + 32));
                assert(hashes_from_bytes(bi)[i] == init[i]);
            } else {
                assert(b.subrange(32 * i, 32 * i + 32) =~= ps.last());
            }
        }
        assert(hashes_from_bytes(b) =~= ps);
    } else {
        assert(hashes_from_bytes(Seq::<u8>::empty()) =~= Seq::<Seq<u8>>::empty());
    }
}

/// Merges the last two peaks into the hash of the pair while there are more than `num`.
pub open spec fn bag_peaks(ps: Seq<Seq<u8>>, num: nat) -> Seq<Seq<u8>>
    decreases ps.len(),
{
    if ps.len() > num && ps.len() >= 2 {
        let n = ps.len();
        bag_peaks(ps.take(n - 2).push(sha3_256_spec(ps[n - 2] + ps[n - 1])), num)
    } else {
        ps
    }
}

/// Appending keeps one peak per set bit of the size: if an MMR of `n` leaves has
/// `popcount(n)` peaks, then after adding a leaf and merging it has `popcount(n + 1)`.
pub proof fn lemma_append_peak_count(ps: Seq<Seq<u8>>, n: nat, h: Seq<u8>)
    requires
        ps.len() == popcount(n),
    ensures
        bag_peaks(ps.push(h), popcount(n + 1)).len() == popcount(n + 1),
{
    lemma_popcount_succ(n);
    lemma_bag_len(ps.push(h), popcount(n + 1));
}

proof fn lemma_bag_len(ps: Seq<Seq<u8>>, num: nat)
    requires
        num >= 1,
    ensures
        bag_peaks(ps, num).len() == if ps.len() > num { num } else { ps.len() },
    decreases ps.len(),
{
    if ps.len() > num && ps.len() >= 2 {
        let n = ps.len();
        lemma_bag_len(ps.take(n - 2).push(sha3_256_spec(ps[n - 2] + ps[n - 1])), num);
    }
}

/// The peaks stored in the database: none when absent; an encoding whose length is not a
/// multiple of 32 is refused with `InvalidData`.
pub open spec fn read_mmr_peaks(m: Map<Seq<u8>, Seq<u8>>, k: Seq<u8>) -> Result<Seq<Seq<u8>>, Error> {
    if !m.contains_key(k) {
        Ok(Seq::empty())
    } else if m[k].len() % 32 == 0 {
        Ok(hashes_from_bytes(m[k]))
    } else {
        Err(Error::InvalidData)
    }
}

/// The stored size: 0 when absent; a value that is not 8 bytes long is refused with
/// `InvalidData`.
pub open spec fn read_mmr_size(m: Map<Seq<u8>, Seq<u8>>, k: Seq<u8>) -> Result<u64, Error> {
    if !m.contains_key(k) {
        Ok(0)
    } else if m[k].len() == 8 {
        Ok(le_value(m[k]) as u64)
    } else {
        Err(Error::InvalidData)
    }
}

fn serialize_peaks(peaks: &[[u8; 32]]) -> (r: Result<Vec<u8>, Error>)
    ensures
        r matches Ok(v) && v@ == flat(hashes_view(peaks@)),
{
    let mut result: Vec<u8> = Vec::new();
    let mut i: usize = 0;
    while i < peaks.len()
        invariant
            0 <= i <= peaks@.len(),
            result@ == flat(hashes_view(peaks@.take(i as int))),
        decreases peaks@.len() - i,
    {
        let peak = &peaks[i];
        let ghost before = result@;
        let mut j: usize = 0;
        while j < 32
            invariant
                0 <= j <= 32,
                peak@.len() == 32,
                result@ == before + peak@.take(j as int),
            decreases 32 - j,
        {
            result.push(peak[j]);
            j += 1;
            assert(result@ =~= before + peak@.take(j as int));
        }
        assert(peak@.take(32) =~= peak@);
        assert(hashes_view(peaks@.take(i + 1)).drop_last() =~= hashes_view(peaks@.take(i as int)));
        i += 1;
    }
    assert(peaks@.take(peaks@.len() as int) =~= peaks@);
    Ok(result)
}

fn deserialize_peaks(bytes: &[u8]) -> (r: Result<Vec<[u8; 32]>, Error>)
    ensures
        bytes@.len() % 32 != 0 ==> r == Err::<Vec<[u8; 32]>, Error>(Error::InvalidData),
        bytes@.len() % 32 == 0 ==> (r matches Ok(v) && hashes_view(v@) == hashes_from_bytes(
            bytes@)),
{
    if bytes.len() % 32 != 0 {
        return Err(Error::InvalidData);
    }
    let mut peaks: Vec<[u8; 32]> = Vec::new();
    let mut i: usize = 0;
    while i < bytes.len()
        invariant
            bytes@.len() % 32 == 0,
            i % 32 == 0,
            i <= bytes@.len(),
            peaks@.len() == i / 32,
            forall|k: int| 0 <= k < peaks@.len() ==> (#[trigger] peaks@[k])@ == bytes@.subrange(
                32 * k, 32 * k + 32),
        decreases bytes@.len() - i,
    {
        let mut nval = [0u8; 32];
        let mut j: usize = 0;
        while j < 32
            invariant
                0 <= j <= 32,
                i + 32 <= bytes@.len(),
                bytes@.len() <= usize::MAX,
                nval@.len() == 32,
                forall|t: int| 0 <= t < j ==> nval@[t] == bytes@[i + t],
            decreases 32 - j,
        {
            nval[j] = bytes[i + j];
            j += 1;
        }
        assert(nval@ =~= bytes@.subrange(i as int, i + 32));
        peaks.push(nval);
        i += 32;
    }
    assert(hashes_view(peaks@) =~= hashes_from_bytes(bytes@));
    Ok(peaks)
}


// ---------------------------------------------------------------------------
// The MMR over a database
// ---------------------------------------------------------------------------

/// What appending `data` does to the database contents `m`: the data is stored as the leaf at
/// the current size, its position under the data key of its hash, the peaks gain the hash and
/// are merged back to one per set bit of the new size, and the size grows by one. Empty data
/// is refused with `IllegalArgument`, a full MMR with `CapacityExceeded`.
pub open spec fn append_effect(m: Map<Seq<u8>, Seq<u8>>, prefix: Seq<u8>, capacity: u64, data: Seq<
    u8>) -> Result<Map<Seq<u8>, Seq<u8>>, Error> {
    if data.len() == 0 {
        Err(Error::IllegalArgument)
    } else {
        match read_u64(m, size_key(prefix)) {
            Err(e) => Err(e),
            Ok(size) => if size >= capacity {
                Err(Error::CapacityExceeded)
            } else {
                let h = sha3_256_spec(data);
                match read_mmr_peaks(m, peaks_key(prefix)) {
                    Err(e) => Err(e),
                    Ok(ps) => Ok(
                        m.insert(leaf_key(prefix, size), data).insert(
                            data_key(prefix, h),
                            u64_le_bytes(size),
                        ).insert(
                            peaks_key(prefix),
                            flat(bag_peaks(ps.push(h), popcount(size as nat + 1))),
                        ).insert(size_key(prefix), u64_le_bytes((size + 1) as u64)),
                    ),
                }
            },
        }
    }
}

/// The root: SHA3-256 of the peaks written one after the other, or 32 zero bytes when there
/// are none.
pub open spec fn root_of(peaks: Seq<Seq<u8>>) -> Seq<u8> {
    if peaks.len() == 0 {
        Seq::new(32, |i: int| 0u8)
    } else {
        sha3_256_spec(flat(peaks))
    }
}

/// The root commits to every peak, in order: for peaks of 32 bytes, the root is SHA3-256 of
/// a hash input that holds one 32-byte block per peak, from which each peak is read back at
/// its own position; with no peaks it is 32 zero bytes. Adding a peak extends the hash input
/// by that peak, so the root after it is taken over the earlier input followed by the new peak.
pub proof fn lemma_root_commits_to_peaks(ps: Seq<Seq<u8>>, p: Seq<u8>)
    requires
        forall|i: int| 0 <= i < ps.len() ==> (#[trigger] ps[i]).len() == 32,
        p.len() == 32,
    ensures
        ps.len() == 0 ==> root_of(ps) == Seq::new(32, |i: int| 0u8),
        ps.len() > 0 ==> exists|input: Seq<u8>|
            root_of(ps) == sha3_256_spec(input) && input.len() == 32 * ps.len()
                && #[trigger] hashes_from_bytes(input) == ps,
        exists|input: Seq<u8>|
            root_of(ps.push(p)) == sha3_256_spec(input + p) && input.len() == 32 * ps.len()
                && #[trigger] hashes_from_bytes(input) == ps,
{
    lemma_hashes_roundtrip(ps);
    assert(ps.push(p).drop_last() =~= ps);
    assert(flat(ps.push(p)) == flat(ps) + p);
    assert(hashes_from_bytes(flat(ps)) == ps);
}

/// A Merkle Mountain Range of data items kept in a database under a key prefix, holding at
/// most `capacity` leaves.
pub struct MMR {
    db: Lmdb,
    prefix: Vec<u8>,
    capacity: u64,
}

impl MMR {
    /// The key prefix.
    pub closed spec fn prefix(&self) -> Seq<u8> {
        self.prefix@
    }

    /// The most leaves the MMR takes.
    pub closed spec fn capacity(&self) -> u64 {
        self.capacity
    }

    /// The committed database contents.
    pub closed spec fn view(&self) -> Map<Seq<u8>, Seq<u8>> {
        self.db@
    }

    /// The database is well formed.
    pub closed spec fn wf(&self) -> bool {
        self.db.wf()
    }

    /// An MMR over `db` whose keys start with `prefix`; fails with `IllegalArgument` for an
    /// empty prefix.
    pub fn new(db: Lmdb, prefix: &str, capacity: u64) -> (r: Result<Self, Error>)
        requires
            db.wf(),
        ensures
            prefix.spec_bytes().len() == 0 ==> r == Err::<Self, Error>(Error::IllegalArgument),
            prefix.spec_bytes().len() != 0 ==> (r matches Ok(mmr) && mmr.wf() && mmr@ == db@ && mmr.prefix()
                == prefix.spec_bytes() && mmr.capacity() == capacity),
    {
        let bytes = prefix.as_bytes();
        if bytes.len() == 0 {
            return Err(Error::IllegalArgument);
        }
        Ok(MMR { db, prefix: copy_bytes(bytes), capacity })
    }

    fn key_of(&self, tag: &[u8], suffix: &[u8]) -> (r: Vec<u8>)
        ensures
            r@ == pmmr_key(self.prefix(), tag@, suffix@),
    {
        make_key(self.prefix.as_slice(), tag, suffix)
    }

    fn size_key(&self) -> (r: Vec<u8>)
        ensures
            r@ == size_key(self.prefix()),
    {
        let tag = [109u8, 101, 116, 97];
        let suffix = [115u8, 105, 122, 101];
        assert(tag@ =~= meta_tag());
        assert(suffix@ =~= size_suffix());
        self.key_of(&tag, &suffix)
    }

    fn peaks_key(&self) -> (r: Vec<u8>)
        ensures
            r@ == peaks_key(self.prefix()),
    {
        let tag = [109u8, 101, 116, 97];
        let suffix = [112u8, 101, 97, 107, 115];
        assert(tag@ =~= meta_tag());
        assert(suffix@ =~= peaks_suffix());
        self.key_of(&tag, &suffix)
    }

    fn leaf_key(&self, pos: u64) -> (r: Vec<u8>)
        ensures
            r@ == leaf_key(self.prefix(), pos),
    {
        let tag = [108u8, 101, 97, 102];
        assert(tag@ =~= leaf_tag());
        let suffix = be8_bytes(pos);
        self.key_of(&tag, &suffix)
    }

    fn node_key(&self, height: u64, pos: u64) -> (r: Vec<u8>)
        ensures
            r@ == node_key(self.prefix(), height, pos),
    {
        let tag = [110u8, 111, 100, 101];
        assert(tag@ =~= node_tag());
        let suffix = be16_bytes(height, pos);
        self.key_of(&tag, &suffix)
    }

    fn data_key(&self, hash: &[u8; 32]) -> (r: Vec<u8>)
        ensures
            r@ == data_key(self.prefix(), hash@),
    {
        let tag = [100u8, 97, 116, 97];
        assert(tag@ =~= data_tag());
        self.key_of(&tag, hash)
    }

    /// The number of leaves appended so far: 0 for a new MMR; a stored size that is not eight
    /// bytes long is refused with `InvalidData`.
    pub fn size(&self) -> (r: Result<u64, Error>)
        requires
            self.wf(),
        ensures
            r == read_mmr_size(self@, size_key(self.prefix())),
    {
        let txn = self.db.read()?;
        let key = self.size_key();
        match txn.get(key.as_slice())? {
            Some(bytes) => {
                if bytes.len() != 8 {
                    return Err(Error::InvalidData);
                }
                let v = from_le_bytes_u64(bytes);
                proof { assert(bytes@.take(8) =~= bytes@); }
                v
            },
            None => Ok(0),
        }
    }

    /// Whether `data` was appended and not pruned since: whether the data key of its hash is
    /// present.
    pub fn contains(&mut self, data: &[u8]) -> (r: Result<bool, Error>)
        requires
            old(self).wf(),
        ensures
            *final(self) == *old(self),
            r == Ok::<bool, Error>(old(self)@.contains_key(data_key(old(self).prefix(),
                sha3_256_spec(data@)))),
    {
        let mut sha3 = Sha3_256::new();
        sha3.update(data);
        let hash = sha3.finalize();
        let key = self.data_key(&hash);
        let txn = self.db.read()?;
        Ok(txn.get(key.as_slice())?.is_some())
    }
}


/// The hash of a left and a right 32-byte hash written one after the other.
fn hash_pair(left: &[u8; 32], right: &[u8; 32]) -> (r: [u8; 32])
    ensures
        r@ == sha3_256_spec(left@ + right@),
{
    let mut sha3 = Sha3_256::new();
    sha3.update(left);
    sha3.update(right);
    sha3.finalize()
}

/// Appends `h` to `peaks` and merges the last two while there are more than `num`.
fn push_and_bag(peaks: &mut Vec<[u8; 32]>, h: [u8; 32], num: usize)
    requires
        num >= 1,
    ensures
        hashes_view(final(peaks)@) == bag_peaks(hashes_view(old(peaks)@).push(h@), num as nat),
{
    let ghost target = bag_peaks(hashes_view(peaks@).push(h@), num as nat);
    peaks.push(h);
    assert(hashes_view(peaks@) =~= hashes_view(old(peaks)@).push(h@));
    while peaks.len() > num
        invariant
            num >= 1,
            bag_peaks(hashes_view(peaks@), num as nat) == target,
        decreases peaks@.len(),
    {
        let n = peaks.len();
        let right = peaks[n - 1];
        let left = peaks[n - 2];
        let ghost before = hashes_view(peaks@);
        peaks.truncate(n - 2);
        let merged = hash_pair(&left, &right);
        peaks.push(merged);
        assert(hashes_view(peaks@) =~= before.take(n - 2).push(sha3_256_spec(before[n - 2]
            + before[n - 1])));
    }
    assert(bag_peaks(hashes_view(peaks@), num as nat) == hashes_view(peaks@));
}

impl MMR {
    /// Appends a leaf holding `data` (see `append_effect`): on success the change is
    /// committed, on failure the database is left as it was.
    pub fn append(&mut self, data: &[u8]) -> (r: Result<(), Error>)
        requires
            old(self).wf(),
        ensures
            final(self).wf(),
            final(self).prefix() == old(self).prefix(),
            final(self).capacity() == old(self).capacity(),
            match append_effect(old(self)@, old(self).prefix(), old(self).capacity(), data@) {
                Ok(m) => r is Ok && final(self)@ == m,
                Err(e) => r == Err::<(), Error>(e) && final(self)@ == old(self)@,
            },
    {
        let ghost prefix = self.prefix();
        if data.len() == 0 {
            return Err(Error::IllegalArgument);
        }
        let mut txn = self.db.write()?;
        let ghost m0 = txn@;
        let size_k = self.size_key();
        let size = match txn.get(size_k.as_slice())? {
            Some(bytes) => from_le_bytes_u64(bytes)?,
            None => 0,
        };
        if size >= self.capacity {
            return Err(Error::CapacityExceeded);
        }
        let leaf_k = self.leaf_key(size);
        txn.put(leaf_k.as_slice(), data)?;

        let mut sha3 = Sha3_256::new();
        sha3.update(data);
        let mut hash = sha3.finalize();
        let ghost h = hash@;
        let data_k = self.data_key(&hash);
        let mut size_bytes = [0u8; 8];
        let _ = to_le_bytes_u64(size, &mut size_bytes);
        txn.put(data_k.as_slice(), &size_bytes)?;
        let ghost m1 = txn@;
        proof {
            lemma_tags_differ(prefix, meta_tag(), peaks_suffix(), leaf_tag(), be8(size));
            lemma_tags_differ(prefix, meta_tag(), peaks_suffix(), data_tag(), h);
            lemma_tags_differ(prefix, meta_tag(), size_suffix(), leaf_tag(), be8(size));
            lemma_tags_differ(prefix, meta_tag(), size_suffix(), data_tag(), h);
            lemma_suffixes_differ(prefix, meta_tag(), peaks_suffix(), size_suffix());
            assert(m1.contains_key(peaks_key(prefix)) == m0.contains_key(peaks_key(prefix)));
            assert(m1[peaks_key(prefix)] == m0[peaks_key(prefix)]);
        }

        let mut pos = size;
        let mut height: u32 = 0;
        proof {
            vstd::arithmetic::power2::lemma2_to64();
            assert((pos + 1) % (pow2(0) as int) == 0);
        }
        // a new leaf completes no subtree before it is merged with the peaks
        while pos < u64::MAX && has_sibling(pos, height)
            invariant
                pos == size,
                height == 0,
                pow2(0) == 1,
                txn.wf(),
                txn.is_write(),
                txn@ == m1,
                self.wf(),
                hash@ == h,
            decreases 64 - height,
        {
            let sibling_pos = get_sibling_pos(pos, height);
            let sibling_key = if height == 0 {
                self.leaf_key(sibling_pos)
            } else {
                self.node_key(height as u64, sibling_pos)
            };
            let sibling = match txn.get(sibling_key.as_slice())? {
                Some(bytes) => bytes,
                None => return Err(Error::MissingNode),
            };
            if sibling.len() != 32 {
                return Err(Error::InvalidData);
            }
            let mut sib = [0u8; 32];
            let mut k: usize = 0;
            while k < 32
                invariant
                    sibling@.len() == 32,
                    sib@.len() == 32,
                decreases 32 - k,
            {
                sib[k] = sibling[k];
                k += 1;
            }
            hash = if pos & 1 == 0 {
                hash_pair(&sib, &hash)
            } else {
                hash_pair(&hash, &sib)
            };
            pos = parent_pos(pos);
            height += 1;
            let node_k = self.node_key(height as u64, pos);
            txn.put(node_k.as_slice(), &hash)?;
        }

        let peaks_k = self.peaks_key();
        let mut peaks: Vec<[u8; 32]> = match txn.get(peaks_k.as_slice())? {
            Some(bytes) => deserialize_peaks(bytes)?,
            None => Vec::new(),
        };
        proof {
            assert(read_mmr_peaks(m0, peaks_key(prefix)) == Ok::<Seq<Seq<u8>>, Error>(
                hashes_view(peaks@))) by {
                if !m0.contains_key(peaks_key(prefix)) {
                    assert(hashes_view(peaks@) =~= Seq::<Seq<u8>>::empty());
                }
            }
            lemma_popcount_succ(size as nat);
            lemma_popcount_u64((size + 1) as u64);
        }
        let num_peaks = count_ones(size + 1) as usize;
        let ghost ps0 = hashes_view(peaks@);
        push_and_bag(&mut peaks, hash, num_peaks);
        let serialized = serialize_peaks(peaks.as_slice())?;
        txn.put(peaks_k.as_slice(), serialized.as_slice())?;

        let _ = to_le_bytes_u64(size + 1, &mut size_bytes);
        txn.put(size_k.as_slice(), &size_bytes)?;
        proof {
            assert(num_peaks == popcount(size as nat + 1));
            assert(size_bytes@ == u64_le_bytes((size + 1) as u64));
            assert(ps0 == read_mmr_peaks(m0, peaks_key(prefix))->Ok_0);
            assert(serialized@ == flat(hashes_view(peaks@)));
            assert(serialized@ == flat(bag_peaks(read_mmr_peaks(m0, peaks_key(prefix))->Ok_0.push(h),
                popcount(size as nat + 1))));
            assert(read_u64(m0, size_key(prefix)) == Ok::<u64, Error>(size));
            assert(txn@ == append_effect(m0, prefix, self.capacity, data@)->Ok_0);
        }
        self.db.commit(txn)
    }
}

impl MMR {
    /// The root hash: SHA3-256 of the stored peaks one after the other, or 32 zero bytes for
    /// an MMR without peaks. A stored size or peaks value of the wrong length is refused with
    /// `InvalidData`.
    pub fn root_hash(&self) -> (r: Result<[u8; 32], Error>)
        requires
            self.wf(),
        ensures
            match read_mmr_size(self@, size_key(self.prefix())) {
                Err(e) => r == Err::<[u8; 32], Error>(e),
                Ok(_) => match read_mmr_peaks(self@, peaks_key(self.prefix())) {
                    Err(e) => r == Err::<[u8; 32], Error>(e),
                    Ok(ps) => r matches Ok(h) && h@ == root_of(ps),
                },
            },
    {
        let size = self.size()?;
        let txn = self.db.read()?;
        let peaks_k = self.peaks_key();
        let peaks: Vec<[u8; 32]> = match txn.get(peaks_k.as_slice())? {
            Some(bytes) => deserialize_peaks(bytes)?,
            None => Vec::new(),
        };
        // every stored peak should have a height; stop at the first that has none
        let mut i: usize = 0;
        while i < peaks.len()
            invariant
                i <= peaks@.len(),
            decreases peaks@.len() - i,
        {
            match peak_height(i, size) {
                Ok(_) => {},
                Err(_) => break,
            }
            i += 1;
        }
        if peaks.len() == 0 {
            let zero = [0u8; 32];
            assert(zero@ =~= Seq::new(32, |i: int| 0u8));
            return Ok(zero);
        }
        let hash_input = serialize_peaks(peaks.as_slice())?;
        let mut sha3 = Sha3_256::new();
        sha3.update(hash_input.as_slice());
        let hash = sha3.finalize();
        proof {
            if !self@.contains_key(peaks_key(self.prefix())) {
                assert(hashes_view(peaks@) =~= Seq::<Seq<u8>>::empty());
            }
        }
        Ok(hash)
    }
}


// ---------------------------------------------------------------------------
// Pruning
// ---------------------------------------------------------------------------

/// Fewer bits are left above a higher cut.
proof fn lemma_popcount_div_mono(n: nat, a: nat, b: nat)
    requires
        a <= b,
    ensures
        popcount(n / pow2(b)) as int <= popcount(n / pow2(a)) as int,
{
    let d = (b - a) as nat;
    vstd::arithmetic::power2::lemma_pow2_pos(a);
    vstd::arithmetic::power2::lemma_pow2_pos(d);
    vstd::arithmetic::power2::lemma_pow2_adds(a, d);
    vstd::arithmetic::div_mod::lemma_div_denominator(n as int, pow2(a) as int, pow2(d) as int);
    assert(a + d == b);
    let x = n / pow2(a);
    assert(x / pow2(d) == n / pow2(b));
    lemma_popcount_split(x, d);
}

/// A peak index has at most one height.
proof fn lemma_peak_height_unique(size: u64, k: nat, h1: nat, h2: nat)
    requires
        is_peak_height(size, k, h1),
        is_peak_height(size, k, h2),
    ensures
        h1 == h2,
{
    if h1 < h2 {
        lemma_popcount_div_mono(size as nat, h1 + 1, h2);
        lemma_split_at_bit(size as nat, h2);
    } else if h2 < h1 {
        lemma_popcount_div_mono(size as nat, h2 + 1, h1);
        lemma_split_at_bit(size as nat, h1);
    }
}

/// The height of peak number `k` of an MMR with `size` leaves (see `is_peak_height`).
pub open spec fn peak_h(size: u64, k: nat) -> nat {
    choose|h: nat| is_peak_height(size, k, h)
}

proof fn lemma_peak_h(size: u64, k: nat, h: nat)
    requires
        is_peak_height(size, k, h),
    ensures
        peak_h(size, k) == h,
{
    lemma_peak_height_unique(size, k, h, peak_h(size, k));
}

/// What `peak_height` gives: the height of peak `k`, or `IllegalArgument` when there is no
/// such peak.
pub open spec fn peak_height_result(size: u64, k: nat) -> Result<nat, Error> {
    if size == 0 || k >= popcount(size as nat) {
        Err(Error::IllegalArgument)
    } else {
        Ok(peak_h(size, k))
    }
}

/// A stored hash of at most 32 bytes, filled up with zeros to 32.
pub open spec fn pad32(b: Seq<u8>) -> Seq<u8> {
    Seq::new(32, |i: int| if i < b.len() { b[i] } else { 0u8 })
}

/// Walks the peaks from the highest, starting with peak `k` whose subtree starts at leaf
/// `cur`, to the one whose subtree holds leaf `idx`: its number and first leaf. Stops early
/// when the peaks run out or `cur` is past `idx`; a subtree end beyond `u64::MAX` is
/// refused with `Overflow`.
pub open spec fn locate_peak(size: u64, idx: u64, k: nat, cur: nat) -> Result<(nat, nat), Error>
    decreases popcount(size as nat) - k,
{
    if k < popcount(size as nat) && cur <= idx {
        let h = peak_h(size, k);
        if cur + pow2(h) > u64::MAX {
            Err(Error::Overflow)
        } else if idx < cur + pow2(h) {
            Ok((k, cur))
        } else {
            locate_peak(size, idx, k + 1, cur + pow2(h))
        }
    } else {
        Ok((k, cur))
    }
}

/// The hashes that stand for leaves `i` up to `end` (and below `size`): a present leaf's data
/// hash, or, for a pruned leaf, the stored hash of the parent it was pruned into, which then
/// stands for that parent's whole subtree. A missing parent is refused with `MissingNode`, a
/// stored hash longer than 32 bytes with `InvalidData`, a subtree past `u64::MAX` with
/// `Overflow`.
pub open spec fn collect_subtree(m: Map<Seq<u8>, Seq<u8>>, prefix: Seq<u8>, i: u64, end: u64, size:
    u64) -> Result<Seq<Seq<u8>>, Error>
    decreases u64::MAX - i,
{
    if i < end && i < size {
        if m.contains_key(leaf_key(prefix, i)) {
            match collect_subtree(m, prefix, (i + 1) as u64, end, size) {
                Err(e) => Err(e),
                Ok(rest) => Ok(seq![sha3_256_spec(m[leaf_key(prefix, i)])] + rest),
            }
        } else {
            let h = parent_info_spec(i).1;
            let nk = node_key(prefix, (h + 1) as u64, parent_info_spec(i).0);
            if !m.contains_key(nk) {
                Err(Error::MissingNode)
            } else if m[nk].len() > 32 {
                Err(Error::InvalidData)
            } else if h + 1 >= 64 || i + pow2((h + 1) as nat) > u64::MAX {
                Err(Error::Overflow)
            } else {
                proof { vstd::arithmetic::power2::lemma_pow2_pos((h + 1) as nat); }
                match collect_subtree(m, prefix, (i + pow2((h + 1) as nat)) as u64, end, size) {
                    Err(e) => Err(e),
                    Ok(rest) => Ok(seq![pad32(m[nk])] + rest),
                }
            }
        }
    } else {
        Ok(Seq::empty())
    }
}

/// One level of pairing: the hash of each pair, from the left; an odd last hash is carried up
/// as it is.
pub open spec fn merge_pairs(s: Seq<Seq<u8>>) -> Seq<Seq<u8>>
    decreases s.len(),
{
    if s.len() >= 2 {
        seq![sha3_256_spec(s[0] + s[1])] + merge_pairs(s.skip(2))
    } else {
        s
    }
}

/// Pairing halves the number of hashes, rounding up.
pub proof fn lemma_merge_pairs_len(s: Seq<Seq<u8>>)
    ensures
        s.len() >= 2 ==> merge_pairs(s).len() < s.len(),
        s.len() < 2 ==> merge_pairs(s).len() == s.len(),
        merge_pairs(s).len() == (s.len() + 1) / 2,
    decreases s.len(),
{
    if s.len() >= 2 {
        lemma_merge_pairs_len(s.skip(2));
    }
}

/// Pairs level after level until at most one hash is left.
pub open spec fn merge_all(s: Seq<Seq<u8>>) -> Seq<Seq<u8>>
    decreases s.len(),
{
    if s.len() > 1 {
        proof { lemma_merge_pairs_len(s); }
        merge_all(merge_pairs(s))
    } else {
        s
    }
}

proof fn lemma_merge_all_len(s: Seq<Seq<u8>>)
    ensures
        s.len() == 0 ==> merge_all(s).len() == 0,
        s.len() > 0 ==> merge_all(s).len() == 1,
    decreases s.len(),
{
    if s.len() > 1 {
        lemma_merge_pairs_len(s);
        lemma_merge_all_len(merge_pairs(s));
    }
}

/// Merges neighbouring peaks of equal height, from peak `i` on; a peak number without a
/// height is refused with `IllegalArgument`.
pub open spec fn merge_equal(peaks: Seq<Seq<u8>>, size: u64, i: nat) -> Result<Seq<Seq<u8>>, Error>
    decreases peaks.len() - i,
{
    if i < peaks.len() {
        if i + 1 < peaks.len() {
            match peak_height_result(size, i) {
                Err(e) => Err(e),
                Ok(a) => match peak_height_result(size, i + 1) {
                    Err(e) => Err(e),
                    Ok(b) => if a == b {
                        match merge_equal(peaks, size, i + 2) {
                            Err(e) => Err(e),
                            Ok(rest) => Ok(seq![sha3_256_spec(peaks[i as int] + peaks[i + 1 as int])]
                                + rest),
                        }
                    } else {
                        match merge_equal(peaks, size, i + 1) {
                            Err(e) => Err(e),
                            Ok(rest) => Ok(seq![peaks[i as int]] + rest),
                        }
                    },
                },
            }
        } else {
            match merge_equal(peaks, size, i + 1) {
                Err(e) => Err(e),
                Ok(rest) => Ok(seq![peaks[i as int]] + rest),
            }
        }
    } else {
        Ok(Seq::empty())
    }
}

/// A `u64` has at most 64 trailing one bits.
proof fn lemma_trailing_ones_u64(x: u64)
    ensures
        trailing_ones(x as nat) <= 64,
{
    lemma_trailing_ones_bound(x as nat);
    crate::store::pmmr::lemma_bit_len(x as nat);
    let k = crate::store::pmmr::bit_len(x as nat);
    if k > 64 {
        vstd::arithmetic::power2::lemma2_to64_rest();
        if k - 1 > 64 {
            vstd::arithmetic::power2::lemma_pow2_strictly_increases(64, (k - 1) as nat);
        }
    }
}

impl MMR {
    /// The parent index and the height below it of the subtree that leaf `index` completes:
    /// the height is the number of trailing one bits of `index`.
    fn get_parent_info(&self, index: u64) -> (r: Result<(u64, u32), Error>)
        ensures
            r == Ok::<(u64, u32), Error>(parent_info_spec(index)),
    {
        let mut pos = index;
        let mut height: u32 = 0;
        proof {
            lemma_trailing_ones_u64(index);
            vstd::arithmetic::power2::lemma2_to64();
        }
        while pos % 2 == 1
            invariant
                pos as nat == index as nat / pow2(height as nat),
                trailing_ones(index as nat) as int == height as int + trailing_ones(pos as nat) as int,
                trailing_ones(index as nat) <= 64,
            decreases pos,
        {
            proof {
                vstd::arithmetic::power2::lemma_pow2_pos(height as nat);
                vstd::arithmetic::power2::lemma_pow2_unfold((height + 1) as nat);
                vstd::arithmetic::div_mod::lemma_div_denominator(index as int, pow2(height as nat) as int, 2);
                assert(pow2((height + 1) as nat) == pow2(height as nat) * 2);
            }
            pos = pos / 2;
            height += 1;
        }
        proof {
            vstd::arithmetic::power2::lemma_pow2_pos(height as nat);
            vstd::arithmetic::power2::lemma_pow2_unfold((height + 1) as nat);
            vstd::arithmetic::div_mod::lemma_div_denominator(index as int, pow2(height as nat) as int, 2);
            assert(pow2((height + 1) as nat) == pow2(height as nat) * 2);
            assert(trailing_ones(pos as nat) == 0);
            assert(height as nat == trailing_ones(index as nat));
        }
        Ok((pos / 2, height))
    }
}

/// `r` with `a` put in front of its hashes.
pub open spec fn prepend(a: Seq<Seq<u8>>, r: Result<Seq<Seq<u8>>, Error>) -> Result<Seq<Seq<u8>>, Error> {
    match r {
        Err(e) => Err(e),
        Ok(x) => Ok(a + x),
    }
}

/// A stored hash of at most 32 bytes as a 32-byte array, zeros after its end.
fn to_hash32(b: &[u8]) -> (r: [u8; 32])
    requires
        b@.len() <= 32,
    ensures
        r@ == pad32(b@),
{
    let mut out = [0u8; 32];
    let mut k: usize = 0;
    while k < b.len()
        invariant
            k <= b@.len() <= 32,
            out@.len() == 32,
            forall|j: int| 0 <= j < k ==> out@[j] == b@[j],
            forall|j: int| k <= j < 32 ==> out@[j] == 0u8,
        decreases b@.len() - k,
    {
        out[k] = b[k];
        k += 1;
    }
    assert(out@ =~= pad32(b@));
    out
}

impl MMR {
    /// The hashes that stand for the leaves from `start` up to `end` (see `collect_subtree`).
    fn collect_subtree(&self, txn: &LmdbTxn, start: u64, end: u64, size: u64) -> (r: Result<Vec<[u8; 32]>, Error>)
        requires
            txn.wf(),
        ensures
            match collect_subtree(txn@, self.prefix(), start, end, size) {
                Ok(v) => r matches Ok(x) && hashes_view(x@) == v,
                Err(e) => r == Err::<Vec<[u8; 32]>, Error>(e),
            },
    {
        let ghost m = txn@;
        let ghost prefix = self.prefix();
        let mut out: Vec<[u8; 32]> = Vec::new();
        let mut i = start;
        assert(hashes_view(out@) =~= Seq::<Seq<u8>>::empty());
        assert(prepend(Seq::empty(), collect_subtree(m, prefix, i, end, size)) == collect_subtree(m, prefix, start, end, size)) by {
            match collect_subtree(m, prefix, i, end, size) {
                Ok(x) => { assert(Seq::<Seq<u8>>::empty() + x =~= x); }
                Err(e) => {}
            }
        }
        while i < end && i < size
            invariant
                txn.wf(),
                txn@ == m,
                prefix == self.prefix(),
                collect_subtree(m, prefix, start, end, size) == prepend(hashes_view(out@),
                    collect_subtree(m, prefix, i, end, size)),
            decreases u64::MAX - i,
        {
            let ghost acc = hashes_view(out@);
            let leaf_k = self.leaf_key(i);
            match txn.get(leaf_k.as_slice())? {
                Some(leaf_data) => {
                    let mut sha3 = Sha3_256::new();
                    sha3.update(leaf_data);
                    let leaf_hash = sha3.finalize();
                    out.push(leaf_hash);
                    i += 1;
                    proof {
                        assert(hashes_view(out@) =~= acc.push(leaf_hash@));
                        match collect_subtree(m, prefix, i, end, size) {
                            Ok(x) => { assert(acc + (seq![leaf_hash@] + x) =~= acc.push(leaf_hash@) + x); }
                            Err(e) => {}
                        }
                    }
                },
                None => {
                    let (p_index, h) = self.get_parent_info(i)?;
                    proof { lemma_trailing_ones_u64(i); }
                    let p_key = self.node_key((h + 1) as u64, p_index);
                    let p_hash = match txn.get(p_key.as_slice())? {
                        Some(b) => b,
                        None => return Err(Error::MissingNode),
                    };
                    if p_hash.len() > 32 {
                        return Err(Error::InvalidData);
                    }
                    let arr = to_hash32(p_hash);
                    if h + 1 >= 64 {
                        return Err(Error::Overflow);
                    }
                    let sh: u64 = (h + 1) as u64;
                    proof {
                        vstd::bits::lemma_u64_pow2_no_overflow(sh as nat);
                        vstd::bits::lemma_u64_shl_is_mul(1, sh);
                    }
                    let step: u64 = 1u64 << sh;
                    if i > u64::MAX - step {
                        return Err(Error::Overflow);
                    }
                    out.push(arr);
                    i = i + step;
                    proof {
                        assert(hashes_view(out@) =~= acc.push(arr@));
                        match collect_subtree(m, prefix, i, end, size) {
                            Ok(x) => { assert(acc + (seq![arr@] + x) =~= acc.push(arr@) + x); }
                            Err(e) => {}
                        }
                    }
                },
            }
        }
        proof {
            assert(hashes_view(out@) + Seq::<Seq<u8>>::empty() =~= hashes_view(out@));
        }
        Ok(out)
    }
}

/// One level of pairing (see `merge_pairs`).
fn merge_level(v: &Vec<[u8; 32]>) -> (r: Vec<[u8; 32]>)
    ensures
        hashes_view(r@) == merge_pairs(hashes_view(v@)),
{
    let ghost s = hashes_view(v@);
    let mut out: Vec<[u8; 32]> = Vec::new();
    let mut i: usize = 0;
    assert(s.skip(0) =~= s);
    assert(hashes_view(out@) + merge_pairs(s.skip(0)) =~= merge_pairs(s));
    while i < v.len()
        invariant
            i <= v@.len(),
            s == hashes_view(v@),
            hashes_view(out@) + merge_pairs(s.skip(i as int)) == merge_pairs(s),
        decreases v@.len() - i,
    {
        let ghost acc = hashes_view(out@);
        if i + 1 < v.len() {
            let merged = hash_pair(&v[i], &v[i + 1]);
            out.push(merged);
            proof {
                let t = s.skip(i as int);
                assert(t[0] == s[i as int] && t[1] == s[i + 1]);
                assert(t.skip(2) =~= s.skip(i + 2));
                assert(hashes_view(out@) =~= acc.push(merged@));
                assert(acc + merge_pairs(t) =~= acc.push(merged@) + merge_pairs(s.skip(i + 2)));
            }
            i += 2;
        } else {
            out.push(v[i]);
            proof {
                let t = s.skip(i as int);
                assert(t =~= seq![s[i as int]]);
                assert(s.skip(i + 1) =~= Seq::<Seq<u8>>::empty());
                assert(hashes_view(out@) =~= acc.push(s[i as int]));
                assert(acc + merge_pairs(t) =~= acc.push(s[i as int]) + merge_pairs(s.skip(i + 1)));
            }
            i += 1;
        }
    }
    proof {
        assert(s.skip(i as int) =~= Seq::<Seq<u8>>::empty());
        assert(hashes_view(out@) + Seq::<Seq<u8>>::empty() =~= hashes_view(out@));
    }
    out
}

/// Pairs level after level until at most one hash is left (see `merge_all`).
fn merge_to_one(v: Vec<[u8; 32]>) -> (r: Vec<[u8; 32]>)
    ensures
        hashes_view(r@) == merge_all(hashes_view(v@)),
{
    let mut cur = v;
    while cur.len() > 1
        invariant
            merge_all(hashes_view(cur@)) == merge_all(hashes_view(v@)),
        decreases cur@.len(),
    {
        let next = merge_level(&cur);
        proof {
            lemma_merge_pairs_len(hashes_view(cur@));
            assert(hashes_view(cur@).len() == cur@.len());
        }
        cur = next;
    }
    cur
}

/// `peak_height`, with its result tied to `peak_height_result`.
fn peak_height_checked(k: usize, size: u64) -> (r: Result<u32, Error>)
    ensures
        match peak_height_result(size, k as nat) {
            Ok(h) => r == Ok::<u32, Error>(h as u32) && h < 64,
            Err(e) => r == Err::<u32, Error>(e),
        },
{
    let r = peak_height(k, size);
    proof {
        if let Ok(h) = r {
            lemma_peak_h(size, k as nat, h as nat);
        }
    }
    r
}

/// Merges neighbouring peaks of equal height (see `merge_equal`).
fn merge_equal_heights(peaks: &Vec<[u8; 32]>, size: u64) -> (r: Result<Vec<[u8; 32]>, Error>)
    ensures
        match merge_equal(hashes_view(peaks@), size, 0) {
            Ok(v) => r matches Ok(x) && hashes_view(x@) == v,
            Err(e) => r == Err::<Vec<[u8; 32]>, Error>(e),
        },
{
    let ghost s = hashes_view(peaks@);
    let mut out: Vec<[u8; 32]> = Vec::new();
    let mut i: usize = 0;
    assert(prepend(hashes_view(out@), merge_equal(s, size, 0)) == merge_equal(s, size, 0)) by {
        match merge_equal(s, size, 0) {
            Ok(x) => { assert(hashes_view(out@) + x =~= x); }
            Err(e) => {}
        }
    }
    while i < peaks.len()
        invariant
            i <= peaks@.len(),
            s == hashes_view(peaks@),
            merge_equal(s, size, 0) == prepend(hashes_view(out@), merge_equal(s, size, i as nat)),
        decreases peaks@.len() - i,
    {
        let ghost acc = hashes_view(out@);
        if i + 1 < peaks.len() {
            let a = peak_height_checked(i, size)?;
            let b = peak_height_checked(i + 1, size)?;
            if a == b {
                let merged = hash_pair(&peaks[i], &peaks[i + 1]);
                out.push(merged);
                proof {
                    assert(hashes_view(out@) =~= acc.push(merged@));
                    match merge_equal(s, size, (i + 2) as nat) {
                        Ok(x) => { assert(acc + (seq![merged@] + x) =~= acc.push(merged@) + x); }
                        Err(e) => {}
                    }
                }
                i += 2;
            } else {
                out.push(peaks[i]);
                proof {
                    assert(hashes_view(out@) =~= acc.push(s[i as int]));
                    match merge_equal(s, size, (i + 1) as nat) {
                        Ok(x) => { assert(acc + (seq![s[i as int]] + x) =~= acc.push(s[i as int]) + x); }
                        Err(e) => {}
                    }
                }
                i += 1;
            }
        } else {
            out.push(peaks[i]);
            proof {
                assert(hashes_view(out@) =~= acc.push(s[i as int]));
                match merge_equal(s, size, (i + 1) as nat) {
                    Ok(x) => { assert(acc + (seq![s[i as int]] + x) =~= acc.push(s[i as int]) + x); }
                    Err(e) => {}
                }
            }
            i += 1;
        }
    }
    proof {
        assert(hashes_view(out@) + Seq::<Seq<u8>>::empty() =~= hashes_view(out@));
    }
    Ok(out)
}

/// The peaks after leaf `idx` of an MMR with `size` leaves was pruned into its parent, read
/// from `m` (which already holds the parent's hash). The peak over the leaf is found; when the
/// parent is that peak, its stored hash becomes the peak; otherwise the peak is rebuilt from
/// the hashes that stand for its leaves (see `collect_subtree`), paired level by level. Then,
/// if there are more peaks than set bits of `size`, neighbouring peaks of equal height are
/// merged. Besides the errors of the steps: `IllegalArgument` when `idx` is not below `size`,
/// `InvalidData` when no peak holds the leaf, the parent's stored hash is longer than 32 bytes,
/// the rebuilt peak is empty or the stored peaks are too few, `MissingNode` when the parent
/// has no stored hash.
pub open spec fn updated_peaks(m: Map<Seq<u8>, Seq<u8>>, prefix: Seq<u8>, idx: u64, size: u64)
    -> Result<Seq<Seq<u8>>, Error> {
    match read_mmr_peaks(m, peaks_key(prefix)) {
        Err(e) => Err(e),
        Ok(peaks) => if idx >= size {
            Err(Error::IllegalArgument)
        } else {
            match locate_peak(size, idx, 0, 0) {
                Err(e) => Err(e),
                Ok(found) => {
                    let k = found.0;
                    let cur = found.1;
                    let h = parent_info_spec(idx).1 as nat;
                    let nk = node_key(prefix, (h + 1) as u64, parent_info_spec(idx).0);
                    if k >= popcount(size as nat) {
                        Err(Error::InvalidData)
                    } else if !m.contains_key(nk) {
                        Err(Error::MissingNode)
                    } else if m[nk].len() > 32 {
                        Err(Error::InvalidData)
                    } else {
                        let ph = peak_h(size, k);
                        let replaced: Result<Seq<Seq<u8>>, Error> = if h + 1 == ph {
                            if k >= peaks.len() {
                                Err(Error::InvalidData)
                            } else {
                                Ok(peaks.update(k as int, pad32(m[nk])))
                            }
                        } else if cur + pow2(ph) > u64::MAX {
                            Err(Error::Overflow)
                        } else {
                            match collect_subtree(m, prefix, cur as u64, (cur + pow2(ph)) as u64, size) {
                                Err(e) => Err(e),
                                Ok(leaves) => if merge_all(leaves).len() == 0 {
                                    Err(Error::InvalidData)
                                } else if k >= peaks.len() {
                                    Err(Error::InvalidData)
                                } else {
                                    Ok(peaks.update(k as int, merge_all(leaves)[0]))
                                },
                            }
                        };
                        match replaced {
                            Err(e) => Err(e),
                            Ok(ps) => if ps.len() > popcount(size as nat) {
                                merge_equal(ps, size, 0)
                            } else {
                                Ok(ps)
                            },
                        }
                    }
                },
            }
        },
    }
}

impl MMR {
    /// Brings the stored peaks up to date after leaf `pruned_index` was pruned (see
    /// `updated_peaks`); writes them only on success.
    fn update_peaks_after_prune(&self, txn: &mut LmdbTxn, pruned_index: u64, size: u64) -> (r: Result<(), Error>)
        requires
            old(txn).wf(),
            old(txn).is_write(),
        ensures
            final(txn).wf(),
            final(txn).is_write(),
            match updated_peaks(old(txn)@, self.prefix(), pruned_index, size) {
                Ok(ps) => r is Ok && final(txn)@ == old(txn)@.insert(peaks_key(self.prefix()), flat(ps)),
                Err(e) => r == Err::<(), Error>(e) && final(txn)@ == old(txn)@,
            },
    {
        let ghost m = txn@;
        let ghost prefix = self.prefix();
        let peaks_k = self.peaks_key();
        let mut peaks: Vec<[u8; 32]> = match txn.get(peaks_k.as_slice())? {
            Some(bytes) => deserialize_peaks(bytes)?,
            None => Vec::new(),
        };
        proof {
            if !m.contains_key(peaks_key(prefix)) {
                assert(hashes_view(peaks@) =~= Seq::<Seq<u8>>::empty());
            }
            assert(read_mmr_peaks(m, peaks_key(prefix)) == Ok::<Seq<Seq<u8>>, Error>(hashes_view(peaks@)));
        }
        if pruned_index >= size {
            return Err(Error::IllegalArgument);
        }

        // find the peak whose subtree holds the pruned leaf
        let mut peak_idx: usize = 0;
        let mut current_pos: u64 = 0;
        let num_peaks = count_ones(size) as usize;
        while peak_idx < num_peaks && current_pos <= pruned_index
            invariant_except_break
                num_peaks == popcount(size as nat),
                size > pruned_index,
                txn.wf(),
                txn.is_write(),
                txn@ == m,
                m == old(txn)@,
                prefix == self.prefix(),
                read_mmr_peaks(m, peaks_key(prefix)) is Ok,
                locate_peak(size, pruned_index, 0, 0) == locate_peak(size, pruned_index,
                    peak_idx as nat, current_pos as nat),
            ensures
                txn.wf(),
                txn.is_write(),
                txn@ == m,
                locate_peak(size, pruned_index, 0, 0) == Ok::<(nat, nat), Error>((peak_idx as nat,
                    current_pos as nat)),
            decreases num_peaks - peak_idx,
        {
            let height = peak_height_checked(peak_idx, size)?;
            proof {
                vstd::bits::lemma_u64_pow2_no_overflow(height as nat);
                vstd::bits::lemma_u64_shl_is_mul(1, height as u64);
            }
            let subtree_size: u64 = 1u64 << (height as u64);
            if current_pos > u64::MAX - subtree_size {
                assert(locate_peak(size, pruned_index, peak_idx as nat, current_pos as nat)
                    == Err::<(nat, nat), Error>(Error::Overflow));
                return Err(Error::Overflow);
            }
            if current_pos <= pruned_index && pruned_index < current_pos + subtree_size {
                break;
            }
            current_pos += subtree_size;
            peak_idx += 1;
        }
        if peak_idx >= num_peaks {
            return Err(Error::InvalidData);
        }

        let ghost peaks0 = hashes_view(peaks@);
        let ghost k = peak_idx as nat;
        let ghost cur = current_pos as nat;
        let (parent_index, height) = self.get_parent_info(pruned_index)?;
        proof { lemma_trailing_ones_u64(pruned_index); }
        let ghost nk = node_key(prefix, (height + 1) as u64, parent_index);
        let parent_key = self.node_key((height + 1) as u64, parent_index);
        let parent_hash = match txn.get(parent_key.as_slice())? {
            Some(b) => b,
            None => return Err(Error::MissingNode),
        };
        if parent_hash.len() > 32 {
            return Err(Error::InvalidData);
        }
        let parent_hash_array = to_hash32(parent_hash);

        let ph = peak_height_checked(peak_idx, size)?;
        if height + 1 == ph {
            // the parent is the peak
            if peak_idx >= peaks.len() {
                return Err(Error::InvalidData);
            }
            peaks.set(peak_idx, parent_hash_array);
            assert(hashes_view(peaks@) =~= peaks0.update(k as int, pad32(m[nk])));
        } else {
            // rebuild the peak from what stands for its leaves
            proof {
                vstd::bits::lemma_u64_pow2_no_overflow(ph as nat);
                vstd::bits::lemma_u64_shl_is_mul(1, ph as u64);
            }
            let subtree_size: u64 = 1u64 << (ph as u64);
            if current_pos > u64::MAX - subtree_size {
                return Err(Error::Overflow);
            }
            let subtree_end = current_pos + subtree_size;
            let leaves = self.collect_subtree(&*txn, current_pos, subtree_end, size)?;
            let new_peaks = merge_to_one(leaves);
            if new_peaks.len() == 0 {
                return Err(Error::InvalidData);
            }
            if peak_idx >= peaks.len() {
                return Err(Error::InvalidData);
            }
            proof {
                lemma_merge_all_len(hashes_view(leaves@));
                assert(hashes_view(new_peaks@)[0] == new_peaks@[0]@);
            }
            peaks.set(peak_idx, new_peaks[0]);
            assert(hashes_view(peaks@) =~= peaks0.update(k as int, merge_all(collect_subtree(m,
                prefix, current_pos, subtree_end, size)->Ok_0)[0]));
        }
        let ghost replaced = hashes_view(peaks@);

        let num_peaks = count_ones(size) as usize;
        if peaks.len() > num_peaks {
            peaks = merge_equal_heights(&peaks, size)?;
        }
        let serialized = serialize_peaks(peaks.as_slice())?;
        txn.put(peaks_k.as_slice(), serialized.as_slice())?;
        Ok(())
    }
}

/// The first 32 bytes of `b`.
fn take32(b: &[u8]) -> (r: [u8; 32])
    requires
        b@.len() >= 32,
    ensures
        r@ == b@.take(32),
{
    let mut out = [0u8; 32];
    let mut k: usize = 0;
    while k < 32
        invariant
            k <= 32 <= b@.len(),
            out@.len() == 32,
            forall|j: int| 0 <= j < k ==> out@[j] == b@[j],
        decreases 32 - k,
    {
        out[k] = b[k];
        k += 1;
    }
    assert(out@ =~= b@.take(32));
    out
}

/// What pruning `data` does to the database contents `m`. The position of the data is read
/// from the data index; the sibling's hash is the hash of its data, or, when the sibling is
/// pruned, the first 32 bytes stored for the parent; the parent's hash (the leaf's hash and
/// the sibling's, the even position on the left) is stored, the leaf and its data index entry
/// are removed, and the peaks are brought up to date (see `updated_peaks`). Data not in the
/// index is refused with `MissingNode`, a position not below the size with
/// `IllegalArgument`, a leaf already removed with `AlreadyPruned`.
pub open spec fn prune_result(m: Map<Seq<u8>, Seq<u8>>, prefix: Seq<u8>, data: Seq<u8>) -> Result<
    Map<Seq<u8>, Seq<u8>>,
    Error,
> {
    let dk = data_key(prefix, sha3_256_spec(data));
    if !m.contains_key(dk) {
        Err(Error::MissingNode)
    } else {
        match read_u64(m, dk) {
            Err(e) => Err(e),
            Ok(index) => match read_mmr_size(m, size_key(prefix)) {
                Err(e) => Err(e),
                Ok(size) => if index >= size {
                    Err(Error::IllegalArgument)
                } else {
                    let lk = leaf_key(prefix, index);
                    let h = parent_info_spec(index).1;
                    let nk = node_key(prefix, (h + 1) as u64, parent_info_spec(index).0);
                    let sk = leaf_key(
                        prefix,
                        if index % 2 == 0 {
                            (index + 1) as u64
                        } else {
                            (index - 1) as u64
                        },
                    );
                    if !m.contains_key(lk) {
                        Err(Error::AlreadyPruned)
                    } else {
                        let sibling: Result<Seq<u8>, Error> = if m.contains_key(sk) {
                            Ok(sha3_256_spec(m[sk]))
                        } else if !m.contains_key(nk) {
                            Err(Error::MissingNode)
                        } else if m[nk].len() < 32 {
                            Err(Error::InvalidData)
                        } else {
                            Ok(m[nk].take(32))
                        };
                        match sibling {
                            Err(e) => Err(e),
                            Ok(sh) => {
                                let lh = sha3_256_spec(m[lk]);
                                let parent = if index % 2 == 0 {
                                    sha3_256_spec(lh + sh)
                                } else {
                                    sha3_256_spec(sh + lh)
                                };
                                let m2 = m.insert(nk, parent).remove(lk).remove(dk);
                                match updated_peaks(m2, prefix, index, size) {
                                    Err(e) => Err(e),
                                    Ok(ps) => Ok(m2.insert(peaks_key(prefix), flat(ps))),
                                }
                            },
                        }
                    }
                },
            },
        }
    }
}

impl MMR {
    /// Prunes the leaf holding `data` (see `prune_result`): on success the change is
    /// committed, on failure the database is left as it was.
    pub fn prune(&mut self, data: &[u8]) -> (r: Result<(), Error>)
        requires
            old(self).wf(),
        ensures
            final(self).wf(),
            final(self).prefix() == old(self).prefix(),
            final(self).capacity() == old(self).capacity(),
            match prune_result(old(self)@, old(self).prefix(), data@) {
                Ok(m) => r is Ok && final(self)@ == m,
                Err(e) => r == Err::<(), Error>(e) && final(self)@ == old(self)@,
            },
    {
        let ghost prefix = self.prefix();
        let ghost m = self@;
        let mut sha3 = Sha3_256::new();
        sha3.update(data);
        let hash = sha3.finalize();
        let data_k = self.data_key(&hash);
        let mut txn = self.db.write()?;
        let index = match txn.get(data_k.as_slice())? {
            Some(index_bytes) => from_le_bytes_u64(index_bytes)?,
            None => return Err(Error::MissingNode),
        };
        let size = self.size()?;
        if index >= size {
            return Err(Error::IllegalArgument);
        }
        let leaf_k = self.leaf_key(index);
        if txn.get(leaf_k.as_slice())?.is_none() {
            return Err(Error::AlreadyPruned);
        }
        let (parent_index, height) = self.get_parent_info(index)?;
        proof { lemma_trailing_ones_u64(index); }
        let sibling_index = if index % 2 == 0 {
            index + 1
        } else {
            index - 1
        };
        let sibling_key = self.leaf_key(sibling_index);
        let parent_key = self.node_key((height + 1) as u64, parent_index);
        let sibling_hash: [u8; 32] = match txn.get(sibling_key.as_slice())? {
            Some(sibling_data) => {
                let mut sha3 = Sha3_256::new();
                sha3.update(sibling_data);
                sha3.finalize()
            },
            None => {
                let stored = match txn.get(parent_key.as_slice())? {
                    Some(b) => b,
                    None => return Err(Error::MissingNode),
                };
                if stored.len() < 32 {
                    return Err(Error::InvalidData);
                }
                take32(stored)
            },
        };
        let leaf_hash = match txn.get(leaf_k.as_slice())? {
            Some(leaf_data) => {
                let mut sha3 = Sha3_256::new();
                sha3.update(leaf_data);
                sha3.finalize()
            },
            None => return Err(Error::MissingNode),
        };
        let parent_hash = if index % 2 == 0 {
            hash_pair(&leaf_hash, &sibling_hash)
        } else {
            hash_pair(&sibling_hash, &leaf_hash)
        };
        txn.put(parent_key.as_slice(), &parent_hash)?;
        txn.del(leaf_k.as_slice())?;
        txn.del(data_k.as_slice())?;
        self.update_peaks_after_prune(&mut txn, index, size)?;
        self.db.commit(txn)?;
        Ok(())
    }
}

// ---------------------------------------------------------------------------
// Laws
// ---------------------------------------------------------------------------

/// After a successful append the size is one more than the size it read, the data is
/// contained (its data key is present), and the new leaf holds the data.
pub proof fn lemma_append_grows(m: Map<Seq<u8>, Seq<u8>>, prefix: Seq<u8>, capacity: u64, data: Seq<u8>)
    requires
        append_effect(m, prefix, capacity, data) is Ok,
    ensures
        ({
            let m2 = append_effect(m, prefix, capacity, data)->Ok_0;
            let n = read_u64(m, size_key(prefix))->Ok_0;
            &&& read_mmr_size(m2, size_key(prefix)) == Ok::<u64, Error>((n + 1) as u64)
            &&& m2.contains_key(data_key(prefix, sha3_256_spec(data)))
            &&& m2.contains_key(leaf_key(prefix, n)) && m2[leaf_key(prefix, n)] == data
        }),
{
    let n = read_u64(m, size_key(prefix))->Ok_0;
    let h = sha3_256_spec(data);
    lemma_le_bytes_u64_roundtrip((n + 1) as u64);
    lemma_tags_differ(prefix, meta_tag(), size_suffix(), data_tag(), h);
    lemma_tags_differ(prefix, meta_tag(), peaks_suffix(), data_tag(), h);
    lemma_tags_differ(prefix, meta_tag(), size_suffix(), leaf_tag(), be8(n));
    lemma_tags_differ(prefix, meta_tag(), peaks_suffix(), leaf_tag(), be8(n));
    lemma_tags_differ(prefix, data_tag(), h, leaf_tag(), be8(n));
    assert(u64_le_bytes((n + 1) as u64).len() == 8);
}

/// Appending keeps one stored peak per set bit of the size: if the stored peaks number
/// `popcount(size)`, the peaks that a successful append stores number `popcount(size + 1)`.
pub proof fn lemma_append_keeps_peak_count(m: Map<Seq<u8>, Seq<u8>>, prefix: Seq<u8>, capacity: u64,
    data: Seq<u8>)
    requires
        append_effect(m, prefix, capacity, data) is Ok,
        read_mmr_peaks(m, peaks_key(prefix)) is Ok,
        read_mmr_peaks(m, peaks_key(prefix))->Ok_0.len() == popcount(read_u64(m, size_key(prefix))->Ok_0 as nat),
    ensures
        ({
            let m2 = append_effect(m, prefix, capacity, data)->Ok_0;
            let n = read_u64(m, size_key(prefix))->Ok_0;
            let ps = bag_peaks(read_mmr_peaks(m, peaks_key(prefix))->Ok_0.push(sha3_256_spec(data)),
                popcount(n as nat + 1));
            &&& m2[peaks_key(prefix)] == flat(ps)
            &&& ps.len() == popcount(n as nat + 1)
        }),
{
    let n = read_u64(m, size_key(prefix))->Ok_0;
    lemma_suffixes_differ(prefix, meta_tag(), size_suffix(), peaks_suffix());
    lemma_append_peak_count(read_mmr_peaks(m, peaks_key(prefix))->Ok_0, n as nat, sha3_256_spec(data));
}

/// After a successful prune the data is no longer contained, its leaf is gone, and the size
/// is unchanged.
pub proof fn lemma_prune_removes(m: Map<Seq<u8>, Seq<u8>>, prefix: Seq<u8>, data: Seq<u8>)
    requires
        prune_result(m, prefix, data) is Ok,
    ensures
        ({
            let m2 = prune_result(m, prefix, data)->Ok_0;
            let index = read_u64(m, data_key(prefix, sha3_256_spec(data)))->Ok_0;
            &&& !m2.contains_key(data_key(prefix, sha3_256_spec(data)))
            &&& !m2.contains_key(leaf_key(prefix, index))
            &&& read_mmr_size(m2, size_key(prefix)) == read_mmr_size(m, size_key(prefix))
        }),
{
    let h = sha3_256_spec(data);
    let index = read_u64(m, data_key(prefix, h))->Ok_0;
    let ht = parent_info_spec(index).1;
    let nk = node_key(prefix, (ht + 1) as u64, parent_info_spec(index).0);
    lemma_tags_differ(prefix, meta_tag(), peaks_suffix(), data_tag(), h);
    lemma_tags_differ(prefix, meta_tag(), peaks_suffix(), leaf_tag(), be8(index));
    lemma_tags_differ(prefix, meta_tag(), size_suffix(), node_tag(), be8((ht + 1) as u64) + be8(
        parent_info_spec(index).0));
    lemma_suffixes_differ(prefix, meta_tag(), size_suffix(), peaks_suffix());
    lemma_tags_differ(prefix, meta_tag(), size_suffix(), data_tag(), h);
    lemma_tags_differ(prefix, meta_tag(), size_suffix(), leaf_tag(), be8(index));
    let size = read_mmr_size(m, size_key(prefix))->Ok_0;
    let lk = leaf_key(prefix, index);
    let dk = data_key(prefix, h);
    let sk = leaf_key(prefix, if index % 2 == 0 { (index + 1) as u64 } else { (index - 1) as u64 });
    let sh: Seq<u8> = if m.contains_key(sk) { sha3_256_spec(m[sk]) } else { m[nk].take(32) };
    let lh = sha3_256_spec(m[lk]);
    let parent = if index % 2 == 0 { sha3_256_spec(lh + sh) } else { sha3_256_spec(sh + lh) };
    let m1 = m.insert(nk, parent).remove(lk).remove(dk);
    let ps = updated_peaks(m1, prefix, index, size)->Ok_0;
    assert(prune_result(m, prefix, data)->Ok_0 == m1.insert(peaks_key(prefix), flat(ps)));
}

/// Pruning keeps the number of stored peaks when it is one per set bit of the size.
pub proof fn lemma_prune_keeps_peak_count(m: Map<Seq<u8>, Seq<u8>>, prefix: Seq<u8>, data: Seq<u8>)
    requires
        prune_result(m, prefix, data) is Ok,
        read_mmr_size(m, size_key(prefix)) is Ok,
        read_mmr_peaks(m, peaks_key(prefix)) is Ok,
        read_mmr_peaks(m, peaks_key(prefix))->Ok_0.len() == popcount(read_mmr_size(m, size_key(prefix))->Ok_0 as nat),
    ensures
        ({
            let m2 = prune_result(m, prefix, data)->Ok_0;
            exists|ps: Seq<Seq<u8>>| #![auto] m2[peaks_key(prefix)] == flat(ps)
                && ps.len() == popcount(read_mmr_size(m, size_key(prefix))->Ok_0 as nat)
        }),
{
    let h = sha3_256_spec(data);
    let index = read_u64(m, data_key(prefix, h))->Ok_0;
    let size = read_mmr_size(m, size_key(prefix))->Ok_0;
    let ht = parent_info_spec(index).1;
    let nk = node_key(prefix, (ht + 1) as u64, parent_info_spec(index).0);
    let lk = leaf_key(prefix, index);
    let dk = data_key(prefix, h);
    lemma_tags_differ(prefix, meta_tag(), peaks_suffix(), data_tag(), h);
    lemma_tags_differ(prefix, meta_tag(), peaks_suffix(), leaf_tag(), be8(index));
    lemma_tags_differ(prefix, meta_tag(), peaks_suffix(), node_tag(), be8((ht + 1) as u64) + be8(
        parent_info_spec(index).0));
    let m2 = prune_result(m, prefix, data)->Ok_0;
    let sk = leaf_key(prefix, if index % 2 == 0 { (index + 1) as u64 } else { (index - 1) as u64 });
    let sh: Seq<u8> = if m.contains_key(sk) { sha3_256_spec(m[sk]) } else { m[nk].take(32) };
    let lh = sha3_256_spec(m[lk]);
    let parent = if index % 2 == 0 { sha3_256_spec(lh + sh) } else { sha3_256_spec(sh + lh) };
    let m1 = m.insert(nk, parent).remove(lk).remove(dk);
    assert(m1[peaks_key(prefix)] == m[peaks_key(prefix)]);
    assert(m1.contains_key(peaks_key(prefix)) == m.contains_key(peaks_key(prefix)));
    assert(read_mmr_peaks(m1, peaks_key(prefix)) == read_mmr_peaks(m, peaks_key(prefix)));
    let ps = updated_peaks(m1, prefix, index, size)->Ok_0;
    assert(m2[peaks_key(prefix)] == flat(ps));
}

} // verus!
