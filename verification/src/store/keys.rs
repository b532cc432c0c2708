use vstd::prelude::*;
use crate::base::error::Error;
use crate::base::misc::le_value;
use crate::lmdb::txn::copy_bytes;

verus! {

// ---------------------------------------------------------------------------
// Storage keys
// ---------------------------------------------------------------------------

/// The size of one bitmap chunk, in bytes.
pub const BITMAP_SIZE: usize = 4096;

/// A storage key: the prefix, ':', a tag, ':', then the tag's suffix.
pub open spec fn pmmr_key(prefix: Seq<u8>, tag: Seq<u8>, suffix: Seq<u8>) -> Seq<u8> {
    prefix + seq![58u8] + tag + seq![58u8] + suffix
}

/// "leaf"
pub open spec fn leaf_tag() -> Seq<u8> {
    seq![108u8, 101, 97, 102]
}

/// "data"
pub open spec fn data_tag() -> Seq<u8> {
    seq![100u8, 97, 116, 97]
}

/// "node"
pub open spec fn node_tag() -> Seq<u8> {
    seq![110u8, 111, 100, 101]
}

/// "meta"
pub open spec fn meta_tag() -> Seq<u8> {
    seq![109u8, 101, 116, 97]
}

/// "bitmap"
pub open spec fn bitmap_tag() -> Seq<u8> {
    seq![98u8, 105, 116, 109, 97, 112]
}

/// "size"
pub open spec fn size_suffix() -> Seq<u8> {
    seq![115u8, 105, 122, 101]
}

/// "peaks"
pub open spec fn peaks_suffix() -> Seq<u8> {
    seq![112u8, 101, 97, 107, 115]
}

/// The eight big-endian bytes of a `u64`, as used in keys.
pub open spec fn be8(v: u64) -> Seq<u8> {
    crate::base::misc::u64_be_bytes(v)
}

/// Where the hash of the leaf at `pos` is kept.
pub open spec fn leaf_key(prefix: Seq<u8>, pos: u64) -> Seq<u8> {
    pmmr_key(prefix, leaf_tag(), be8(pos))
}

/// Where the hash of the inner node at (`height`, `pos`) is kept.
pub open spec fn node_key(prefix: Seq<u8>, height: u64, pos: u64) -> Seq<u8> {
    pmmr_key(prefix, node_tag(), be8(height) + be8(pos))
}

/// Where the position of the leaf with a given hash is kept.
pub open spec fn data_key(prefix: Seq<u8>, hash: Seq<u8>) -> Seq<u8> {
    pmmr_key(prefix, data_tag(), hash)
}

/// Where the number of nodes is kept.
pub open spec fn size_key(prefix: Seq<u8>) -> Seq<u8> {
    pmmr_key(prefix, meta_tag(), size_suffix())
}

/// Where the encoded peaks are kept.
pub open spec fn peaks_key(prefix: Seq<u8>) -> Seq<u8> {
    pmmr_key(prefix, meta_tag(), peaks_suffix())
}

/// Where bitmap chunk `index` is kept.
pub open spec fn bitmap_key(prefix: Seq<u8>, index: u64) -> Seq<u8> {
    pmmr_key(prefix, bitmap_tag(), be8(index))
}

/// Keys whose tags start differently are different.
pub proof fn lemma_tags_differ(prefix: Seq<u8>, t1: Seq<u8>, s1: Seq<u8>, t2: Seq<u8>, s2: Seq<u8>)
    requires
        t1.len() > 0,
        t2.len() > 0,
        t1[0] != t2[0],
    ensures
        pmmr_key(prefix, t1, s1) != pmmr_key(prefix, t2, s2),
{
    let n = prefix.len() as int;
    assert(pmmr_key(prefix, t1, s1)[n + 1] == t1[0]);
    assert(pmmr_key(prefix, t2, s2)[n + 1] == t2[0]);
}

/// Keys with the same tag and different suffixes are different.
pub proof fn lemma_suffixes_differ(prefix: Seq<u8>, t: Seq<u8>, s1: Seq<u8>, s2: Seq<u8>)
    requires
        s1 != s2,
    ensures
        pmmr_key(prefix, t, s1) != pmmr_key(prefix, t, s2),
{
    let n = (prefix.len() + t.len() + 2) as int;
    if pmmr_key(prefix, t, s1) == pmmr_key(prefix, t, s2) {
        assert(pmmr_key(prefix, t, s1).skip(n) =~= s1);
        assert(pmmr_key(prefix, t, s2).skip(n) =~= s2);
    }
}

/// Different numbers have different big-endian bytes.
pub proof fn lemma_be8_injective(a: u64, b: u64)
    requires
        a != b,
    ensures
        be8(a) != be8(b),
{
    if be8(a) == be8(b) {
        assert(be8(a)[0] == be8(b)[0] && be8(a)[1] == be8(b)[1] && be8(a)[2] == be8(b)[2]
            && be8(a)[3] == be8(b)[3] && be8(a)[4] == be8(b)[4] && be8(a)[5] == be8(b)[5]
            && be8(a)[6] == be8(b)[6] && be8(a)[7] == be8(b)[7]);
        assert(a == b) by (bit_vector)
            requires
                (a >> 56) as u8 == (b >> 56) as u8, (a >> 48) as u8 == (b >> 48) as u8,
                (a >> 40) as u8 == (b >> 40) as u8, (a >> 32) as u8 == (b >> 32) as u8,
                (a >> 24) as u8 == (b >> 24) as u8, (a >> 16) as u8 == (b >> 16) as u8,
                (a >> 8) as u8 == (b >> 8) as u8, a as u8 == b as u8;
    }
}

/// The eight bytes of a number in a key read back big-endian as the number: the most
/// significant byte comes first.
pub proof fn lemma_be8_value(v: u64)
    ensures
        be8(v).len() == 8,
        crate::base::misc::be_value(be8(v)) == v,
{
    crate::base::misc::lemma_be_bytes_u64_roundtrip(v);
}

/// Assembles a key from its parts.
pub fn make_key(prefix: &[u8], tag: &[u8], suffix: &[u8]) -> (r: Vec<u8>)
    ensures
        r@ == pmmr_key(prefix@, tag@, suffix@),
{
    let mut r = copy_bytes(prefix);
    r.push(58u8);
    let mut i: usize = 0;
    let ghost start = r@;
    while i < tag.len()
        invariant
            0 <= i <= tag@.len(),
            r@ == start + tag@.take(i as int),
        decreases tag@.len() - i,
    {
        r.push(tag[i]);
        i += 1;
        assert(r@ =~= start + tag@.take(i as int));
    }
    r.push(58u8);
    let ghost start2 = r@;
    let mut j: usize = 0;
    while j < suffix.len()
        invariant
            0 <= j <= suffix@.len(),
            r@ == start2 + suffix@.take(j as int),
        decreases suffix@.len() - j,
    {
        r.push(suffix[j]);
        j += 1;
        assert(r@ =~= start2 + suffix@.take(j as int));
    }
    assert(tag@.take(tag@.len() as int) =~= tag@);
    assert(suffix@.take(suffix@.len() as int) =~= suffix@);
    assert(r@ =~= pmmr_key(prefix@, tag@, suffix@));
    r
}

pub fn be8_bytes(v: u64) -> (r: [u8; 8])
    ensures
        r@ == be8(v),
{
    let mut b = [0u8; 8];
    crate::base::misc::to_be_bytes_u64(v, &mut b);
    assert(b@ =~= be8(v));
    b
}

pub fn be16_bytes(a: u64, b: u64) -> (r: [u8; 16])
    ensures
        r@ == be8(a) + be8(b),
{
    let x = be8_bytes(a);
    let y = be8_bytes(b);
    let r = [x[0], x[1], x[2], x[3], x[4], x[5], x[6], x[7], y[0], y[1], y[2], y[3], y[4], y[5],
        y[6], y[7]];
    assert(r@ =~= be8(a) + be8(b));
    r
}


// ---------------------------------------------------------------------------
// Reading stored values
// ---------------------------------------------------------------------------

/// A stored little-endian number, 0 when absent; a value shorter than eight bytes is refused.
pub open spec fn read_u64(m: Map<Seq<u8>, Seq<u8>>, k: Seq<u8>) -> Result<u64, Error> {
    if !m.contains_key(k) {
        Ok(0)
    } else if m[k].len() >= 8 {
        Ok(le_value(m[k].take(8)) as u64)
    } else {
        Err(Error::IllegalArgument)
    }
}

/// A stored bitmap chunk, all zeros when absent; a value shorter than a chunk is refused.
pub open spec fn read_chunk(m: Map<Seq<u8>, Seq<u8>>, k: Seq<u8>) -> Result<Seq<u8>, Error> {
    if !m.contains_key(k) {
        Ok(Seq::new(BITMAP_SIZE as nat, |i: int| 0u8))
    } else if m[k].len() >= BITMAP_SIZE {
        Ok(m[k].take(BITMAP_SIZE as int))
    } else {
        Err(Error::OutOfBounds)
    }
}

/// The chunk that holds a bit, the byte within it, and the bit within the byte.
pub open spec fn bit_chunk(bit: u64) -> u64 {
    bit / 32768u64
}

/// The byte within its chunk that holds a bit.
pub open spec fn bit_byte(bit: u64) -> int {
    ((bit / 8u64) % 4096u64) as int
}

/// The bit within its byte.
pub open spec fn bit_offset(bit: u64) -> u8 {
    (bit % 8) as u8
}

/// Whether a bit is set in a chunk.
pub open spec fn chunk_bit(c: Seq<u8>, bit: u64) -> bool {
    (c[bit_byte(bit)] >> bit_offset(bit)) & 1 == 1
}

/// A chunk with one bit set or cleared.
pub open spec fn chunk_with_bit(c: Seq<u8>, bit: u64, value: bool) -> Seq<u8> {
    let b = c[bit_byte(bit)];
    let off = bit_offset(bit);
    c.update(bit_byte(bit), if value { b | (1u8 << off) } else { b & !(1u8 << off) })
}


} // verus!
