use vstd::prelude::*;
use crate::base::error::Error;
use vstd::string::StringSliceAdditionalSpecFns;

verus! {

// ---------------------------------------------------------------------------
// Integers and their byte encodings
// ---------------------------------------------------------------------------

/// The value of a little-endian byte string.
pub open spec fn le_value(s: Seq<u8>) -> nat
    decreases s.len(),
{
    if s.len() == 0 {
        0
    } else {
        s[0] as nat + 256 * le_value(s.drop_first())
    }
}

/// The value of a big-endian byte string.
pub open spec fn be_value(s: Seq<u8>) -> nat
    decreases s.len(),
{
    if s.len() == 0 {
        0
    } else {
        be_value(s.drop_last()) * 256 + s.last() as nat
    }
}

/// The eight little-endian bytes of a `u64`.
pub open spec fn u64_le_bytes(v: u64) -> Seq<u8> {
    seq![v as u8, (v >> 8) as u8, (v >> 16) as u8, (v >> 24) as u8,
         (v >> 32) as u8, (v >> 40) as u8, (v >> 48) as u8, (v >> 56) as u8]
}

/// The four little-endian bytes of a `u32`.
pub open spec fn u32_le_bytes(v: u32) -> Seq<u8> {
    seq![v as u8, (v >> 8) as u8, (v >> 16) as u8, (v >> 24) as u8]
}

/// The eight big-endian bytes of a `u64`.
pub open spec fn u64_be_bytes(v: u64) -> Seq<u8> {
    seq![(v >> 56) as u8, (v >> 48) as u8, (v >> 40) as u8, (v >> 32) as u8,
         (v >> 24) as u8, (v >> 16) as u8, (v >> 8) as u8, v as u8]
}

/// The four big-endian bytes of a `u32`.
pub open spec fn u32_be_bytes(v: u32) -> Seq<u8> {
    seq![(v >> 24) as u8, (v >> 16) as u8, (v >> 8) as u8, v as u8]
}

/// The two big-endian bytes of a `u16`.
pub open spec fn u16_be_bytes(v: u16) -> Seq<u8> {
    seq![(v >> 8) as u8, v as u8]
}

/// The sixteen big-endian bytes of a `u128`.
pub open spec fn u128_be_bytes(v: u128) -> Seq<u8> {
    seq![(v >> 120) as u8, (v >> 112) as u8, (v >> 104) as u8, (v >> 96) as u8,
         (v >> 88) as u8, (v >> 80) as u8, (v >> 72) as u8, (v >> 64) as u8,
         (v >> 56) as u8, (v >> 48) as u8, (v >> 40) as u8, (v >> 32) as u8,
         (v >> 24) as u8, (v >> 16) as u8, (v >> 8) as u8, v as u8]
}

/// What writing a fixed-width encoding `enc` at the front of `old` leaves: the encoding
/// replaces the first bytes when it fits, and nothing changes when it does not.
pub open spec fn write_front(old: Seq<u8>, enc: Seq<u8>) -> Seq<u8> {
    if old.len() >= enc.len() {
        enc + old.skip(enc.len() as int)
    } else {
        old
    }
}

proof fn lemma_le_value_8(s: Seq<u8>)
    requires s.len() == 8,
    ensures le_value(s) == s[0] + 256 * (s[1] + 256 * (s[2] + 256 * (s[3] + 256 * (s[4]
        + 256 * (s[5] + 256 * (s[6] + 256 * (s[7] as nat))))))),
{
    reveal_with_fuel(le_value, 9);
    assert(s.drop_first()[0] == s[1]);
    assert(s.drop_first().drop_first()[0] == s[2]);
    assert(s.drop_first().drop_first().drop_first()[0] == s[3]);
    assert(s.drop_first().drop_first().drop_first().drop_first()[0] == s[4]);
    assert(s.drop_first().drop_first().drop_first().drop_first().drop_first()[0] == s[5]);
    assert(s.drop_first().drop_first().drop_first().drop_first().drop_first().drop_first()[0]
        == s[6]);
    assert(s.drop_first().drop_first().drop_first().drop_first().drop_first().drop_first()
        .drop_first()[0] == s[7]);
    assert(s.drop_first().drop_first().drop_first().drop_first().drop_first().drop_first()
        .drop_first().drop_first().len() == 0);
}

proof fn lemma_le_value_4(s: Seq<u8>)
    requires s.len() == 4,
    ensures le_value(s) == s[0] + 256 * (s[1] + 256 * (s[2] + 256 * (s[3] as nat))),
{
    reveal_with_fuel(le_value, 5);
    assert(s.drop_first()[0] == s[1]);
    assert(s.drop_first().drop_first()[0] == s[2]);
    assert(s.drop_first().drop_first().drop_first()[0] == s[3]);
    assert(s.drop_first().drop_first().drop_first().drop_first().len() == 0);
}

/// Writes `value` into `bytes` as eight little-endian bytes.
/// Fails with `IllegalArgument`, leaving `bytes` as it was, unless `bytes` is exactly 8 long.
pub fn to_le_bytes_u64(value: u64, bytes: &mut [u8]) -> (r: Result<(), Error>)
    ensures
        old(bytes)@.len() == 8 ==> r is Ok && final(bytes)@ == u64_le_bytes(value),
        old(bytes)@.len() != 8 ==> r == Err::<(), Error>(Error::IllegalArgument)
            && final(bytes)@ == old(bytes)@,
{
    if bytes.len() == 8 {
        bytes[0] = value as u8;
        bytes[1] = (value >> 8) as u8;
        bytes[2] = (value >> 16) as u8;
        bytes[3] = (value >> 24) as u8;
        bytes[4] = (value >> 32) as u8;
        bytes[5] = (value >> 40) as u8;
        bytes[6] = (value >> 48) as u8;
        bytes[7] = (value >> 56) as u8;
        assert(bytes@ =~= u64_le_bytes(value));
        Ok(())
    } else {
        Err(Error::IllegalArgument)
    }
}

/// Reads a `u64` from the first eight bytes of `bytes`, least significant byte first.
/// Fails with `IllegalArgument` when fewer than eight bytes are given.
pub fn from_le_bytes_u64(bytes: &[u8]) -> (r: Result<u64, Error>)
    ensures
        bytes@.len() >= 8 ==> r == Ok::<u64, Error>(le_value(bytes@.take(8)) as u64)
            && le_value(bytes@.take(8)) <= u64::MAX,
        bytes@.len() < 8 ==> r == Err::<u64, Error>(Error::IllegalArgument),
{
    if bytes.len() >= 8 {
        let b0 = bytes[0];
        let b1 = bytes[1];
        let b2 = bytes[2];
        let b3 = bytes[3];
        let b4 = bytes[4];
        let b5 = bytes[5];
        let b6 = bytes[6];
        let b7 = bytes[7];
        let v = (b0 as u64) | ((b1 as u64) << 8) | ((b2 as u64) << 16) | ((b3 as u64) << 24)
            | ((b4 as u64) << 32) | ((b5 as u64) << 40) | ((b6 as u64) << 48) | ((b7 as u64)
            << 56);
        proof {
            lemma_le_value_8(bytes@.take(8));
            assert(v == b0 + 256 * (b1 + 256 * (b2 + 256 * (b3 + 256 * (b4 + 256 * (b5 + 256
                * (b6 + 256 * (b7 as nat)))))))) by (bit_vector)
                requires
                    v == (b0 as u64) | ((b1 as u64) << 8) | ((b2 as u64) << 16) | ((b3 as u64)
                        << 24) | ((b4 as u64) << 32) | ((b5 as u64) << 40) | ((b6 as u64) << 48)
                        | ((b7 as u64) << 56),
            ;
        }
        Ok(v)
    } else {
        Err(Error::IllegalArgument)
    }
}

/// Reads a `u32` from the first four bytes of `bytes`, least significant byte first.
/// Fails with `IllegalArgument` when fewer than four bytes are given.
pub fn from_le_bytes_u32(bytes: &[u8]) -> (r: Result<u32, Error>)
    ensures
        bytes@.len() >= 4 ==> r == Ok::<u32, Error>(le_value(bytes@.take(4)) as u32)
            && le_value(bytes@.take(4)) <= u32::MAX,
        bytes@.len() < 4 ==> r == Err::<u32, Error>(Error::IllegalArgument),
{
    if bytes.len() >= 4 {
        let b0 = bytes[0];
        let b1 = bytes[1];
        let b2 = bytes[2];
        let b3 = bytes[3];
        let v = (b0 as u32) | ((b1 as u32) << 8) | ((b2 as u32) << 16) | ((b3 as u32) << 24);
        proof {
            lemma_le_value_4(bytes@.take(4));
            assert(v == b0 + 256 * (b1 + 256 * (b2 + 256 * (b3 as nat)))) by (bit_vector)
                requires
                    v == (b0 as u32) | ((b1 as u32) << 8) | ((b2 as u32) << 16) | ((b3 as u32)
                        << 24),
            ;
        }
        Ok(v)
    } else {
        Err(Error::IllegalArgument)
    }
}

/// Writes `value` into the first four bytes of `bytes`, least significant byte first.
/// Fails with `IllegalArgument`, leaving `bytes` as it was, when fewer than four bytes are given.
pub fn to_le_bytes_u32(value: u32, bytes: &mut [u8]) -> (r: Result<(), Error>)
    ensures
        old(bytes)@.len() >= 4 ==> r is Ok && final(bytes)@ == write_front(old(bytes)@,
            u32_le_bytes(value)),
        old(bytes)@.len() < 4 ==> r == Err::<(), Error>(Error::IllegalArgument)
            && final(bytes)@ == old(bytes)@,
{
    if bytes.len() >= 4 {
        bytes[0] = value as u8;
        bytes[1] = (value >> 8) as u8;
        bytes[2] = (value >> 16) as u8;
        bytes[3] = (value >> 24) as u8;
        assert(bytes@ =~= write_front(old(bytes)@, u32_le_bytes(value)));
        Ok(())
    } else {
        Err(Error::IllegalArgument)
    }
}

/// Writes `value` big-endian into the first eight bytes of `bytes`; does nothing when
/// `bytes` is shorter.
pub fn to_be_bytes_u64(value: u64, bytes: &mut [u8])
    ensures
        final(bytes)@ == write_front(old(bytes)@, u64_be_bytes(value)),
{
    if bytes.len() >= 8 {
        bytes[0] = (value >> 56) as u8;
        bytes[1] = (value >> 48) as u8;
        bytes[2] = (value >> 40) as u8;
        bytes[3] = (value >> 32) as u8;
        bytes[4] = (value >> 24) as u8;
        bytes[5] = (value >> 16) as u8;
        bytes[6] = (value >> 8) as u8;
        bytes[7] = value as u8;
        assert(bytes@ =~= write_front(old(bytes)@, u64_be_bytes(value)));
    }
}

/// Writes `value` big-endian into the first four bytes of `bytes`; does nothing when
/// `bytes` is shorter.
pub fn to_be_bytes_u32(value: u32, bytes: &mut [u8])
    ensures
        final(bytes)@ == write_front(old(bytes)@, u32_be_bytes(value)),
{
    if bytes.len() >= 4 {
        bytes[0] = (value >> 24) as u8;
        bytes[1] = (value >> 16) as u8;
        bytes[2] = (value >> 8) as u8;
        bytes[3] = value as u8;
        assert(bytes@ =~= write_front(old(bytes)@, u32_be_bytes(value)));
    }
}

/// Writes `value` big-endian into the first two bytes of `bytes`; does nothing when
/// `bytes` is shorter.
pub fn to_be_bytes_u16(value: u16, bytes: &mut [u8])
    ensures
        final(bytes)@ == write_front(old(bytes)@, u16_be_bytes(value)),
{
    if bytes.len() >= 2 {
        bytes[0] = (value >> 8) as u8;
        bytes[1] = value as u8;
        assert(bytes@ =~= write_front(old(bytes)@, u16_be_bytes(value)));
    }
}

/// Writes `value` big-endian into the first sixteen bytes of `bytes`; does nothing when
/// `bytes` is shorter.
pub fn to_be_bytes_u128(value: u128, bytes: &mut [u8])
    ensures
        final(bytes)@ == write_front(old(bytes)@, u128_be_bytes(value)),
{
    if bytes.len() >= 16 {
        bytes[0] = (value >> 120) as u8;
        bytes[1] = (value >> 112) as u8;
        bytes[2] = (value >> 104) as u8;
        bytes[3] = (value >> 96) as u8;
        bytes[4] = (value >> 88) as u8;
        bytes[5] = (value >> 80) as u8;
        bytes[6] = (value >> 72) as u8;
        bytes[7] = (value >> 64) as u8;
        bytes[8] = (value >> 56) as u8;
        bytes[9] = (value >> 48) as u8;
        bytes[10] = (value >> 40) as u8;
        bytes[11] = (value >> 32) as u8;
        bytes[12] = (value >> 24) as u8;
        bytes[13] = (value >> 16) as u8;
        bytes[14] = (value >> 8) as u8;
        bytes[15] = value as u8;
        assert(bytes@ =~= write_front(old(bytes)@, u128_be_bytes(value)));
    }
}

/// Reading back eight little-endian bytes written from a `u64` gives the `u64` again.
pub proof fn lemma_le_bytes_u64_roundtrip(v: u64)
    ensures
        le_value(u64_le_bytes(v)) == v,
{
    let s = u64_le_bytes(v);
    lemma_le_value_8(s);
    let (b0, b1, b2, b3, b4, b5, b6, b7) = (v as u8, (v >> 8) as u8, (v >> 16) as u8,
        (v >> 24) as u8, (v >> 32) as u8, (v >> 40) as u8, (v >> 48) as u8, (v >> 56) as u8);
    assert(v == b0 + 256 * (b1 + 256 * (b2 + 256 * (b3 + 256 * (b4 + 256 * (b5 + 256 * (b6
        + 256 * (b7 as nat)))))))) by (bit_vector)
        requires
            b0 == v as u8, b1 == (v >> 8) as u8, b2 == (v >> 16) as u8, b3 == (v >> 24) as u8,
            b4 == (v >> 32) as u8, b5 == (v >> 40) as u8, b6 == (v >> 48) as u8,
            b7 == (v >> 56) as u8,
    ;
}

/// Reading back four little-endian bytes written from a `u32` gives the `u32` again.
pub proof fn lemma_le_bytes_u32_roundtrip(v: u32)
    ensures
        le_value(u32_le_bytes(v)) == v,
{
    let s = u32_le_bytes(v);
    lemma_le_value_4(s);
    let (b0, b1, b2, b3) = (v as u8, (v >> 8) as u8, (v >> 16) as u8, (v >> 24) as u8);
    assert(v == b0 + 256 * (b1 + 256 * (b2 + 256 * (b3 as nat)))) by (bit_vector)
        requires
            b0 == v as u8, b1 == (v >> 8) as u8, b2 == (v >> 16) as u8, b3 == (v >> 24) as u8,
    ;
}

/// The value of eight big-endian bytes, byte by byte.
proof fn lemma_be_value_8(s: Seq<u8>)
    requires s.len() == 8,
    ensures be_value(s) == ((((((s[0] as nat * 256 + s[1]) * 256 + s[2]) * 256 + s[3]) * 256 + s[4])
        * 256 + s[5]) * 256 + s[6]) * 256 + s[7],
{
    reveal_with_fuel(be_value, 9);
    let s7 = s.drop_last();
    let s6 = s7.drop_last();
    let s5 = s6.drop_last();
    let s4 = s5.drop_last();
    let s3 = s4.drop_last();
    let s2 = s3.drop_last();
    let s1 = s2.drop_last();
    assert(s1.drop_last().len() == 0);
    assert(s1.last() == s[0] && s2.last() == s[1] && s3.last() == s[2] && s4.last() == s[3]);
    assert(s5.last() == s[4] && s6.last() == s[5] && s7.last() == s[6]);
}

/// The value of four big-endian bytes, byte by byte.
proof fn lemma_be_value_4(s: Seq<u8>)
    requires s.len() == 4,
    ensures be_value(s) == ((s[0] as nat * 256 + s[1]) * 256 + s[2]) * 256 + s[3],
{
    reveal_with_fuel(be_value, 5);
    let s3 = s.drop_last();
    let s2 = s3.drop_last();
    let s1 = s2.drop_last();
    assert(s1.drop_last().len() == 0);
    assert(s1.last() == s[0] && s2.last() == s[1] && s3.last() == s[2]);
}

/// Reading back eight big-endian bytes written from a `u64` gives the `u64` again: the most
/// significant byte comes first.
pub proof fn lemma_be_bytes_u64_roundtrip(v: u64)
    ensures
        be_value(u64_be_bytes(v)) == v,
{
    let s = u64_be_bytes(v);
    lemma_be_value_8(s);
    let (b0, b1, b2, b3, b4, b5, b6, b7) = ((v >> 56) as u8, (v >> 48) as u8, (v >> 40) as u8,
        (v >> 32) as u8, (v >> 24) as u8, (v >> 16) as u8, (v >> 8) as u8, v as u8);
    assert(v == ((((((b0 as nat * 256 + b1) * 256 + b2) * 256 + b3) * 256 + b4) * 256 + b5) * 256
        + b6) * 256 + b7) by (bit_vector)
        requires
            b0 == (v >> 56) as u8, b1 == (v >> 48) as u8, b2 == (v >> 40) as u8,
            b3 == (v >> 32) as u8, b4 == (v >> 24) as u8, b5 == (v >> 16) as u8,
            b6 == (v >> 8) as u8, b7 == v as u8,
    ;
}

/// Reading back four big-endian bytes written from a `u32` gives the `u32` again: the most
/// significant byte comes first.
pub proof fn lemma_be_bytes_u32_roundtrip(v: u32)
    ensures
        be_value(u32_be_bytes(v)) == v,
{
    let s = u32_be_bytes(v);
    lemma_be_value_4(s);
    let (b0, b1, b2, b3) = ((v >> 24) as u8, (v >> 16) as u8, (v >> 8) as u8, v as u8);
    assert(v == ((b0 as nat * 256 + b1) * 256 + b2) * 256 + b3) by (bit_vector)
        requires
            b0 == (v >> 24) as u8, b1 == (v >> 16) as u8, b2 == (v >> 8) as u8, b3 == v as u8,
    ;
}

/// Compares two 256-bit numbers written big-endian: true when `value <= max_value`.
pub fn u256_less_than_or_equal(max_value: &[u8; 32], value: &[u8; 32]) -> (r: bool)
    ensures
        r == (be_value(value@) <= be_value(max_value@)),
{
    let mut i: usize = 0;
    while i < 32
        invariant
            0 <= i <= 32,
            max_value@.len() == 32,
            value@.len() == 32,
            value@.take(i as int) == max_value@.take(i as int),
        decreases 32 - i,
    {
        let m = max_value[i];
        let v = value[i];
        if v < m {
            proof { lemma_be_first_difference(value@, max_value@, i as int); }
            return true;
        }
        if v > m {
            proof { lemma_be_first_difference(max_value@, value@, i as int); }
            return false;
        }
        assert(value@.take(i + 1) =~= value@.take(i as int).push(v));
        assert(max_value@.take(i + 1) =~= max_value@.take(i as int).push(m));
        i += 1;
    }
    assert(value@ =~= value@.take(32));
    assert(max_value@ =~= max_value@.take(32));
    true
}

/// Big-endian values are bounded by the length.
proof fn lemma_be_value_bound(s: Seq<u8>)
    ensures
        be_value(s) < vstd::arithmetic::power::pow(256, s.len()),
    decreases s.len(),
{
    vstd::arithmetic::power::lemma_pow_positive(256, s.len());
    if s.len() > 0 {
        lemma_be_value_bound(s.drop_last());
        vstd::arithmetic::power::lemma_pow_adds(256, (s.len() - 1) as nat, 1);
        vstd::arithmetic::power::lemma_pow1(256);
        let p = vstd::arithmetic::power::pow(256, (s.len() - 1) as nat);
        let x = be_value(s.drop_last());
        let l = s.last() as int;
        assert(x * 256 + l < p * 256) by (nonlinear_arith)
            requires x < p, 0 <= l < 256;
    }
}

/// The big-endian value of a concatenation.
proof fn lemma_be_value_append(a: Seq<u8>, b: Seq<u8>)
    ensures
        be_value(a + b) == be_value(a) * vstd::arithmetic::power::pow(256, b.len()) + be_value(b),
    decreases b.len(),
{
    if b.len() == 0 {
        assert(a + b =~= a);
        vstd::arithmetic::power::lemma_pow0(256);
    } else {
        assert((a + b).drop_last() =~= a + b.drop_last());
        lemma_be_value_append(a, b.drop_last());
        vstd::arithmetic::power::lemma_pow_adds(256, (b.len() - 1) as nat, 1);
        vstd::arithmetic::power::lemma_pow1(256);
        let p = vstd::arithmetic::power::pow(256, (b.len() - 1) as nat);
        let x = be_value(a);
        let y = be_value(b.drop_last());
        assert((x * p + y) * 256 == x * (p * 256) + y * 256) by (nonlinear_arith);
    }
}

/// When two equal-length byte strings first differ at `i` with `a[i] < b[i]`, `a` is smaller.
proof fn lemma_be_first_difference(a: Seq<u8>, b: Seq<u8>, i: int)
    requires
        a.len() == b.len(),
        0 <= i < a.len(),
        a.take(i) == b.take(i),
        a[i] < b[i],
    ensures
        be_value(a) < be_value(b),
{
    let ta = a.skip(i + 1);
    let tb = b.skip(i + 1);
    let n = ta.len();
    assert(a =~= a.take(i).push(a[i]) + ta);
    assert(b =~= b.take(i).push(b[i]) + tb);
    lemma_be_value_append(a.take(i).push(a[i]), ta);
    lemma_be_value_append(b.take(i).push(b[i]), tb);
    assert(a.take(i).push(a[i]).drop_last() =~= a.take(i));
    assert(b.take(i).push(b[i]).drop_last() =~= b.take(i));
    lemma_be_value_bound(ta);
    vstd::arithmetic::power::lemma_pow_positive(256, n);
    let p = vstd::arithmetic::power::pow(256, n);
    let h = be_value(a.take(i));
    let xa = a[i] as int;
    let xb = b[i] as int;
    let ra = be_value(ta);
    let rb = be_value(tb);
    assert((h * 256 + xa) * p + ra < (h * 256 + xb) * p + rb) by (nonlinear_arith)
        requires xa < xb, 0 <= ra < p, 0 <= rb, p > 0;
}


// ---------------------------------------------------------------------------
// Hex encoding
// ---------------------------------------------------------------------------

/// The lower-case hex digit of a nibble.
pub open spec fn hex_digit(n: int) -> u8 {
    if n < 10 {
        (n + 48) as u8
    } else {
        (n + 87) as u8
    }
}

/// The lower-case hex encoding of a byte string, two digits per byte, high nibble first.
pub open spec fn is_hex_of(hex: Seq<u8>, bytes: Seq<u8>) -> bool {
    &&& hex.len() == 2 * bytes.len()
    &&& forall|i: int| 0 <= i < bytes.len() ==> {
        &&& #[trigger] hex[2 * i] == hex_digit(bytes[i] as int / 16)
        &&& hex[2 * i + 1] == hex_digit(bytes[i] as int % 16)
    }
}

/// A hex encoding is ASCII.
pub proof fn lemma_hex_ascii(hex: Seq<u8>, bytes: Seq<u8>)
    requires
        is_hex_of(hex, bytes),
    ensures
        forall|j: int| 0 <= j < hex.len() ==> #[trigger] hex[j] < 128,
{
    assert forall|j: int| 0 <= j < hex.len() implies #[trigger] hex[j] < 128 by {
        let i = j / 2;
        assert(0 <= i < bytes.len());
        assert(hex[2 * i] == hex_digit(bytes[i] as int / 16));
        if j % 2 == 1 {
            assert(j == 2 * i + 1);
        } else {
            assert(j == 2 * i);
        }
    }
}

fn nibble_to_hex(nibble: u8) -> (r: u8)
    requires
        nibble < 16,
    ensures
        r == hex_digit(nibble as int),
{
    if nibble < 10 {
        nibble + 48
    } else {
        nibble + 87
    }
}

/// Lower-case hex encoding of a 33-byte value.
pub fn bytes_to_hex_33(bytes: &[u8; 33]) -> (hex: [u8; 66])
    ensures
        is_hex_of(hex@, bytes@),
{
    let mut hex = [0u8; 66];
    let mut i: usize = 0;
    while i < 33
        invariant
            0 <= i <= 33,
            hex@.len() == 66,
            bytes@.len() == 33,
            forall|k: int| 0 <= k < i ==> {
                &&& #[trigger] hex@[2 * k] == hex_digit(bytes@[k] as int / 16)
                &&& hex@[2 * k + 1] == hex_digit(bytes@[k] as int % 16)
            },
        decreases 33 - i,
    {
        let byte = bytes[i];
        let high = (byte >> 4) & 0x0F;
        let low = byte & 0x0F;
        assert(high == byte / 16 && low == byte % 16) by (bit_vector)
            requires high == (byte >> 4) & 0x0F, low == byte & 0x0F;
        let ghost prev = hex@;
        hex[2 * i] = nibble_to_hex(high);
        hex[2 * i + 1] = nibble_to_hex(low);
        assert forall|k: int| 0 <= k < i + 1 implies {
            &&& #[trigger] hex@[2 * k] == hex_digit(bytes@[k] as int / 16)
            &&& hex@[2 * k + 1] == hex_digit(bytes@[k] as int % 16)
        } by {
            if k < i {
                assert(hex@[2 * k] == prev[2 * k]);
                assert(hex@[2 * k + 1] == prev[2 * k + 1]);
            }
        }
        i += 1;
    }
    hex
}

/// Lower-case hex encoding of a 64-byte value.
pub fn bytes_to_hex_64(bytes: &[u8; 64]) -> (hex: [u8; 128])
    ensures
        is_hex_of(hex@, bytes@),
{
    let mut hex = [0u8; 128];
    let mut i: usize = 0;
    while i < 64
        invariant
            0 <= i <= 64,
            hex@.len() == 128,
            bytes@.len() == 64,
            forall|k: int| 0 <= k < i ==> {
                &&& #[trigger] hex@[2 * k] == hex_digit(bytes@[k] as int / 16)
                &&& hex@[2 * k + 1] == hex_digit(bytes@[k] as int % 16)
            },
        decreases 64 - i,
    {
        let byte = bytes[i];
        let high = (byte >> 4) & 0x0F;
        let low = byte & 0x0F;
        assert(high == byte / 16 && low == byte % 16) by (bit_vector)
            requires high == (byte >> 4) & 0x0F, low == byte & 0x0F;
        let ghost prev = hex@;
        hex[2 * i] = nibble_to_hex(high);
        hex[2 * i + 1] = nibble_to_hex(low);
        assert forall|k: int| 0 <= k < i + 1 implies {
            &&& #[trigger] hex@[2 * k] == hex_digit(bytes@[k] as int / 16)
            &&& hex@[2 * k + 1] == hex_digit(bytes@[k] as int % 16)
        } by {
            if k < i {
                assert(hex@[2 * k] == prev[2 * k]);
                assert(hex@[2 * k + 1] == prev[2 * k + 1]);
            }
        }
        i += 1;
    }
    hex
}

// ---------------------------------------------------------------------------
// Comparisons
// ---------------------------------------------------------------------------

/// True when `prefix` is a prefix of `slice`.
pub fn slice_starts_with(slice: &[u8], prefix: &[u8]) -> (r: bool)
    ensures
        r == (prefix@.len() <= slice@.len() && slice@.take(prefix@.len() as int) == prefix@),
{
    let slice_len = slice.len();
    let prefix_len = prefix.len();
    if slice_len < prefix_len {
        false
    } else {
        let mut i: usize = 0;
        while i < prefix_len
            invariant
                0 <= i <= prefix_len,
                prefix_len == prefix@.len(),
                prefix_len <= slice@.len(),
                slice@.take(i as int) == prefix@.take(i as int),
            decreases prefix_len - i,
        {
            if slice[i] != prefix[i] {
                assert(slice@.take(prefix_len as int)[i as int] != prefix@[i as int]);
                return false;
            }
            assert(slice@.take(i + 1) =~= slice@.take(i as int).push(slice@[i as int]));
            assert(prefix@.take(i + 1) =~= prefix@.take(i as int).push(prefix@[i as int]));
            i += 1;
        }
        assert(prefix@.take(prefix_len as int) =~= prefix@);
        true
    }
}

/// The outcome of comparing two byte strings: at the first differing byte, 1 when `x`'s
/// byte is greater and -1 when smaller; when one is a proper prefix of the other, 1 when
/// `x` is the shorter and -1 when it is the longer; 0 when they are equal.
pub open spec fn byte_order(x: Seq<u8>, y: Seq<u8>) -> int
    decreases x.len(),
{
    if x.len() == 0 || y.len() == 0 {
        if x.len() < y.len() {
            1
        } else if x.len() > y.len() {
            -1
        } else {
            0
        }
    } else if x[0] != y[0] {
        if x[0] > y[0] {
            1
        } else {
            -1
        }
    } else {
        byte_order(x.drop_first(), y.drop_first())
    }
}

proof fn lemma_byte_order_skip(x: Seq<u8>, y: Seq<u8>, i: int)
    requires
        0 <= i <= x.len(),
        i <= y.len(),
        x.take(i) == y.take(i),
    ensures
        byte_order(x, y) == byte_order(x.skip(i), y.skip(i)),
    decreases i,
{
    if i > 0 {
        assert(x[0] == x.take(i)[0]);
        assert(y[0] == y.take(i)[0]);
        assert(x.drop_first().take(i - 1) =~= x.take(i).drop_first());
        assert(y.drop_first().take(i - 1) =~= y.take(i).drop_first());
        lemma_byte_order_skip(x.drop_first(), y.drop_first(), i - 1);
        assert(x.drop_first().skip(i - 1) =~= x.skip(i));
        assert(y.drop_first().skip(i - 1) =~= y.skip(i));
    } else {
        assert(x.skip(0) =~= x);
        assert(y.skip(0) =~= y);
    }
}

/// Two byte strings compare at their first difference: when they agree before index `i` and
/// differ there, the one with the greater byte at `i` is the greater.
pub proof fn lemma_byte_order_first_difference(x: Seq<u8>, y: Seq<u8>, i: int)
    requires
        0 <= i < x.len(),
        i < y.len(),
        x[i] != y[i],
        forall|j: int| 0 <= j < i ==> x[j] == y[j],
    ensures
        byte_order(x, y) == (if x[i] > y[i] { 1int } else { -1int }),
{
    assert(x.take(i) =~= y.take(i));
    lemma_byte_order_skip(x, y, i);
    assert(x.skip(i)[0] == x[i]);
    assert(y.skip(i)[0] == y[i]);
}

/// A proper prefix comes first: when `x` is a proper prefix of `y` the order is 1, and -1
/// the other way round; a string compared with itself gives 0.
pub proof fn lemma_byte_order_prefix(x: Seq<u8>, y: Seq<u8>)
    requires
        x.len() < y.len(),
        y.take(x.len() as int) == x,
    ensures
        byte_order(x, y) == 1,
        byte_order(y, x) == -1,
        byte_order(x, x) == 0,
{
    let n = x.len() as int;
    assert(x.take(n) =~= y.take(n));
    lemma_byte_order_skip(x, y, n);
    lemma_byte_order_skip(y, x, n);
    assert(x.skip(n).len() == 0);
    assert(x.take(n) =~= x.take(n));
    lemma_byte_order_skip(x, x, n);
}

/// Compares two byte strings (see `byte_order` for the exact outcome).
pub(crate) fn compare_bytes(x: &[u8], y: &[u8]) -> (r: i32)
    ensures
        r == byte_order(x@, y@),
{
    let len = if x.len() > y.len() { y.len() } else { x.len() };
    let mut i: usize = 0;
    while i < len
        invariant
            0 <= i <= len,
            len <= x@.len(),
            len <= y@.len(),
            len == x@.len() || len == y@.len(),
            x@.take(i as int) == y@.take(i as int),
        decreases len - i,
    {
        if x[i] != y[i] {
            proof {
                lemma_byte_order_skip(x@, y@, i as int);
                assert(x@.skip(i as int)[0] == x@[i as int]);
                assert(y@.skip(i as int)[0] == y@[i as int]);
            }
            return if x[i] > y[i] { 1 } else { -1 };
        }
        assert(x@.take(i + 1) =~= x@.take(i as int).push(x@[i as int]));
        assert(y@.take(i + 1) =~= y@.take(i as int).push(y@[i as int]));
        i += 1;
    }
    proof {
        lemma_byte_order_skip(x@, y@, len as int);
    }
    if x.len() < y.len() {
        1
    } else if x.len() > y.len() {
        -1
    } else {
        0
    }
}

/// Compares the bytes of two strings (see `byte_order` for the exact outcome).
pub fn strcmp(a: &str, b: &str) -> (r: i32)
    ensures
        r == byte_order(a.spec_bytes(), b.spec_bytes()),
{
    compare_bytes(a.as_bytes(), b.as_bytes())
}


// ---------------------------------------------------------------------------
// Hashing
// ---------------------------------------------------------------------------

/// The low 64 bits of the product of two `u64`s, computed from their 32-bit halves.
pub fn wrapping_mul(a: u64, b: u64) -> (r: u64)
    ensures
        r == (a as int * b as int) % 0x1_0000_0000_0000_0000,
{
    proof {
        assert(a == ((a >> 32) & 0xFFFFFFFF) * 0x1_0000_0000 + (a & 0xFFFFFFFF)
            && (a & 0xFFFFFFFF) <= 0xFFFFFFFF && ((a >> 32) & 0xFFFFFFFF) <= 0xFFFFFFFF)
            by (bit_vector);
        assert(b == ((b >> 32) & 0xFFFFFFFF) * 0x1_0000_0000 + (b & 0xFFFFFFFF)
            && (b & 0xFFFFFFFF) <= 0xFFFFFFFF && ((b >> 32) & 0xFFFFFFFF) <= 0xFFFFFFFF)
            by (bit_vector);
    }

    let a_low = (a & 0xFFFFFFFF) as u32;
    let a_high = ((a >> 32) & 0xFFFFFFFF) as u32;
    let b_low = (b & 0xFFFFFFFF) as u32;
    let b_high = ((b >> 32) & 0xFFFFFFFF) as u32;
    assert((a_low as u64) * (b_low as u64) <= 0xFFFF_FFFE_0000_0001
        && (a_low as u64) * (b_high as u64) <= 0xFFFF_FFFE_0000_0001
        && (a_high as u64) * (b_low as u64) <= 0xFFFF_FFFE_0000_0001) by (nonlinear_arith)
        requires a_low <= 0xFFFFFFFF, b_low <= 0xFFFFFFFF, a_high <= 0xFFFFFFFF,
            b_high <= 0xFFFFFFFF;
    let low_low = (a_low as u64) * (b_low as u64);
    let low_high = (a_low as u64) * (b_high as u64);
    let high_low = (a_high as u64) * (b_low as u64);

    let low = low_low;
    let mid = low_high.wrapping_add(high_low).wrapping_add(low_low >> 32);
    let r = (low & 0xFFFFFFFF) | ((mid & 0xFFFFFFFF) << 32);
    proof {
        let p32: int = 0x1_0000_0000;
        let p64: int = 0x1_0000_0000_0000_0000;
        assert(r == low % 0x1_0000_0000 + (mid % 0x1_0000_0000) * 0x1_0000_0000) by (bit_vector)
            requires r == (low & 0xFFFFFFFF) | ((mid & 0xFFFFFFFF) << 32);
        assert((low_low >> 32) == low_low / 0x1_0000_0000) by (bit_vector);
        let s1 = (low_high as int + high_low as int) % p64;
        assert(mid == (s1 + low_low as int / p32) % p64);
        vstd::arithmetic::div_mod::lemma_add_mod_noop(low_high as int + high_low as int, low_low as int / p32, p64);
        vstd::arithmetic::div_mod::lemma_mod_twice(low_high as int + high_low as int, p64);
        assert(mid == (low_high as int + high_low as int + low_low as int / p32) % p64) by {
            vstd::arithmetic::div_mod::lemma_add_mod_noop(s1, low_low as int / p32, p64);
            vstd::arithmetic::div_mod::lemma_mod_twice(low_low as int / p32, p64);
        }
        lemma_mul_by_halves(a as int, b as int, a_low as int, a_high as int, b_low as int,
            b_high as int, r as int);
    }
    r
}

proof fn lemma_product_of_halves(x: int, y: int, z: int, w: int, p: int)
    ensures
        (x * p + y) * (z * p + w) == (x * z) * (p * p) + (y * z + x * w) * p + y * w,
{
    vstd::arithmetic::mul::lemma_mul_is_distributive_add(x * p + y, z * p, w);
    vstd::arithmetic::mul::lemma_mul_is_distributive_add_other_way(z * p, x * p, y);
    vstd::arithmetic::mul::lemma_mul_is_distributive_add_other_way(w, x * p, y);
    assert((x * p) * (z * p) == (x * z) * (p * p)) by (nonlinear_arith);
    assert(y * (z * p) == (y * z) * p) by (nonlinear_arith);
    assert((x * p) * w == (x * w) * p) by (nonlinear_arith);
    vstd::arithmetic::mul::lemma_mul_is_distributive_add_other_way(p, y * z, x * w);
}

proof fn lemma_mul_by_halves(a: int, b: int, al: int, ah: int, bl: int, bh: int, r: int)
    requires
        0 <= al < 0x1_0000_0000,
        0 <= ah < 0x1_0000_0000,
        0 <= bl < 0x1_0000_0000,
        0 <= bh < 0x1_0000_0000,
        a == ah * 0x1_0000_0000 + al,
        b == bh * 0x1_0000_0000 + bl,
        r == (al * bl) % 0x1_0000_0000 + (((al * bh + ah * bl + (al * bl) / 0x1_0000_0000)
            % 0x1_0000_0000_0000_0000) % 0x1_0000_0000) * 0x1_0000_0000,
    ensures
        r == (a * b) % 0x1_0000_0000_0000_0000,
{
    let p32: int = 0x1_0000_0000;
    let p64: int = 0x1_0000_0000_0000_0000;
    let ll = al * bl;
    let lh = al * bh;
    let hl = ah * bl;
    lemma_product_of_halves(ah, al, bh, bl, p32);
    assert(a * b == (ah * bh) * p64 + (lh + hl) * p32 + ll);
    assert(0 <= ll && 0 <= lh && 0 <= hl) by (nonlinear_arith)
        requires 0 <= al, 0 <= ah, 0 <= bl, 0 <= bh, ll == al * bl, lh == al * bh,
            hl == ah * bl;
    let q = lh + hl + ll / p32;
    let t = (lh + hl) * p32 + ll;
    vstd::arithmetic::div_mod::lemma_fundamental_div_mod(ll, p32);
    assert(t == q * p32 + ll % p32) by (nonlinear_arith)
        requires t == (lh + hl) * p32 + ll, q == lh + hl + ll / p32,
            ll == p32 * (ll / p32) + ll % p32;
    vstd::arithmetic::div_mod::lemma_mod_multiples_vanish(ah * bh, t, p64);
    assert((ah * bh) * p64 + t == p64 * (ah * bh) + t) by (nonlinear_arith);
    vstd::arithmetic::div_mod::lemma_fundamental_div_mod(q, p32);
    let qh = q / p32;
    let ql = q % p32;
    assert(q * p32 == qh * p64 + ql * p32) by (nonlinear_arith)
        requires q == p32 * qh + ql, p64 == p32 * p32;
    assert(0 <= ql * p32 + ll % p32 < p64) by (nonlinear_arith)
        requires 0 <= ql < p32, 0 <= ll % p32 < p32, p64 == p32 * p32;
    assert(t == p64 * qh + (ql * p32 + ll % p32)) by (nonlinear_arith)
        requires t == q * p32 + ll % p32, q * p32 == qh * p64 + ql * p32;
    vstd::arithmetic::div_mod::lemma_mod_multiples_vanish(qh, ql * p32 + ll % p32, p64);
    vstd::arithmetic::div_mod::lemma_small_mod((ql * p32 + ll % p32) as nat, p64 as nat);
    assert(q % p64 % p32 == q % p32) by {
        vstd::arithmetic::div_mod::lemma_mod_mod(q, p32, p32);
        assert(p32 * p32 == p64);
    }
}

/// The FNV-1a offset basis.
pub open spec fn fnv_offset() -> u64 {
    0xCBF29CE484222325
}

/// The FNV-1a prime.
pub open spec fn fnv_prime() -> u64 {
    0x100000001B3
}

/// The 64-bit FNV-1a hash of a byte string.
pub open spec fn fnv1a(s: Seq<u8>) -> u64
    decreases s.len(),
{
    if s.len() == 0 {
        fnv_offset()
    } else {
        (((fnv1a(s.drop_last()) ^ (s.last() as u64)) as int * fnv_prime() as int)
            % 0x1_0000_0000_0000_0000) as u64
    }
}

/// The 64-bit FNV-1a hash of `bytes`.
pub fn fnvhash(bytes: &[u8]) -> (r: u64)
    ensures
        r == fnv1a(bytes@),
{
    let mut hash: u64 = 0xCBF29CE484222325;
    let prime: u64 = 0x100000001B3;
    let mut i: usize = 0;
    while i < bytes.len()
        invariant
            0 <= i <= bytes@.len(),
            prime == fnv_prime(),
            hash == fnv1a(bytes@.take(i as int)),
        decreases bytes@.len() - i,
    {
        assert(bytes@.take(i + 1).drop_last() =~= bytes@.take(i as int));
        hash = hash ^ (bytes[i] as u64);
        hash = wrapping_mul(hash, prime);
        i += 1;
    }
    assert(bytes@.take(bytes@.len() as int) =~= bytes@);
    hash
}

/// A 128-bit tag for a source location: the line in the high 64 bits and the FNV-1a hash of
/// the file name in the low 64 bits.
pub fn simple_hash(s: &str, line: u32) -> (r: u128)
    ensures
        r == line as int * 0x1_0000_0000_0000_0000 + fnv1a(s.spec_bytes()) as int,
{
    let hash = fnvhash(s.as_bytes());
    let r = ((line as u128) << 64) | (hash as u128);
    assert(r == line as int * 0x1_0000_0000_0000_0000 + hash as int) by (bit_vector)
        requires r == ((line as u128) << 64) | (hash as u128);
    r
}

// ---------------------------------------------------------------------------
// UTF-8
// ---------------------------------------------------------------------------

/// The length announced by a leading byte: 1 for ASCII, 2, 3 or 4 for the multi-byte
/// leading forms, and 0 for a byte that cannot lead.
pub open spec fn lead_width(b: u8) -> int {
    if b <= 0x7F {
        1
    } else if 0xC0 <= b <= 0xDF {
        2
    } else if 0xE0 <= b <= 0xEF {
        3
    } else if 0xF0 <= b <= 0xF7 {
        4
    } else {
        0
    }
}

/// A continuation byte has the form `10xxxxxx`.
pub open spec fn is_continuation(b: u8) -> bool {
    0x80 <= b <= 0xBF
}

/// The structural UTF-8 check: the bytes split into groups, each a leading byte followed by
/// as many continuation bytes as it announces. (Overlong forms and surrogates are not
/// looked for.)
pub open spec fn utf8_structure_ok(s: Seq<u8>) -> bool
    decreases s.len(),
{
    if s.len() == 0 {
        true
    } else {
        let w = lead_width(s[0]);
        &&& w != 0
        &&& w <= s.len()
        &&& forall|j: int| 1 <= j < w ==> is_continuation(#[trigger] s[j])
        &&& utf8_structure_ok(s.skip(w))
    }
}

/// Checks that `bytes` splits into well-formed UTF-8 byte groups (see `utf8_structure_ok`);
/// fails with `Utf8Error` otherwise.
pub fn is_utf8_valid(bytes: &[u8]) -> (r: Result<(), Error>)
    ensures
        utf8_structure_ok(bytes@) ==> r is Ok,
        !utf8_structure_ok(bytes@) ==> r == Err::<(), Error>(Error::Utf8Error),
{
    let mut i: usize = 0;
    assert(bytes@.skip(0) =~= bytes@);
    while i < bytes.len()
        invariant
            0 <= i <= bytes@.len(),
            utf8_structure_ok(bytes@) == utf8_structure_ok(bytes@.skip(i as int)),
        decreases bytes@.len() - i,
    {
        let b = bytes[i];
        let ghost rest = bytes@.skip(i as int);
        assert(rest[0] == b);
        assert((b & 0xE0) == 0xC0 <==> 0xC0 <= b <= 0xDF) by (bit_vector);
        assert((b & 0xF0) == 0xE0 <==> 0xE0 <= b <= 0xEF) by (bit_vector);
        assert((b & 0xF8) == 0xF0 <==> 0xF0 <= b <= 0xF7) by (bit_vector);
        let len: usize = if b <= 0x7F {
            1
        } else if (b & 0xE0) == 0xC0 {
            2
        } else if (b & 0xF0) == 0xE0 {
            3
        } else if (b & 0xF8) == 0xF0 {
            4
        } else {
            return Err(Error::Utf8Error);
        };
        assert(len == lead_width(b));
        if len > bytes.len() - i {
            return Err(Error::Utf8Error);
        }
        let mut j: usize = 1;
        while j < len
            invariant
                1 <= j <= len,
                len <= 4,
                i + len <= bytes@.len(),
                rest == bytes@.skip(i as int),
                bytes@.len() <= usize::MAX,
                len == lead_width(rest[0]),
                utf8_structure_ok(bytes@) == utf8_structure_ok(rest),
                forall|k: int| 1 <= k < j ==> is_continuation(#[trigger] rest[k]),
            decreases len - j,
        {
            let c = bytes[i + j];
            assert(rest[j as int] == c);
            assert((c & 0xC0) == 0x80 <==> 0x80 <= c <= 0xBF) by (bit_vector);
            if (c & 0xC0) != 0x80 {
                assert(!is_continuation(rest[j as int]));
                return Err(Error::Utf8Error);
            }
            j += 1;
        }
        assert(rest.skip(len as int) =~= bytes@.skip(i + len));
        i += len;
    }
    assert(bytes@.skip(i as int).len() == 0);
    Ok(())
}


// ---------------------------------------------------------------------------
// Integers as text
// ---------------------------------------------------------------------------

/// The character of a digit: '0'..'9' for 0..9, then 'a', 'b', ... from 10 on.
pub open spec fn digit_char(d: int) -> u8 {
    if d < 10 {
        (48 + d) as u8
    } else {
        (97 + d - 10) as u8
    }
}

/// The number of digits of `n` written in base `base` (none for 0).
pub open spec fn num_digits(n: nat, base: nat) -> nat
    decreases n,
{
    if n == 0 || base < 2 {
        0
    } else {
        proof {
            vstd::arithmetic::div_mod::lemma_div_is_strictly_smaller(n as int, base as int);
        }
        1 + num_digits(n / base, base)
    }
}

/// The digit of `n` in base `base` at place `t` (place 0 is the least significant).
pub open spec fn digit_at(n: nat, base: nat, t: nat) -> int {
    (n / vstd::arithmetic::power::pow(base as int, t) as nat) as int % (base as int)
}

/// How many digits fit: all of them when there is room, otherwise the lowest `cap`. In
/// bases 0 and 1 a non-zero number never runs out of digits, so `cap` are taken.
pub open spec fn written_count(n: nat, base: nat, cap: nat) -> nat {
    if n == 0 {
        0
    } else if base < 2 {
        cap
    } else if num_digits(n, base) < cap {
        num_digits(n, base)
    } else {
        cap
    }
}

/// The buffer once the lowest `w` digits of `n` are written right-aligned at its end, most
/// significant first (in base 0 no digit is written).
pub open spec fn digits_written(old: Seq<u8>, n: nat, base: nat, w: nat) -> Seq<u8> {
    Seq::new(
        old.len(),
        |p: int|
            if base != 0 && old.len() - w <= p < old.len() {
                digit_char(digit_at(n, base, (old.len() - 1 - p) as nat))
            } else {
                old[p]
            },
    )
}

/// Copies `cnt` elements one at a time, front to back, from `src..` to `dst..`, dropping
/// those that would land past the end.
pub open spec fn copy_forward(s: Seq<u8>, src: int, dst: int, cnt: nat) -> Seq<u8>
    decreases cnt,
{
    if cnt == 0 {
        s
    } else {
        let s1 = copy_forward(s, src, dst, (cnt - 1) as nat);
        if dst + cnt - 1 < s.len() {
            s1.update(dst + cnt - 1, s1[src + cnt - 1])
        } else {
            s1
        }
    }
}

/// The length `u128_as_str` reports.
pub open spec fn as_str_len(n: u128, offset: usize, buf_len: nat, base: u8) -> int {
    let w = written_count(n as nat, base as nat, (buf_len - 1) as nat);
    if w == 0 && offset < buf_len {
        1
    } else {
        w as int
    }
}

/// The buffer `u128_as_str` leaves.
pub open spec fn as_str_buf(old: Seq<u8>, n: u128, offset: usize, base: u8) -> Seq<u8> {
    let w = written_count(n as nat, base as nat, (old.len() - 1) as nat);
    if w == 0 {
        if offset < old.len() {
            old.update(offset as int, 48u8)
        } else {
            old
        }
    } else {
        copy_forward(digits_written(old, n as nat, base as nat, w), old.len() - w, offset as int, w)
    }
}

proof fn lemma_num_digits(n: nat, base: nat, t: nat)
    requires
        base >= 2,
    ensures
        (n / vstd::arithmetic::power::pow(base as int, t) as nat > 0) <==> t < num_digits(n, base),
    decreases t,
{
    vstd::arithmetic::power::lemma_pow_positive(base as int, t);
    if n > 0 {
        assert(num_digits(n, base) == 1 + num_digits(n / base, base));
    } else {
        assert(num_digits(n, base) == 0);
        vstd::arithmetic::div_mod::lemma_div_basics(vstd::arithmetic::power::pow(base as int, t));
    }
    if t == 0 {
        vstd::arithmetic::power::lemma_pow0(base as int);
        vstd::arithmetic::div_mod::lemma_div_basics(n as int);
    } else {
        lemma_num_digits(n / base, base, (t - 1) as nat);
        lemma_div_pow_step(n, base, (t - 1) as nat);
        vstd::arithmetic::div_mod::lemma_div_basics(base as int);
    }
}

/// Dividing by `base^(t+1)` is dividing by `base`, then by `base^t`.
proof fn lemma_div_pow_step(n: nat, base: nat, t: nat)
    requires
        base >= 1,
    ensures
        n / (vstd::arithmetic::power::pow(base as int, t + 1) as nat) == (n / base) / (
        vstd::arithmetic::power::pow(base as int, t) as nat),
        n / (vstd::arithmetic::power::pow(base as int, t + 1) as nat) == (n / (
        vstd::arithmetic::power::pow(base as int, t) as nat)) / base,
{
    vstd::arithmetic::power::lemma_pow_positive(base as int, t);
    vstd::arithmetic::power::lemma_pow_adds(base as int, t, 1);
    vstd::arithmetic::power::lemma_pow1(base as int);
    let p = vstd::arithmetic::power::pow(base as int, t);
    assert(vstd::arithmetic::power::pow(base as int, t + 1) == p * base);
    vstd::arithmetic::div_mod::lemma_div_denominator(n as int, base as int, p);
    vstd::arithmetic::div_mod::lemma_div_denominator(n as int, p, base as int);
    assert(base * p == p * base) by (nonlinear_arith);
}

/// Writes `n` in base `base` into `buf` starting at `offset` and returns the number of digits.
/// The digits are produced right-aligned at the end of `buf` (at most `buf.len() - 1` of them,
/// the least significant ones when they do not all fit), then moved to `offset`; zero is
/// written as a single '0'. Digits above 9 are lower-case letters.
pub fn u128_as_str(n: u128, offset: usize, buf: &mut [u8], base: u8) -> (r: usize)
    requires
        old(buf)@.len() >= 1,
        base <= 169,
    ensures
        r == as_str_len(n, offset, old(buf)@.len(), base),
        final(buf)@ == as_str_buf(old(buf)@, n, offset, base),
        final(buf)@.len() == old(buf)@.len(),
        // when all the digits fit at `offset`, they are there, most significant first
        ({
            let w = written_count(n as nat, base as nat, (old(buf)@.len() - 1) as nat);
            base >= 2 && w >= 1 && offset + w <= old(buf)@.len() ==> forall|k: int|
                0 <= k < w ==> #[trigger] final(buf)@[offset + k] == digit_char(
                    digit_at(n as nat, base as nat, (w - 1 - k) as nat))
        }),
{
    let ghost old_buf = buf@;
    let buf_len = buf.len();
    let mut nn = n;
    let mut i = buf_len - 1;
    let ghost cap: nat = (buf_len - 1) as nat;
    proof {
        vstd::arithmetic::power::lemma_pow0(base as int);
        vstd::arithmetic::div_mod::lemma_div_basics(n as int);
        assert(buf@ =~= digits_written(old_buf, n as nat, base as nat, 0));
    }
    while nn > 0
        invariant
            buf_len == old_buf.len(),
            buf@.len() == buf_len,
            i <= buf_len - 1,
            base <= 169,
            base >= 1 ==> nn == n as nat / (vstd::arithmetic::power::pow(
                base as int, (buf_len - 1 - i) as nat) as nat),
            base == 0 ==> nn == n,
            n == 0 ==> nn == 0 && i == buf_len - 1,
            base >= 2 ==> buf_len - 1 - i <= num_digits(n as nat, base as nat),
            buf@ == digits_written(old_buf, n as nat, base as nat, (buf_len - 1 - i) as nat),
        ensures
            nn == 0 || i == 0,
        decreases i,
    {
        let ghost t: nat = (buf_len - 1 - i) as nat;
        if i == 0 {
            break;
        }
        proof {
            if base >= 1 {
                vstd::arithmetic::power::lemma_pow_positive(base as int, t);
            }
            if base >= 2 {
                lemma_num_digits(n as nat, base as nat, t);
            }
        }
        if i < buf_len && base != 0 {
            let digit = (nn % base as u128) as u8;
            buf[i] = if digit < 10 {
                48u8 + digit
            } else {
                97u8 + (digit - 10)
            };
        }
        if base != 0 {
            proof { lemma_div_pow_step(n as nat, base as nat, t); }
            nn /= base as u128;
        }
        i -= 1;
        proof {
            assert(buf@ =~= digits_written(old_buf, n as nat, base as nat, (t + 1) as nat));
        }
    }
    let ghost t: nat = (buf_len - 1 - i) as nat;
    proof {
        let w = written_count(n as nat, base as nat, cap);
        assert(t <= cap);
        assert(base >= 1 ==> nn == n as nat / (vstd::arithmetic::power::pow(base as int, t) as nat));
        assert(base >= 2 ==> t <= num_digits(n as nat, base as nat));
        assert(nn == 0 || i == 0);
        if base >= 2 {
            lemma_num_digits(n as nat, base as nat, t);
            let nd = num_digits(n as nat, base as nat);
            if n == 0 {
                assert(num_digits(0, base as nat) == 0);
                assert(w == 0);
            } else if nn == 0 {
                assert(t == nd);
                assert(t == w);
            } else {
                assert(i == 0);
                assert(t == cap);
                assert(t < nd);
                assert(t == w);
            }
        } else if base == 1 {
            lemma_pow_one(t);
            vstd::arithmetic::div_mod::lemma_div_basics(n as int);
            assert(nn == n);
            if n == 0 { assert(t == w); } else { assert(i == 0); assert(t == w); }
        } else {
            if n == 0 { assert(t == w); } else { assert(i == 0); assert(t == w); }
        }
        assert(t == w);
    }
    let mut len = buf_len - i - 1;

    if len == 0 && buf_len > 0 && offset < buf_len {
        buf[offset] = 48u8;
        len = 1;
    } else {
        let ghost written = buf@;
        let mut k: usize = 0;
        let mut j = i + 1;
        while j < buf_len
            invariant
                buf_len == written.len(),
                buf@.len() == buf_len,
                i < buf_len,
                j == i + 1 + k,
                j <= buf_len,
                buf@ == copy_forward(written, i + 1, offset as int, k as nat),
            decreases buf_len - j,
        {
            if offset < buf_len && k < buf_len - offset {
                buf[k + offset] = buf[j];
            }
            k += 1;
            j += 1;
        }
    }
    proof {
        let w = written_count(n as nat, base as nat, cap);
        if base >= 2 && w >= 1 && offset + w <= old_buf.len() {
            let dw = digits_written(old_buf, n as nat, base as nat, w);
            lemma_copy_forward_left(dw, (old_buf.len() - w) as int, offset as int, w);
            assert forall|k: int| 0 <= k < w implies #[trigger] buf@[offset + k] == digit_char(
                digit_at(n as nat, base as nat, (w - 1 - k) as nat)) by {
                assert(dw[old_buf.len() - w + k] == digit_char(digit_at(n as nat, base as nat,
                    (w - 1 - k) as nat)));
            }
        }
    }
    len
}

proof fn lemma_pow_one(t: nat)
    ensures
        vstd::arithmetic::power::pow(1, t) == 1,
    decreases t,
{
    vstd::arithmetic::power::lemma_pow0(1);
    if t > 0 {
        lemma_pow_one((t - 1) as nat);
        vstd::arithmetic::power::lemma_pow_adds(1, (t - 1) as nat, 1);
        vstd::arithmetic::power::lemma_pow1(1);
    }
}

/// Copying towards the front never reads a position it has already overwritten.
proof fn lemma_copy_forward_left(s: Seq<u8>, src: int, dst: int, cnt: nat)
    requires
        0 <= dst <= src,
        src + cnt <= s.len(),
    ensures
        copy_forward(s, src, dst, cnt).len() == s.len(),
        forall|k: int| 0 <= k < cnt ==> #[trigger] copy_forward(s, src, dst, cnt)[dst + k]
            == s[src + k],
        forall|p: int| src + cnt <= p < s.len() ==> #[trigger] copy_forward(s, src, dst, cnt)[p]
            == s[p],
        forall|p: int| dst + cnt <= p < s.len() && p >= src ==> #[trigger] copy_forward(
            s, src, dst, cnt)[p] == s[p],
    decreases cnt,
{
    if cnt > 0 {
        lemma_copy_forward_left(s, src, dst, (cnt - 1) as nat);
        let s1 = copy_forward(s, src, dst, (cnt - 1) as nat);
        assert(s1[src + cnt - 1] == s[src + cnt - 1]);
    }
}

/// Writes a signed integer like `u128_as_str`, with a leading '-' for negative numbers; a
/// negative number needs a buffer of at least two bytes, else nothing is written and 0 is
/// returned.
pub fn i128_as_str(n: i128, buf: &mut [u8], base: u8) -> (r: usize)
    requires
        old(buf)@.len() >= 1,
        base <= 169,
        n != i128::MIN,
    ensures
        n >= 0 ==> r == as_str_len(n as u128, 0, old(buf)@.len(), base) && final(buf)@
            == as_str_buf(old(buf)@, n as u128, 0, base),
        n < 0 && old(buf)@.len() < 2 ==> r == 0 && final(buf)@ == old(buf)@,
        n < 0 && old(buf)@.len() >= 2 ==> r == as_str_len((-n) as u128, 1, old(buf)@.len(), base)
            + 1 && final(buf)@ == as_str_buf(old(buf)@.update(0, 45u8), (-n) as u128, 1, base),
{
    if n < 0 {
        assert(n * -1 == -n);
        let m = n * -1;
        if buf.len() < 2 {
            0
        } else {
            buf[0] = 45u8;
            u128_as_str(m as u128, 1, buf, base) + 1
        }
    } else {
        u128_as_str(n as u128, 0, buf, base)
    }
}


// ---------------------------------------------------------------------------
// Sorting
// ---------------------------------------------------------------------------

/// The elements are in non-decreasing order.
pub open spec fn is_sorted(s: Seq<u64>) -> bool {
    forall|i: int, j: int| 0 <= i <= j < s.len() ==> s[i] <= s[j]
}

/// Exchanges two elements.
fn swap_elems(arr: &mut [u64], i: usize, j: usize)
    requires
        i < old(arr)@.len(),
        j < old(arr)@.len(),
    ensures
        final(arr)@ == old(arr)@.update(i as int, old(arr)@[j as int]).update(j as int,
            old(arr)@[i as int]),
        final(arr)@.to_multiset() == old(arr)@.to_multiset(),
{
    broadcast use vstd::seq_lib::group_to_multiset_ensures, vstd::multiset::group_multiset_axioms;
    let a = arr[i];
    let b = arr[j];
    arr[i] = b;
    arr[j] = a;
    proof {
        let s0 = old(arr)@;
        let s1 = s0.update(i as int, b);
        assert(s1.to_multiset() == s0.to_multiset().insert(b).remove(a));
        assert(s1[j as int] == (if i == j { b } else { b }));
        assert(s1.update(j as int, a).to_multiset() == s1.to_multiset().insert(a).remove(
            s1[j as int]));
        assert(s1.to_multiset().insert(a).remove(s1[j as int]) =~= s0.to_multiset());
    }
}

/// Everything in a permutation of `b` that `b` bounds from above stays bounded.
proof fn lemma_perm_bounded(a: Seq<u64>, b: Seq<u64>, lo: int, hi: int)
    requires
        a.to_multiset() == b.to_multiset(),
        forall|k: int| 0 <= k < b.len() ==> lo <= #[trigger] b[k] <= hi,
    ensures
        forall|k: int| 0 <= k < a.len() ==> lo <= #[trigger] a[k] <= hi,
{
    broadcast use vstd::seq_lib::group_to_multiset_ensures;
    assert forall|k: int| 0 <= k < a.len() implies lo <= #[trigger] a[k] <= hi by {
        assert(a.contains(a[k]));
        assert(a.to_multiset().count(a[k]) > 0);
        assert(b.to_multiset().count(a[k]) > 0);
        assert(b.contains(a[k]));
    }
}

/// Lomuto partition around the last element: afterwards the pivot sits at the returned
/// index, everything before it is `<=` the pivot and everything after it is `>` the pivot.
pub fn partition(arr: &mut [u64]) -> (r: usize)
    requires
        old(arr)@.len() >= 1,
    ensures
        r == count_at_most(old(arr)@.drop_last(), old(arr)@.last()),
        r < final(arr)@.len(),
        final(arr)@.len() == old(arr)@.len(),
        final(arr)@.to_multiset() == old(arr)@.to_multiset(),
        final(arr)@[r as int] == old(arr)@.last(),
        forall|k: int| 0 <= k < r ==> #[trigger] final(arr)@[k] <= final(arr)@[r as int],
        forall|k: int| r < k < final(arr)@.len() ==> #[trigger] final(arr)@[k]
            > final(arr)@[r as int],
{
    let pivot_idx = arr.len() - 1;
    let ghost pivot = arr@[pivot_idx as int];
    let mut i: usize = 0;
    let mut j: usize = 0;
    while j < pivot_idx
        invariant
            arr@.len() == old(arr)@.len(),
            pivot_idx == arr@.len() - 1,
            0 <= i <= j <= pivot_idx,
            arr@[pivot_idx as int] == pivot,
            pivot == old(arr)@.last(),
            arr@.to_multiset() == old(arr)@.to_multiset(),
            forall|k: int| 0 <= k < i ==> #[trigger] arr@[k] <= pivot,
            forall|k: int| i <= k < j ==> #[trigger] arr@[k] > pivot,
            forall|k: int| j <= k < arr@.len() ==> #[trigger] arr@[k] == old(arr)@[k],
            i == count_at_most(old(arr)@.take(j as int), pivot),
        decreases pivot_idx - j,
    {
        assert(old(arr)@.take(j + 1).drop_last() =~= old(arr)@.take(j as int));
        if j < arr.len() && pivot_idx < arr.len() && arr[j] <= arr[pivot_idx] {
            if i < arr.len() && j < arr.len() {
                swap_elems(arr, i, j);
            }
            i += 1;
        }
        j += 1;
    }
    assert(old(arr)@.take(pivot_idx as int) =~= old(arr)@.drop_last());
    if i < arr.len() && pivot_idx < arr.len() {
        swap_elems(arr, i, pivot_idx);
    }
    i
}

/// How many items of `s` are at most `p`.
pub open spec fn count_at_most(s: Seq<u64>, p: u64) -> nat
    decreases s.len(),
{
    if s.len() == 0 {
        0
    } else {
        count_at_most(s.drop_last(), p) + (if s.last() <= p { 1nat } else { 0nat })
    }
}

/// Sorts in place (quick sort with Lomuto partitioning).
pub fn quick_sort(arr: &mut [u64])
    ensures
        final(arr)@.len() == old(arr)@.len(),
        final(arr)@.to_multiset() == old(arr)@.to_multiset(),
        is_sorted(final(arr)@),
    decreases old(arr)@.len(),
{
    if arr.len() <= 1 {
        return;
    }
    let pivot_idx = partition(arr);
    let ghost mid = arr@;
    let ghost p = mid[pivot_idx as int];
    if pivot_idx < arr.len() {
        let ghost rest0 = mid.skip(pivot_idx + 1);
        let ghost left0 = mid.take(pivot_idx as int);
        let ghost lf: Seq<u64>;
        let ghost rf: Seq<u64>;
        {
            let (left, right) = arr.split_at_mut(pivot_idx);
            assert(left@ =~= left0);
            quick_sort(left);
            proof { lf = left@; }
            if 1 <= right.len() {
                let (pv, rest) = right.split_at_mut(1);
                assert(rest@ =~= rest0);
                quick_sort(rest);
                proof {
                    rf = rest@;
                    assert(pv@ =~= seq![p]);
                }
            } else {
                proof { rf = rest0; }
            }
        }
        proof {
            broadcast use vstd::seq_lib::lemma_multiset_commutative;
            assert(arr@ =~= lf + (seq![p] + rf));
            lemma_perm_bounded(lf, left0, 0, p as int);
            lemma_perm_bounded(rf, rest0, p + 1, u64::MAX as int);
            assert(mid =~= left0 + (seq![p] + rest0));
            assert((lf + (seq![p] + rf)).to_multiset() == lf.to_multiset().add(
                (seq![p] + rf).to_multiset()));
            assert((seq![p] + rf).to_multiset() == seq![p].to_multiset().add(rf.to_multiset()));
            assert((left0 + (seq![p] + rest0)).to_multiset() == left0.to_multiset().add(
                (seq![p] + rest0).to_multiset()));
            assert((seq![p] + rest0).to_multiset() == seq![p].to_multiset().add(
                rest0.to_multiset()));
        }
    }
}

// ---------------------------------------------------------------------------
// Slices
// ---------------------------------------------------------------------------

/// Copies the first `len` elements of `src` to the front of `dst`; fails with `OutOfBounds`,
/// changing nothing, when either is shorter than `len`.
pub fn slice_copy<T: Copy>(src: &[T], dst: &mut [T], len: usize) -> (r: Result<(), Error>)
    ensures
        old(dst)@.len() < len || src@.len() < len ==> r == Err::<(), Error>(Error::OutOfBounds)
            && final(dst)@ == old(dst)@,
        old(dst)@.len() >= len && src@.len() >= len ==> r is Ok && final(dst)@ == src@.take(
            len as int) + old(dst)@.skip(len as int),
{
    if dst.len() < len || src.len() < len {
        Err(Error::OutOfBounds)
    } else {
        let mut i: usize = 0;
        while i < len
            invariant
                i <= len,
                len <= src@.len(),
                dst@.len() == old(dst)@.len(),
                len <= dst@.len(),
                dst@ == src@.take(i as int) + old(dst)@.skip(i as int),
            decreases len - i,
        {
            dst[i] = src[i];
            i += 1;
            assert(dst@ =~= src@.take(i as int) + old(dst)@.skip(i as int));
        }
        Ok(())
    }
}

/// The `len` elements of `n` starting at `off`; fails with `OutOfBounds` when they are not
/// all inside `n`.
pub fn subslice<N>(n: &[N], off: usize, len: usize) -> (r: Result<&[N], Error>)
    ensures
        off as int + len as int <= n@.len() ==> r is Ok && r->Ok_0@ == n@.subrange(off as int,
            off + len),
        off as int + len as int > n@.len() ==> r is Err && r->Err_0 == Error::OutOfBounds,
{
    if off > n.len() || len > n.len() - off {
        Err(Error::OutOfBounds)
    } else {
        Ok(&n[off..off + len])
    }
}

} // verus!
