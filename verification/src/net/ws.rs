use vstd::prelude::*;
use vstd::string::StringSliceAdditionalSpecFns;
use vstd::utf8::*;
use crate::base::error::Error;
use crate::base::misc::{be_value, lemma_be_bytes_u64_roundtrip, to_be_bytes_u16, to_be_bytes_u64, u16_be_bytes, u64_be_bytes};
use crate::util::cstring::{lemma_ascii_valid_utf8, str_from_utf8};

verus! {

// ---------------------------------------------------------------------------
// Handshake: the accept key
// ---------------------------------------------------------------------------

/// The SHA-1 digest (FIPS 180-4) of a byte string.
pub uninterp spec fn sha1_spec(data: Seq<u8>) -> Seq<u8>;

/// Calls `sha1::Sha1::digest` (RustCrypto `sha1`); the contract claims only that the digest
/// is the function `sha1_spec` of the input bytes.
#[verifier::external_body]
fn sha1_digest(data: &[u8]) -> (r: [u8; 20])
    ensures
        r@ == sha1_spec(data@),
{
    <sha1::Sha1 as sha1::Digest>::digest(data).into()
}

/// The GUID that a WebSocket accept key appends to the client's key.
pub open spec fn magic_spec() -> Seq<u8> {
    seq![50, 53, 56, 69, 65, 70, 65, 53, 45, 69, 57, 49, 52, 45, 52, 55, 68, 65, 45, 57, 53, 67, 65, 45, 67, 53, 65, 66, 48, 68, 67, 56, 53, 66, 49, 49]
}

/// The GUID that a WebSocket accept key appends to the client's key.
pub fn websocket_magic() -> (r: [u8; 36])
    ensures
        r@ == magic_spec(),
{
    let r = [50, 53, 56, 69, 65, 70, 65, 53, 45, 69, 57, 49, 52, 45, 52, 55, 68, 65, 45, 57, 53, 67, 65, 45, 67, 53, 65, 66, 48, 68, 67, 56, 53, 66, 49, 49];
    assert(r@ =~= magic_spec());
    r
}

/// The base64 digit for a six-bit value.
pub open spec fn b64_char(v: int) -> u8 {
    if v < 26 {
        (65 + v) as u8
    } else if v < 52 {
        (97 + v - 26) as u8
    } else if v < 62 {
        (48 + v - 52) as u8
    } else if v == 62 {
        43u8
    } else {
        47u8
    }
}

/// Standard base64 (with padding) of a byte string.
pub open spec fn base64_spec(d: Seq<u8>) -> Seq<u8>
    decreases d.len(),
{
    if d.len() == 0 {
        Seq::empty()
    } else if d.len() == 1 {
        seq![b64_char(d[0] as int / 4), b64_char((d[0] as int % 4) * 16), 61u8, 61u8]
    } else if d.len() == 2 {
        seq![b64_char(d[0] as int / 4), b64_char((d[0] as int % 4) * 16 + d[1] as int / 16), b64_char(
            (d[1] as int % 16) * 4), 61u8]
    } else {
        seq![b64_char(d[0] as int / 4), b64_char((d[0] as int % 4) * 16 + d[1] as int / 16), b64_char(
            (d[1] as int % 16) * 4 + d[2] as int / 64), b64_char(d[2] as int % 64)] + base64_spec(d.skip(3))
    }
}

/// The base64 digit for a six-bit value.
fn b64_digit(v: u8) -> (r: u8)
    requires
        v < 64,
    ensures
        r == b64_char(v as int),
        r < 128,
{
    if v < 26 {
        65 + v
    } else if v < 52 {
        97 + v - 26
    } else if v < 62 {
        48 + v - 52
    } else if v == 62 {
        43
    } else {
        47
    }
}

/// Every base64 digit is ASCII.
proof fn lemma_b64_char_ascii(v: int)
    requires
        0 <= v < 64,
    ensures
        b64_char(v) < 128,
{
}

/// Base64 output is ASCII.
proof fn lemma_base64_ascii(d: Seq<u8>)
    ensures
        forall|i: int| 0 <= i < base64_spec(d).len() ==> #[trigger] base64_spec(d)[i] < 128,
    decreases d.len(),
{
    let out = base64_spec(d);
    if d.len() == 1 {
        lemma_b64_char_ascii(d[0] as int / 4);
        lemma_b64_char_ascii((d[0] as int % 4) * 16);
    } else if d.len() == 2 {
        lemma_b64_char_ascii(d[0] as int / 4);
        lemma_b64_char_ascii((d[0] as int % 4) * 16 + d[1] as int / 16);
        lemma_b64_char_ascii((d[1] as int % 16) * 4);
    } else if d.len() >= 3 {
        lemma_b64_char_ascii(d[0] as int / 4);
        lemma_b64_char_ascii((d[0] as int % 4) * 16 + d[1] as int / 16);
        lemma_b64_char_ascii((d[1] as int % 16) * 4 + d[2] as int / 64);
        lemma_b64_char_ascii(d[2] as int % 64);
        lemma_base64_ascii(d.skip(3));
        let q = seq![b64_char(d[0] as int / 4), b64_char((d[0] as int % 4) * 16 + d[1] as int / 16), b64_char(
            (d[1] as int % 16) * 4 + d[2] as int / 64), b64_char(d[2] as int % 64)];
        let r = base64_spec(d.skip(3));
        assert(out == q + r);
        assert forall|i: int| 0 <= i < out.len() implies #[trigger] out[i] < 128 by {
            if i < 4 {
                assert(out[i] == q[i]);
            } else {
                assert(out[i] == r[i - 4]);
            }
        }
    }
}

/// The six-bit value a base64 digit stands for (`A`-`Z`, `a`-`z`, `0`-`9`, `+`, `/`); -1 for
/// any other byte, such as the padding `=`.
pub open spec fn b64_digit_value(c: u8) -> int {
    if 65 <= c <= 90 {
        c - 65
    } else if 97 <= c <= 122 {
        c - 97 + 26
    } else if 48 <= c <= 57 {
        c - 48 + 52
    } else if c == 43 {
        62
    } else if c == 47 {
        63
    } else {
        -1
    }
}

/// The `n` bytes of `o` from `at` on are all base64 digits.
pub open spec fn all_digits(o: Seq<u8>, at: int, n: int) -> bool
    decreases n,
{
    n <= 0 || (all_digits(o, at, n - 1) && 0 <= b64_digit_value(o[at + n - 1]))
}

/// The number that the `n` base64 digits of `o` from `at` on stand for, six bits each, the
/// first the most significant.
pub open spec fn digits_value(o: Seq<u8>, at: int, n: int) -> int
    decreases n,
{
    if n <= 0 {
        0
    } else {
        digits_value(o, at, n - 1) * 64 + b64_digit_value(o[at + n - 1])
    }
}

/// A base64 digit reads back as the six-bit value it was written for.
proof fn lemma_b64_char_value(v: int)
    requires
        0 <= v < 64,
    ensures
        b64_digit_value(b64_char(v)) == v,
{
}

/// Digits read the same wherever they stand.
proof fn lemma_digits_frame(o: Seq<u8>, a: int, r: Seq<u8>, b: int, n: int)
    requires
        n >= 0,
        forall|k: int| 0 <= k < n ==> #[trigger] o[a + k] == r[b + k],
    ensures
        digits_value(o, a, n) == digits_value(r, b, n),
        all_digits(o, a, n) == all_digits(r, b, n),
    decreases n,
{
    if n > 0 {
        lemma_digits_frame(o, a, r, b, n - 1);
        assert(o[a + (n - 1)] == r[b + (n - 1)]);
    }
}

/// Four digits written for three bytes read back as those bytes' 24 bits.
proof fn lemma_full_group(x: int, y: int, z: int)
    requires
        0 <= x < 256,
        0 <= y < 256,
        0 <= z < 256,
    ensures
        ({
            let q = seq![b64_char(x / 4), b64_char((x % 4) * 16 + y / 16), b64_char((y % 16) * 4 + z / 64),
                b64_char(z % 64)];
            all_digits(q, 0, 4) && digits_value(q, 0, 4) == x * 65536 + y * 256 + z
        }),
{
    let q = seq![b64_char(x / 4), b64_char((x % 4) * 16 + y / 16), b64_char((y % 16) * 4 + z / 64),
        b64_char(z % 64)];
    lemma_b64_char_value(x / 4);
    lemma_b64_char_value((x % 4) * 16 + y / 16);
    lemma_b64_char_value((y % 16) * 4 + z / 64);
    lemma_b64_char_value(z % 64);
    reveal_with_fuel(digits_value, 5);
    assert(digits_value(q, 0, 4) == (((x / 4) * 64 + ((x % 4) * 16 + y / 16)) * 64 + ((y % 16) * 4 + z / 64))
        * 64 + z % 64);
    assert((((x / 4) * 64 + ((x % 4) * 16 + y / 16)) * 64 + ((y % 16) * 4 + z / 64)) * 64 + z % 64
        == x * 65536 + y * 256 + z) by (nonlinear_arith)
        requires 0 <= x < 256, 0 <= y < 256, 0 <= z < 256;
    reveal_with_fuel(all_digits, 5);
}

/// Base64 decodes back to the bytes: the output has four digits per three bytes, a last
/// group being padded; each full group of four digits holds the 24 bits of its three bytes,
/// most significant first; a last single byte gives two digits (the second with its low four
/// bits zero) and `==`, a last pair of bytes three digits (the third with its low two bits
/// zero) and `=`.
#[verifier::spinoff_prover]
pub proof fn lemma_base64_decodes(d: Seq<u8>)
    ensures
        base64_spec(d).len() == 4 * ((d.len() + 2) / 3),
        forall|g: int|
            #![trigger all_digits(base64_spec(d), 4 * g, 4)]
            #![trigger digits_value(base64_spec(d), 4 * g, 4)]
            0 <= g < d.len() / 3 ==> all_digits(base64_spec(d), 4 * g, 4)
            && digits_value(base64_spec(d), 4 * g, 4) == d[3 * g] * 65536 + d[3 * g + 1] * 256 + d[3 * g + 2],
        d.len() % 3 == 1 ==> {
            let o = base64_spec(d);
            &&& all_digits(o, o.len() - 4, 2)
            &&& digits_value(o, o.len() - 4, 2) == d.last() * 16
            &&& o[o.len() - 2] == 61 && o[o.len() - 1] == 61
        },
        d.len() % 3 == 2 ==> {
            let o = base64_spec(d);
            &&& all_digits(o, o.len() - 4, 3)
            &&& digits_value(o, o.len() - 4, 3) == (d[d.len() - 2] * 256 + d.last()) * 4
            &&& o[o.len() - 1] == 61
        },
    decreases d.len(),
{
    let o = base64_spec(d);
    if d.len() < 3 {
        assert(d.len() / 3 == 0);
    }
    if d.len() == 1 {
        let x = d[0] as int;
        lemma_b64_char_value(x / 4);
        lemma_b64_char_value((x % 4) * 16);
        reveal_with_fuel(digits_value, 3);
        reveal_with_fuel(all_digits, 3);
    } else if d.len() == 2 {
        let x = d[0] as int;
        let y = d[1] as int;
        lemma_b64_char_value(x / 4);
        lemma_b64_char_value((x % 4) * 16 + y / 16);
        lemma_b64_char_value((y % 16) * 4);
        reveal_with_fuel(digits_value, 4);
        assert(((x / 4) * 64 + ((x % 4) * 16 + y / 16)) * 64 + (y % 16) * 4 == (x * 256 + y) * 4)
            by (nonlinear_arith) requires 0 <= x < 256, 0 <= y < 256;
        reveal_with_fuel(all_digits, 4);
    } else if d.len() >= 3 {
        let x = d[0] as int;
        let y = d[1] as int;
        let z = d[2] as int;
        let rest = d.skip(3);
        lemma_base64_decodes(rest);
        let q = seq![b64_char(x / 4), b64_char((x % 4) * 16 + y / 16), b64_char((y % 16) * 4 + z / 64),
            b64_char(z % 64)];
        let r = base64_spec(rest);
        assert(o == q + r);
        assert(d.len() / 3 == rest.len() / 3 + 1);
        lemma_full_group(x, y, z);
        assert forall|g: int|
            #![trigger all_digits(base64_spec(d), 4 * g, 4)]
            #![trigger digits_value(base64_spec(d), 4 * g, 4)]
            0 <= g < d.len() / 3 implies all_digits(base64_spec(d), 4 * g, 4)
            && digits_value(base64_spec(d), 4 * g, 4) == d[3 * g] * 65536 + d[3 * g + 1] * 256 + d[3 * g + 2] by {
            if g == 0 {
                assert forall|k: int| 0 <= k < 4 implies #[trigger] o[0 + k] == q[0 + k] by {}
                lemma_digits_frame(o, 0, q, 0, 4);
                assert(all_digits(q, 0, 4));
                assert(digits_value(q, 0, 4) == x * 65536 + y * 256 + z);
                assert(d[0] == x && d[1] == y && d[2] == z);
                assert(all_digits(o, 0, 4));
                assert(digits_value(o, 0, 4) == d[0] * 65536 + d[1] * 256 + d[2]);
            } else {
                let h = g - 1;
                assert(rest[3 * h] == d[3 * g] && rest[3 * h + 1] == d[3 * g + 1] && rest[3 * h + 2] == d[3 * g + 2]);
                assert(0 <= h < rest.len() / 3);
                assert(digits_value(r, 4 * h, 4) == rest[3 * h] * 65536 + rest[3 * h + 1] * 256 + rest[3 * h + 2]);
                assert(all_digits(r, 4 * h, 4));
                assert forall|k: int| 0 <= k < 4 implies #[trigger] o[4 * g + k] == r[4 * h + k] by {
                    assert(o[4 * g + k] == r[4 * g + k - 4]);
                }
                lemma_digits_frame(o, 4 * g, r, 4 * h, 4);
                assert(all_digits(o, 4 * g, 4));
            }
        }
        if d.len() % 3 != 0 {
            let t = o.len() - 4;
            let tr = r.len() - 4;
            assert(rest.len() % 3 == d.len() % 3);
            assert(o[t + 2] == r[tr + 2] && o[t + 3] == r[tr + 3]);
            lemma_digits_frame(o, t, r, tr, 2);
            lemma_digits_frame(o, t, r, tr, 3);
            assert(rest.last() == d.last());
            assert(rest.len() % 3 == 2 ==> rest[rest.len() - 2] == d[d.len() - 2]);
        }
    }
}

/// Standard base64 (with padding) of `data`.
pub fn base64_encode(data: &[u8]) -> (r: Vec<u8>)
    ensures
        r@ == base64_spec(data@),
{
    let mut r: Vec<u8> = Vec::new();
    let mut i: usize = 0;
    assert(data@.skip(0) =~= data@);
    while data.len() - i >= 3
        invariant
            i <= data@.len(),
            r@ + base64_spec(data@.skip(i as int)) == base64_spec(data@),
        decreases data@.len() - i,
    {
        let b0 = data[i];
        let b1 = data[i + 1];
        let b2 = data[i + 2];
        let ghost rest = data@.skip(i as int);
        assert(rest.skip(3) =~= data@.skip(i + 3));
        r.push(b64_digit(b0 / 4));
        r.push(b64_digit((b0 % 4) * 16 + b1 / 16));
        r.push(b64_digit((b1 % 16) * 4 + b2 / 64));
        r.push(b64_digit(b2 % 64));
        i += 3;
        assert(r@ + base64_spec(data@.skip(i as int)) =~= base64_spec(data@));
    }
    let left = data.len() - i;
    let ghost rest = data@.skip(i as int);
    if left == 1 {
        let b0 = data[i];
        r.push(b64_digit(b0 / 4));
        r.push(b64_digit((b0 % 4) * 16));
        r.push(61);
        r.push(61);
        assert(r@ =~= base64_spec(data@));
    } else if left == 2 {
        let b0 = data[i];
        let b1 = data[i + 1];
        r.push(b64_digit(b0 / 4));
        r.push(b64_digit((b0 % 4) * 16 + b1 / 16));
        r.push(b64_digit((b1 % 16) * 4));
        r.push(61);
        assert(r@ =~= base64_spec(data@));
    } else {
        assert(rest.len() == 0);
        assert(r@ =~= base64_spec(data@));
    }
    r
}

/// What the accept key hashes: the client's key, the GUID, and zero bytes up to 60 bytes.
pub open spec fn accept_input(key: Seq<u8>) -> Seq<u8> {
    key + magic_spec() + Seq::new((24 - key.len()) as nat, |i: int| 0u8)
}

/// The accept key hashes 60 bytes: the client's key first, the GUID
/// `258EAFA5-E914-47DA-95CA-C5AB0DC85B11` right after it, and zero bytes to the end.
pub proof fn lemma_accept_input_layout(key: Seq<u8>)
    requires
        key.len() <= 24,
    ensures
        accept_input(key).len() == 60,
        accept_input(key).subrange(0, key.len() as int) == key,
        accept_input(key).subrange(key.len() as int, key.len() + 36int) == magic_spec(),
        forall|j: int| key.len() + 36 <= j < 60 ==> #[trigger] accept_input(key)[j] == 0,
{
    let a = accept_input(key);
    assert(a.subrange(0, key.len() as int) =~= key);
    assert(a.subrange(key.len() as int, key.len() + 36int) =~= magic_spec());
}

/// The `Sec-WebSocket-Accept` value, as bytes, for a client key of at most 24 bytes.
pub open spec fn accept_key_spec(key: Seq<u8>) -> Seq<u8> {
    base64_spec(sha1_spec(accept_input(key)))
}

/// The `Sec-WebSocket-Accept` value for a client key of at most 24 bytes: base64 of the
/// SHA-1 digest of the 60 bytes made of the key, the GUID and zero padding.
fn accept_key_bytes(key: &[u8]) -> (r: Vec<u8>)
    requires
        key@.len() <= 24,
    ensures
        r@ == accept_key_spec(key@),
        forall|i: int| 0 <= i < r@.len() ==> #[trigger] r@[i] < 128,
{
    let magic = websocket_magic();
    let mut combined = [0u8; 60];
    let mut i: usize = 0;
    while i < key.len()
        invariant
            key@.len() <= 24,
            i <= key@.len(),
            combined@.len() == 60,
            forall|j: int| 0 <= j < i ==> combined@[j] == key@[j],
            forall|j: int| i <= j < 60 ==> combined@[j] == 0,
        decreases key@.len() - i,
    {
        combined[i] = key[i];
        i += 1;
    }
    let mut j: usize = 0;
    while j < 36
        invariant
            key@.len() <= 24,
            j <= 36,
            combined@.len() == 60,
            magic@ == magic_spec(),
            forall|m: int| 0 <= m < key@.len() ==> combined@[m] == key@[m],
            forall|m: int| 0 <= m < j ==> combined@[key@.len() + m] == magic_spec()[m],
            forall|m: int| key@.len() + j <= m < 60 ==> combined@[m] == 0,
        decreases 36 - j,
    {
        combined[key.len() + j] = magic[j];
        j += 1;
    }
    assert(combined@ =~= accept_input(key@));
    let digest = sha1_digest(&combined);
    let enc = base64_encode(&digest);
    proof {
        lemma_base64_ascii(digest@);
    }
    enc
}

/// The `Sec-WebSocket-Accept` value for a client key of at most 24 bytes: base64 of the
/// SHA-1 digest of the 60 bytes made of the key, the GUID and zero padding.
pub fn websocket_accept_key(sec_key: &str) -> (r: Result<String, Error>)
    requires
        sec_key.spec_bytes().len() <= 24,
    ensures
        r matches Ok(s) && encode_utf8(s@) == accept_key_spec(sec_key.spec_bytes()),
{
    let enc = accept_key_bytes(sec_key.as_bytes());
    proof {
        lemma_ascii_valid_utf8(enc@);
    }
    match str_from_utf8(enc.as_slice()) {
        Some(s) => Ok(s.to_owned()),
        None => Err(Error::Utf8Error),
    }
}

// ---------------------------------------------------------------------------
// Frames
// ---------------------------------------------------------------------------

/// The header of a final binary frame carrying `len` bytes: 0x82, then the length in seven
/// bits, or 126 and two big-endian bytes, or 127 and eight big-endian bytes.
pub open spec fn frame_header_spec(len: u64) -> Seq<u8> {
    if len <= 125 {
        seq![0x82u8, len as u8]
    } else if len <= 65535 {
        seq![0x82u8, 126u8] + u16_be_bytes(len as u16)
    } else {
        seq![0x82u8, 127u8] + u64_be_bytes(len)
    }
}

/// The header of a final binary frame carrying `len` bytes (see `frame_header_spec`).
pub fn frame_header(len: u64) -> (r: Vec<u8>)
    ensures
        r@ == frame_header_spec(len),
{
    if len <= 125 {
        let mut v: Vec<u8> = Vec::new();
        v.push(0x82);
        v.push(len as u8);
        assert(v@ =~= frame_header_spec(len));
        v
    } else if len <= 65535 {
        let mut buf = [0x82u8, 126, 0, 0];
        let mut tail = [0u8; 2];
        to_be_bytes_u16(len as u16, &mut tail);
        buf[2] = tail[0];
        buf[3] = tail[1];
        let mut v: Vec<u8> = Vec::new();
        v.push(buf[0]);
        v.push(buf[1]);
        v.push(buf[2]);
        v.push(buf[3]);
        assert(v@ =~= frame_header_spec(len));
        v
    } else {
        let mut tail = [0u8; 8];
        to_be_bytes_u64(len, &mut tail);
        let mut v: Vec<u8> = Vec::new();
        v.push(0x82);
        v.push(127);
        let mut k: usize = 0;
        while k < 8
            invariant
                k <= 8,
                tail@ == u64_be_bytes(len),
                v@ == seq![0x82u8, 127u8] + tail@.take(k as int),
            decreases 8 - k,
        {
            v.push(tail[k]);
            k += 1;
            assert(v@ =~= seq![0x82u8, 127u8] + tail@.take(k as int));
        }
        assert(tail@.take(8) =~= tail@);
        v
    }
}

/// What the bytes at the front of an upgraded connection's buffer hold.
pub enum FrameView {
    /// Not a whole frame yet.
    NeedMore,
    /// Reserved bits are set: the connection is closed.
    Close,
    /// A frame: the bytes it takes up, its FIN bit, its opcode and its (unmasked) payload.
    Data { consumed: int, fin: bool, op: u8, payload: Seq<u8> },
}

/// A frame's payload length and where its payload (or masking key) starts, read from its
/// second byte and the extended length after it.
pub open spec fn payload_length(b: Seq<u8>) -> (int, int) {
    let p = b[1] % 128;
    if p == 126 {
        (b[2] as int * 256 + b[3] as int, 4)
    } else if p == 127 {
        (be_value(b.subrange(2, 10)) as int, 10)
    } else {
        (p as int, 2)
    }
}

/// The frame at the front of `b`. A masked frame's four key bytes are not counted when
/// checking that the frame is complete; bytes of its payload beyond `b` are taken as zero.
/// An unmasked payload that reaches the very end of `b` is taken as empty.
pub open spec fn frame_spec(b: Seq<u8>) -> FrameView {
    if b.len() < 2 {
        FrameView::NeedMore
    } else if (b[0] / 16) % 8 != 0 {
        FrameView::Close
    } else if b[1] % 128 == 126 && b.len() < 4 {
        FrameView::NeedMore
    } else if b[1] % 128 == 127 && b.len() < 10 {
        FrameView::NeedMore
    } else {
        let plen = payload_length(b).0;
        let off = payload_length(b).1;
        let fin = b[0] >= 128;
        let op = b[0] % 128;
        if off + plen > b.len() {
            FrameView::NeedMore
        } else if b[1] >= 128 {
            let o = off + 4;
            let key = if o - 1 < b.len() { b.subrange(o - 4, o) } else { seq![0u8, 0u8, 0u8, 0u8] };
            FrameView::Data {
                consumed: o + plen,
                fin,
                op,
                payload: Seq::new(plen as nat, |i: int| if o + i < b.len() { b[o + i] ^ key[i % 4] } else { 0u8 }),
            }
        } else {
            FrameView::Data {
                consumed: off + plen,
                fin,
                op,
                payload: if off < off + plen && off + plen < b.len() { b.subrange(off, off + plen) } else { Seq::empty() },
            }
        }
    }
}

/// A frame read off an upgraded connection (see `FrameView`).
pub enum Frame {
    NeedMore,
    Close,
    Data { consumed: usize, fin: bool, op: u8, payload: Vec<u8> },
}

impl Frame {
    /// The frame as plain values.
    pub open spec fn view(&self) -> FrameView {
        match self {
            Frame::NeedMore => FrameView::NeedMore,
            Frame::Close => FrameView::Close,
            Frame::Data { consumed, fin, op, payload } => FrameView::Data {
                consumed: *consumed as int,
                fin: *fin,
                op: *op,
                payload: payload@,
            },
        }
    }
}

/// The big-endian value of `b[start..end]`.
fn be_number(b: &[u8], start: usize, end: usize) -> (r: u64)
    requires
        start <= end <= b@.len(),
        end - start <= 8,
    ensures
        r == be_value(b@.subrange(start as int, end as int)),
{
    let mut v: u64 = 0;
    let mut k: usize = start;
    assert(b@.subrange(start as int, start as int) =~= Seq::<u8>::empty());
    proof { vstd::arithmetic::power2::lemma2_to64(); }
    while k < end
        invariant
            start <= k <= end,
            end <= b@.len(),
            end - start <= 8,
            v == be_value(b@.subrange(start as int, k as int)),
            v < vstd::arithmetic::power2::pow2(8 * (k - start) as nat),
        decreases end - k,
    {
        let ghost s = b@.subrange(start as int, k as int + 1);
        assert(s.drop_last() =~= b@.subrange(start as int, k as int));
        proof {
            let a = (8 * (k - start)) as nat;
            vstd::arithmetic::power2::lemma_pow2_adds(a, 8);
            vstd::arithmetic::power2::lemma2_to64();
            if a + 8 < 64 {
                vstd::arithmetic::power2::lemma_pow2_strictly_increases(a + 8, 64);
            }
            assert(v * 256 + b@[k as int] < vstd::arithmetic::power2::pow2(a) * 256) by (nonlinear_arith)
                requires v < vstd::arithmetic::power2::pow2(a), b@[k as int] < 256;
            assert(vstd::arithmetic::power2::pow2(a + 8) <= 0x1_0000_0000_0000_0000);
        }
        v = v * 256 + b[k] as u64;
        k += 1;
    }
    v
}

/// The frame at the front of `bytes` (see `frame_spec`).
pub fn parse_frame(bytes: &[u8]) -> (r: Frame)
    requires
        bytes@.len() + 4 <= usize::MAX,
    ensures
        r@ == frame_spec(bytes@),
{
    let len = bytes.len();
    if len < 2 {
        return Frame::NeedMore;
    }
    let b0 = bytes[0];
    let b1 = bytes[1];
    if (b0 / 16) % 8 != 0 {
        return Frame::Close;
    }
    let fin = b0 >= 128;
    let op = b0 % 128;
    let mask = b1 >= 128;
    let p = b1 % 128;
    let (plen, off): (u64, usize) = if p == 126 {
        if len < 4 {
            return Frame::NeedMore;
        }
        (bytes[2] as u64 * 256 + bytes[3] as u64, 4)
    } else if p == 127 {
        if len < 10 {
            return Frame::NeedMore;
        }
        (be_number(bytes, 2, 10), 10)
    } else {
        (p as u64, 2)
    };
    assert(plen == payload_length(bytes@).0 && off == payload_length(bytes@).1);
    if plen > (len - off) as u64 {
        return Frame::NeedMore;
    }
    let plen = plen as usize;
    if mask {
        let o = off + 4;
        let key: [u8; 4] = if o - 1 < len {
            [bytes[o - 4], bytes[o - 3], bytes[o - 2], bytes[o - 1]]
        } else {
            [0, 0, 0, 0]
        };
        let ghost key_spec = if o - 1 < len { bytes@.subrange(o - 4, o as int) } else { seq![0u8, 0u8, 0u8, 0u8] };
        assert(key@ =~= key_spec);
        let mut payload: Vec<u8> = Vec::new();
        let mut i: usize = 0;
        while i < plen
            invariant
                i <= plen,
                plen <= len,
                len == bytes@.len(),
                key@ == key_spec,
                key@.len() == 4,
                o == off + 4,
                payload@.len() == i,
                forall|j: int| 0 <= j < i ==> #[trigger] payload@[j] == (if o + j < len { bytes@[o + j] ^ key_spec[j % 4] } else { 0u8 }),
            decreases plen - i,
        {
            let v = if o < len && i < len - o { bytes[o + i] ^ key[i % 4] } else { 0 };
            payload.push(v);
            i += 1;
        }
        let ghost want = Seq::new(plen as nat, |j: int| if o + j < len { bytes@[o + j] ^ key_spec[j % 4] } else { 0u8 });
        assert(payload@ =~= want);
        Frame::Data { consumed: o + plen, fin, op, payload }
    } else {
        let mut payload: Vec<u8> = Vec::new();
        if off < off + plen && off + plen < len {
            let mut i: usize = off;
            while i < off + plen
                invariant
                    off <= i <= off + plen,
                    off + plen < len,
                    len == bytes@.len(),
                    payload@ == bytes@.subrange(off as int, i as int),
                decreases off + plen - i,
            {
                payload.push(bytes[i]);
                i += 1;
                assert(payload@ =~= bytes@.subrange(off as int, i as int));
            }
        } else {
            assert(payload@ =~= Seq::<u8>::empty());
        }
        Frame::Data { consumed: off + plen, fin, op, payload }
    }
}

// ---------------------------------------------------------------------------
// The opening handshake
// ---------------------------------------------------------------------------

/// `pat` occurs in `b` at position `i`.
pub open spec fn matches_at(b: Seq<u8>, pat: Seq<u8>, i: int) -> bool {
    0 <= i && i + pat.len() <= b.len() && b.subrange(i, i + pat.len()) == pat
}

/// The first position at or after `i` at which the non-empty `pat` occurs in `b`.
pub open spec fn first_match(b: Seq<u8>, pat: Seq<u8>, i: int) -> Option<int>
    decreases b.len() - i,
{
    if i < 0 || i >= b.len() || i + pat.len() > b.len() {
        None
    } else if b.subrange(i, i + pat.len()) == pat {
        Some(i)
    } else {
        first_match(b, pat, i + 1)
    }
}

/// Whether `pat` occurs in `b` at position `i`.
fn matches_at_exec(b: &[u8], pat: &[u8], i: usize) -> (r: bool)
    requires
        i + pat@.len() <= b@.len(),
    ensures
        r == (b@.subrange(i as int, i + pat@.len()) == pat@),
{
    let mut k: usize = 0;
    while k < pat.len()
        invariant
            k <= pat@.len(),
            i + pat@.len() <= b@.len(),
            b@.len() == b.len(),
            b@.subrange(i as int, i + k) == pat@.take(k as int),
        decreases pat@.len() - k,
    {
        if b[i + k] != pat[k] {
            assert(b@.subrange(i as int, i + pat@.len())[k as int] != pat@[k as int]);
            return false;
        }
        k += 1;
        assert(b@.subrange(i as int, i + k) =~= pat@.take(k as int));
    }
    assert(pat@.take(pat@.len() as int) =~= pat@);
    true
}

/// The first position at or after `start` at which the non-empty `pat` occurs in `b`.
pub fn find_from(b: &[u8], pat: &[u8], start: usize) -> (r: Option<usize>)
    requires
        pat@.len() > 0,
    ensures
        match r {
            Some(i) => first_match(b@, pat@, start as int) == Some(i as int),
            None => first_match(b@, pat@, start as int) is None,
        },
{
    let mut i: usize = start;
    while i < b.len() && pat.len() <= b.len() - i
        invariant
            pat@.len() > 0,
            start <= i,
            first_match(b@, pat@, start as int) == first_match(b@, pat@, i as int),
        decreases b@.len() - i,
    {
        if matches_at_exec(b, pat, i) {
            return Some(i);
        }
        i += 1;
    }
    None
}

/// The request line's target: the bytes between the first space of `b` and the next space,
/// when there are any (empty otherwise).
pub open spec fn url_spec(b: Seq<u8>) -> Seq<u8> {
    match first_match(b, seq![32u8], 0) {
        Some(s) => if s + 1 < b.len() {
            match first_match(b, seq![32u8], s + 1) {
                Some(e) => if s + 1 < e { b.subrange(s + 1, e) } else { Seq::empty() },
                None => Seq::empty(),
            }
        } else {
            Seq::empty()
        },
        None => Seq::empty(),
    }
}

/// `"\nSec-WebSocket-Key: "`.
pub open spec fn key_tag() -> Seq<u8> {
    seq![10u8, 83, 101, 99, 45, 87, 101, 98, 83, 111, 99, 107, 101, 116, 45, 75, 101, 121, 58, 32]
}

/// The `Sec-WebSocket-Key` header's value: from after the first `"\nSec-WebSocket-Key: "` of
/// `b` to the next carriage return, when it is not empty (empty otherwise).
pub open spec fn key_spec(b: Seq<u8>) -> Seq<u8> {
    match first_match(b, key_tag(), 0) {
        Some(k) => if k + 1 < b.len() {
            match first_match(b, seq![13u8], k + 1) {
                Some(e) => if k + 20 < e { b.subrange(k + 20, e) } else { Seq::empty() },
                None => Seq::empty(),
            }
        } else {
            Seq::empty()
        },
        None => Seq::empty(),
    }
}

/// The bytes of `b` from `start` to `end`.
fn copy_range(b: &[u8], start: usize, end: usize) -> (r: Vec<u8>)
    requires
        start <= end <= b@.len(),
    ensures
        r@ == b@.subrange(start as int, end as int),
{
    let mut r: Vec<u8> = Vec::new();
    let mut i: usize = start;
    while i < end
        invariant
            start <= i <= end,
            end <= b@.len(),
            r@ == b@.subrange(start as int, i as int),
        decreases end - i,
    {
        r.push(b[i]);
        i += 1;
        assert(r@ =~= b@.subrange(start as int, i as int));
    }
    r
}

/// The request line's target (see `url_spec`).
pub fn request_url(b: &[u8]) -> (r: Vec<u8>)
    ensures
        r@ == url_spec(b@),
{
    let space = [32u8];
    assert(space@ =~= seq![32u8]);
    match find_from(b, &space, 0) {
        Some(s) => {
            proof { lemma_first_match_in(b@, space@, 0); }
            if s < b.len() - 1 {
                match find_from(b, &space, s + 1) {
                    Some(e) => {
                        proof { lemma_first_match_in(b@, space@, s + 1); }
                        if s + 1 < e {
                            copy_range(b, s + 1, e)
                        } else {
                            Vec::new()
                        }
                    },
                    None => Vec::new(),
                }
            } else {
                Vec::new()
            }
        },
        None => Vec::new(),
    }
}

/// The `Sec-WebSocket-Key` header's value (see `key_spec`).
pub fn request_key(b: &[u8]) -> (r: Vec<u8>)
    ensures
        r@ == key_spec(b@),
{
    let tag = [10u8, 83, 101, 99, 45, 87, 101, 98, 83, 111, 99, 107, 101, 116, 45, 75, 101, 121, 58, 32];
    assert(tag@ =~= key_tag());
    let cr = [13u8];
    assert(cr@ =~= seq![13u8]);
    match find_from(b, &tag, 0) {
        Some(k) => {
            proof { lemma_first_match_in(b@, key_tag(), 0); }
            if k < b.len() - 1 {
                match find_from(b, &cr, k + 1) {
                    Some(e) => {
                        proof { lemma_first_match_in(b@, seq![13u8], k + 1); }
                        if k + 20 < e {
                            copy_range(b, k + 20, e)
                        } else {
                            Vec::new()
                        }
                    },
                    None => Vec::new(),
                }
            } else {
                Vec::new()
            }
        },
        None => Vec::new(),
    }
}

/// A match lies inside the bytes searched.
proof fn lemma_first_match_in(b: Seq<u8>, pat: Seq<u8>, i: int)
    ensures
        first_match(b, pat, i) matches Some(m) ==> i <= m && m + pat.len() <= b.len() && m < b.len(),
    decreases b.len() - i,
{
    if !(i < 0 || i >= b.len() || i + pat.len() > b.len()) && b.subrange(i, i + pat.len()) != pat {
        lemma_first_match_in(b, pat, i + 1);
    }
}

/// The search finds the earliest occurrence: what `first_match` gives from `i` is a position
/// at or after `i` where `pat` occurs and where no earlier one from `i` on does, and it gives
/// nothing exactly when `pat` occurs nowhere from `i` on.
#[verifier::spinoff_prover]
pub proof fn lemma_first_match_earliest(b: Seq<u8>, pat: Seq<u8>, i: int)
    requires
        0 <= i,
        pat.len() > 0,
    ensures
        first_match(b, pat, i) matches Some(m) ==> i <= m && matches_at(b, pat, m)
            && forall|j: int| i <= j < m ==> !#[trigger] matches_at(b, pat, j),
        first_match(b, pat, i) is None <==> forall|j: int| i <= j ==> !#[trigger] matches_at(b, pat, j),
    decreases b.len() - i,
{
    if i >= b.len() || i + pat.len() > b.len() {
        assert forall|j: int| i <= j implies !#[trigger] matches_at(b, pat, j) by {}
    } else if b.subrange(i, i + pat.len()) != pat {
        lemma_first_match_earliest(b, pat, i + 1);
        assert(!matches_at(b, pat, i));
        if first_match(b, pat, i) is None {
            assert forall|j: int| i <= j implies !#[trigger] matches_at(b, pat, j) by {
                if j > i {
                    assert(i + 1 <= j);
                }
            }
        }
    } else {
        assert(matches_at(b, pat, i));
    }
}

/// The request target is the text between the first two spaces of the request: when it is
/// not empty, it follows the first space of the request, holds no space, and the byte after
/// it is a space.
#[verifier::spinoff_prover]
pub proof fn lemma_request_target(b: Seq<u8>)
    ensures
        url_spec(b).len() > 0 ==> exists|s: int| #![trigger b[s]]
            0 <= s && s + url_spec(b).len() + 1 < b.len()
            && b[s] == 32 && (forall|j: int| 0 <= j < s ==> b[j] != 32)
            && url_spec(b) == b.subrange(s + 1, s + 1 + url_spec(b).len())
            && b[s + 1 + url_spec(b).len()] == 32
            && (forall|j: int| 0 <= j < url_spec(b).len() ==> url_spec(b)[j] != 32),
{
    let sp = seq![32u8];
    lemma_first_match_earliest(b, sp, 0);
    if url_spec(b).len() > 0 {
        let s = first_match(b, sp, 0)->Some_0;
        lemma_first_match_earliest(b, sp, s + 1);
        let e = first_match(b, sp, s + 1)->Some_0;
        assert(matches_at(b, sp, s) && b.subrange(s, s + 1)[0] == b[s]);
        assert(matches_at(b, sp, e) && b.subrange(e, e + 1)[0] == b[e]);
        assert forall|j: int| 0 <= j < s implies b[j] != 32 by {
            if b[j] == 32 {
                assert(b.subrange(j, j + 1) =~= sp);
                assert(matches_at(b, sp, j));
            }
        }
        let u = url_spec(b);
        assert(u == b.subrange(s + 1, e));
        assert forall|j: int| 0 <= j < u.len() implies u[j] != 32 by {
            assert(u[j] == b[s + 1 + j]);
            if b[s + 1 + j] == 32 {
                assert(b.subrange(s + 1 + j, s + 2 + j) =~= sp);
                assert(matches_at(b, sp, s + 1 + j));
            }
        }
        assert(b[s] == 32);
    }
}

/// The key is the value of the first `Sec-WebSocket-Key` header line: when it is not empty,
/// `"\nSec-WebSocket-Key: "` occurs just before it and nowhere earlier, it holds no carriage
/// return, and a carriage return follows it.
#[verifier::spinoff_prover]
pub proof fn lemma_request_key(b: Seq<u8>)
    ensures
        key_spec(b).len() > 0 ==> exists|k: int| #![trigger matches_at(b, key_tag(), k)]
            matches_at(b, key_tag(), k) && (forall|j: int| 0 <= j < k ==> !matches_at(b, key_tag(), j))
            && k + 20 + key_spec(b).len() < b.len()
            && key_spec(b) == b.subrange(k + 20, k + 20 + key_spec(b).len())
            && b[k + 20 + key_spec(b).len()] == 13
            && (forall|j: int| 0 <= j < key_spec(b).len() ==> key_spec(b)[j] != 13),
{
    let cr = seq![13u8];
    let tag = key_tag();
    lemma_first_match_earliest(b, tag, 0);
    if key_spec(b).len() > 0 {
        let k = first_match(b, tag, 0)->Some_0;
        lemma_first_match_earliest(b, cr, k + 1);
        let e = first_match(b, cr, k + 1)->Some_0;
        assert(matches_at(b, cr, e) && b.subrange(e, e + 1)[0] == b[e]);
        let u = key_spec(b);
        assert(u == b.subrange(k + 20, e));
        assert forall|j: int| 0 <= j < u.len() implies u[j] != 13 by {
            assert(u[j] == b[k + 20 + j]);
            if b[k + 20 + j] == 13 {
                assert(b.subrange(k + 20 + j, k + 21 + j) =~= cr);
                assert(matches_at(b, cr, k + 20 + j));
            }
        }
        assert(b[e] == 13);
    }
}

/// `"HTTP/1.1 400 Bad Request\r\nConnection: close\r\n\r\n"`.
pub open spec fn bad_request_spec() -> Seq<u8> {
    seq![72, 84, 84, 80, 47, 49, 46, 49, 32, 52, 48, 48, 32, 66, 97, 100, 32, 82, 101, 113, 117, 101, 115, 116, 13, 10, 67, 111, 110, 110, 101, 99, 116, 105, 111, 110, 58, 32, 99, 108, 111, 115, 101, 13, 10, 13, 10]
}

/// `"HTTP/1.1 101 Switching Protocols\r\nUpgrade: websocket\r\nConnection: Upgrade\r\nSec-WebSocket-Accept: "`.
pub open spec fn switching_spec() -> Seq<u8> {
    seq![72, 84, 84, 80, 47, 49, 46, 49, 32, 49, 48, 49, 32, 83, 119, 105, 116, 99, 104, 105, 110, 103, 32, 80, 114, 111, 116, 111, 99, 111, 108, 115, 13, 10, 85, 112, 103, 114, 97, 100, 101, 58, 32, 119, 101, 98, 115, 111, 99, 107, 101, 116, 13, 10, 67, 111, 110, 110, 101, 99, 116, 105, 111, 110, 58, 32, 85, 112, 103, 114, 97, 100, 101, 13, 10, 83, 101, 99, 45, 87, 101, 98, 83, 111, 99, 107, 101, 116, 45, 65, 99, 99, 101, 112, 116, 58, 32]
}

/// `"\r\n\r\n"`, which ends a request's head.
pub open spec fn head_end() -> Seq<u8> {
    seq![13u8, 10, 13, 10]
}

/// The answer to an opening handshake whose key is `key`: 101 with the accept key for a key
/// of 1 to 24 bytes, 400 otherwise.
pub open spec fn response_spec(key: Seq<u8>) -> Seq<u8> {
    if 0 < key.len() <= 24 {
        switching_spec() + accept_key_spec(key) + head_end()
    } else {
        bad_request_spec()
    }
}

/// Appends `src` to `dst`.
fn push_all(dst: &mut Vec<u8>, src: &[u8])
    ensures
        final(dst)@ == old(dst)@ + src@,
{
    let mut i: usize = 0;
    while i < src.len()
        invariant
            i <= src@.len(),
            dst@ == old(dst)@ + src@.take(i as int),
        decreases src@.len() - i,
    {
        dst.push(src[i]);
        i += 1;
        assert(dst@ =~= old(dst)@ + src@.take(i as int));
    }
    assert(src@.take(src@.len() as int) =~= src@);
}

/// The answer to an opening handshake (see `response_spec`), and whether it upgrades the
/// connection.
pub fn handshake_response(key: &[u8]) -> (r: (Vec<u8>, bool))
    ensures
        r.0@ == response_spec(key@),
        r.1 == (0 < key@.len() <= 24),
{
    let mut out: Vec<u8> = Vec::new();
    if 0 < key.len() && key.len() <= 24 {
        let head = [72, 84, 84, 80, 47, 49, 46, 49, 32, 49, 48, 49, 32, 83, 119, 105, 116, 99, 104, 105, 110, 103, 32, 80, 114, 111, 116, 111, 99, 111, 108, 115, 13, 10, 85, 112, 103, 114, 97, 100, 101, 58, 32, 119, 101, 98, 115, 111, 99, 107, 101, 116, 13, 10, 67, 111, 110, 110, 101, 99, 116, 105, 111, 110, 58, 32, 85, 112, 103, 114, 97, 100, 101, 13, 10, 83, 101, 99, 45, 87, 101, 98, 83, 111, 99, 107, 101, 116, 45, 65, 99, 99, 101, 112, 116, 58, 32];
        assert(head@ =~= switching_spec());
        push_all(&mut out, &head);
        let accept = accept_key_bytes(key);
        push_all(&mut out, accept.as_slice());
        let tail = [13u8, 10, 13, 10];
        assert(tail@ =~= head_end());
        push_all(&mut out, &tail);
        (out, true)
    } else {
        let msg = [72, 84, 84, 80, 47, 49, 46, 49, 32, 52, 48, 48, 32, 66, 97, 100, 32, 82, 101, 113, 117, 101, 115, 116, 13, 10, 67, 111, 110, 110, 101, 99, 116, 105, 111, 110, 58, 32, 99, 108, 111, 115, 101, 13, 10, 13, 10];
        assert(msg@ =~= bad_request_spec());
        push_all(&mut out, &msg);
        (out, false)
    }
}

/// A binary message framed for sending: the header for its length, then its bytes.
pub fn frame_message(bytes: &[u8]) -> (r: Vec<u8>)
    ensures
        r@ == frame_header_spec(bytes@.len() as u64) + bytes@,
{
    let mut out = frame_header(bytes.len() as u64);
    push_all(&mut out, bytes);
    out
}

// ---------------------------------------------------------------------------
// Handlers
// ---------------------------------------------------------------------------

/// Where a WebSocket server is in its life.
#[derive(PartialEq, Eq, Structural)]
pub enum WsState {
    Init,
    Started,
    Stopping,
    Stopped,
}

/// The first index at or after `i` whose path is `url`.
pub open spec fn path_index(paths: Seq<Seq<u8>>, url: Seq<u8>, i: int) -> Option<int>
    decreases paths.len() - i,
{
    if i < 0 || i >= paths.len() {
        None
    } else if paths[i] == url {
        Some(i)
    } else {
        path_index(paths, url, i + 1)
    }
}

/// Where a server listens: an IPv4 address, a port and the backlog of pending connections.
#[derive(Clone, Copy, Debug)]
pub struct Listener {
    pub addr: [u8; 4],
    pub port: u16,
    pub backlog: i32,
}

/// The paths that have handlers, in the order they were added, and the server's state.
/// A path occurs once.
pub struct WsRouter {
    paths: Vec<Vec<u8>>,
    state: WsState,
}

impl WsRouter {
    /// The paths, as byte strings.
    pub closed spec fn paths(&self) -> Seq<Seq<u8>> {
        self.paths@.map_values(|p: Vec<u8>| p@)
    }

    /// The server's state.
    pub closed spec fn state(&self) -> WsState {
        self.state
    }

    /// No path occurs twice.
    pub open spec fn wf(&self) -> bool {
        forall|i: int, j: int| 0 <= i < j < self.paths().len() ==> self.paths()[i] != self.paths()[j]
    }

    /// A server that has not started and has no handlers.
    pub fn new() -> (r: Self)
        ensures
            r.wf(),
            r.paths() == Seq::<Seq<u8>>::empty(),
            r.state() == WsState::Init,
    {
        let r = WsRouter { paths: Vec::new(), state: WsState::Init };
        assert(r.paths() =~= Seq::<Seq<u8>>::empty());
        r
    }

    /// The index of the handler for `url`.
    pub fn lookup(&self, url: &[u8]) -> (r: Option<usize>)
        ensures
            match r {
                Some(i) => path_index(self.paths(), url@, 0) == Some(i as int),
                None => path_index(self.paths(), url@, 0) is None,
            },
    {
        let mut i: usize = 0;
        while i < self.paths.len()
            invariant
                i <= self.paths@.len(),
                path_index(self.paths(), url@, 0) == path_index(self.paths(), url@, i as int),
            decreases self.paths@.len() - i,
        {
            assert(self.paths()[i as int] == self.paths@[i as int]@);
            if self.paths[i].len() == url.len() && matches_at_exec(self.paths[i].as_slice(), url, 0) {
                assert(self.paths@[i as int]@.subrange(0, url@.len() as int) =~= self.paths@[i as int]@);
                return Some(i);
            }
            proof {
                if self.paths@[i as int]@ == url@ {
                    assert(self.paths@[i as int]@.subrange(0, url@.len() as int) =~= self.paths@[i as int]@);
                }
            }
            i += 1;
        }
        None
    }

    /// Adds a handler for `path` before the server starts: `IllegalState` once it has started,
    /// `Duplicate` when `path` has one already; otherwise the new handler's index.
    pub fn add_handler(&mut self, path: &str) -> (r: Result<usize, Error>)
        requires
            old(self).wf(),
        ensures
            final(self).wf(),
            final(self).state() == old(self).state(),
            old(self).state() != WsState::Init ==> r == Err::<usize, Error>(Error::IllegalState)
                && final(self).paths() == old(self).paths(),
            old(self).state() == WsState::Init && path_index(old(self).paths(), path.spec_bytes(), 0) is Some
                ==> r == Err::<usize, Error>(Error::Duplicate) && final(self).paths() == old(self).paths(),
            old(self).state() == WsState::Init && path_index(old(self).paths(), path.spec_bytes(), 0) is None
                ==> r == Ok::<usize, Error>(old(self).paths().len() as usize)
                && final(self).paths() == old(self).paths().push(path.spec_bytes()),
    {
        if self.state != WsState::Init {
            return Err(Error::IllegalState);
        }
        let bytes = path.as_bytes();
        match self.lookup(bytes) {
            Some(_) => Err(Error::Duplicate),
            None => {
                proof { lemma_path_index_none(self.paths(), bytes@, 0); }
                let n = self.paths.len();
                let mut v: Vec<u8> = Vec::new();
                push_all(&mut v, bytes);
                assert(v@ =~= bytes@);
                self.paths.push(v);
                assert(self.paths() =~= old(self).paths().push(bytes@));
                Ok(n)
            },
        }
    }

    /// Starts the server: `IllegalState` unless it is in `Init`.
    pub fn start(&mut self) -> (r: Result<(), Error>)
        requires
            old(self).wf(),
        ensures
            final(self).wf(),
            final(self).paths() == old(self).paths(),
            old(self).state() == WsState::Init ==> r is Ok && final(self).state() == WsState::Started,
            old(self).state() != WsState::Init ==> r == Err::<(), Error>(Error::IllegalState)
                && final(self).state() == old(self).state(),
    {
        if self.state != WsState::Init {
            return Err(Error::IllegalState);
        }
        self.state = WsState::Started;
        assert(self.paths() =~= old(self).paths());
        Ok(())
    }

    /// Whether the server may be stopped: only once it has started (`IllegalState` otherwise).
    pub fn stop(&self) -> (r: Result<(), Error>)
        ensures
            r is Ok <==> self.state() == WsState::Started,
            r is Err ==> r == Err::<(), Error>(Error::IllegalState),
    {
        if self.state == WsState::Started {
            Ok(())
        } else {
            Err(Error::IllegalState)
        }
    }
}

/// A path added to a table that did not have it is found, at the end of the table.
proof fn lemma_path_index_push(paths: Seq<Seq<u8>>, url: Seq<u8>, i: int)
    requires
        0 <= i <= paths.len(),
        path_index(paths, url, i) is None,
    ensures
        path_index(paths.push(url), url, i) == Some(paths.len() as int),
    decreases paths.len() - i,
{
    if i < paths.len() {
        assert(paths.push(url)[i] == paths[i]);
        lemma_path_index_push(paths, url, i + 1);
    } else {
        assert(paths.push(url)[i] == url);
    }
}

/// A handler added to a server is the one its path leads to: after `add_handler` gives
/// index `i` for `path`, `lookup` of the same path gives `i`.
pub proof fn lemma_added_handler_found(paths: Seq<Seq<u8>>, path: Seq<u8>)
    requires
        path_index(paths, path, 0) is None,
    ensures
        path_index(paths.push(path), path, 0) == Some(paths.len() as int),
{
    lemma_path_index_push(paths, path, 0);
}

/// Routing is by the whole path: the handler found for `url` is the first one whose path
/// is exactly `url` (a path that is only a prefix of `url`, or that `url` is a prefix of,
/// does not match), and no handler is found exactly when no path equals `url`.
pub proof fn lemma_route_exact(paths: Seq<Seq<u8>>, url: Seq<u8>)
    ensures
        path_index(paths, url, 0) matches Some(i) ==> 0 <= i < paths.len() && paths[i] == url
            && forall|j: int| 0 <= j < i ==> paths[j] != url,
        path_index(paths, url, 0) is None <==> forall|j: int| 0 <= j < paths.len() ==> paths[j] != url,
{
    lemma_path_index_found(paths, url, 0);
    if path_index(paths, url, 0) is None {
        lemma_path_index_none(paths, url, 0);
    }
}

/// What `path_index` finds from `i` on is the first index at or after `i` whose path is `url`.
proof fn lemma_path_index_found(paths: Seq<Seq<u8>>, url: Seq<u8>, i: int)
    requires
        0 <= i,
    ensures
        path_index(paths, url, i) matches Some(k) ==> i <= k < paths.len() && paths[k] == url
            && forall|j: int| i <= j < k ==> paths[j] != url,
        path_index(paths, url, i) is Some <== exists|j: int| i <= j < paths.len() && paths[j] == url,
    decreases paths.len() - i,
{
    if i < paths.len() && paths[i] != url {
        lemma_path_index_found(paths, url, i + 1);
    }
}

/// When no index at or after `i` has `url`, none of them has it.
proof fn lemma_path_index_none(paths: Seq<Seq<u8>>, url: Seq<u8>, i: int)
    requires
        0 <= i,
        path_index(paths, url, i) is None,
    ensures
        forall|j: int| i <= j < paths.len() ==> paths[j] != url,
    decreases paths.len() - i,
{
    if i < paths.len() {
        lemma_path_index_none(paths, url, i + 1);
    }
}

// ---------------------------------------------------------------------------
// Reading a connection
// ---------------------------------------------------------------------------

/// What the library asks of a connection's owner.
pub enum WsAction {
    /// Write these bytes to the connection.
    Write { bytes: Vec<u8> },
    /// Close the connection.
    Close,
    /// Tell the handler at this index that the connection was upgraded.
    Accept { index: usize },
    /// Hand a message's payload to the handler, when there is one.
    Recv { handler: Option<usize>, payload: Vec<u8>, fin: bool, op: u8 },
}

/// A `WsAction` as plain values.
pub enum ActionView {
    Write { bytes: Seq<u8> },
    Close,
    Accept { index: usize },
    Recv { handler: Option<usize>, payload: Seq<u8>, fin: bool, op: u8 },
}

impl WsAction {
    /// The action as plain values.
    pub open spec fn view(&self) -> ActionView {
        match self {
            WsAction::Write { bytes } => ActionView::Write { bytes: bytes@ },
            WsAction::Close => ActionView::Close,
            WsAction::Accept { index } => ActionView::Accept { index: *index },
            WsAction::Recv { handler, payload, fin, op } => ActionView::Recv {
                handler: *handler,
                payload: payload@,
                fin: *fin,
                op: *op,
            },
        }
    }
}

/// A list of actions as plain values.
pub open spec fn actions_view(v: Seq<WsAction>) -> Seq<ActionView> {
    v.map_values(|a: WsAction| a.view())
}

/// One step of reading: the bytes it takes off the front, whether it upgraded the
/// connection, the handler it found, and what it asks for.
pub struct StepView {
    pub consumed: int,
    pub upgraded: bool,
    pub handler: Option<usize>,
    pub actions: Seq<ActionView>,
}

/// One step of reading (see `StepView`).
pub struct Step {
    pub consumed: usize,
    pub upgraded: bool,
    pub handler: Option<usize>,
    pub actions: Vec<WsAction>,
}

impl Step {
    /// The step as plain values.
    pub open spec fn view(&self) -> StepView {
        StepView {
            consumed: self.consumed as int,
            upgraded: self.upgraded,
            handler: self.handler,
            actions: actions_view(self.actions@),
        }
    }
}

/// A step that takes nothing and asks for `actions`.
pub open spec fn idle_step(actions: Seq<ActionView>) -> StepView {
    StepView { consumed: 0, upgraded: false, handler: None, actions }
}

/// A step on a connection not yet upgraded, reading the opening handshake at the front of
/// `b` against the handlers' `paths`; `None` when the target or the key is not UTF-8.
/// Until the head is complete nothing happens; a missing target or one without a handler
/// closes the connection; otherwise the head is taken and answered (see `response_spec`),
/// and a key that does not upgrade also closes the connection.
pub open spec fn handshake_step(paths: Seq<Seq<u8>>, b: Seq<u8>) -> Option<StepView> {
    match first_match(b, head_end(), 0) {
        None => Some(idle_step(Seq::empty())),
        Some(pos) => {
            let url = url_spec(b);
            if url.len() == 0 {
                Some(idle_step(seq![ActionView::Close]))
            } else if !valid_utf8(url) {
                None
            } else {
                match path_index(paths, url, 0) {
                    None => Some(idle_step(seq![ActionView::Close])),
                    Some(h) => {
                        let key = key_spec(b);
                        if !valid_utf8(key) {
                            None
                        } else {
                            let up = 0 < key.len() <= 24;
                            let write = ActionView::Write { bytes: response_spec(key) };
                            Some(StepView {
                                consumed: pos + 4,
                                upgraded: up,
                                handler: Some(h as usize),
                                actions: if up { seq![write] } else { seq![write, ActionView::Close] },
                            })
                        }
                    },
                }
            }
        },
    }
}

/// A step on an upgraded connection: the frame at the front of `b` (see `frame_spec`) is
/// waited for, closes the connection, or is handed to `handler`.
pub open spec fn frame_step(b: Seq<u8>, handler: Option<usize>) -> StepView {
    match frame_spec(b) {
        FrameView::NeedMore => idle_step(Seq::empty()),
        FrameView::Close => idle_step(seq![ActionView::Close]),
        FrameView::Data { consumed, fin, op, payload } => StepView {
            consumed,
            upgraded: false,
            handler: None,
            actions: seq![ActionView::Recv { handler, payload, fin, op }],
        },
    }
}

/// One step of reading the bytes `b` at the front of a connection.
#[verifier::opaque]
pub open spec fn step_spec(paths: Seq<Seq<u8>>, b: Seq<u8>, upgraded: bool, handler: Option<usize>) -> Option<StepView> {
    if upgraded {
        Some(frame_step(b, handler))
    } else {
        handshake_step(paths, b)
    }
}

/// A step takes no more than four bytes beyond those it is given (a masked frame's key is
/// not counted when checking that the frame is complete).
pub proof fn lemma_step_consumed(paths: Seq<Seq<u8>>, b: Seq<u8>, upgraded: bool, handler: Option<usize>)
    ensures
        step_spec(paths, b, upgraded, handler) matches Some(s) ==> 0 <= s.consumed <= b.len() + 4,
{
    reveal(step_spec);
    lemma_first_match_in(b, head_end(), 0);
}

impl WsRouter {
    /// One step of reading `bytes`, the front of a connection (see `step_spec`):
    /// `Utf8Error` exactly when the step has no outcome.
    pub fn proc_data(&self, bytes: &[u8], upgraded: bool, handler: Option<usize>) -> (r: Result<Step, Error>)
        requires
            bytes@.len() + 4 <= usize::MAX,
        ensures
            match r {
                Ok(s) => step_spec(self.paths(), bytes@, upgraded, handler) == Some(s.view()),
                Err(e) => step_spec(self.paths(), bytes@, upgraded, handler) is None && e == Error::Utf8Error,
            },
    {
        reveal(step_spec);
        if upgraded {
            let frame = parse_frame(bytes);
            let mut actions: Vec<WsAction> = Vec::new();
            let step = match frame {
                Frame::NeedMore => Step { consumed: 0, upgraded: false, handler: None, actions },
                Frame::Close => {
                    actions.push(WsAction::Close);
                    Step { consumed: 0, upgraded: false, handler: None, actions }
                },
                Frame::Data { consumed, fin, op, payload } => {
                    actions.push(WsAction::Recv { handler, payload, fin, op });
                    Step { consumed, upgraded: false, handler: None, actions }
                },
            };
            assert(actions_view(step.actions@) =~= frame_step(bytes@, handler).actions);
            return Ok(step);
        }
        let end = [13u8, 10, 13, 10];
        assert(end@ =~= head_end());
        let pos = match find_from(bytes, &end, 0) {
            None => {
                let step = Step { consumed: 0, upgraded: false, handler: None, actions: Vec::new() };
                assert(actions_view(step.actions@) =~= Seq::<ActionView>::empty());
                return Ok(step);
            },
            Some(pos) => pos,
        };
        proof { lemma_first_match_in(bytes@, head_end(), 0); }
        let url = request_url(bytes);
        if url.len() == 0 {
            let mut actions: Vec<WsAction> = Vec::new();
            actions.push(WsAction::Close);
            let step = Step { consumed: 0, upgraded: false, handler: None, actions };
            assert(actions_view(step.actions@) =~= seq![ActionView::Close]);
            return Ok(step);
        }
        if str_from_utf8(url.as_slice()).is_none() {
            return Err(Error::Utf8Error);
        }
        let h = match self.lookup(url.as_slice()) {
            None => {
                let mut actions: Vec<WsAction> = Vec::new();
                actions.push(WsAction::Close);
                let step = Step { consumed: 0, upgraded: false, handler: None, actions };
                assert(actions_view(step.actions@) =~= seq![ActionView::Close]);
                return Ok(step);
            },
            Some(h) => h,
        };
        let key = request_key(bytes);
        if str_from_utf8(key.as_slice()).is_none() {
            return Err(Error::Utf8Error);
        }
        let (resp, up) = handshake_response(key.as_slice());
        let mut actions: Vec<WsAction> = Vec::new();
        actions.push(WsAction::Write { bytes: resp });
        if !up {
            actions.push(WsAction::Close);
        }
        let step = Step { consumed: pos + 4, upgraded: up, handler: Some(h), actions };
        proof {
            let want = handshake_step(self.paths(), bytes@).unwrap();
            assert(actions_view(step.actions@) =~= want.actions);
        }
        Ok(step)
    }
}

/// The outcome of reading a run of bytes: the actions asked for, where reading stopped
/// (reading the new bytes directly) or what is left buffered (reading the buffer), the
/// connection's upgrade state and handler afterwards, and whether a step failed.
pub struct RunView {
    pub actions: Seq<ActionView>,
    pub offset: int,
    pub rest: Seq<u8>,
    pub upgraded: bool,
    pub handler: Option<usize>,
    pub failed: bool,
}

/// Telling the handler, when there is one, that the connection was upgraded.
pub open spec fn accept_actions(handler: Option<usize>) -> Seq<ActionView> {
    match handler {
        Some(h) => seq![ActionView::Accept { index: h }],
        None => Seq::empty(),
    }
}

/// Reading `b` from `off` on, with nothing buffered: step after step until the bytes run
/// out, a step takes nothing, a step fails, or the connection is upgraded (then its handler
/// is told, and reading stops).
pub open spec fn direct_run(paths: Seq<Seq<u8>>, b: Seq<u8>, up: bool, h: Option<usize>, off: int) -> RunView
    decreases b.len() - off,
{
    if off < 0 || off >= b.len() {
        RunView { actions: Seq::empty(), offset: off, rest: Seq::empty(), upgraded: up, handler: h, failed: false }
    } else {
        match step_spec(paths, b.skip(off), up, h) {
            None => RunView { actions: Seq::empty(), offset: off, rest: Seq::empty(), upgraded: up, handler: h, failed: true },
            Some(s) => if s.upgraded {
                RunView {
                    actions: s.actions + accept_actions(s.handler),
                    offset: off + s.consumed,
                    rest: Seq::empty(),
                    upgraded: true,
                    handler: s.handler,
                    failed: false,
                }
            } else if s.consumed <= 0 {
                RunView { actions: s.actions, offset: off, rest: Seq::empty(), upgraded: up, handler: h, failed: false }
            } else if off + s.consumed >= b.len() {
                RunView { actions: s.actions, offset: off + s.consumed, rest: Seq::empty(), upgraded: up, handler: h, failed: false }
            } else {
                let r = direct_run(paths, b, up, h, off + s.consumed);
                RunView { actions: s.actions + r.actions, ..r }
            },
        }
    }
}

/// Reading the buffered bytes `buf`: step after step, dropping what each step takes, until
/// a step takes nothing, the buffer is used up, a step fails (the buffer stays as it is), or
/// the connection is upgraded (then the buffer is emptied, and the handler is not told).
pub open spec fn buffered_run(paths: Seq<Seq<u8>>, buf: Seq<u8>, up: bool, h: Option<usize>) -> RunView
    decreases buf.len(),
{
    match step_spec(paths, buf, up, h) {
        None => RunView { actions: Seq::empty(), offset: 0, rest: buf, upgraded: up, handler: h, failed: true },
        Some(s) => if s.upgraded {
            RunView { actions: s.actions, offset: 0, rest: Seq::empty(), upgraded: true, handler: s.handler, failed: false }
        } else if s.consumed <= 0 {
            RunView { actions: s.actions, offset: 0, rest: buf, upgraded: up, handler: h, failed: false }
        } else if s.consumed >= buf.len() {
            RunView { actions: s.actions, offset: 0, rest: Seq::empty(), upgraded: up, handler: h, failed: false }
        } else {
            let r = buffered_run(paths, buf.skip(s.consumed), up, h);
            RunView { actions: s.actions + r.actions, ..r }
        },
    }
}

/// A connection's state as plain values.
pub struct ConnView {
    pub rbuf: Seq<u8>,
    pub upgraded: bool,
    pub handler: Option<usize>,
}

/// A read of `bytes` on a connection in state `c`: the new state, the actions asked for,
/// and whether it failed. With nothing buffered the bytes are read directly and what is left
/// of them is buffered (a failure leaves the state as it was); otherwise they are added to
/// the buffer, which is read.
pub open spec fn recv_spec(paths: Seq<Seq<u8>>, c: ConnView, bytes: Seq<u8>) -> (ConnView, Seq<ActionView>, bool) {
    if c.rbuf.len() == 0 {
        let r = direct_run(paths, bytes, c.upgraded, c.handler, 0);
        if r.failed {
            (c, r.actions, true)
        } else {
            (
                ConnView {
                    rbuf: if r.offset < bytes.len() { bytes.skip(r.offset) } else { Seq::empty() },
                    upgraded: r.upgraded,
                    handler: r.handler,
                },
                r.actions,
                false,
            )
        }
    } else {
        let r = buffered_run(paths, c.rbuf + bytes, c.upgraded, c.handler);
        (ConnView { rbuf: r.rest, upgraded: r.upgraded, handler: r.handler }, r.actions, r.failed)
    }
}

/// One connection of a WebSocket server: the bytes read but not yet used, whether the
/// handshake upgraded it, and its handler.
pub struct WsConn {
    rbuf: Vec<u8>,
    upgraded: bool,
    handler: Option<usize>,
}

/// `actions_view` of a concatenation.
proof fn lemma_actions_view_add(a: Seq<WsAction>, b: Seq<WsAction>)
    ensures
        actions_view(a + b) == actions_view(a) + actions_view(b),
{
    assert(actions_view(a + b) =~= actions_view(a) + actions_view(b));
}

impl WsConn {
    /// The connection's state as plain values.
    pub closed spec fn view(&self) -> ConnView {
        ConnView { rbuf: self.rbuf@, upgraded: self.upgraded, handler: self.handler }
    }

    /// A connection just accepted: nothing buffered, not upgraded, no handler.
    pub fn new() -> (r: Self)
        ensures
            r@ == (ConnView { rbuf: Seq::empty(), upgraded: false, handler: None }),
    {
        let r = WsConn { rbuf: Vec::new(), upgraded: false, handler: None };
        assert(r@.rbuf =~= Seq::<u8>::empty());
        r
    }

    /// Whether the handshake upgraded the connection.
    pub fn is_upgraded(&self) -> (r: bool)
        ensures
            r == self@.upgraded,
    {
        self.upgraded
    }

    /// How many received bytes are buffered, waiting for the rest of a message.
    pub fn buffered(&self) -> (r: usize)
        ensures
            r == self@.rbuf.len(),
    {
        self.rbuf.len()
    }

    /// The connection's handler.
    pub fn handler(&self) -> (r: Option<usize>)
        ensures
            r == self@.handler,
    {
        self.handler
    }

    /// Reads `bytes` arrived on the connection (see `recv_spec`): the actions asked for, in
    /// order, and `Utf8Error` when a step failed.
    pub fn on_recv(&mut self, router: &WsRouter, bytes: &[u8]) -> (r: (Vec<WsAction>, Result<(), Error>))
        requires
            old(self)@.rbuf.len() + bytes@.len() + 8 <= usize::MAX,
        ensures
            final(self)@ == recv_spec(router.paths(), old(self)@, bytes@).0,
            actions_view(r.0@) == recv_spec(router.paths(), old(self)@, bytes@).1,
            r.1 is Err == recv_spec(router.paths(), old(self)@, bytes@).2,
            r.1 is Err ==> r.1 == Err::<(), Error>(Error::Utf8Error),
    {
        let ghost paths = router.paths();
        let up0 = self.upgraded;
        let h0 = self.handler;
        let mut acts: Vec<WsAction> = Vec::new();
        if self.rbuf.len() == 0 {
            let ghost total = direct_run(paths, bytes@, up0, h0, 0);
            let len = bytes.len();
            let mut off: usize = 0;
            let mut new_up = up0;
            let mut new_h = h0;
            while off < len
                invariant_except_break
                    len == bytes@.len(),
                    len + 8 <= usize::MAX,
                    off <= len + 4,
                    new_up == up0,
                    new_h == h0,
                    actions_view(acts@) + direct_run(paths, bytes@, up0, h0, off as int).actions == total.actions,
                    direct_run(paths, bytes@, up0, h0, off as int).offset == total.offset,
                    direct_run(paths, bytes@, up0, h0, off as int).upgraded == total.upgraded,
                    direct_run(paths, bytes@, up0, h0, off as int).handler == total.handler,
                    direct_run(paths, bytes@, up0, h0, off as int).failed == total.failed,
                    total == direct_run(paths, bytes@, up0, h0, 0),
                    router.paths() == paths,
                    old(self)@.rbuf.len() == 0,
                    self@ == old(self)@,
                    up0 == old(self)@.upgraded,
                    h0 == old(self)@.handler,
                ensures
                    actions_view(acts@) == total.actions,
                    off == total.offset,
                    new_up == total.upgraded,
                    new_h == total.handler,
                    !total.failed,
                    self@ == old(self)@,
                    off <= len + 4,
                decreases len + 4 - off,
            {
                let rest = vstd::slice::slice_subrange(bytes, off, len);
                assert(rest@ =~= bytes@.skip(off as int));
                proof { lemma_step_consumed(paths, rest@, up0, h0); }
                match router.proc_data(rest, up0, h0) {
                    Err(e) => {
                        assert(actions_view(acts@) =~= total.actions);
                        return (acts, Err(e));
                    },
                    Ok(step) => {
                        let Step { consumed, upgraded, handler, actions } = step;
                        let mut actions = actions;
                        proof { lemma_actions_view_add(acts@, actions@); }
                        acts.append(&mut actions);
                        if upgraded {
                            off = off + consumed;
                            new_up = true;
                            new_h = handler;
                            let ghost before = acts@;
                            match handler {
                                Some(hh) => {
                                    acts.push(WsAction::Accept { index: hh });
                                    assert(acts@ =~= before + seq![WsAction::Accept { index: hh }]);
                                    proof { lemma_actions_view_add(before, seq![WsAction::Accept { index: hh }]); }
                                    assert(actions_view(seq![WsAction::Accept { index: hh }]) =~= accept_actions(handler));
                                },
                                None => {},
                            }
                            break;
                        } else if consumed == 0 {
                            break;
                        } else {
                            off = off + consumed;
                        }
                    },
                }
            }
            let mut rbuf: Vec<u8> = Vec::new();
            if off < len {
                rbuf = copy_range(bytes, off, len);
                assert(rbuf@ =~= bytes@.skip(off as int));
            }
            self.rbuf = rbuf;
            self.upgraded = new_up;
            self.handler = new_h;
            (acts, Ok(()))
        } else {
            let mut buf: Vec<u8> = Vec::new();
            push_all(&mut buf, self.rbuf.as_slice());
            push_all(&mut buf, bytes);
            assert(buf@ == old(self)@.rbuf + bytes@);
            let ghost total = buffered_run(paths, buf@, up0, h0);
            let mut new_up = up0;
            let mut new_h = h0;
            loop
                invariant_except_break
                    buf@.len() > 0,
                    buf@.len() + 8 <= usize::MAX,
                    new_up == up0,
                    new_h == h0,
                    actions_view(acts@) + buffered_run(paths, buf@, up0, h0).actions == total.actions,
                    buffered_run(paths, buf@, up0, h0).rest == total.rest,
                    buffered_run(paths, buf@, up0, h0).upgraded == total.upgraded,
                    buffered_run(paths, buf@, up0, h0).handler == total.handler,
                    buffered_run(paths, buf@, up0, h0).failed == total.failed,
                    total == buffered_run(paths, old(self)@.rbuf + bytes@, up0, h0),
                    old(self)@.rbuf.len() > 0,
                    router.paths() == paths,
                    up0 == old(self)@.upgraded,
                    h0 == old(self)@.handler,
                    self.upgraded == up0,
                    self.handler == h0,
                ensures
                    actions_view(acts@) == total.actions,
                    buf@ == total.rest,
                    new_up == total.upgraded,
                    new_h == total.handler,
                    !total.failed,
                decreases buf@.len(),
            {
                proof { lemma_step_consumed(paths, buf@, up0, h0); }
                match router.proc_data(buf.as_slice(), up0, h0) {
                    Err(e) => {
                        assert(actions_view(acts@) =~= total.actions);
                        self.rbuf = buf;
                        return (acts, Err(e));
                    },
                    Ok(step) => {
                        let Step { consumed, upgraded, handler, actions } = step;
                        let mut actions = actions;
                        proof { lemma_actions_view_add(acts@, actions@); }
                        acts.append(&mut actions);
                        if upgraded {
                            new_up = true;
                            new_h = handler;
                            buf = Vec::new();
                            assert(buf@ =~= Seq::<u8>::empty());
                            break;
                        } else if consumed == 0 {
                            break;
                        } else if consumed >= buf.len() {
                            buf = Vec::new();
                            assert(buf@ =~= Seq::<u8>::empty());
                            break;
                        } else {
                            let nb = copy_range(buf.as_slice(), consumed, buf.len());
                            assert(nb@ =~= buf@.skip(consumed as int));
                            buf = nb;
                        }
                    },
                }
            }
            self.rbuf = buf;
            self.upgraded = new_up;
            self.handler = new_h;
            (acts, Ok(()))
        }
    }
}

// ---------------------------------------------------------------------------
// Laws
// ---------------------------------------------------------------------------

/// A framed message reads back as itself: the frame at the front of the framed bytes,
/// followed by at least one more byte, is final, binary, unmasked, takes exactly the framed
/// bytes and carries the message. (With nothing after it, a non-empty message reads back
/// empty: an unmasked payload that reaches the end of what was read is not handed on.)
pub proof fn lemma_frame_roundtrip(payload: Seq<u8>, extra: Seq<u8>)
    requires
        payload.len() <= u64::MAX,
        extra.len() > 0,
    ensures
        frame_spec(frame_header_spec(payload.len() as u64) + payload + extra) == (FrameView::Data {
            consumed: frame_header_spec(payload.len() as u64).len() + payload.len() as int,
            fin: true,
            op: 2,
            payload,
        }),
{
    let n = payload.len() as u64;
    let h = frame_header_spec(n);
    let b = h + payload + extra;
    assert(b[0] == 0x82u8);
    assert(b[1] < 128);
    let off = h.len() as int;
    if n <= 125 {
        assert(b[1] == n);
        assert(payload_length(b) == (n as int, 2int));
    } else if n <= 65535 {
        assert(b[1] == 126);
        let x = n as u16;
        assert(b[2] == (x >> 8) as u8 && b[3] == x as u8);
        assert(((x >> 8) as u8) as u16 * 256 + (x as u8) as u16 == x) by (bit_vector);
        assert(payload_length(b) == (n as int, 4int));
    } else {
        assert(b[1] == 127);
        assert(b.subrange(2, 10) =~= u64_be_bytes(n));
        lemma_be_bytes_u64_roundtrip(n);
        assert(payload_length(b) == (n as int, 10int));
    }
    assert(payload_length(b).1 == off);
    if payload.len() == 0 {
        assert(payload =~= Seq::<u8>::empty());
    } else {
        assert(b.subrange(off, off + payload.len()) =~= payload);
    }
}

/// Masking is undone: a frame sent with the mask bit set, a four-byte key and its payload
/// XORed with the key (byte `i` with key byte `i % 4`) is read back with the payload as it
/// was before masking.
pub proof fn lemma_masked_frame_roundtrip(payload: Seq<u8>, key: Seq<u8>, extra: Seq<u8>)
    requires
        payload.len() <= u64::MAX,
        key.len() == 4,
    ensures
        ({
            let h = frame_header_spec(payload.len() as u64);
            let masked = Seq::new(payload.len(), |i: int| payload[i] ^ key[i % 4]);
            frame_spec(h.update(1, (h[1] + 128) as u8) + key + masked + extra) == (FrameView::Data {
                consumed: h.len() + 4 + payload.len() as int,
                fin: true,
                op: 2,
                payload,
            })
        }),
{
    let n = payload.len() as u64;
    let h = frame_header_spec(n);
    let mh = h.update(1, (h[1] + 128) as u8);
    let masked = Seq::new(payload.len(), |i: int| payload[i] ^ key[i % 4]);
    let b = mh + key + masked + extra;
    let off = h.len() as int;
    assert(b[0] == 0x82u8);
    assert(h[1] < 128);
    assert(b[1] == h[1] + 128);
    assert(b[1] % 128 == h[1]);
    if n <= 125 {
        assert(payload_length(b) == (n as int, 2int));
    } else if n <= 65535 {
        let x = n as u16;
        assert(b[2] == (x >> 8) as u8 && b[3] == x as u8);
        assert(((x >> 8) as u8) as u16 * 256 + (x as u8) as u16 == x) by (bit_vector);
        assert(payload_length(b) == (n as int, 4int));
    } else {
        assert(b.subrange(2, 10) =~= u64_be_bytes(n));
        lemma_be_bytes_u64_roundtrip(n);
        assert(payload_length(b) == (n as int, 10int));
    }
    assert(b.subrange(off, off + 4) =~= key);
    let o = off + 4;
    let got = Seq::new(n as nat, |i: int| if o + i < b.len() { b[o + i] ^ key[i % 4] } else { 0u8 });
    assert forall|i: int| 0 <= i < n implies #[trigger] got[i] == payload[i] by {
        assert(b[o + i] == masked[i]);
        let x = payload[i];
        let y = key[i % 4];
        assert((x ^ y) ^ y == x) by (bit_vector);
    }
    assert(got =~= payload);
}

} // verus!
