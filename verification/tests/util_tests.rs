use bitcoinmw::base::error::Error;
use bitcoinmw::util::cstring::CString;

#[test]
fn test_as_bytes() -> Result<(), Error> {
    let str = CString::new("abc")?;
    assert_eq!(str.as_bytes()?, vec![b'a', b'b', b'c']);

    Ok(())
}

#[test]
fn test_cstr() -> Result<(), Error> {
    let c1 = CString::new("mystr")?;
    assert_eq!(c1.as_str()?, String::from("mystr"));

    assert_eq!(c1.index(0), 'm' as u8);
    assert_eq!(c1.index(1), 'y' as u8);
    assert_eq!(c1.index(2), 's' as u8);
    assert_eq!(c1.index(3), 't' as u8);
    assert_eq!(c1.index(4), 'r' as u8);
    assert_eq!(c1.len(), 5);

    let mut slice = [0u8; 5];
    c1.copy_to_slice(&mut slice, 0)?;
    assert_eq!(slice, ['m' as u8, 'y' as u8, 's' as u8, 't' as u8, 'r' as u8]);

    assert!(c1.copy_to_slice(&mut slice, 1).is_err());
    let mut slice = [0u8; 3];
    c1.copy_to_slice(&mut slice, 2)?;
    assert_eq!(slice, ['s' as u8, 't' as u8, 'r' as u8]);

    Ok(())
}

#[test]
fn cstring_stops_at_nul() -> Result<(), Error> {
    let c = CString::from_slice(&[b'a', 0, b'b'])?;
    assert_eq!(c.len(), 1);
    assert_eq!(c.as_bytes()?, vec![b'a']);
    Ok(())
}

#[test]
fn cstring_invalid_utf8() -> Result<(), Error> {
    let c = CString::from_slice(&[0xFF, 0xFE])?;
    assert_eq!(c.as_str(), Err(Error::Utf8Error));
    Ok(())
}

#[test]
fn cstring_copy_wrong_length_leaves_slice() -> Result<(), Error> {
    let c = CString::new("abcd")?;
    let mut slice = [9u8; 2];
    assert_eq!(c.copy_to_slice(&mut slice, 0), Err(Error::OutOfBounds));
    assert_eq!(slice, [9u8; 2]);
    assert_eq!(c.copy_to_slice(&mut slice, 7), Err(Error::OutOfBounds));
    Ok(())
}

use bitcoinmw::base::misc::{
    bytes_to_hex_33, fnvhash, from_le_bytes_u32, from_le_bytes_u64, i128_as_str, partition, quick_sort,
    slice_copy, slice_starts_with, strcmp, subslice, to_be_bytes_u64, to_le_bytes_u32,
    to_le_bytes_u64, u128_as_str, u256_less_than_or_equal, wrapping_mul,
};

#[test]
fn le_bytes_roundtrip() -> Result<(), Error> {
    let mut b = [0u8; 8];
    to_le_bytes_u64(0x0102_0304_0506_0708, &mut b)?;
    assert_eq!(b, [8, 7, 6, 5, 4, 3, 2, 1]);
    assert_eq!(from_le_bytes_u64(&b)?, 0x0102_0304_0506_0708);
    let mut short = [0u8; 7];
    assert_eq!(to_le_bytes_u64(1, &mut short), Err(Error::IllegalArgument));
    assert_eq!(from_le_bytes_u64(&short), Err(Error::IllegalArgument));
    let mut c = [0u8; 4];
    to_le_bytes_u32(0xAABBCCDD, &mut c)?;
    assert_eq!(c, [0xDD, 0xCC, 0xBB, 0xAA]);
    assert_eq!(from_le_bytes_u32(&c)?, 0xAABBCCDD);
    Ok(())
}

#[test]
fn be_bytes_u64() {
    let mut b = [0u8; 8];
    to_be_bytes_u64(0x0102_0304_0506_0708, &mut b);
    assert_eq!(b, [1, 2, 3, 4, 5, 6, 7, 8]);
}

#[test]
fn u256_comparison() {
    let mut max = [0u8; 32];
    max[0] = 0x10;
    let mut v = [0u8; 32];
    v[0] = 0x0F;
    v[31] = 0xFF;
    assert!(u256_less_than_or_equal(&max, &v));
    assert!(u256_less_than_or_equal(&max, &max));
    v[0] = 0x10;
    assert!(!u256_less_than_or_equal(&max, &v));
}

#[test]
fn hex_of_bytes() {
    let mut b = [0u8; 33];
    b[0] = 0xAB;
    b[32] = 0x01;
    let h = bytes_to_hex_33(&b);
    assert_eq!(&h[0..2], b"ab");
    assert_eq!(&h[64..66], b"01");
}

#[test]
fn strings_and_hashes() {
    assert_eq!(strcmp("abc", "abc"), 0);
    assert!(strcmp("abc", "abd") < 0);
    assert!(strcmp("abd", "abc") > 0);
    assert_eq!(fnvhash(b""), 0xcbf29ce484222325);
    assert_eq!(fnvhash(b"a"), 0xaf63dc4c8601ec8c);
    assert!(slice_starts_with(b"abcdef", b"abc"));
    assert!(!slice_starts_with(b"ab", b"abc"));
}

#[test]
fn number_formatting() {
    let mut buf = [0u8; 40];
    let n = u128_as_str(255, 0, &mut buf, 16);
    assert_eq!(&buf[0..n], b"ff");
    let n = u128_as_str(0, 0, &mut buf, 10);
    assert_eq!(&buf[0..n], b"0");
    let n = i128_as_str(-1234, &mut buf, 10);
    assert_eq!(&buf[0..n], b"-1234");
}

#[test]
fn wrapping_multiplication() {
    assert_eq!(wrapping_mul(u64::MAX, 2), u64::MAX.wrapping_mul(2));
    assert_eq!(wrapping_mul(3, 5), 15);
}

#[test]
fn sorting_and_slices() -> Result<(), Error> {
    let mut v = [5u64, 1, 4, 1, 9, 0];
    quick_sort(&mut v);
    assert_eq!(v, [0, 1, 1, 4, 5, 9]);
    let mut dst = [0u8; 4];
    slice_copy(&[1u8, 2, 3], &mut dst, 3)?;
    assert_eq!(dst, [1, 2, 3, 0]);
    assert_eq!(slice_copy(&[1u8, 2, 3], &mut dst, 5), Err(Error::OutOfBounds));
    assert_eq!(subslice(&[1u8, 2, 3, 4], 1, 2)?, &[2u8, 3][..]);
    assert!(subslice(&[1u8, 2, 3, 4], 3, 2).is_err());
    Ok(())
}

#[test]
fn partition_places_the_pivot_after_the_smaller_items() {
    let mut arr = [3u64, 1, 4, 1, 5, 9, 2, 6];
    let r = partition(&mut arr);
    // six of the first seven items are at most the pivot 6
    assert_eq!(r, 6);
    assert_eq!(arr[r], 6);
    for k in 0..r {
        assert!(arr[k] <= 6);
    }
    for k in r + 1..arr.len() {
        assert!(arr[k] > 6);
    }
    let mut one = [7u64];
    assert_eq!(partition(&mut one), 0);
}

#[test]
fn strcmp_decides_at_the_first_difference_or_by_length() {
    assert!(strcmp("abz", "acb") < 0);
    assert!(strcmp("b", "abc") > 0);
    // a proper prefix comes first
    assert!(strcmp("ab", "abc") > 0);
    assert!(strcmp("abc", "ab") < 0);
}
