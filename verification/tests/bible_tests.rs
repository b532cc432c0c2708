use bitcoinmw::base::error::Error;
use bitcoinmw::bible::{build_indices, Bible, BIBLE_VERSE_COUNT};

#[test]
fn test_build_indices_lines() {
    let data = b"Genesis||1||1||In the beginning.\r\nGenesis||1||2||And.\r\nLast.";
    let idx = build_indices(data);
    assert_eq!(idx.len(), BIBLE_VERSE_COUNT + 1);
    assert_eq!(idx[0], 0);
    assert_eq!(idx[1], 34);
    assert_eq!(idx[2], 55);
    assert_eq!(idx[3], 0);
    assert_eq!(idx[BIBLE_VERSE_COUNT - 1], 0);
    assert_eq!(idx[BIBLE_VERSE_COUNT], data.len() as u32 + 2);
}

#[test]
fn test_build_indices_empty_line_does_not_advance() {
    let data = b"a\n\nb";
    let idx = build_indices(data);
    assert_eq!(idx[0], 0);
    assert_eq!(idx[1], 2);
    assert_eq!(idx[2], 2);
    assert_eq!(idx[BIBLE_VERSE_COUNT - 1], 2);
    assert_eq!(idx[BIBLE_VERSE_COUNT], 6);
}

#[test]
fn test_build_indices_empty_text() {
    let idx = build_indices(b"");
    assert!(idx[..BIBLE_VERSE_COUNT].iter().all(|&x| x == 0));
    assert_eq!(idx[BIBLE_VERSE_COUNT], 2);
}

#[test]
fn test_bible_rejects_wrong_text() {
    let r = Bible::new(b"In the beginning.\r\n".to_vec());
    assert!(matches!(r, Err(Error::ValidationFailed)));
}
