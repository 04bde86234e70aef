use disk_reclaim::digest::{digest_chunks, to_hex, ContentHasher};

#[test]
fn digest_of_nothing() {
    let hasher = ContentHasher::new();
    assert_eq!(
        hasher.finish(),
        "e3b0c44298fc1c149afbf4c8996fb92427ae41e4649b934ca495991b7852b855"
    );
}

#[test]
fn digest_of_abc() {
    let hasher = ContentHasher::new().update(b"abc").unwrap();
    assert_eq!(
        hasher.finish(),
        "ba7816bf8f01cfea414140de5dae2223b00361a396177a9cb410ff61f20015ad"
    );
}

#[test]
fn chunking_does_not_change_the_digest() {
    let whole = ContentHasher::new().update(b"hello world").unwrap();
    let mut pieces = ContentHasher::new();
    for piece in [&b"hello"[..], &b""[..], &b" wor"[..], &b"ld"[..]] {
        pieces = pieces.update(piece).unwrap();
    }
    let expected = "b94d27b9934d3e08a52e52d7da7dabfac484efe37a5380ee9088f7ace2efcde9";
    assert_eq!(whole.finish(), expected);
    assert_eq!(pieces.finish(), expected);
    let chunks = vec![b"hel".to_vec(), b"lo w".to_vec(), Vec::new(), b"orld".to_vec()];
    assert_eq!(digest_chunks(&chunks), Some(expected.to_string()));
    assert_eq!(
        digest_chunks(&[]),
        Some("e3b0c44298fc1c149afbf4c8996fb92427ae41e4649b934ca495991b7852b855".to_string())
    );
}

#[test]
fn different_content_gives_a_different_digest() {
    let a = digest_chunks(&[b"X".to_vec()]).unwrap();
    let b = digest_chunks(&[b"Y".to_vec()]).unwrap();
    assert_ne!(a, b);
    assert_eq!(a.len(), 64);
}

#[test]
fn hex_is_lower_case_with_the_high_half_first() {
    assert_eq!(to_hex(&[]), "");
    assert_eq!(to_hex(&[0x00, 0x0a, 0xa0, 0xff, 0x1e]), "000aa0ff1e");
    assert_eq!(to_hex(&[10, 20, 30]), "0a141e");
}
