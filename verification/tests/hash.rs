use torrent_core::hash::{digest_at, digest_equal, sha1_matches, sha1_of};

#[test]
fn sha1_of_known_inputs() {
    assert_eq!(
        sha1_of(b"abc"),
        [
            0xa9, 0x99, 0x3e, 0x36, 0x47, 0x06, 0x81, 0x6a, 0xba, 0x3e, 0x25, 0x71, 0x78, 0x50, 0xc2, 0x6c, 0x9c,
            0xd0, 0xd8, 0x9d
        ]
    );
    assert_eq!(
        sha1_of(b""),
        [
            0xda, 0x39, 0xa3, 0xee, 0x5e, 0x6b, 0x4b, 0x0d, 0x32, 0x55, 0xbf, 0xef, 0x95, 0x60, 0x18, 0x90, 0xaf,
            0xd8, 0x07, 0x09
        ]
    );
}

#[test]
fn digests_are_compared_byte_by_byte() {
    let digest = sha1_of(b"hello world");
    assert!(sha1_matches(b"hello world", &digest));
    assert!(!sha1_matches(b"hello world!", &digest));
    let mut other = digest;
    other[19] = other[19].wrapping_add(1);
    assert!(!digest_equal(&digest, &other));
    assert!(digest_equal(&digest, &digest));
    let bytes: Vec<u8> = (0u8..50).collect();
    assert_eq!(digest_at(&bytes, 30).to_vec(), (30u8..50).collect::<Vec<u8>>());
}
