use p2p_transfer::digest::{content_hash, DIGEST_LEN};

#[test]
fn digest_of_empty() {
    let expected: [u8; 32] = [0xe3, 0xb0, 0xc4, 0x42, 0x98, 0xfc, 0x1c, 0x14, 0x9a, 0xfb, 0xf4, 0xc8, 0x99, 0x6f, 0xb9, 0x24, 0x27, 0xae, 0x41, 0xe4, 0x64, 0x9b, 0x93, 0x4c, 0xa4, 0x95, 0x99, 0x1b, 0x78, 0x52, 0xb8, 0x55];
    assert_eq!(content_hash(b""), expected.to_vec());
}

#[test]
fn digest_of_abc() {
    let expected: [u8; 32] = [0xba, 0x78, 0x16, 0xbf, 0x8f, 0x01, 0xcf, 0xea, 0x41, 0x41, 0x40, 0xde, 0x5d, 0xae, 0x22, 0x23, 0xb0, 0x03, 0x61, 0xa3, 0x96, 0x17, 0x7a, 0x9c, 0xb4, 0x10, 0xff, 0x61, 0xf2, 0x00, 0x15, 0xad];
    assert_eq!(content_hash(b"abc"), expected.to_vec());
}

#[test]
fn digest_of_twelve_letters() {
    let expected: [u8; 32] = [0x97, 0xb9, 0x88, 0x39, 0x15, 0xd8, 0x5c, 0xfd, 0xd1, 0x80, 0xef, 0x55, 0x2b, 0x68, 0xa5, 0x83, 0xa7, 0x06, 0xe6, 0xde, 0xaf, 0x49, 0xdc, 0x56, 0x35, 0x3d, 0xd0, 0x58, 0xe2, 0xa8, 0xb2, 0xef];
    assert_eq!(content_hash(b"AAAABBBBCCCC"), expected.to_vec());
}

#[test]
fn digest_of_two_block_message() {
    let expected: [u8; 32] = [0x24, 0x8d, 0x6a, 0x61, 0xd2, 0x06, 0x38, 0xb8, 0xe5, 0xc0, 0x26, 0x93, 0x0c, 0x3e, 0x60, 0x39, 0xa3, 0x3c, 0xe4, 0x59, 0x64, 0xff, 0x21, 0x67, 0xf6, 0xec, 0xed, 0xd4, 0x19, 0xdb, 0x06, 0xc1];
    assert_eq!(content_hash(b"abcdbcdecdefdefgefghfghighijhijkijkljklmklmnlmnomnopnopq"), expected.to_vec());
}

#[test]
fn digest_at_block_boundaries() {
    let cases: [(usize, [u8; 4]); 6] = [
        (55, [0x9f, 0x43, 0x90, 0xf8]),
        (56, [0xb3, 0x54, 0x39, 0xa4]),
        (63, [0x7d, 0x3e, 0x74, 0xa0]),
        (64, [0xff, 0xe0, 0x54, 0xfe]),
        (119, [0x31, 0xeb, 0xa5, 0x1c]),
        (120, [0x2f, 0x3d, 0x33, 0x54]),
    ];
    for (len, start) in cases {
        let digest = content_hash(&vec![b'a'; len]);
        assert_eq!(digest.len(), DIGEST_LEN);
        assert_eq!(&digest[..4], &start[..]);
    }
}

#[test]
fn digest_of_a_million_letters() {
    let expected: [u8; 32] = [0xcd, 0xc7, 0x6e, 0x5c, 0x99, 0x14, 0xfb, 0x92, 0x81, 0xa1, 0xc7, 0xe2, 0x84, 0xd7, 0x3e, 0x67, 0xf1, 0x80, 0x9a, 0x48, 0xa4, 0x97, 0x20, 0x0e, 0x04, 0x6d, 0x39, 0xcc, 0xc7, 0x11, 0x2c, 0xd0];
    assert_eq!(content_hash(&vec![b'a'; 1_000_000]), expected.to_vec());
}

#[test]
fn digests_of_different_bytes_differ() {
    assert_ne!(content_hash(b"AAAABBBBCCCC"), content_hash(b"AAAABBBBCCCD"));
}
