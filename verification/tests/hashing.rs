use drfe_r::coordinates::NodeId;
use drfe_r::hashing::{be_u64_prefix, digest_of_id};

#[test]
fn hashing_digest_is_sha256_of_the_identifier() {
    let d = digest_of_id(&NodeId::new("abc"));
    let expected: Vec<u8> = vec![
        0xba, 0x78, 0x16, 0xbf, 0x8f, 0x01, 0xcf, 0xea, 0x41, 0x41, 0x40, 0xde, 0x5d, 0xae, 0x22, 0x23, 0xb0, 0x03,
        0x61, 0xa3, 0x96, 0x17, 0x7a, 0x9c, 0xb4, 0x10, 0xff, 0x61, 0xf2, 0x00, 0x15, 0xad,
    ];
    assert_eq!(d, expected);
    assert_eq!(be_u64_prefix(&d), 0xba7816bf8f01cfea);
}

#[test]
fn hashing_prefix_is_big_endian() {
    let bytes = vec![0, 0, 0, 0, 0, 0, 1, 2, 0xff];
    assert_eq!(be_u64_prefix(&bytes), 0x0102);
}
