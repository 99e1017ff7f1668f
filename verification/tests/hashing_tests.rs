use hashcrack::hashing::{gen_hash, HashMode};
use hashcrack::hexcode::encode_hex;
use sha2::{Digest, Sha256, Sha512};

#[test]
fn sha256_matches_known_vector() {
    let d = gen_hash(b"abc", HashMode::Sha256);
    assert_eq!(
        hex::encode(&d),
        "ba7816bf8f01cfea414140de5dae2223b00361a396177a9cb410ff61f20015ad"
    );
    assert_eq!(d.len(), 32);
}

#[test]
fn md5_matches_known_vector() {
    let d = gen_hash(b"abc", HashMode::Md5);
    assert_eq!(hex::encode(&d), "900150983cd24fb0d6963f7d28e17f72");
    assert_eq!(d.len(), 16);
}

#[test]
fn sha512_matches_the_crate() {
    let d = gen_hash(b"abc", HashMode::Sha512);
    assert_eq!(d, Sha512::digest(b"abc").to_vec());
    assert_eq!(d.len(), 64);
}

#[test]
fn sha256_of_empty_input() {
    let d = gen_hash(b"", HashMode::Sha256);
    assert_eq!(d, Sha256::digest(b"").to_vec());
    assert_eq!(
        hex::encode(&d),
        "e3b0c44298fc1c149afbf4c8996fb92427ae41e4649b934ca495991b7852b855"
    );
}

#[test]
fn encode_hex_matches_the_hex_crate() {
    let samples: Vec<Vec<u8>> = vec![
        vec![],
        vec![0x00],
        vec![0xff],
        vec![0x00, 0xff, 0x10, 0xab],
        (0..=255u8).collect(),
    ];
    for bytes in samples {
        assert_eq!(encode_hex(&bytes), hex::encode(&bytes).into_bytes());
    }
}

#[test]
fn encode_hex_is_lowercase_two_digits_per_byte() {
    assert_eq!(encode_hex(&vec![0x00, 0xff]), b"00ff".to_vec());
    assert_eq!(encode_hex(&vec![0xde, 0xad, 0xbe, 0xef]), b"deadbeef".to_vec());
}
