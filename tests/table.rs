use collatz_cert::table::{
    decode_table_file, entry_bytes, frame_table_file, read_table, write_table, FormatError,
    FormatVersion,
};
use sha2::{Digest, Sha256};

fn sample_table() -> Vec<u32> {
    vec![13, 12, 70000, 0, u32::MAX, 5, 9, 1]
}

fn header(ver: u32, k: u32, l: u32, count: u64) -> Vec<u8> {
    let mut b = Vec::new();
    b.extend_from_slice(b"CALT");
    b.extend_from_slice(&ver.to_le_bytes());
    b.extend_from_slice(&k.to_le_bytes());
    b.extend_from_slice(&l.to_le_bytes());
    b.extend_from_slice(&count.to_le_bytes());
    b.extend_from_slice(&[0u8; 8]);
    b
}

#[test]
fn table_write_layout() {
    let t = sample_table();
    let b = write_table(&t, 4, 8);
    assert_eq!(b.len(), 32 + 8 * 4 + 32);
    assert_eq!(&b[0..32], header(2, 4, 8, 8).as_slice());
    assert_eq!(&b[32..36], &13u32.to_le_bytes());
    assert_eq!(&b[40..44], &70000u32.to_le_bytes());
    let digest = Sha256::digest(&b[32..64]);
    assert_eq!(&b[64..96], digest.as_slice());
}

#[test]
fn table_empty_digest_is_sha256_of_nothing() {
    let b = write_table(&vec![], 2, 1);
    assert_eq!(b.len(), 64);
    assert_eq!(
        collatz_cert::hex::hex(&b[32..64]),
        "e3b0c44298fc1c149afbf4c8996fb92427ae41e4649b934ca495991b7852b855"
    );
}

#[test]
fn table_round_trip() {
    let t = sample_table();
    let b = write_table(&t, 4, 8);
    let tf = read_table(&b).unwrap();
    assert_eq!(tf.k, 4);
    assert_eq!(tf.l, 8);
    assert_eq!(tf.version, FormatVersion::Current);
    assert_eq!(tf.count, 8);
    assert_eq!(tf.entries, t);
    assert_eq!(&tf.digest[..], &b[64..96]);
}

#[test]
fn table_legacy_file_decodes() {
    let entries: Vec<u16> = vec![13, 14, 300, 65535];
    let mut region = Vec::new();
    for e in &entries {
        region.extend_from_slice(&e.to_le_bytes());
    }
    let mut b = header(1, 3, 8, 4);
    b.extend_from_slice(&region);
    b.extend_from_slice(Sha256::digest(&region).as_slice());
    let tf = read_table(&b).unwrap();
    assert_eq!(tf.version, FormatVersion::Legacy);
    assert_eq!(tf.entries, vec![13u32, 14, 300, 65535]);
}

#[test]
fn table_errors() {
    let t = sample_table();
    let good = write_table(&t, 4, 8);
    assert!(matches!(read_table(&good[..63].to_vec()), Err(FormatError::TooShort)));
    let mut bad_magic = good.clone();
    bad_magic[0] = b'X';
    assert!(matches!(read_table(&bad_magic), Err(FormatError::BadMagic)));
    let mut bad_version = good.clone();
    bad_version[4] = 3;
    assert!(matches!(read_table(&bad_version), Err(FormatError::BadVersion)));
    let mut longer = good.clone();
    longer.push(0);
    assert!(matches!(read_table(&longer), Err(FormatError::BadLength)));
    let mut shorter = good.clone();
    shorter.pop();
    assert!(matches!(read_table(&shorter), Err(FormatError::BadLength)));
    let mut bad_count = good.clone();
    bad_count[16] = 7;
    assert!(matches!(read_table(&bad_count), Err(FormatError::BadLength)));
    let mut bad_digest = good.clone();
    bad_digest[95] ^= 1;
    assert!(matches!(read_table(&bad_digest), Err(FormatError::HashMismatch)));
}

#[test]
fn table_entry_bit_flips_are_detected() {
    let t = sample_table();
    let good = write_table(&t, 4, 8);
    for i in 32..64 {
        for bit in 0..8 {
            let mut b = good.clone();
            b[i] ^= 1 << bit;
            assert!(matches!(read_table(&b), Err(FormatError::HashMismatch)));
        }
    }
}

#[test]
fn table_padding_bit_flips_are_ignored() {
    let t = sample_table();
    let good = write_table(&t, 4, 8);
    for i in 24..32 {
        for bit in 0..8 {
            let mut b = good.clone();
            b[i] ^= 1 << bit;
            let tf = read_table(&b).unwrap();
            assert_eq!(tf.entries, t);
        }
    }
}

#[test]
fn table_decode_with_given_digest() {
    let t = sample_table();
    let entries = entry_bytes(&t);
    assert_eq!(entries.len(), 32);
    let d = [7u8; 32];
    let b = frame_table_file(4, 8, 8, &entries, &d);
    assert_eq!(&b[64..96], &d);
    let tf = decode_table_file(&b, &d).unwrap();
    assert_eq!(tf.entries, t);
    assert!(matches!(decode_table_file(&b, &[8u8; 32]), Err(FormatError::HashMismatch)));
    assert!(matches!(read_table(&b), Err(FormatError::HashMismatch)));
}

#[test]
fn table_sha256_hex_of_bytes() {
    assert_eq!(
        collatz_cert::table::sha256_hex(b"abc"),
        "ba7816bf8f01cfea414140de5dae2223b00361a396177a9cb410ff61f20015ad"
    );
}
