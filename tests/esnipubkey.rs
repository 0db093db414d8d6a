use esnipubkey::decoder::{read_bytes, read_u16_be, read_u64_be, read_u8};
use esnipubkey::record::{parse_cipher_suites, parse_key_share_entrys};
use esnipubkey::{
    check_digest, checksum_domain, parse, parse_esnikeys, prefix_esni, verify_checksum,
    DecodeError, ESNIKeys, KeyShareEntry, ParseError,
};

fn sample() -> Vec<u8> {
    let mut bytes: Vec<u8> = vec![
        0xff, 0x01, // version
        0xf8, 0xb1, 0xe1, 0x6e, // checksum
        0x00, 0x24, 0x00, 0x1d, 0x00, 0x20,
    ];
    bytes.extend_from_slice(&[0x01u8; 32]);
    bytes.extend_from_slice(&[
        0x00, 0x02, 0x13, 0x01, // cipher_suites
        0x01, 0x04, // padded_length
        0x00, 0x00, 0x00, 0x00, 0x5f, 0xe6, 0x36, 0xb0, // not_before
        0x00, 0x00, 0x00, 0x00, 0x5f, 0xee, 0x1f, 0xb0, // not_after
        0x00, 0x00, // extensions
    ]);
    bytes
}

#[test]
fn test_prefix_esni() {
    assert_eq!(prefix_esni("example.com"), "_esni.example.com");
    assert_eq!(prefix_esni("_esni.example.com"), "_esni.example.com");
}

#[test]
fn test_parse_esnikeys() {
    let bytes: Vec<u8> = vec![
        0xff, 0x01, // version
        0xf8, 0xb1, 0xe1, 0x6e, // checksum
        0x00, 0x24, 0x00, 0x1d, 0x00, 0x20, 0x01, 0x01, 0x01, 0x01, 0x01, 0x01, 0x01, 0x01,
        0x01, 0x01, 0x01, 0x01, 0x01, 0x01, 0x01, 0x01, 0x01, 0x01, 0x01, 0x01, 0x01, 0x01,
        0x01, 0x01, 0x01, 0x01, 0x01, 0x01, 0x01, 0x01, 0x01, 0x01, // keys
        0x00, 0x02, 0x13, 0x01, // cipher_suites
        0x01, 0x04, // padded_length
        0x00, 0x00, 0x00, 0x00, 0x5f, 0xe6, 0x36, 0xb0, // not_before
        0x00, 0x00, 0x00, 0x00, 0x5f, 0xee, 0x1f, 0xb0, // not_after
        0x00, 0x00, // extensions
    ];

    let result = parse_esnikeys(&bytes[..]);
    assert!(result.is_ok());
    println!("{:?}", result);

    let esnikeys = result.unwrap();
    assert_eq!(esnikeys.version, u16::from_str_radix("ff01", 16).unwrap());
    assert_eq!(esnikeys.checksum, [248u8, 177u8, 225u8, 110u8]);
    assert_eq!(esnikeys.cipher_suites, [(19u8, 1u8)]);
    assert_eq!(esnikeys.padded_length, 260);
    assert_eq!(esnikeys.not_before, 1608922800);
    assert_eq!(esnikeys.not_after, 1609441200);
    assert!(esnikeys.extensions.is_empty());
}

#[test]
fn sample_record_decodes_every_field() {
    let k = parse_esnikeys(&sample()).unwrap();
    assert_eq!(k.version, 0xff01);
    assert_eq!(k.checksum, [0xf8, 0xb1, 0xe1, 0x6e]);
    assert_eq!(k.keys.len(), 1);
    assert_eq!(k.keys[0].group, 0x001d);
    assert_eq!(k.keys[0].key_exchange, vec![0x01u8; 32]);
    assert_eq!(k.cipher_suites, vec![(0x13u8, 0x01u8)]);
    assert_eq!(k.padded_length, 260);
    assert_eq!(k.not_before, 1608922800);
    assert_eq!(k.not_after, 1609441200);
    assert_eq!(k.extensions, Vec::<u8>::new());
}

#[test]
fn digest_of_zeroed_sample_starts_with_its_checksum() {
    let bytes = sample();
    let candidate = parse(&bytes).unwrap();
    assert!(verify_checksum(&bytes, candidate).is_ok());
}

#[test]
fn changed_checksum_byte_decodes_but_fails_verification() {
    for i in 2..6 {
        for mask in [0x01u8, 0x80u8, 0xffu8] {
            let mut bytes = sample();
            bytes[i] ^= mask;
            let structural = parse(&bytes);
            assert!(structural.is_ok());
            assert_eq!(structural.unwrap().checksum[i - 2], sample()[i] ^ mask);
            assert_eq!(parse_esnikeys(&bytes).unwrap_err(), ParseError::ChecksumMismatch);
        }
    }
}

#[test]
fn changed_body_byte_fails_verification() {
    let mut bytes = sample();
    bytes[10] ^= 0x01;
    assert_eq!(parse_esnikeys(&bytes).unwrap_err(), ParseError::ChecksumMismatch);
}

#[test]
fn every_truncation_is_reported() {
    let bytes = sample();
    for n in 0..bytes.len() {
        assert_eq!(parse(&bytes[..n]).unwrap_err(), ParseError::Truncated);
        assert_eq!(parse_esnikeys(&bytes[..n]).unwrap_err(), ParseError::Truncated);
    }
}

#[test]
fn empty_input_is_truncated() {
    assert_eq!(parse_esnikeys(&[]).unwrap_err(), ParseError::Truncated);
}

#[test]
fn declared_block_longer_than_input_is_truncated() {
    let bytes = vec![0xff, 0x01, 0, 0, 0, 0, 0x00, 0x10, 0x00, 0x01];
    assert_eq!(parse(&bytes).unwrap_err(), ParseError::Truncated);
}

#[test]
fn trailing_bytes_after_record_are_ignored_by_structure() {
    let mut bytes = sample();
    bytes.push(0xaa);
    let k = parse(&bytes).unwrap();
    assert_eq!(k.extensions, Vec::<u8>::new());
    // the digest covers the whole input, so the checksum no longer matches
    assert_eq!(parse_esnikeys(&bytes).unwrap_err(), ParseError::ChecksumMismatch);
}

fn two_entry_record() -> ESNIKeys {
    ESNIKeys {
        version: 0xff01,
        checksum: [0, 0, 0, 0],
        keys: vec![
            KeyShareEntry { group: 0x001d, key_exchange: vec![1, 2, 3] },
            KeyShareEntry { group: 0x0017, key_exchange: vec![] },
        ],
        cipher_suites: vec![(0x13, 0x01), (0x13, 0x03)],
        padded_length: 260,
        not_before: 0x0102_0304_0506_0708,
        not_after: u64::MAX,
        extensions: vec![9, 8, 7],
    }
}

#[test]
fn to_bytes_writes_the_wire_layout() {
    let b = two_entry_record().to_bytes().unwrap();
    let expected: Vec<u8> = vec![
        0xff, 0x01, 0, 0, 0, 0, 0x00, 0x0b, 0x00, 0x1d, 0x00, 0x03, 1, 2, 3, 0x00, 0x17, 0x00,
        0x00, 0x00, 0x04, 0x13, 0x01, 0x13, 0x03, 0x01, 0x04, 1, 2, 3, 4, 5, 6, 7, 8, 0xff, 0xff,
        0xff, 0xff, 0xff, 0xff, 0xff, 0xff, 0x00, 0x03, 9, 8, 7,
    ];
    assert_eq!(b, expected);
}

#[test]
fn round_trip_with_recomputed_checksum() {
    let k = two_entry_record();
    let b = k.to_bytes_with_checksum().unwrap();
    let back = parse_esnikeys(&b).unwrap();
    assert_eq!(back.version, k.version);
    assert_eq!(back.keys.len(), 2);
    assert_eq!(back.keys[0].group, 0x001d);
    assert_eq!(back.keys[0].key_exchange, vec![1, 2, 3]);
    assert_eq!(back.keys[1].group, 0x0017);
    assert!(back.keys[1].key_exchange.is_empty());
    assert_eq!(back.cipher_suites, k.cipher_suites);
    assert_eq!(back.padded_length, k.padded_length);
    assert_eq!(back.not_before, k.not_before);
    assert_eq!(back.not_after, k.not_after);
    assert_eq!(back.extensions, k.extensions);
    assert_eq!(back.checksum[..], b[2..6]);
    assert_ne!(back.checksum, [0, 0, 0, 0]);
    assert_eq!(back.to_bytes().unwrap(), b);
}

#[test]
fn sample_round_trips_byte_for_byte() {
    let bytes = sample();
    let k = parse_esnikeys(&bytes).unwrap();
    assert_eq!(k.to_bytes().unwrap(), bytes);
    assert_eq!(k.to_bytes_with_checksum().unwrap(), bytes);
}

#[test]
fn oversized_fields_cannot_be_written() {
    let mut k = two_entry_record();
    k.extensions = vec![0; 0x1_0000];
    assert!(k.to_bytes().is_none());
    let mut k = two_entry_record();
    k.keys[0].key_exchange = vec![0; 0x1_0000];
    assert!(k.to_bytes().is_none());
    let mut k = two_entry_record();
    k.keys = vec![KeyShareEntry { group: 1, key_exchange: vec![0; 0xfffb] }];
    assert!(k.to_bytes().is_some());
    k.keys.push(KeyShareEntry { group: 2, key_exchange: vec![] });
    assert!(k.to_bytes().is_none());
    let mut k = two_entry_record();
    k.cipher_suites = vec![(1, 2); 0x8000];
    assert!(k.to_bytes_with_checksum().is_none());
}

#[test]
fn malformed_last_key_share_ends_the_list() {
    // two complete entries, then one that declares 5 bytes but has 2
    let block: Vec<u8> = vec![
        0x00, 0x1d, 0x00, 0x02, 0xaa, 0xbb, 0x00, 0x17, 0x00, 0x00, 0x00, 0x18, 0x00, 0x05, 0x01,
        0x02,
    ];
    let entries = parse_key_share_entrys(&block);
    assert_eq!(entries.len(), 2);
    assert_eq!(entries[0].group, 0x001d);
    assert_eq!(entries[0].key_exchange, vec![0xaa, 0xbb]);
    assert_eq!(entries[1].group, 0x0017);

    let mut bytes: Vec<u8> = vec![0xff, 0x01, 0, 0, 0, 0, 0x00, block.len() as u8];
    bytes.extend_from_slice(&block);
    bytes.extend_from_slice(&[0x00, 0x00, 0x01, 0x04]);
    bytes.extend_from_slice(&[0u8; 16]);
    bytes.extend_from_slice(&[0x00, 0x00]);
    let k = parse(&bytes).unwrap();
    assert_eq!(k.keys.len(), 2);
    assert_eq!(k.keys[1].group, 0x0017);
    assert!(k.cipher_suites.is_empty());
}

#[test]
fn odd_cipher_suite_byte_is_left_over() {
    assert_eq!(parse_cipher_suites(&[0x13, 0x01, 0x13, 0x02, 0x13]), vec![(0x13, 0x01), (0x13, 0x02)]);
    assert!(parse_cipher_suites(&[]).is_empty());
}

#[test]
fn entries_and_suites_keep_input_order() {
    let block: Vec<u8> = vec![0x00, 0x03, 0x00, 0x01, 0x07, 0x00, 0x01, 0x00, 0x00, 0x00, 0x02, 0x00, 0x00];
    let entries = parse_key_share_entrys(&block);
    let groups: Vec<u16> = entries.iter().map(|e| e.group).collect();
    assert_eq!(groups, vec![3, 1, 2]);
    assert_eq!(parse_cipher_suites(&[3, 3, 1, 1, 2, 2]), vec![(3, 3), (1, 1), (2, 2)]);
}

#[test]
fn checksum_domain_zeroes_the_checksum_field_only() {
    let d = checksum_domain(&[1, 2, 3, 4, 5, 6, 7, 8]);
    assert_eq!(d, vec![1, 2, 0, 0, 0, 0, 7, 8]);
    assert_eq!(checksum_domain(&[9, 9, 9]), vec![9, 9, 0]);
    assert!(checksum_domain(&[]).is_empty());
}

#[test]
fn check_digest_compares_the_first_four_bytes() {
    let k = parse_esnikeys(&sample()).unwrap();
    assert!(check_digest(&[0xf8, 0xb1, 0xe1, 0x6e, 0x00], k.clone()).is_ok());
    assert_eq!(
        check_digest(&[0xf8, 0xb1, 0xe1, 0x6f], k.clone()).unwrap_err(),
        ParseError::ChecksumMismatch
    );
    assert_eq!(check_digest(&[0xf8, 0xb1, 0xe1], k).unwrap_err(), ParseError::ChecksumMismatch);
}

#[test]
fn primitive_readers() {
    let input = [0x12u8, 0x34, 0x56, 0x78, 0x9a, 0xbc, 0xde, 0xf0, 0x11];
    let (v, rest) = read_u16_be(&input).unwrap();
    assert_eq!(v, 0x1234);
    assert_eq!(rest.len(), 7);
    let (v, rest) = read_u64_be(&input).unwrap();
    assert_eq!(v, 0x1234_5678_9abc_def0);
    assert_eq!(rest, &[0x11]);
    let (v, rest) = read_u8(&input).unwrap();
    assert_eq!(v, 0x12);
    assert_eq!(rest.len(), 8);
    let (v, rest) = read_bytes(&input, 3).unwrap();
    assert_eq!(v, vec![0x12, 0x34, 0x56]);
    assert_eq!(rest.len(), 6);
    assert_eq!(read_u64_be(&input[..7]).unwrap_err(), DecodeError::InsufficientInput);
    assert_eq!(read_u16_be(&input[..1]).unwrap_err(), DecodeError::InsufficientInput);
    assert_eq!(read_u8(&[]).unwrap_err(), DecodeError::InsufficientInput);
    assert_eq!(read_bytes(&input, 10).unwrap_err(), DecodeError::InsufficientInput);
}
