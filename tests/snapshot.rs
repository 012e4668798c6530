use redis_lite::rdb::{parse_rdb, RdbError};

fn header() -> Vec<u8> {
    b"REDIS0011".to_vec()
}

fn with(body: &[u8]) -> Vec<u8> {
    let mut f = header();
    f.extend_from_slice(body);
    f
}

fn aux_value(encoded: &[u8]) -> Vec<u8> {
    let mut body = vec![0xFA, 1, b'k'];
    body.extend_from_slice(encoded);
    body.push(0xFF);
    let r = parse_rdb(&with(&body)).unwrap();
    assert_eq!(r.aux_map.len(), 1);
    assert_eq!(r.aux_map[0].0, b"k".to_vec());
    r.aux_map[0].1.clone()
}

#[test]
fn header_and_end_only() {
    let r = parse_rdb(&with(&[0xFF])).unwrap();
    assert_eq!(r.rdb_ver, 11);
    assert!(r.aux_map.is_empty());
    assert!(r.kv_map.is_empty());
    assert_eq!(r.into_store(0).len(), 0);
}

#[test]
fn one_aux_record() {
    let r = parse_rdb(&with(b"\xFA\x09redis-ver\x057.2.0\xFF")).unwrap();
    assert_eq!(r.aux_map, vec![(b"redis-ver".to_vec(), b"7.2.0".to_vec())]);
}

#[test]
fn length_six_bits() {
    assert_eq!(aux_value(b"\x05hello"), b"hello".to_vec());
    assert_eq!(aux_value(b"\x00"), Vec::<u8>::new());
}

#[test]
fn length_fourteen_bits() {
    let payload = vec![b'x'; 300];
    let mut enc = vec![0x40 | (300 >> 8) as u8, (300 & 0xFF) as u8];
    enc.extend_from_slice(&payload);
    assert_eq!(aux_value(&enc), payload);
}

#[test]
fn length_eight_bits() {
    let payload = vec![b'y'; 200];
    let mut enc = vec![0x80, 200];
    enc.extend_from_slice(&payload);
    assert_eq!(aux_value(&enc), payload);
}

#[test]
fn integer_eight_bits_is_signed() {
    assert_eq!(aux_value(&[0xC0, 0x7B]), b"123".to_vec());
    assert_eq!(aux_value(&[0xC0, 0xFF]), b"-1".to_vec());
}

#[test]
fn integer_sixteen_bits() {
    assert_eq!(aux_value(&[0xC1, 0x30, 0x39]), b"12345".to_vec());
}

#[test]
fn integer_thirty_two_bits() {
    assert_eq!(aux_value(&[0xC2, 0x00, 0x01, 0xE2, 0x40]), b"123456".to_vec());
    assert_eq!(aux_value(&[0xC2, 0xFF, 0xFF, 0xFF, 0xFF]), b"4294967295".to_vec());
}

#[test]
fn unknown_special_encoding() {
    let body = [0xFA, 1, b'k', 0xC3, 0xFF];
    assert_eq!(parse_rdb(&with(&body)).err(), Some(RdbError::BadEncoding));
}

#[test]
fn key_value_block_with_expiries() {
    let mut body = vec![0xFE, 0x00, 0xFB, 0x03, 0x02];
    body.extend_from_slice(&[0x00, 0x03, b'f', b'o', b'o', 0x03, b'b', b'a', b'r']);
    body.extend_from_slice(&[0xFC, 0, 0, 0x01, 0x8B, 0xCF, 0xE5, 0x68, 0x00]);
    body.extend_from_slice(&[0x00, 0x01, b'a', 0x01, b'1']);
    body.extend_from_slice(&[0xFD, 0x65, 0x53, 0xF1, 0x00]);
    body.extend_from_slice(&[0x00, 0x01, b'b', 0xC0, 0x07]);
    body.push(0xFF);
    let r = parse_rdb(&with(&body)).unwrap();
    assert_eq!(r.kv_map.len(), 3);
    assert_eq!(r.kv_map[0].0, b"foo".to_vec());
    assert_eq!(r.kv_map[0].1.content, b"bar".to_vec());
    assert_eq!(r.kv_map[0].1.expiry, None);
    assert_eq!(r.kv_map[1].1.expiry, Some(0x018BCFE56800));
    assert_eq!(r.kv_map[2].1.content, b"7".to_vec());
    assert_eq!(r.kv_map[2].1.expiry, Some(0x6553F100u64 * 1000));
    let mut db = r.into_store(0);
    assert_eq!(db.len(), 3);
    assert_eq!(db.get(b"foo", 0).unwrap().content, b"bar".to_vec());
}

#[test]
fn later_entry_replaces_earlier_in_store() {
    let body = [0xFB, 0x02, 0x00, 0x00, 0x01, b'k', 0x01, b'1', 0x00, 0x01, b'k', 0x01, b'2', 0xFF];
    let r = parse_rdb(&with(&body)).unwrap();
    let mut db = r.into_store(0);
    assert_eq!(db.len(), 1);
    assert_eq!(db.get(b"k", 0).unwrap().content, b"2".to_vec());
}

#[test]
fn count_mismatch() {
    let body = [0xFB, 0x01, 0x01, 0x00, 0x01, b'k', 0x01, b'v', 0xFF];
    assert_eq!(parse_rdb(&with(&body)).err(), Some(RdbError::CountMismatch));
    let body = [0xFB, 0x01, 0x02, 0x00, 0x01, b'k', 0x01, b'v', 0xFF];
    assert_eq!(parse_rdb(&with(&body)).err(), Some(RdbError::CountMismatch));
}

#[test]
fn unsupported_value_type() {
    let body = [0xFB, 0x01, 0x00, 0x01, 0x01, b'k', 0x01, b'v', 0xFF];
    assert_eq!(parse_rdb(&with(&body)).err(), Some(RdbError::UnsupportedValueType(1)));
}

#[test]
fn bad_magic_version_and_truncation() {
    assert_eq!(parse_rdb(b"RODIS0011\xFF").err(), Some(RdbError::BadMagic));
    assert_eq!(parse_rdb(b"RED").err(), Some(RdbError::BadMagic));
    assert_eq!(parse_rdb(b"REDIS00x1\xFF").err(), Some(RdbError::BadVersion));
    assert_eq!(parse_rdb(b"REDIS001").err(), Some(RdbError::UnexpectedEof));
    assert_eq!(parse_rdb(b"REDIS0011").err(), Some(RdbError::UnexpectedEof));
    assert_eq!(parse_rdb(b"REDIS0011\xFA\x05ab").err(), Some(RdbError::UnexpectedEof));
}

#[test]
fn unknown_opcodes_are_skipped() {
    let r = parse_rdb(&with(&[0x01, 0x02, 0xFF])).unwrap();
    assert!(r.kv_map.is_empty());
}
