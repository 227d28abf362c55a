use yalskv::codec::{decode_record, encode_insert, encode_record, encode_remove};
use yalskv::kv::Error;
use yalskv::Record;

#[test]
fn insert_round_trip() {
    let mut log: Vec<u8> = Vec::new();
    encode_insert(&mut log, b"key", b"value");
    assert_eq!(log.len(), 16 + 3 + 5);
    let (rec, next) = decode_record(&log, 0).unwrap();
    assert_eq!(rec.key(), b"key");
    assert_eq!(rec.val(), Some(&b"value"[..]));
    assert_eq!(next, log.len());
}

#[test]
fn remove_round_trip() {
    let mut log: Vec<u8> = Vec::new();
    encode_remove(&mut log, b"key");
    assert_eq!(log.len(), 12 + 3);
    let (rec, next) = decode_record(&log, 0).unwrap();
    assert_eq!(rec.key(), b"key");
    assert_eq!(rec.val(), None);
    assert_eq!(next, log.len());
}

#[test]
fn round_trip_at_an_offset() {
    let mut log: Vec<u8> = Vec::new();
    encode_record(&mut log, &Record::Insert(b"a".to_vec(), b"1".to_vec()));
    let boundary = log.len();
    encode_record(&mut log, &Record::Remove(b"bc".to_vec()));
    let (first, mid) = decode_record(&log, 0).unwrap();
    assert_eq!(mid, boundary);
    assert_eq!(first.key(), b"a");
    let (second, end) = decode_record(&log, mid).unwrap();
    assert_eq!(second.key(), b"bc");
    assert_eq!(second.val(), None);
    assert_eq!(end, log.len());
    assert_eq!(decode_record(&log, end).unwrap_err(), Error::Eof);
}

#[test]
fn layout_is_big_endian_with_explicit_lengths() {
    let mut log: Vec<u8> = Vec::new();
    encode_insert(&mut log, b"k", b"v");
    let expect = [
        0, 0, 0, 0, 0, 0, 0, 1, // opcode: insert
        0, 0, 0, 1, // key length
        0, 0, 0, 1, // value length
        b'k', b'v',
    ];
    assert_eq!(log.as_slice(), &expect[..]);

    let mut tomb: Vec<u8> = Vec::new();
    encode_remove(&mut tomb, b"k");
    let expect = [
        0, 0, 0, 0, 0, 0, 0, 2, // opcode: remove
        0, 0, 0, 1, // key length
        b'k',
    ];
    assert_eq!(tomb.as_slice(), &expect[..]);
}

#[test]
fn empty_key_and_value_are_legal() {
    let mut log: Vec<u8> = Vec::new();
    encode_insert(&mut log, b"", b"");
    assert_eq!(log.len(), 16);
    let (rec, next) = decode_record(&log, 0).unwrap();
    assert_eq!(rec.key(), b"");
    assert_eq!(rec.val(), Some(&b""[..]));
    assert_eq!(next, 16);
}

#[test]
fn decode_reports_eof_at_a_boundary() {
    let log: Vec<u8> = Vec::new();
    assert_eq!(decode_record(&log, 0).unwrap_err(), Error::Eof);
    assert_eq!(decode_record(&log, 5).unwrap_err(), Error::Eof);
}

#[test]
fn decode_reports_truncation_inside_a_record() {
    let mut log: Vec<u8> = Vec::new();
    encode_insert(&mut log, b"key", b"value");
    // cut inside the header
    let header = log[..10].to_vec();
    assert_eq!(decode_record(&header, 0).unwrap_err(), Error::Truncated);
    // cut inside the payload
    let partial = log[..20].to_vec();
    assert_eq!(decode_record(&partial, 0).unwrap_err(), Error::Truncated);
}

#[test]
fn decode_reports_unknown_opcodes() {
    let mut log: Vec<u8> = vec![0, 0, 0, 0, 0, 0, 0, 3];
    log.extend_from_slice(&[0, 0, 0, 0]); // key length
    assert_eq!(decode_record(&log, 0).unwrap_err(), Error::Unsupported);
}

#[test]
fn decode_reports_lengths_beyond_the_caps() {
    // an insert whose key length field claims 2^25 bytes
    let log: Vec<u8> = vec![
        0, 0, 0, 0, 0, 0, 0, 1, // opcode: insert
        2, 0, 0, 0, // key length: 2^25
        0, 0, 0, 0, // value length
    ];
    assert_eq!(decode_record(&log, 0).unwrap_err(), Error::Oversized);

    // a remove whose key length field claims 2^25 bytes
    let tomb: Vec<u8> = vec![
        0, 0, 0, 0, 0, 0, 0, 2, // opcode: remove
        2, 0, 0, 0, // key length: 2^25
    ];
    assert_eq!(decode_record(&tomb, 0).unwrap_err(), Error::Oversized);
}

#[test]
fn record_getters_and_length() {
    let ins = Record::Insert(b"key".to_vec(), b"value".to_vec());
    assert_eq!(ins.key(), b"key");
    assert_eq!(ins.val(), Some(&b"value"[..]));
    assert_eq!(ins.len(), 24);
    assert!(!ins.is_empty());

    let tomb = Record::Remove(b"key".to_vec());
    assert_eq!(tomb.key(), b"key");
    assert_eq!(tomb.val(), None);
    assert_eq!(tomb.len(), 15);
    assert!(!tomb.is_empty());
}
