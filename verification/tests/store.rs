use yalskv::kv::Error;
use yalskv::util::{data, mix};
use yalskv::Store;

#[test]
fn insert_lookup_remove_round() {
    let mut store = Store::open("target/db").unwrap();
    store.insert(b"k", b"v").unwrap();
    assert_eq!(store.lookup(b"k").unwrap().unwrap().as_slice(), b"v");
    assert!(store.remove(b"k").unwrap());
    assert!(store.lookup(b"k").unwrap().is_none());
    assert!(!store.remove(b"k").unwrap());
}

#[test]
fn shadowing_and_file_length() {
    let mut store = Store::open("target/db").unwrap();
    store.insert(b"a", b"1").unwrap();
    store.insert(b"a", b"22").unwrap();
    assert_eq!(store.lookup(b"a").unwrap().unwrap().as_slice(), b"22");
    // 16+1+1 bytes for the first insert, 16+1+2 for the second
    assert_eq!(store.file().byte_len(), 37);
}

#[test]
fn reduce_sorts_by_key() {
    let mut store = Store::open("target/db").unwrap();
    store.insert(b"b", b"x").unwrap();
    store.insert(b"a", b"y").unwrap();
    store.reduce(1024).unwrap();

    let file = store.file();
    file.reset();
    let first = file.read_record().unwrap();
    assert_eq!(first.key(), b"a");
    assert_eq!(first.val(), Some(&b"y"[..]));
    let second = file.read_record().unwrap();
    assert_eq!(second.key(), b"b");
    assert_eq!(second.val(), Some(&b"x"[..]));
    assert_eq!(file.read_record().unwrap_err(), Error::Eof);
    file.unset();
}

#[test]
fn reduce_drops_tombstones_keeps_last_write() {
    let mut store = Store::open("target/db").unwrap();
    store.insert(b"k", b"v").unwrap();
    store.remove(b"k").unwrap();
    store.insert(b"k", b"w").unwrap();
    store.reduce(1024).unwrap();

    let file = store.file();
    file.reset();
    let only = file.read_record().unwrap();
    assert_eq!(only.key(), b"k");
    assert_eq!(only.val(), Some(&b"w"[..]));
    assert_eq!(file.read_record().unwrap_err(), Error::Eof);
    file.unset();
    assert_eq!(store.lookup(b"k").unwrap().unwrap().as_slice(), b"w");
}

#[test]
fn thousand_keys_reduce_and_lookup() {
    let mut store = Store::open("target/db").unwrap();
    let pairs = data(1000, 42);
    for (key, val) in pairs.iter() {
        store.insert(key, val).unwrap();
    }
    store.reduce(32 * 1024 * 1024).unwrap();
    assert_eq!(store.file().record_count(), 1000);

    // iterating after reduce yields strictly ascending keys
    let file = store.file();
    file.reset();
    let mut prev: Option<Vec<u8>> = None;
    loop {
        let rec = match file.read_record() {
            Ok(rec) => rec,
            Err(e) => {
                assert_eq!(e, Error::Eof);
                break;
            }
        };
        if let Some(p) = &prev {
            assert!(p.as_slice() < rec.key());
        }
        prev = Some(rec.key().to_vec());
    }
    file.unset();

    for (key, val) in mix(pairs, 1).iter() {
        assert_eq!(store.lookup(key).unwrap().unwrap(), val.clone());
    }
}

#[test]
fn churn_reduces_to_empty() {
    let mut store = Store::open("target/db").unwrap();
    for _ in 0..1000 {
        store.insert(b"k", b"v").unwrap();
        assert!(store.remove(b"k").unwrap());
    }
    store.reduce(4 * 1024 * 1024).unwrap();
    assert_eq!(store.file().record_count(), 0);
    assert!(store.lookup(b"k").unwrap().is_none());
    assert!(store.is_empty());
}

#[test]
fn lookup_after_reduce_matches_lookup_before() {
    // small limit forces many chunks; the mapping must not change
    let mut store = Store::open("target/db").unwrap();
    store.insert(b"apple", b"1").unwrap();
    store.insert(b"pear", b"2").unwrap();
    store.insert(b"apple", b"3").unwrap();
    store.remove(b"plum").unwrap();
    store.insert(b"plum", b"4").unwrap();
    store.remove(b"pear").unwrap();

    let before = [
        (&b"apple"[..], store.lookup(b"apple").unwrap()),
        (&b"pear"[..], store.lookup(b"pear").unwrap()),
        (&b"plum"[..], store.lookup(b"plum").unwrap()),
    ];
    store.reduce(1).unwrap();
    for (key, expect) in before.iter() {
        assert_eq!(&store.lookup(key).unwrap(), expect);
    }
    assert_eq!(store.lookup(b"apple").unwrap().unwrap().as_slice(), b"3");
    assert!(store.lookup(b"pear").unwrap().is_none());
    assert_eq!(store.len(), 2);
}

#[test]
fn remove_reports_presence() {
    let mut store = Store::open("target/db").unwrap();
    assert!(!store.remove(b"ghost").unwrap());
    store.insert(b"k", b"v").unwrap();
    assert!(store.remove(b"k").unwrap());
    assert!(!store.remove(b"k").unwrap());
    // tombstones are written even for absent keys: 3 removes + 1 insert
    assert_eq!(store.file().record_count(), 4);
}

#[test]
fn lookups_do_not_disturb_appends() {
    let mut store = Store::open("target/db").unwrap();
    store.insert(b"first", b"1").unwrap();
    for _ in 0..10 {
        assert_eq!(store.lookup(b"first").unwrap().unwrap().as_slice(), b"1");
        assert!(store.lookup(b"absent").unwrap().is_none());
    }
    store.insert(b"second", b"2").unwrap();
    assert_eq!(store.lookup(b"second").unwrap().unwrap().as_slice(), b"2");
    assert_eq!(store.lookup(b"first").unwrap().unwrap().as_slice(), b"1");
}

#[test]
fn append_while_iterating_is_refused() {
    let mut store = Store::open("target/db").unwrap();
    store.insert(b"a", b"1").unwrap();
    store.file().reset();
    assert_eq!(store.insert(b"b", b"2").unwrap_err(), Error::Usage);
    assert_eq!(store.remove(b"a").unwrap_err(), Error::Usage);
    store.file().unset();
    store.insert(b"b", b"2").unwrap();
    assert_eq!(store.lookup(b"b").unwrap().unwrap().as_slice(), b"2");
}

#[test]
fn oversized_keys_and_values_are_refused() {
    let mut store = Store::open("target/db").unwrap();
    let big_key = vec![7u8; 0x100_0000 + 1];
    let big_val = vec![7u8; 0x1000_0000 + 1];
    assert_eq!(store.insert(&big_key, b"v").unwrap_err(), Error::Oversized);
    assert_eq!(store.insert(b"k", &big_val).unwrap_err(), Error::Oversized);
    assert_eq!(store.remove(&big_key).unwrap_err(), Error::Oversized);
    assert!(store.lookup(&big_key).unwrap().is_none());
    assert!(store.is_empty());
}

#[test]
fn peek_caches_until_read() {
    let mut store = Store::open("target/db").unwrap();
    store.insert(b"a", b"1").unwrap();
    store.insert(b"b", b"2").unwrap();
    let file = store.file();
    file.reset();
    assert_eq!(file.peek_record().unwrap().key(), b"a");
    assert_eq!(file.peek_record().unwrap().key(), b"a");
    assert_eq!(file.read_record().unwrap().key(), b"a");
    assert_eq!(file.peek_record().unwrap().key(), b"b");
    assert_eq!(file.read_record().unwrap().key(), b"b");
    assert_eq!(file.peek_record().unwrap_err(), Error::Eof);
    assert_eq!(file.read_record().unwrap_err(), Error::Eof);
    file.unset();
}

#[test]
fn len_counts_bound_keys() {
    let mut store = Store::open("target/db").unwrap();
    assert!(store.is_empty());
    assert_eq!(store.len(), 0);
    store.insert(b"a", b"1").unwrap();
    store.insert(b"a", b"2").unwrap();
    assert_eq!(store.len(), 1);
    store.insert(b"b", b"3").unwrap();
    assert_eq!(store.len(), 2);
    store.remove(b"a").unwrap();
    assert_eq!(store.len(), 1);
    assert!(!store.is_empty());
}

#[test]
fn active_log_keeps_identifier_one() {
    let mut store = Store::open("target/db").unwrap();
    assert_eq!(store.active_log_name(), "00000000000000000001.dat");
    store.insert(b"a", b"1").unwrap();
    store.remove(b"a").unwrap();
    store.reduce(1024).unwrap();
    assert_eq!(store.active_log_name(), "00000000000000000001.dat");
}

#[test]
fn reduce_of_empty_store() {
    let mut store = Store::open("target/db").unwrap();
    store.reduce(16).unwrap();
    assert_eq!(store.file().record_count(), 0);
    assert!(store.is_empty());
}
