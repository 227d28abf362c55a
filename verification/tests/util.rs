use yalskv::util::{data, hex, log_name, mix};

#[test]
fn log_names_are_zero_padded_decimals() {
    assert_eq!(log_name(1), "00000000000000000001.dat");
    assert_eq!(log_name(0), "00000000000000000000.dat");
    assert_eq!(log_name(987), "00000000000000000987.dat");
    assert_eq!(log_name(u64::MAX), "18446744073709551615.dat");
}

#[test]
fn hex_spells_each_byte_with_two_digits() {
    assert_eq!(hex(b""), "");
    assert_eq!(hex(&[0x00]), "00");
    assert_eq!(hex(&[0xff]), "ff");
    assert_eq!(hex(&[0x00, 0xff, 0x1a, 0x2b]), "00ff1a2b");
    assert_eq!(hex(b"0"), "30");
}

#[test]
fn data_produces_sixty_four_byte_pairs() {
    let pairs = data(5, 42);
    assert_eq!(pairs.len(), 5);
    for (key, val) in pairs.iter() {
        assert_eq!(key.len(), 64);
        assert_eq!(val.len(), 64);
    }
    // deterministic in the seed
    assert_eq!(data(5, 42), pairs);
    assert_eq!(data(0, 1).len(), 0);
}

#[test]
fn mix_keeps_the_same_elements() {
    let original: Vec<u32> = vec![5, 3, 9, 1, 4, 8, 2];
    let mut shuffled = mix(original.clone(), 7);
    shuffled.sort();
    let mut expected = original;
    expected.sort();
    assert_eq!(shuffled, expected);
}
