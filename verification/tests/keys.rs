use std::convert::TryFrom;

use aida64_keys::alphabet::KEY_CHARS;
use aida64_keys::checksum::verify_checksum;
use aida64_keys::date::Date;
use aida64_keys::edition::KeyEdition;
use aida64_keys::key::{gen_pair, generate_key, generate_key_from, is_valid_key, is_valid_key_on};

#[test]
fn editions_from_numbers() {
    assert_eq!(KeyEdition::try_from(0), Ok(KeyEdition::Business));
    assert_eq!(KeyEdition::try_from(1), Ok(KeyEdition::Extreme));
    assert_eq!(KeyEdition::try_from(2), Ok(KeyEdition::Engineer));
    assert_eq!(KeyEdition::try_from(3), Ok(KeyEdition::NetworkAudit));
    assert_eq!(KeyEdition::try_from(4), Err("Unknown edition"));
    assert_eq!(KeyEdition::try_from(-1), Err("Unknown edition"));
}

#[test]
fn editions_from_names() {
    assert_eq!(KeyEdition::try_from("business"), Ok(KeyEdition::Business));
    assert_eq!(KeyEdition::try_from("extreme"), Ok(KeyEdition::Extreme));
    assert_eq!(KeyEdition::try_from("engineer"), Ok(KeyEdition::Engineer));
    assert_eq!(KeyEdition::try_from("network"), Ok(KeyEdition::NetworkAudit));
    assert_eq!(KeyEdition::try_from("Extreme"), Err("Unknown edition"));
    assert_eq!(KeyEdition::try_from(""), Err("Unknown edition"));
}

#[test]
fn edition_codes_round_trip() {
    for e in [KeyEdition::Business, KeyEdition::Extreme, KeyEdition::Engineer, KeyEdition::NetworkAudit] {
        assert_eq!(KeyEdition::try_from(e.code()), Ok(e));
    }
}

#[test]
fn generate_key_from_matches_known_keys() {
    let pv = 8 * 512 + 32 + 1;
    let expected = [
        "U2RA1NRKD6UUDGP3D8RYNAAB7",
        "USRA1NRKD6UUDGP3D8RYNAABV",
        "UGRA1NRKD6UUDGP3D8RYNAABC",
        "UZRA1NRKD6UUDGP3D8RYNAABT",
    ];
    for i in 0..4 {
        let edition = KeyEdition::try_from(i).unwrap();
        let key = generate_key_from(edition, 1, pv, 0, 3660, 500, 50, 60, *b"AB");
        assert_eq!(key, expected[i as usize].as_bytes());
    }
    let key = generate_key_from(KeyEdition::Extreme, 5, pv, 30, 100, 123, 7, 9, *b"Q7");
    assert_eq!(key, b"4Y1HFDDLD6NUDG3BDGW148Q7D");
}

#[test]
fn never_expiring_keys_are_valid_on_any_date() {
    let key = b"U2RA1NRKD6UUDGP3D8RYNAAB7";
    assert!(is_valid_key_on(key, 2011, 1, 1));
    assert!(is_valid_key_on(key, 9999, 12, 31));
    assert!(is_valid_key_on(key, 0, 0, 0));
    assert!(is_valid_key(key));
}

#[test]
fn expiring_keys_are_valid_until_they_run_out() {
    let key = b"4Y1HFDDLD6NUDG3BDGW148Q7D";
    assert!(is_valid_key_on(key, 2011, 1, 15));
    assert!(is_valid_key_on(key, 2011, 1, 30));
    assert!(!is_valid_key_on(key, 2011, 1, 31));
    assert!(!is_valid_key_on(key, 2012, 6, 1));
    assert!(!is_valid_key(key));
}

#[test]
fn damaged_keys_are_rejected() {
    assert!(!is_valid_key_on(b"U2RA1NRKD6UUDGP3D8RYNAABY", 2011, 1, 1));
    assert!(!is_valid_key_on(b"", 2011, 1, 1));
    assert!(!is_valid_key_on(b"DDDDDDDDDDDDDDDDDDDDDDDDD", 2011, 1, 1));
    assert!(!is_valid_key(b"not a key"));
}

#[test]
fn out_of_range_license_count_is_rejected() {
    let pv = 8 * 512 + 32 + 1;
    let key = generate_key_from(KeyEdition::Business, 0, pv, 0, 0, 500, 50, 60, *b"AB");
    assert!(verify_checksum(&key));
    assert!(!is_valid_key_on(&key, 2011, 1, 1));
    let key = generate_key_from(KeyEdition::Business, 798, pv, 0, 0, 500, 50, 60, *b"AB");
    assert!(!is_valid_key_on(&key, 2011, 1, 1));
}

#[test]
fn gen_pair_draws_alphabet_symbols() {
    for _ in 0..100 {
        let mut pair = [0u8; 2];
        gen_pair(&mut pair);
        assert!(KEY_CHARS.contains(&pair[0]));
        assert!(KEY_CHARS.contains(&pair[1]));
    }
}

#[test]
fn generated_keys_are_valid() {
    let purchase = Date { day: 1, month: 1, year: 2011 }.enc();
    for i in 0..4 {
        let edition = KeyEdition::try_from(i).unwrap();
        let key = generate_key(edition, 1, purchase, 0, 3660);
        assert_eq!(key.len(), 25);
        assert!(key.bytes().all(|b| KEY_CHARS.contains(&b)));
        assert!(verify_checksum(key.as_bytes()));
        assert!(is_valid_key(key.as_bytes()));
    }
}

#[test]
fn generated_keys_carry_their_edition() {
    let purchase = Date { day: 1, month: 1, year: 2011 }.enc();
    let business = generate_key(KeyEdition::Business, 1, purchase, 0, 3660);
    let extreme = generate_key(KeyEdition::Extreme, 1, purchase, 0, 3660);
    assert!(is_valid_key(business.as_bytes()));
    assert!(is_valid_key(extreme.as_bytes()));
}

#[test]
fn generated_keys_with_past_expiry_are_rejected_today() {
    let purchase = Date { day: 1, month: 1, year: 2004 }.enc();
    let key = generate_key(KeyEdition::Extreme, 3, purchase, 30, 100);
    assert!(verify_checksum(key.as_bytes()));
    assert!(!is_valid_key(key.as_bytes()));
}
