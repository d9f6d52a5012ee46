use aida64_keys::alphabet::{dec_part, enc_part, KEYS_SIZE, KEY_CHARS};
use aida64_keys::checksum::{get_checksum, verify_checksum};

#[test]
fn alphabet_has_34_distinct_symbols() {
    assert_eq!(KEYS_SIZE, 34);
    assert_eq!(&KEY_CHARS[..], b"DY14UF3RHWCXLQB6IKJT9N5AGS2PM8VZ7E");
    for i in 0..34 {
        for j in (i + 1)..34 {
            assert_ne!(KEY_CHARS[i], KEY_CHARS[j]);
        }
    }
}

#[test]
fn dec_part_reads_base_34() {
    assert_eq!(dec_part(b"DY"), 1);
    assert_eq!(dec_part(b"YD"), 34);
    assert_eq!(dec_part(b"EE"), 1155);
    assert_eq!(dec_part(b""), 0);
}

#[test]
fn dec_part_counts_unknown_bytes_as_zero() {
    assert_eq!(dec_part(b"a"), 0);
    assert_eq!(dec_part(b"Ya"), 34);
}

#[test]
fn enc_part_writes_base_34() {
    let mut two = [0u8; 2];
    enc_part(1155, &mut two);
    assert_eq!(&two, b"EE");
    enc_part(34, &mut two);
    assert_eq!(&two, b"YD");
    let mut three = [0u8; 3];
    enc_part(1, &mut three);
    assert_eq!(&three, b"DDY");
}

#[test]
fn enc_part_drops_high_digits() {
    let mut two = [0u8; 2];
    enc_part(34 * 34 + 5, &mut two);
    assert_eq!(&two, b"DF");
}

#[test]
fn enc_part_writes_negative_multiples_as_zero_digits() {
    let mut two = [0u8; 2];
    enc_part(-34 * 34 * 3, &mut two);
    assert_eq!(&two, b"DD");
}

#[test]
fn enc_then_dec_round_trips() {
    for v in [0, 1, 33, 34, 1000, 39303, 1336335] {
        let mut four = [0u8; 4];
        enc_part(v, &mut four);
        assert_eq!(dec_part(&four), v);
    }
}

#[test]
fn checksum_values() {
    assert_eq!(get_checksum(b""), 0);
    assert_eq!(get_checksum(b"ABC"), 57626);
    assert_eq!(get_checksum(b"DY14UF3RHWCXLQB6IKJT9N5A"), 11164);
}

#[test]
fn verify_checksum_accepts_and_rejects() {
    assert!(verify_checksum(b"U2RA1NRKD6UUDGP3D8RYNAAB7"));
    assert!(!verify_checksum(b"U2RA1NRKD6UUDGP3D8RYNAABY"));
    assert!(!verify_checksum(b"U2RA1NRKD6UUDGP3D8RYNAAB"));
    assert!(!verify_checksum(b"U2RA1NRKD6UUDGP3D8RYNAAB77"));
    assert!(!verify_checksum(b""));
}
