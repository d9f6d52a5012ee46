//! The 16-bit checksum of a key body and the check symbol derived from it.

use vstd::prelude::*;

use crate::alphabet::{enc_digits, enc_part, pow34, KEY_CHARS};

verus! {

/// One shift of the checksum register: shift left by one and, when bit 15
/// was set before the shift, fold in the polynomial `0x8201`.
pub open spec fn crc_shift(r: u32) -> u32 {
    if r & 0x8000 == 0 {
        r << 1
    } else {
        (r << 1) ^ 0x8201
    }
}

/// `n` shifts of the checksum register.
pub open spec fn crc_shifts(r: u32, n: nat) -> u32
    decreases n,
{
    if n == 0 {
        r
    } else {
        crc_shifts(crc_shift(r), (n - 1) as nat)
    }
}

/// The register after feeding all of `s`, starting from 0: each byte is
/// xored into bits 8..16, followed by eight shifts.
pub open spec fn crc_register(s: Seq<u8>) -> u32
    decreases s.len(),
{
    if s.len() == 0 {
        0
    } else {
        crc_shifts(crc_register(s.drop_last()) ^ ((s.last() as u32) << 8), 8)
    }
}

/// The checksum of `s`: the low 16 bits of the register.
pub open spec fn checksum_value(s: Seq<u8>) -> u16 {
    (crc_register(s) & 0xFFFF) as u16
}

/// The check symbol of a key body: the middle one of the three base-34
/// symbols that spell its checksum.
pub open spec fn check_symbol(body: Seq<u8>) -> u8 {
    enc_digits(checksum_value(body) as nat, 3)[1]
}

/// A key carries a correct check symbol: it is 25 bytes long and its last
/// byte is the check symbol of the first 24.
pub open spec fn checksum_ok(key: Seq<u8>) -> bool {
    key.len() == 25 && key[24] == check_symbol(key.take(24))
}

/// The checksum of `key_part`.
pub fn get_checksum(key_part: &[u8]) -> (r: u16)
    ensures
        r == checksum_value(key_part@),
{
    let mut result: u32 = 0;
    let mut i: usize = 0;
    while i < key_part.len()
        invariant
            0 <= i <= key_part@.len(),
            result == crc_register(key_part@.take(i as int)),
        decreases key_part@.len() - i,
    {
        let ghost before = result;
        let mut r: u32 = result ^ ((key_part[i] as u32) << 8);
        let ghost start = r;
        let mut round: u32 = 0;
        while round < 8
            invariant
                0 <= round <= 8,
                crc_shifts(r, (8 - round) as nat) == crc_shifts(start, 8),
            decreases 8 - round,
        {
            if r & 0x8000 == 0 {
                r = r << 1;
            } else {
                r = (r << 1) ^ 0x8201;
            }
            round = round + 1;
        }
        proof {
            let t = key_part@.take(i + 1);
            assert(t.drop_last() =~= key_part@.take(i as int));
        }
        result = r;
        i = i + 1;
    }
    assert(key_part@.take(i as int) =~= key_part@);
    (result & 0xFFFF) as u16
}

/// Checks that `key` is 25 bytes long and ends with the check symbol of its
/// first 24 bytes: the middle one of the three base-34 digits of their
/// checksum.
pub fn verify_checksum(key: &[u8]) -> (r: bool)
    ensures
        r == checksum_ok(key@),
        r == (key@.len() == 25 && key@[24] == KEY_CHARS@[(checksum_value(key@.take(24)) as int / 34) % 34]),
{
    if key.len() != 25 {
        return false;
    }
    let mut enc_checksum: [u8; 3] = [0; 3];
    enc_part(get_checksum(&key[0..24]) as i32, &mut enc_checksum);
    assert(pow34(1) == 34) by {
        reveal_with_fuel(pow34, 2);
    }
    enc_checksum[1] == key[24]
}


/// Exactly one last symbol completes a key body: a key that passes the check
/// fails it once its last symbol is replaced by any other byte, and its
/// first 24 bytes are kept.
pub proof fn lemma_check_symbol_unique(key: Seq<u8>, c: u8)
    requires
        checksum_ok(key),
        c != key[24],
    ensures
        !checksum_ok(key.update(24, c)),
        key.update(24, c).take(24) == key.take(24),
{
    assert(key.update(24, c).take(24) =~= key.take(24));
}


/// The bytewise xor of two runs of equal length.
pub open spec fn xor_bytes(s: Seq<u8>, t: Seq<u8>) -> Seq<u8> {
    Seq::new(s.len(), |i: int| s[i] ^ t[i])
}

proof fn lemma_crc_shift_linear(a: u32, b: u32)
    ensures
        crc_shift(a ^ b) == crc_shift(a) ^ crc_shift(b),
{
    assert(crc_shift(a ^ b) == crc_shift(a) ^ crc_shift(b)) by (bit_vector);
}

proof fn lemma_crc_shifts_linear(a: u32, b: u32, n: nat)
    ensures
        crc_shifts(a ^ b, n) == crc_shifts(a, n) ^ crc_shifts(b, n),
    decreases n,
{
    if n > 0 {
        lemma_crc_shift_linear(a, b);
        lemma_crc_shifts_linear(crc_shift(a), crc_shift(b), (n - 1) as nat);
    }
}

proof fn lemma_crc_register_linear(s: Seq<u8>, t: Seq<u8>)
    requires
        s.len() == t.len(),
    ensures
        crc_register(xor_bytes(s, t)) == crc_register(s) ^ crc_register(t),
    decreases s.len(),
{
    if s.len() > 0 {
        let x = xor_bytes(s, t);
        assert(x.drop_last() =~= xor_bytes(s.drop_last(), t.drop_last()));
        lemma_crc_register_linear(s.drop_last(), t.drop_last());
        let rs = crc_register(s.drop_last());
        let rt = crc_register(t.drop_last());
        let bs = s.last();
        let bt = t.last();
        assert(x.last() == bs ^ bt);
        assert((rs ^ rt) ^ (((bs ^ bt) as u32) << 8) == (rs ^ ((bs as u32) << 8)) ^ (rt ^ ((bt as u32) << 8))) by (bit_vector);
        lemma_crc_shifts_linear(rs ^ ((bs as u32) << 8), rt ^ ((bt as u32) << 8), 8);
        assert(crc_register(x) == crc_shifts(crc_register(x.drop_last()) ^ ((x.last() as u32) << 8), 8));
    } else {
        assert(xor_bytes(s, t).len() == 0);
        assert(0u32 ^ 0u32 == 0) by (bit_vector);
    }
}

/// The checksum is linear over xor: for two runs of equal length, the
/// checksum of their bytewise xor is the xor of their checksums; so flipping
/// the same bits in two runs changes both checksums alike, and a run of zero
/// bytes has checksum 0.
pub proof fn lemma_checksum_linear(s: Seq<u8>, t: Seq<u8>)
    requires
        s.len() == t.len(),
    ensures
        checksum_value(xor_bytes(s, t)) == checksum_value(s) ^ checksum_value(t),
{
    lemma_crc_register_linear(s, t);
    let a = crc_register(s);
    let b = crc_register(t);
    assert(((a ^ b) & 0xFFFF) as u16 == ((a & 0xFFFF) as u16) ^ ((b & 0xFFFF) as u16)) by (bit_vector);
}

} // verus!
