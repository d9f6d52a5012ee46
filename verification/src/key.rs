//! License keys: the fields they carry, their validation and their generation.

use vstd::prelude::*;

use crate::alphabet::{
    abs_value, dec_part, dec_value, enc_digits, enc_part, enc_part_writable, lemma_dec_enc_digits,
    lemma_dec_value_range, pow34, KEYS_SIZE, KEY_CHARS,
};
use crate::checksum::{check_symbol, checksum_ok, get_checksum, verify_checksum};
use crate::date::{day_count, days_since_1900, unpacked_date, Date};
use crate::edition::KeyEdition;
use crate::external::{local_today, random_in_range, string_from_ascii, ClockDate};

verus! {

/// The values that a key carries, as validation reads them.
pub struct KeyFields {
    /// Edition number (0 to 3 for a known edition).
    pub edition: i32,
    /// Filler value, 100 to 989 in a valid key.
    pub unk1: i32,
    /// Filler value, at most 100 in a valid key.
    pub unk2: i32,
    /// Filler value, at most 100 in a valid key.
    pub unk3: i32,
    /// Number of seats.
    pub license_count: i32,
    /// Purchase date.
    pub purchase: Date,
    /// Days after purchase until the license expires; 0 for never.
    pub expire_days: i32,
    /// Days after purchase until maintenance ends.
    pub expire_maintenance: i32,
}

/// The number spelled by `key[lo..hi]`.
pub open spec fn key_part(key: Seq<u8>, lo: int, hi: int) -> i32 {
    dec_value(key.subrange(lo, hi)) as i32
}

/// The fields of a 25-byte key. Symbols 22..24 hold the base, and every other
/// group is its field xored with the low bits of the base and a constant.
/// The maintenance term is read from the same group as the expiry term.
pub open spec fn key_fields(key: Seq<u8>) -> KeyFields {
    let k0 = key_part(key, 22, 24);
    let low = k0 & 0xFF;
    KeyFields {
        edition: ((low ^ key_part(key, 0, 2) ^ 0xBF) - 1) as i32,
        unk1: low ^ key_part(key, 2, 4) ^ 0xED,
        unk2: low ^ (key_part(key, 4, 6) & 0xFFFF) ^ 0x77,
        unk3: low ^ (key_part(key, 6, 8) & 0xFFFF) ^ 0xDF,
        license_count: k0 ^ key_part(key, 8, 12) ^ 0x4755,
        purchase: unpacked_date(k0 ^ key_part(key, 12, 16) ^ 0x7CC1),
        expire_days: low ^ key_part(key, 16, 19) ^ 0x3FD,
        expire_maintenance: low ^ key_part(key, 16, 19) ^ 0x935,
    }
}

/// The field constraints that a valid key meets.
pub open spec fn fields_ok(f: KeyFields) -> bool {
    &&& KeyEdition::from_code(f.edition) is Some
    &&& 100 <= f.unk1 < 990
    &&& f.unk2 <= 100
    &&& f.unk3 <= 100
    &&& 0 < f.license_count < 798
    &&& f.expire_days <= 3660
    &&& 0 < f.expire_maintenance <= 3660
    &&& (f.expire_days != 3660 || f.expire_maintenance != 1830)
    &&& 2004 <= f.purchase.year <= 2099
    &&& 1 <= f.purchase.month <= 12
    &&& 1 <= f.purchase.day <= 31
}

/// The license has not run out on `today`: it never expires, or its expiry
/// lies after `today`.
pub open spec fn not_expired(f: KeyFields, today: (i32, u32, u32)) -> bool {
    f.expire_days == 0 || f.expire_days + day_count(
        f.purchase.year as int,
        f.purchase.month as int,
        f.purchase.day as int,
    ) - day_count(today.0 as int, today.1 as int, today.2 as int) > 0
}

/// `key` is a valid license key on the date `today`.
pub open spec fn key_valid_on(key: Seq<u8>, today: (i32, u32, u32)) -> bool {
    &&& checksum_ok(key)
    &&& fields_ok(key_fields(key))
    &&& not_expired(key_fields(key), today)
}

/// A date that the clock can give: month 1..=12, day 1..=31.
pub open spec fn is_clock_date(today: (i32, u32, u32)) -> bool {
    1 <= today.1 <= 12 && 1 <= today.2 <= 31
}

proof fn lemma_key_part_range(key: Seq<u8>, lo: int, hi: int)
    requires
        0 <= lo <= hi <= key.len(),
        hi - lo <= 4,
    ensures
        0 <= dec_value(key.subrange(lo, hi)) < pow34(4),
        key_part(key, lo, hi) as int == dec_value(key.subrange(lo, hi)),
{
    lemma_dec_value_range(key.subrange(lo, hi));
    reveal_with_fuel(pow34, 5);
    if hi - lo < 4 {
        assert(pow34((hi - lo) as nat) <= pow34(4));
    }
}

proof fn lemma_day_count_range(year: int, month: int, day: int)
    ensures
        -700000 < day_count(year, month, day) < 3000000,
{
    if crate::date::is_countable_date(year, month, day) {
        crate::date::lemma_days_before_month_bound(year, month);
    }
}

/// Checks `key` as a license key on the date `today` (year, month, day): the
/// check symbol, the ranges of the fields, and, when the license can expire,
/// that it has not.
pub fn is_valid_key_on(key: &[u8], year: i32, month: u32, day: u32) -> (r: bool)
    ensures
        r == key_valid_on(key@, (year, month, day)),
{
    if !verify_checksum(key) {
        return false;
    }
    proof {
        lemma_key_part_range(key@, 22, 24);
        lemma_key_part_range(key@, 0, 2);
        lemma_key_part_range(key@, 2, 4);
        lemma_key_part_range(key@, 4, 6);
        lemma_key_part_range(key@, 6, 8);
        lemma_key_part_range(key@, 8, 12);
        lemma_key_part_range(key@, 12, 16);
        lemma_key_part_range(key@, 16, 19);
        lemma_key_part_range(key@, 19, 22);
        reveal_with_fuel(pow34, 5);
    }
    let key_parts: [i32; 9] = [
        dec_part(&key[22..24]),
        dec_part(&key[0..2]),
        dec_part(&key[2..4]),
        dec_part(&key[4..6]),
        dec_part(&key[6..8]),
        dec_part(&key[8..12]),
        dec_part(&key[12..16]),
        dec_part(&key[16..19]),
        dec_part(&key[19..22]),
    ];
    let k0 = key_parts[0];
    let k1 = key_parts[1];
    assert(0 <= (k0 & 0xFF) ^ k1 ^ 0xBF) by (bit_vector)
        requires
            0 <= k0,
            0 <= k1,
    ;
    let edition = KeyEdition::try_from(((key_parts[0] & 0xFF) ^ key_parts[1] ^ 0xBF) - 1);
    let unk1 = (key_parts[0] & 0xFF) ^ key_parts[2] ^ 0xED;
    let unk2 = (key_parts[0] & 0xFF) ^ (key_parts[3] & 0xFFFF) ^ 0x77;
    let unk3 = (key_parts[0] & 0xFF) ^ (key_parts[4] & 0xFFFF) ^ 0xDF;
    let license_count = key_parts[0] ^ key_parts[5] ^ 0x4755;
    let purchase_date = Date::dec(key_parts[0] ^ key_parts[6] ^ 0x7CC1);
    let expire_days = (key_parts[0] & 0xFF) ^ key_parts[7] ^ 0x3FD;
    let expire_maintance = (key_parts[0] & 0xFF) ^ key_parts[7] ^ 0x935;

    let fields_hold = edition.is_ok() && unk1 >= 100 && unk1 < 990 && unk2 <= 100 && unk3 <= 100
        && license_count > 0 && license_count < 798 && expire_days <= 3660 && expire_maintance > 0
        && expire_maintance <= 3660 && (expire_days != 3660 || expire_maintance != 1830)
        && purchase_date.year >= 2004 && purchase_date.year <= 2099 && purchase_date.month >= 1
        && purchase_date.month <= 12 && purchase_date.day >= 1 && purchase_date.day <= 31;
    if !fields_hold {
        return false;
    }
    if expire_days == 0 {
        true
    } else {
        let k7 = key_parts[7];
        assert(0 <= (k0 & 0xFF) ^ k7 ^ 0x3FD) by (bit_vector)
            requires
                0 <= k0,
                0 <= k7,
        ;
        let current_days = days_since_1900(year, month, day);
        let purchase_days = days_since_1900(purchase_date.year, purchase_date.month, purchase_date.day);
        proof {
            lemma_day_count_range(year as int, month as int, day as int);
            lemma_day_count_range(purchase_date.year as int, purchase_date.month as int, purchase_date.day as int);
        }
        (expire_days + purchase_days) - current_days > 0
    }
}

/// Checks `key` as a license key on today's local date. The expiry check
/// alone depends on the date; the result is the validity of the key on the
/// date that the clock gave (a `ClockDate` is made only by reading the clock).
pub fn is_valid_key(key: &[u8]) -> (r: bool)
    ensures
        exists|today: ClockDate| is_clock_date(today@) && r == key_valid_on(key@, today@),
        r ==> checksum_ok(key@) && fields_ok(key_fields(key@)),
        checksum_ok(key@) && fields_ok(key_fields(key@)) && key_fields(key@).expire_days == 0 ==> r,
{
    let today = local_today();
    let (year, month, day) = today.ymd();
    let r = is_valid_key_on(key, year, month, day);
    assert(is_clock_date(today@) && r == key_valid_on(key@, today@));
    r
}

/// What a key must hold to pass, read off its symbols: 25 of them, the last
/// the middle base-34 digit of the checksum of the others; with `b` the base
/// spelled by symbols 22..24 and `low` its low byte, the edition group gives
/// a number 0 to 3, the filler groups give 100..990, at most 100 and at most
/// 100, the seat group gives 1 to 797, the purchase group a date with year
/// offset from 2003 of at least 1, month 1 to 12 and day at least 1, the
/// expiry group at most 3660 days and a maintenance reading of 1 to 3660
/// (not 1830 together with 3660), and an expiring key lies before its
/// expiry on `today`. A key passes exactly when all of this holds.
pub proof fn lemma_valid_key_conditions(key: Seq<u8>, today: (i32, u32, u32))
    ensures
        key_valid_on(key, today) <==> ({
            let b = key_part(key, 22, 24);
            let low = b & 0xFF;
            let p = b ^ key_part(key, 12, 16) ^ 0x7CC1;
            let p_bits = #[verifier::truncate] (p as u32);
            let e = low ^ key_part(key, 16, 19) ^ 0x3FD;
            let m = low ^ key_part(key, 16, 19) ^ 0x935;
            &&& key.len() == 25
            &&& key[24] == KEY_CHARS@[(crate::checksum::checksum_value(key.take(24)) as int / 34) % 34]
            &&& 0 <= (low ^ key_part(key, 0, 2) ^ 0xBF) - 1 <= 3
            &&& 100 <= low ^ key_part(key, 2, 4) ^ 0xED < 990
            &&& low ^ (key_part(key, 4, 6) & 0xFFFF) ^ 0x77 <= 100
            &&& low ^ (key_part(key, 6, 8) & 0xFFFF) ^ 0xDF <= 100
            &&& 0 < b ^ key_part(key, 8, 12) ^ 0x4755 < 798
            &&& 1 <= (p as int / 512) % 32
            &&& 1 <= (p_bits / 32) % 16 <= 12
            &&& 1 <= p_bits % 32
            &&& e <= 3660
            &&& 0 < m <= 3660
            &&& (e != 3660 || m != 1830)
            &&& (e == 0 || e + day_count(
                2003 + (p as int / 512) % 32,
                ((p_bits / 32) % 16) as int,
                (p_bits % 32) as int,
            ) - day_count(today.0 as int, today.1 as int, today.2 as int) > 0)
        }),
{
    let b = key_part(key, 22, 24);
    let p = b ^ key_part(key, 12, 16) ^ 0x7CC1;
    let p_bits = #[verifier::truncate] (p as u32);
    assert(p_bits & 31 == p_bits % 32) by (bit_vector);
    assert((p_bits >> 5) & 15 == (p_bits / 32) % 16) by (bit_vector);
    assert((p >> 9) & 31 == (p / 512) % 32) by (bit_vector);
    assert(0 <= (p >> 9) & 31 < 32) by (bit_vector);
    if key.len() == 25 {
        lemma_key_part_range(key, 22, 24);
        lemma_key_part_range(key, 0, 2);
        lemma_xor_nonneg(b, 0, 0);
        lemma_xor_nonneg(b & 0xFF, key_part(key, 0, 2), 0xBF);
        let f = key_fields(key);
        assert(f.purchase.year as int == 2003 + (p as int / 512) % 32);
        assert(f.purchase.month as int == ((p_bits / 32) % 16) as int);
        assert(f.purchase.day as int == (p_bits % 32) as int);
        assert(crate::checksum::check_symbol(key.take(24)) == KEY_CHARS@[(crate::checksum::checksum_value(
            key.take(24),
        ) as int / 34) % 34]) by {
            reveal_with_fuel(pow34, 2);
        }
    }
}

/// `bytes` are all symbols of the key alphabet.
pub open spec fn all_symbols(bytes: Seq<u8>) -> bool {
    forall|i: int| 0 <= i < bytes.len() ==> exists|d: int| 0 <= d < 34 && #[trigger] bytes[i] == KEY_CHARS@[d]
}

/// Fills `slice` with symbols of the key alphabet drawn at random.
pub fn gen_pair(slice: &mut [u8])
    ensures
        final(slice)@.len() == old(slice)@.len(),
        all_symbols(final(slice)@),
{
    let n = slice.len();
    let mut i: usize = 0;
    while i < n
        invariant
            0 <= i <= n,
            slice@.len() == n,
            forall|j: int| 0 <= j < i ==> exists|d: int| 0 <= d < 34 && #[trigger] slice@[j] == KEY_CHARS@[d],
        decreases n - i,
    {
        let d = random_in_range(0, KEYS_SIZE);
        slice[i] = KEY_CHARS[d as usize];
        assert(slice@[i as int] == KEY_CHARS@[d as int]);
        i = i + 1;
    }
}

/// The symbols of `val` in base 34, `width` of them.
pub open spec fn encoded(val: i32, width: nat) -> Seq<u8> {
    enc_digits(abs_value(val as int), width)
}

/// The value that a generated key stores in each group (in key order, the
/// base group excluded), for the base read from the random pair.
pub open spec fn group_values(
    edition: KeyEdition,
    license_count: i32,
    purchase_val: i32,
    expire_days: i32,
    expire_maintenance: i32,
    unk1: i32,
    unk2: i32,
    unk3: i32,
    base: i32,
) -> Seq<i32> {
    let low = base & 0xFF;
    let wide = base & 0xFFFFFF;
    seq![
        low ^ ((edition.spec_code() + 1) as i32) ^ 0xBF,
        low ^ unk1 ^ 0xED,
        low ^ unk2 ^ 0x77,
        low ^ unk3 ^ 0xDF,
        wide ^ license_count ^ 0x4755,
        wide ^ purchase_val ^ 0x7CC1,
        low ^ expire_days ^ 0x3FD,
        low ^ expire_maintenance ^ 0x935,
    ]
}

/// Number of symbols of each group, in key order.
pub open spec fn group_widths() -> Seq<nat> {
    seq![2, 2, 2, 2, 4, 4, 3, 3]
}

/// The first 24 symbols of a generated key: the eight groups, then the pair.
pub open spec fn key_body(values: Seq<i32>, pair: Seq<u8>) -> Seq<u8> {
    encoded(values[0], 2) + encoded(values[1], 2) + encoded(values[2], 2) + encoded(values[3], 2)
        + encoded(values[4], 4) + encoded(values[5], 4) + encoded(values[6], 3) + encoded(
        values[7],
        3,
    ) + pair
}

/// A generated key: its body followed by the body's check symbol.
pub open spec fn key_from_body(body: Seq<u8>) -> Seq<u8> {
    body.push(check_symbol(body))
}

/// Every group value can be written without panicking.
pub open spec fn groups_writable(values: Seq<i32>) -> bool {
    forall|i: int| 0 <= i < 8 ==> enc_part_writable(#[trigger] values[i], group_widths()[i])
}

/// Appends the `width` base-34 symbols of `val` to `key`.
fn append_encoded(key: &mut Vec<u8>, val: i32, width: usize)
    requires
        enc_part_writable(val, width as nat),
    ensures
        final(key)@ == old(key)@ + encoded(val, width as nat),
{
    let mut part: Vec<u8> = Vec::new();
    let mut i: usize = 0;
    while i < width
        invariant
            0 <= i <= width,
            part@.len() == i,
        decreases width - i,
    {
        part.push(0);
        i = i + 1;
    }
    enc_part(val, part.as_mut_slice());
    key.append(&mut part);
}

/// Builds the bytes of a key from its fields and the random values that
/// `generate_key` draws: three filler numbers and two alphabet symbols.
pub fn generate_key_from(
    edition: KeyEdition,
    license_count: i32,
    purchase_val: i32,
    expire_days: i32,
    expire_maintance: i32,
    unk1: i32,
    unk2: i32,
    unk3: i32,
    pair: [u8; 2],
) -> (key: Vec<u8>)
    requires
        groups_writable(
            group_values(
                edition,
                license_count,
                purchase_val,
                expire_days,
                expire_maintance,
                unk1,
                unk2,
                unk3,
                dec_value(pair@) as i32,
            ),
        ),
    ensures
        key@ == key_from_body(
            key_body(
                group_values(
                    edition,
                    license_count,
                    purchase_val,
                    expire_days,
                    expire_maintance,
                    unk1,
                    unk2,
                    unk3,
                    dec_value(pair@) as i32,
                ),
                pair@,
            ),
        ),
{
    let ghost values = group_values(
        edition,
        license_count,
        purchase_val,
        expire_days,
        expire_maintance,
        unk1,
        unk2,
        unk3,
        dec_value(pair@) as i32,
    );
    proof {
        lemma_dec_value_range(pair@);
        reveal_with_fuel(pow34, 3);
        assert(enc_part_writable(values[0], 2));
        assert(enc_part_writable(values[1], 2));
        assert(enc_part_writable(values[2], 2));
        assert(enc_part_writable(values[3], 2));
        assert(enc_part_writable(values[4], 4));
        assert(enc_part_writable(values[5], 4));
        assert(enc_part_writable(values[6], 3));
        assert(enc_part_writable(values[7], 3));
    }
    let base_val = dec_part(&pair);
    let low = base_val & 0xFF;
    let wide = base_val & 0xFFFFFF;
    let mut enc_key: Vec<u8> = Vec::new();
    append_encoded(&mut enc_key, low ^ (edition.code() + 1) ^ 0xBF, 2);
    append_encoded(&mut enc_key, low ^ unk1 ^ 0xED, 2);
    append_encoded(&mut enc_key, low ^ unk2 ^ 0x77, 2);
    append_encoded(&mut enc_key, low ^ unk3 ^ 0xDF, 2);
    append_encoded(&mut enc_key, wide ^ license_count ^ 0x4755, 4);
    append_encoded(&mut enc_key, wide ^ purchase_val ^ 0x7CC1, 4);
    append_encoded(&mut enc_key, low ^ expire_days ^ 0x3FD, 3);
    append_encoded(&mut enc_key, low ^ expire_maintance ^ 0x935, 3);
    enc_key.push(pair[0]);
    enc_key.push(pair[1]);
    let ghost body = enc_key@;
    assert(body =~= key_body(values, pair@));

    let mut enc_checksum: [u8; 3] = [0; 3];
    enc_part(get_checksum(enc_key.as_slice()) as i32, &mut enc_checksum);
    enc_key.push(enc_checksum[1]);
    enc_key
}


/// The random values of a key lie where `generate_key` draws them.
pub open spec fn random_parts_ok(unk1: i32, unk2: i32, unk3: i32, pair: Seq<u8>) -> bool {
    &&& 100 <= unk1 < 989
    &&& 0 <= unk2 < 100
    &&& 0 <= unk3 < 100
    &&& pair.len() == 2
    &&& all_symbols(pair)
}

/// The key that `generate_key` builds from its arguments and random parts.
pub open spec fn generated_key(
    edition: KeyEdition,
    license_count: i32,
    purchase_val: i32,
    expire_days: i32,
    expire_maintenance: i32,
    unk1: i32,
    unk2: i32,
    unk3: i32,
    pair: Seq<u8>,
) -> Seq<u8> {
    key_from_body(
        key_body(
            group_values(
                edition,
                license_count,
                purchase_val,
                expire_days,
                expire_maintenance,
                unk1,
                unk2,
                unk3,
                dec_value(pair) as i32,
            ),
            pair,
        ),
    )
}

/// The characters of ASCII bytes.
pub open spec fn ascii_chars(bytes: Seq<u8>) -> Seq<char> {
    bytes.map_values(|b: u8| b as char)
}

proof fn lemma_xor_nonneg(a: i32, b: i32, c: i32)
    by (bit_vector)
    requires
        0 <= a,
        0 <= b,
        0 <= c,
    ensures
        0 <= a ^ b ^ c,
        0 <= a & 0xFF,
        0 <= a & 0xFFFFFF,
{
}

/// Symbols of the alphabet are ASCII.
proof fn lemma_encoded_ascii(v: i32, n: nat)
    ensures
        forall|k: int| 0 <= k < n ==> #[trigger] encoded(v, n)[k] < 128,
{
    assert(forall|d: int| 0 <= d < 34 ==> KEY_CHARS@[d] < 128);
}

/// Builds a new license key for `edition` with the given license count,
/// packed purchase date and expiry terms, drawing its filler values and its
/// base symbols at random.
pub fn generate_key(
    edition: KeyEdition,
    license_count: i32,
    purchase_val: i32,
    expire_days: i32,
    expire_maintance: i32,
) -> (key: String)
    requires
        license_count >= 0,
        purchase_val >= 0,
        expire_days >= 0,
        expire_maintance >= 0,
    ensures
        exists|unk1: i32, unk2: i32, unk3: i32, pair: Seq<u8>|
            random_parts_ok(unk1, unk2, unk3, pair) && key@ == ascii_chars(
                generated_key(
                    edition,
                    license_count,
                    purchase_val,
                    expire_days,
                    expire_maintance,
                    unk1,
                    unk2,
                    unk3,
                    pair,
                ),
            ),
{
    let unk1 = random_in_range(100, 989);
    let draw2 = random_in_range(0, 100);
    let draw3 = random_in_range(0, 100);
    let unk2 = draw2 & 0xFFFF;
    let unk3 = draw3 & 0xFFFF;
    assert(draw2 & 0xFFFF == draw2) by (bit_vector)
        requires
            0 <= draw2 < 100,
    ;
    assert(draw3 & 0xFFFF == draw3) by (bit_vector)
        requires
            0 <= draw3 < 100,
    ;
    let mut pair: [u8; 2] = [0; 2];
    gen_pair(&mut pair);
    let ghost values = group_values(
        edition,
        license_count,
        purchase_val,
        expire_days,
        expire_maintance,
        unk1,
        unk2,
        unk3,
        dec_value(pair@) as i32,
    );
    proof {
        lemma_dec_value_range(pair@);
        reveal_with_fuel(pow34, 3);
        let b = dec_value(pair@) as i32;
        let c = (edition.spec_code() + 1) as i32;
        lemma_xor_nonneg(b, 0, 0);
        lemma_xor_nonneg(b & 0xFF, c, 0xBF);
        lemma_xor_nonneg(b & 0xFF, unk1, 0xED);
        lemma_xor_nonneg(b & 0xFF, unk2, 0x77);
        lemma_xor_nonneg(b & 0xFF, unk3, 0xDF);
        lemma_xor_nonneg(b & 0xFFFFFF, license_count, 0x4755);
        lemma_xor_nonneg(b & 0xFFFFFF, purchase_val, 0x7CC1);
        lemma_xor_nonneg(b & 0xFF, expire_days, 0x3FD);
        lemma_xor_nonneg(b & 0xFF, expire_maintance, 0x935);
        assert(groups_writable(values));
    }
    let enc_key = generate_key_from(
        edition,
        license_count,
        purchase_val,
        expire_days,
        expire_maintance,
        unk1,
        unk2,
        unk3,
        pair,
    );
    proof {
        let body = key_body(values, pair@);
        lemma_encoded_ascii(values[0], 2);
        lemma_encoded_ascii(values[1], 2);
        lemma_encoded_ascii(values[2], 2);
        lemma_encoded_ascii(values[3], 2);
        lemma_encoded_ascii(values[4], 4);
        lemma_encoded_ascii(values[5], 4);
        lemma_encoded_ascii(values[6], 3);
        lemma_encoded_ascii(values[7], 3);
        lemma_encoded_ascii(crate::checksum::checksum_value(body) as i32, 3);
        assert(forall|d: int| 0 <= d < 34 ==> KEY_CHARS@[d] < 128);
        assert forall|i: int| 0 <= i < enc_key@.len() implies enc_key@[i] < 128 by {
            if i >= 16 && i < 22 {
            }
        }
    }
    let key = string_from_ascii(enc_key);
    assert(random_parts_ok(unk1, unk2, unk3, pair@));
    key
}


proof fn lemma_xor_cancel(x: i32, y: i32, k: i32)
    by (bit_vector)
    ensures
        x ^ (x ^ y ^ k) ^ k == y,
        x ^ (x ^ y ^ 0x3FD) ^ 0x935 == y ^ 0xAC8,
{
}

proof fn lemma_xor_below(x: i32, y: i32, k: i32)
    by (bit_vector)
    requires
        0 <= x < 0x800,
        0 <= y,
        0 <= k < 0x8000,
    ensures
        y < 0x400 && k < 0x400 ==> x & 0xFF ^ y ^ k < 0x400,
        y < 0x8000 ==> x & 0xFF ^ y ^ k < 0x8000,
        y < 0x100000 ==> x ^ y ^ k < 0x100000,
        x & 0xFFFFFF == x,
        0 <= x & 0xFF < 0x100,
        y < 0x10000 ==> y & 0xFFFF == y,
{
}

/// Reading back a group that a generated key holds gives its value.
proof fn lemma_group_reads_back(key: Seq<u8>, lo: int, v: i32, n: nat)
    requires
        0 <= lo,
        lo + n <= key.len(),
        key.subrange(lo, lo + n) == encoded(v, n),
        0 <= v < pow34(n),
    ensures
        key_part(key, lo, lo + n) == v,
{
    lemma_dec_enc_digits(abs_value(v as int), n);
    vstd::arithmetic::div_mod::lemma_small_mod(v as nat, pow34(n) as nat);
}

/// Decoding a generated key gives back what it was made from: the edition
/// number, the three filler values, the license count, the packed purchase
/// date, and the expiry term; the maintenance term is read from the expiry
/// group, so it comes back as the expiry term xored with `0xAC8`. The check
/// symbol is correct. This holds for values small enough to fit their groups.
pub proof fn lemma_generated_key_fields(
    edition: KeyEdition,
    license_count: i32,
    purchase_val: i32,
    expire_days: i32,
    expire_maintenance: i32,
    unk1: i32,
    unk2: i32,
    unk3: i32,
    pair: Seq<u8>,
)
    requires
        pair.len() == 2,
        0 <= unk1 < 0x400,
        0 <= unk2 < 0x400,
        0 <= unk3 < 0x400,
        0 <= license_count < 0x100000,
        0 <= purchase_val < 0x100000,
        0 <= expire_days < 0x8000,
    ensures
        ({
            let key = generated_key(
                edition,
                license_count,
                purchase_val,
                expire_days,
                expire_maintenance,
                unk1,
                unk2,
                unk3,
                pair,
            );
            &&& checksum_ok(key)
            &&& key_fields(key) == (KeyFields {
                edition: edition.spec_code(),
                unk1,
                unk2,
                unk3,
                license_count,
                purchase: unpacked_date(purchase_val),
                expire_days,
                expire_maintenance: expire_days ^ 0xAC8,
            })
        }),
{
    let b = dec_value(pair) as i32;
    lemma_dec_value_range(pair);
    reveal_with_fuel(pow34, 5);
    let values = group_values(
        edition,
        license_count,
        purchase_val,
        expire_days,
        expire_maintenance,
        unk1,
        unk2,
        unk3,
        b,
    );
    let body = key_body(values, pair);
    let key = key_from_body(body);
    let c = (edition.spec_code() + 1) as i32;
    lemma_xor_below(b, c, 0xBF);
    lemma_xor_below(b, unk1, 0xED);
    lemma_xor_below(b, unk2, 0x77);
    lemma_xor_below(b, unk3, 0xDF);
    lemma_xor_below(b, license_count, 0x4755);
    lemma_xor_below(b, purchase_val, 0x7CC1);
    lemma_xor_below(b, expire_days, 0x3FD);
    lemma_xor_nonneg(b, 0, 0);
    lemma_xor_nonneg(b & 0xFF, c, 0xBF);
    lemma_xor_nonneg(b & 0xFF, unk1, 0xED);
    lemma_xor_nonneg(b & 0xFF, unk2, 0x77);
    lemma_xor_nonneg(b & 0xFF, unk3, 0xDF);
    lemma_xor_nonneg(b, license_count, 0x4755);
    lemma_xor_nonneg(b, purchase_val, 0x7CC1);
    lemma_xor_nonneg(b & 0xFF, expire_days, 0x3FD);
    lemma_xor_below(b, values[2], 0);
    lemma_xor_below(b, values[3], 0);

    assert(key.take(24) =~= body);
    assert(key.subrange(0, 2) =~= encoded(values[0], 2));
    assert(key.subrange(2, 4) =~= encoded(values[1], 2));
    assert(key.subrange(4, 6) =~= encoded(values[2], 2));
    assert(key.subrange(6, 8) =~= encoded(values[3], 2));
    assert(key.subrange(8, 12) =~= encoded(values[4], 4));
    assert(key.subrange(12, 16) =~= encoded(values[5], 4));
    assert(key.subrange(16, 19) =~= encoded(values[6], 3));
    assert(key.subrange(22, 24) =~= pair);
    lemma_group_reads_back(key, 0, values[0], 2);
    lemma_group_reads_back(key, 2, values[1], 2);
    lemma_group_reads_back(key, 4, values[2], 2);
    lemma_group_reads_back(key, 6, values[3], 2);
    lemma_group_reads_back(key, 8, values[4], 4);
    lemma_group_reads_back(key, 12, values[5], 4);
    lemma_group_reads_back(key, 16, values[6], 3);

    lemma_xor_cancel(b & 0xFF, c, 0xBF);
    lemma_xor_cancel(b & 0xFF, unk1, 0xED);
    lemma_xor_cancel(b & 0xFF, unk2, 0x77);
    lemma_xor_cancel(b & 0xFF, unk3, 0xDF);
    lemma_xor_cancel(b, license_count, 0x4755);
    lemma_xor_cancel(b, purchase_val, 0x7CC1);
    lemma_xor_cancel(b & 0xFF, expire_days, 0x3FD);
}


/// Every group of a generated key reads back as the argument it stores: the
/// key has 25 symbols, the base symbols are the random pair, and, with `b`
/// the base they spell, the last symbol is the middle base-34 digit of the
/// checksum of the others, and each group xored with the low byte of `b` (all of
/// `b` for the seat count and the purchase date) and the group's constant
/// gives back its argument — the maintenance term included, for arguments
/// small enough to fit their groups.
#[verifier::spinoff_prover]
#[verifier::rlimit(40)]
pub proof fn lemma_generated_key_groups(
    edition: KeyEdition,
    license_count: i32,
    purchase_val: i32,
    expire_days: i32,
    expire_maintenance: i32,
    unk1: i32,
    unk2: i32,
    unk3: i32,
    pair: Seq<u8>,
)
    requires
        pair.len() == 2,
        0 <= unk1 < 0x400,
        0 <= unk2 < 0x400,
        0 <= unk3 < 0x400,
        0 <= license_count < 0x100000,
        0 <= purchase_val < 0x100000,
        0 <= expire_days < 0x8000,
        0 <= expire_maintenance < 0x8000,
    ensures
        ({
            let key = generated_key(
                edition,
                license_count,
                purchase_val,
                expire_days,
                expire_maintenance,
                unk1,
                unk2,
                unk3,
                pair,
            );
            let b = key_part(key, 22, 24);
            &&& key.len() == 25
            &&& key[24] == KEY_CHARS@[(crate::checksum::checksum_value(key.take(24)) as int / 34) % 34]
            &&& key.subrange(22, 24) == pair
            &&& b == dec_value(pair)
            &&& (b & 0xFF) ^ key_part(key, 0, 2) ^ 0xBF == edition.spec_code() + 1
            &&& (b & 0xFF) ^ key_part(key, 2, 4) ^ 0xED == unk1
            &&& (b & 0xFF) ^ key_part(key, 4, 6) ^ 0x77 == unk2
            &&& (b & 0xFF) ^ key_part(key, 6, 8) ^ 0xDF == unk3
            &&& b ^ key_part(key, 8, 12) ^ 0x4755 == license_count
            &&& b ^ key_part(key, 12, 16) ^ 0x7CC1 == purchase_val
            &&& (b & 0xFF) ^ key_part(key, 16, 19) ^ 0x3FD == expire_days
            &&& (b & 0xFF) ^ key_part(key, 19, 22) ^ 0x935 == expire_maintenance
        }),
{
    lemma_generated_key_fields(
        edition,
        license_count,
        purchase_val,
        expire_days,
        expire_maintenance,
        unk1,
        unk2,
        unk3,
        pair,
    );
    let b = dec_value(pair) as i32;
    lemma_dec_value_range(pair);
    reveal_with_fuel(pow34, 5);
    let values = group_values(
        edition,
        license_count,
        purchase_val,
        expire_days,
        expire_maintenance,
        unk1,
        unk2,
        unk3,
        b,
    );
    let key = key_from_body(key_body(values, pair));
    lemma_xor_nonneg(b, 0, 0);
    lemma_xor_nonneg(b & 0xFF, expire_maintenance, 0x935);
    lemma_xor_below(b, expire_maintenance, 0x935);
    lemma_xor_below(b, unk2, 0x77);
    lemma_xor_below(b, unk3, 0xDF);
    lemma_xor_nonneg(b & 0xFF, unk2, 0x77);
    lemma_xor_nonneg(b & 0xFF, unk3, 0xDF);
    lemma_xor_below(b, values[2], 0);
    lemma_xor_below(b, values[3], 0);
    let c = (edition.spec_code() + 1) as i32;
    lemma_xor_below(b, c, 0xBF);
    lemma_xor_nonneg(b & 0xFF, c, 0xBF);
    assert(key.subrange(0, 2) =~= encoded(values[0], 2));
    assert(key.subrange(4, 6) =~= encoded(values[2], 2));
    assert(key.subrange(6, 8) =~= encoded(values[3], 2));
    assert(key.subrange(19, 22) =~= encoded(values[7], 3));
    assert(key.subrange(22, 24) =~= pair);
    lemma_group_reads_back(key, 0, values[0], 2);
    lemma_group_reads_back(key, 4, values[2], 2);
    lemma_group_reads_back(key, 6, values[3], 2);
    lemma_xor_below(b, purchase_val, 0x7CC1);
    lemma_xor_nonneg(b, purchase_val, 0x7CC1);
    assert(key.subrange(12, 16) =~= encoded(values[5], 4));
    lemma_group_reads_back(key, 12, values[5], 4);
    assert(b & 0xFFFFFF == b);
    assert(values[5] == b ^ purchase_val ^ 0x7CC1);
    assert(key_part(key, 12, 16) == values[5]);
    lemma_xor_cancel(b, purchase_val, 0x7CC1);
    lemma_group_reads_back(key, 19, values[7], 3);
    lemma_xor_cancel(b & 0xFF, expire_maintenance, 0x935);
    lemma_xor_cancel(b & 0xFF, unk2, 0x77);
    lemma_xor_cancel(b & 0xFF, unk3, 0xDF);
    lemma_xor_cancel(b & 0xFF, (edition.spec_code() + 1) as i32, 0xBF);
    assert(crate::checksum::check_symbol(key.take(24)) == KEY_CHARS@[(crate::checksum::checksum_value(
        key.take(24),
    ) as int / 34) % 34]) by {
        reveal_with_fuel(pow34, 2);
    }
}

/// A key that `generate_key` makes from in-range arguments passes validation
/// exactly when it has not expired: on every date when it never expires,
/// and while `today` lies before the expiry otherwise. In range means a
/// license count of 1 to 797, a packed purchase date that unpacks to a date
/// in 2004 or later, and an expiry term of at most 3660 days whose
/// maintenance reading (the term xored with `0xAC8`) lies in 1 to 3660.
pub proof fn lemma_generated_key_valid(
    edition: KeyEdition,
    license_count: i32,
    purchase_val: i32,
    expire_days: i32,
    expire_maintenance: i32,
    unk1: i32,
    unk2: i32,
    unk3: i32,
    pair: Seq<u8>,
    today: (i32, u32, u32),
)
    requires
        random_parts_ok(unk1, unk2, unk3, pair),
        0 < license_count < 798,
        0 <= purchase_val < 0x100000,
        2004 <= unpacked_date(purchase_val).year,
        1 <= unpacked_date(purchase_val).month <= 12,
        1 <= unpacked_date(purchase_val).day,
        0 <= expire_days <= 3660,
        0 < expire_days ^ 0xAC8 <= 3660,
    ensures
        ({
            let key = generated_key(
                edition,
                license_count,
                purchase_val,
                expire_days,
                expire_maintenance,
                unk1,
                unk2,
                unk3,
                pair,
            );
            let purchase = unpacked_date(purchase_val);
            &&& key_valid_on(key, today) == (expire_days == 0 || expire_days + day_count(
                purchase.year as int,
                purchase.month as int,
                purchase.day as int,
            ) - day_count(today.0 as int, today.1 as int, today.2 as int) > 0)
            &&& expire_days == 0 ==> key_valid_on(key, today)
        }),
{
    lemma_generated_key_fields(
        edition,
        license_count,
        purchase_val,
        expire_days,
        expire_maintenance,
        unk1,
        unk2,
        unk3,
        pair,
    );
    assert(expire_days == 3660 ==> expire_days ^ 0xAC8 != 1830) by (bit_vector);
    let bits = purchase_val as u32;
    assert(bits & 31 <= 31) by (bit_vector);
    assert((purchase_val >> 9) & 31 <= 31) by (bit_vector);
    assert(KeyEdition::from_code(edition.spec_code()) is Some);
}

} // verus!
