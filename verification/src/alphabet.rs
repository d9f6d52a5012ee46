//! The 34-symbol alphabet of license keys and base-34 numbers written in it.

use vstd::prelude::*;

verus! {

/// Number of symbols in the key alphabet.
pub const KEYS_SIZE: i32 = 34;

/// The key alphabet `DY14UF3RHWCXLQB6IKJT9N5AGS2PM8VZ7E` as ASCII codes; a symbol
/// stands for its position in this table.
pub const KEY_CHARS: [u8; 34] = [
    0x44, 0x59, 0x31, 0x34, 0x55, 0x46, 0x33, 0x52, 0x48,
    0x57, 0x43, 0x58, 0x4C, 0x51, 0x42, 0x36, 0x49, 0x4B,
    0x4A, 0x54, 0x39, 0x4E, 0x35, 0x41, 0x47, 0x53, 0x32,
    0x50, 0x4D, 0x38, 0x56, 0x5A, 0x37, 0x45,
];

/// `i` is the first position of `c` in `s`.
pub open spec fn is_first_position(s: Seq<u8>, c: u8, i: int) -> bool {
    &&& 0 <= i < s.len()
    &&& s[i] == c
    &&& forall|j: int| 0 <= j < i ==> s[j] != c
}

/// The digit that a key symbol stands for: its first position in the
/// alphabet, or 0 for a byte that is not in the alphabet.
pub open spec fn digit_value(c: u8) -> int {
    if exists|i: int| is_first_position(KEY_CHARS@, c, i) {
        choose|i: int| is_first_position(KEY_CHARS@, c, i)
    } else {
        0
    }
}

/// The number that a run of key symbols spells in base 34, most significant first.
pub open spec fn dec_value(s: Seq<u8>) -> int
    decreases s.len(),
{
    if s.len() == 0 {
        0
    } else {
        dec_value(s.drop_last()) * 34 + digit_value(s.last())
    }
}

/// Position of `c` in the alphabet, or 0 when it is not there.
fn digit_of(c: u8) -> (d: i32)
    ensures
        d == digit_value(c),
        0 <= d < 34,
{
    let mut i: usize = 0;
    while i < 34
        invariant
            0 <= i <= 34,
            forall|j: int| 0 <= j < i ==> KEY_CHARS@[j] != c,
        decreases 34 - i,
    {
        if KEY_CHARS[i] == c {
            assert(is_first_position(KEY_CHARS@, c, i as int));
            let ghost k = choose|k: int| is_first_position(KEY_CHARS@, c, k);
            assert(k == i);
            return i as i32;
        }
        i = i + 1;
    }
    assert(!exists|k: int| is_first_position(KEY_CHARS@, c, k));
    0
}


/// 34 to the power `n`.
pub open spec fn pow34(n: nat) -> int
    decreases n,
{
    if n == 0 {
        1
    } else {
        34 * pow34((n - 1) as nat)
    }
}

/// The `n` lowest base-34 digits of `v`, most significant first, as key symbols.
pub open spec fn enc_digits(v: nat, n: nat) -> Seq<u8> {
    Seq::new(n, |k: int| KEY_CHARS@[(v as int / pow34((n - 1 - k) as nat)) % 34])
}

/// `enc_part` writes `val` without panicking: the value is not negative, or
/// every digit that is written is zero.
pub open spec fn enc_part_writable(val: i32, n: nat) -> bool {
    val >= 0 || val as int % pow34(n) == 0
}

/// The absolute value of `v`.
pub open spec fn abs_value(v: int) -> nat {
    if v < 0 {
        (-v) as nat
    } else {
        v as nat
    }
}

pub proof fn lemma_pow34_positive(n: nat)
    ensures
        pow34(n) >= 1,
    decreases n,
{
    if n > 0 {
        lemma_pow34_positive((n - 1) as nat);
    }
}

/// No symbol occurs twice in the alphabet.
pub proof fn lemma_alphabet_distinct()
    ensures
        forall|i: int, j: int| 0 <= i < j < 34 ==> KEY_CHARS@[i] != KEY_CHARS@[j],
{
    assert(forall|i: int, j: int| 0 <= i < j < 34 ==> KEY_CHARS@[i] != KEY_CHARS@[j]);
}


/// A symbol of the alphabet stands for its own position.
pub proof fn lemma_digit_of_symbol(d: int)
    requires
        0 <= d < 34,
    ensures
        digit_value(KEY_CHARS@[d]) == d,
{
    lemma_alphabet_distinct();
    assert(is_first_position(KEY_CHARS@, KEY_CHARS@[d], d));
    let k = choose|k: int| is_first_position(KEY_CHARS@, KEY_CHARS@[d], k);
    assert(k == d);
}

/// A digit value lies in `0..34`.
pub proof fn lemma_digit_value_range(c: u8)
    ensures
        0 <= digit_value(c) < 34,
{
}

/// The value of a run of symbols is not negative and below `34^len`.
pub proof fn lemma_dec_value_range(s: Seq<u8>)
    ensures
        0 <= dec_value(s) < pow34(s.len()),
    decreases s.len(),
{
    if s.len() > 0 {
        lemma_dec_value_range(s.drop_last());
        lemma_digit_value_range(s.last());
    }
}

/// The value of a prefix is at most the value of the whole run.
pub proof fn lemma_dec_value_prefix(s: Seq<u8>, i: int)
    requires
        0 <= i <= s.len(),
    ensures
        dec_value(s.take(i)) <= dec_value(s),
    decreases s.len() - i,
{
    if i < s.len() {
        lemma_dec_value_prefix(s, i + 1);
        let t = s.take(i + 1);
        assert(t.drop_last() =~= s.take(i));
        lemma_dec_value_range(s.take(i));
        lemma_digit_value_range(t.last());
    } else {
        assert(s.take(i) =~= s);
    }
}

/// Reads a run of key symbols as a base-34 number, most significant symbol
/// first; a byte outside the alphabet counts as the digit 0.
pub fn dec_part(key_part: &[u8]) -> (r: i32)
    requires
        dec_value(key_part@) <= i32::MAX,
    ensures
        r == dec_value(key_part@),
{
    let mut result: i32 = 0;
    let mut i: usize = 0;
    while i < key_part.len()
        invariant
            0 <= i <= key_part@.len(),
            result == dec_value(key_part@.take(i as int)),
            dec_value(key_part@) <= i32::MAX,
        decreases key_part@.len() - i,
    {
        let d = digit_of(key_part[i]);
        proof {
            let t = key_part@.take(i + 1);
            assert(t.drop_last() =~= key_part@.take(i as int));
            lemma_dec_value_prefix(key_part@, i + 1);
            lemma_dec_value_range(key_part@.take(i as int));
        }
        result = result * 34 + d;
        i = i + 1;
    }
    assert(key_part@.take(i as int) =~= key_part@);
    result
}

/// Writes `val` in base 34 into `slice`, least significant digit last; digits
/// above the slice's length are dropped.
pub fn enc_part(val: i32, slice: &mut [u8])
    requires
        enc_part_writable(val, old(slice)@.len()),
    ensures
        final(slice)@ == enc_digits(abs_value(val as int), old(slice)@.len()),
{
    let n: usize = slice.len();
    let ghost a: nat = abs_value(val as int);
    let mut v: u32 = if val < 0 { (0i64 - val as i64) as u32 } else { val as u32 };
    let mut i: usize = n;
    while i > 0
        invariant
            0 <= i <= n,
            slice@.len() == n,
            v as int == a as int / pow34((n - i) as nat),
            forall|k: int| i <= k < n ==> slice@[k] == #[trigger] enc_digits(a, n as nat)[k],
        decreases i,
    {
        i = i - 1;
        proof {
            lemma_pow34_positive((n - 1 - i) as nat);
            vstd::arithmetic::div_mod::lemma_div_denominator(a as int, pow34((n - 1 - i) as nat), 34);
            assert(pow34((n - i) as nat) == pow34((n - 1 - i) as nat) * 34);
        }
        slice[i] = KEY_CHARS[(v % 34) as usize];
        v = v / 34;
    }
    assert(slice@ =~= enc_digits(a, n as nat));
}


/// Reading back what `enc_part` writes gives the value modulo `34^n`: the
/// digits that fit are kept exactly.
pub proof fn lemma_dec_enc_digits(v: nat, n: nat)
    ensures
        dec_value(enc_digits(v, n)) == v as int % pow34(n),
    decreases n,
{
    lemma_pow34_positive(n);
    if n == 0 {
        assert(enc_digits(v, n) =~= Seq::<u8>::empty());
    } else {
        let s = enc_digits(v, n);
        let m = (n - 1) as nat;
        lemma_dec_enc_digits(v / 34, m);
        lemma_pow34_positive(m);
        assert forall|k: int| 0 <= k < m implies s.drop_last()[k] == enc_digits(v / 34, m)[k] by {
            lemma_pow34_positive((m - 1 - k) as nat);
            vstd::arithmetic::div_mod::lemma_div_denominator(v as int, 34, pow34((m - 1 - k) as nat));
            assert(pow34((n - 1 - k) as nat) == 34 * pow34((m - 1 - k) as nat));
        }
        assert(s.drop_last() =~= enc_digits(v / 34, m));
        assert(s.last() == KEY_CHARS@[v as int % 34]);
        lemma_digit_of_symbol(v as int % 34);
        vstd::arithmetic::div_mod::lemma_mod_breakdown(v as int, 34, pow34(m));
    }
}


/// The last symbol of a run is its least significant digit: the value of the
/// run is 34 times the value of the rest, plus the digit of the last symbol;
/// a byte outside the alphabet counts as 0.
pub proof fn lemma_dec_value_last_digit(s: Seq<u8>)
    requires
        s.len() > 0,
    ensures
        dec_value(s) % 34 == digit_value(s.last()),
        dec_value(s) / 34 == dec_value(s.drop_last()),
        (forall|d: int| 0 <= d < 34 ==> KEY_CHARS@[d] != s.last()) ==> dec_value(s) % 34 == 0,
{
    lemma_dec_value_range(s.drop_last());
    lemma_digit_value_range(s.last());
    vstd::arithmetic::div_mod::lemma_fundamental_div_mod(dec_value(s), 34);
    assert(dec_value(s) == 34 * dec_value(s.drop_last()) + digit_value(s.last()));
    vstd::arithmetic::div_mod::lemma_div_multiples_vanish_fancy(dec_value(s.drop_last()), digit_value(s.last()), 34);
    vstd::arithmetic::div_mod::lemma_mod_multiples_vanish(dec_value(s.drop_last()), digit_value(s.last()), 34);
    vstd::arithmetic::div_mod::lemma_small_mod(digit_value(s.last()) as nat, 34);
}

/// Writing `n + 1` symbols writes the `n` symbols of `v / 34` followed by the
/// symbol of the digit `v % 34`: the least significant digit comes last.
pub proof fn lemma_enc_digits_last(v: nat, n: nat)
    ensures
        enc_digits(v, n + 1) == enc_digits(v / 34, n).push(KEY_CHARS@[v as int % 34]),
{
    let s = enc_digits(v, n + 1);
    let t = enc_digits(v / 34, n).push(KEY_CHARS@[v as int % 34]);
    assert forall|k: int| 0 <= k < n + 1 implies s[k] == t[k] by {
        if k < n {
            lemma_pow34_positive((n - 1 - k) as nat);
            vstd::arithmetic::div_mod::lemma_div_denominator(v as int, 34, pow34((n - 1 - k) as nat));
            assert(pow34((n - k) as nat) == 34 * pow34((n - 1 - k) as nat));
        }
    }
    assert(s =~= t);
}

} // verus!
