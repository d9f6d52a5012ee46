# aida64_keys

Encoding, checking and generation of AIDA64 license keys, verified with Verus.

- `src/alphabet.rs`: the 34-symbol key alphabet, `enc_part` / `dec_part`
  (base-34 numbers) and the proof that reading back what is written gives
  the value modulo `34^n`.
- `src/checksum.rs`: the 16-bit key checksum and the check symbol.
- `src/date.rs`: packed purchase dates (`Date::enc`, `Date::dec`) and the
  serial day count `days_since_1900`, with the proof that consecutive days
  count up by one.
- `src/edition.rs`: product editions and their conversions.
- `src/key.rs`: key fields, validation (`is_valid_key_on`, `is_valid_key`)
  and generation (`generate_key_from`, `generate_key`), with the proofs that
  a generated key decodes to its fields and validates.
- `src/external.rs`: the calls into `rand`, `chrono` and `String::from_utf8`.
- `app/main.rs`: prints a key of each edition and whether it validates.
