use aida64_keys::date::{days_since_1900, Date};

#[test]
fn enc_packs_year_offset_month_and_day() {
    let mut d = Date { day: 1, month: 1, year: 2011 };
    assert_eq!(d.enc(), 8 * 512 + 32 + 1);
    assert_eq!(d, Date { day: 1, month: 1, year: 8 });
}

#[test]
fn enc_limits_fields() {
    let mut d = Date { day: 40, month: 0, year: 1990 };
    assert_eq!(d.enc(), 512 + 32 + 31);
    assert_eq!(d, Date { day: 31, month: 1, year: 1 });
    let mut e = Date { day: 0, month: 13, year: 3000 };
    assert_eq!(e.enc(), 96 * 512 + 12 * 32 + 1);
}

#[test]
fn dec_unpacks() {
    assert_eq!(Date::dec(8 * 512 + 32 + 1), Date { day: 1, month: 1, year: 2011 });
    assert_eq!(Date::dec(0), Date { day: 0, month: 0, year: 2003 });
}

#[test]
fn dec_of_enc_round_trips_up_to_2034() {
    let mut d = Date { day: 17, month: 6, year: 2034 };
    let packed = d.enc();
    assert_eq!(Date::dec(packed), Date { day: 17, month: 6, year: 2034 });
}

#[test]
fn dec_of_enc_loses_high_year_bits_after_2034() {
    let mut d = Date { day: 17, month: 6, year: 2040 };
    let packed = d.enc();
    assert_eq!(Date::dec(packed), Date { day: 17, month: 6, year: 2008 });
}

#[test]
fn day_counts() {
    assert_eq!(days_since_1900(1900, 1, 1), 2);
    assert_eq!(days_since_1900(2000, 1, 1), 36526);
    assert_eq!(days_since_1900(2011, 1, 1), 40544);
    assert_eq!(days_since_1900(2024, 2, 29), 45351);
    assert_eq!(days_since_1900(9999, 12, 31), 2958465);
    assert_eq!(days_since_1900(1, 1, 1), -693593);
}

#[test]
fn day_counts_of_invalid_dates_are_zero() {
    assert_eq!(days_since_1900(2023, 2, 29), 0);
    assert_eq!(days_since_1900(1900, 2, 29), 0);
    assert_eq!(days_since_1900(0, 1, 1), 0);
    assert_eq!(days_since_1900(10000, 1, 1), 0);
    assert_eq!(days_since_1900(2020, 13, 1), 0);
    assert_eq!(days_since_1900(2020, 0, 1), 0);
    assert_eq!(days_since_1900(2020, 4, 31), 0);
    assert_eq!(days_since_1900(2020, 4, 0), 0);
}

#[test]
fn consecutive_days_count_up_by_one() {
    assert_eq!(days_since_1900(2024, 2, 29), days_since_1900(2024, 2, 28) + 1);
    assert_eq!(days_since_1900(2024, 3, 1), days_since_1900(2024, 2, 29) + 1);
    assert_eq!(days_since_1900(2024, 1, 1), days_since_1900(2023, 12, 31) + 1);
    assert_eq!(days_since_1900(2000, 3, 1), days_since_1900(2000, 2, 29) + 1);
    assert_eq!(days_since_1900(2100, 3, 1), days_since_1900(2100, 2, 28) + 1);
}
