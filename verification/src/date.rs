//! Calendar dates: the packed form stored in keys, and day counts.

use vstd::prelude::*;

verus! {

/// A calendar date as the key format handles it.
#[derive(Debug, Copy, Clone, PartialEq, Eq, Structural)]
pub struct Date {
    pub day: u32,
    pub month: u32,
    pub year: i32,
}

/// `x` limited to `lo..=hi`.
pub open spec fn clamp(x: int, lo: int, hi: int) -> int {
    if x < lo {
        lo
    } else if x > hi {
        hi
    } else {
        x
    }
}

/// Limiting keeps a value that lies in the range, and moves one outside it
/// to the nearer end.
pub proof fn lemma_clamp(x: int, lo: int, hi: int)
    requires
        lo <= hi,
    ensures
        lo <= clamp(x, lo, hi) <= hi,
        lo <= x <= hi ==> clamp(x, lo, hi) == x,
        x < lo ==> clamp(x, lo, hi) == lo,
        x > hi ==> clamp(x, lo, hi) == hi,
{
}

/// The packed form of a date whose year is given as an offset from 2003:
/// `year * 512 + month * 32 + day`.
pub open spec fn packed_date(year: int, month: int, day: int) -> int {
    year * 512 + month * 32 + day
}

/// The date that the packed value `val` holds: day in bits 0..5, month in
/// bits 5..9, year minus 2003 in bits 9..14.
pub open spec fn unpacked_date(val: i32) -> Date {
    Date {
        day: (#[verifier::truncate] (val as u32)) & 31,
        month: ((#[verifier::truncate] (val as u32)) >> 5) & 15,
        year: (((val >> 9) & 31) + 2003) as i32,
    }
}

impl Date {
    /// Limits the year to 2004..=2099, the month to 1..=12 and the day to
    /// 1..=31, replaces the year by its offset from 2003, and returns the
    /// packed form of the result.
    pub fn enc(&mut self) -> (r: i32)
        ensures
            final(self).year == clamp(old(self).year as int, 2004, 2099) - 2003,
            final(self).month == clamp(old(self).month as int, 1, 12),
            final(self).day == clamp(old(self).day as int, 1, 31),
            r == packed_date(final(self).year as int, final(self).month as int, final(self).day as int),
            2004 <= old(self).year <= 2099 ==> final(self).year == old(self).year - 2003,
            old(self).year < 2004 ==> final(self).year == 1,
            old(self).year > 2099 ==> final(self).year == 96,
            1 <= old(self).month <= 12 ==> final(self).month == old(self).month,
            old(self).month < 1 ==> final(self).month == 1,
            old(self).month > 12 ==> final(self).month == 12,
            1 <= old(self).day <= 31 ==> final(self).day == old(self).day,
            old(self).day < 1 ==> final(self).day == 1,
            old(self).day > 31 ==> final(self).day == 31,
            r == final(self).year * 512 + final(self).month * 32 + final(self).day,
    {
        self.year = self.year.max(2004).min(2099) - 2003;
        self.month = self.month.max(1).min(12);
        self.day = self.day.max(1).min(31);
        (self.year * 512) + ((self.month * 32) + self.day) as i32
    }

    /// Unpacks a date from its packed form.
    pub fn dec(val: i32) -> (r: Date)
        ensures
            r == unpacked_date(val),
            r.day == (#[verifier::truncate] (val as u32)) % 32,
            r.month == ((#[verifier::truncate] (val as u32)) / 32) % 16,
            r.year == 2003 + (val as int / 512) % 32,
            r.day < 32,
            r.month < 16,
            2003 <= r.year < 2035,
    {
        assert(0 <= ((val >> 9) & 31) < 32) by (bit_vector);
        let bits: u32 = #[verifier::truncate] (val as u32);
        assert(bits & 31 < 32) by (bit_vector);
        assert((bits >> 5) & 15 < 16) by (bit_vector);
        assert(bits & 31 == bits % 32) by (bit_vector);
        assert((val >> 9) & 31 == (val / 512) % 32) by (bit_vector);
        assert((bits >> 5) & 15 == (bits / 32) % 16) by (bit_vector);
        let r = Date { day: bits & 31, month: (bits >> 5) & 15, year: ((val >> 9) & 31) + 2003 };
        r
    }
}


/// Day count of 1899-12-30 counted from 0001-01-01 as day 1.
pub const DAYS_UNTIL_1900: u32 = 693594;

/// Lengths of the months of a common year.
pub const MONTHS_DAYS: [u32; 12] = [31, 28, 31, 30, 31, 30, 31, 31, 30, 31, 30, 31];

/// Lengths of the months of a leap year.
pub const MONTHS_DAYS_LEAP: [u32; 12] = [31, 29, 31, 30, 31, 30, 31, 31, 30, 31, 30, 31];

/// Gregorian leap year rule.
pub open spec fn is_leap_year(year: int) -> bool {
    year % 4 == 0 && (year % 100 > 0 || year % 400 == 0)
}

/// Length of month `month` (1..=12) in `year`.
pub open spec fn month_len(year: int, month: int) -> int {
    if is_leap_year(year) {
        MONTHS_DAYS_LEAP@[month - 1] as int
    } else {
        MONTHS_DAYS@[month - 1] as int
    }
}

/// Days in the months of `year` before month `month`.
pub open spec fn days_before_month(year: int, month: int) -> int
    decreases month,
{
    if month <= 1 {
        0
    } else {
        days_before_month(year, month - 1) + month_len(year, month - 1)
    }
}

/// Days in the years before `year`, counting from year 1.
pub open spec fn days_before_year(year: int) -> int {
    365 * (year - 1) + (year - 1) / 4 + (year - 1) / 400 - (year - 1) / 100
}

/// A date that `days_since_1900` counts: year 1..=9999, month 1..=12, and a
/// day within the month.
pub open spec fn is_countable_date(year: int, month: int, day: int) -> bool {
    &&& 1 <= year <= 9999
    &&& 1 <= month <= 12
    &&& 1 <= day <= month_len(year, month)
}

/// Serial number of a date: days since 1899-12-30, so that 1900-01-01 is 2.
pub open spec fn serial_day(year: int, month: int, day: int) -> int {
    days_before_year(year) + days_before_month(year, month) + day - DAYS_UNTIL_1900
}

/// What `days_since_1900` gives for a date: its serial number when it is a
/// date that it counts, 0 otherwise.
pub open spec fn day_count(year: int, month: int, day: int) -> int {
    if is_countable_date(year, month, day) {
        serial_day(year, month, day)
    } else {
        0
    }
}

/// Sum of the first `n` entries of `a`.
pub open spec fn prefix_sum(a: Seq<u32>, n: int) -> int
    decreases n,
{
    if n <= 0 {
        0
    } else {
        prefix_sum(a, n - 1) + a[n - 1]
    }
}

proof fn lemma_days_before_month_is_prefix_sum(year: int, month: int)
    requires
        1 <= month <= 13,
    ensures
        days_before_month(year, month) == prefix_sum(
            if is_leap_year(year) { MONTHS_DAYS_LEAP@ } else { MONTHS_DAYS@ },
            month - 1,
        ),
    decreases month,
{
    if month > 1 {
        lemma_days_before_month_is_prefix_sum(year, month - 1);
    }
}

/// The serial day number of a date (1900-01-01 is 2), or 0 when the year is
/// outside 1..=9999, the month outside 1..=12, or the day outside the month.
pub fn days_since_1900(year: i32, month: u32, day: u32) -> (r: i32)
    ensures
        r == day_count(year as int, month as int, day as int),
{
    if year < 1 || year > 9999 || month < 1 || month > 12 || day < 1 {
        return 0;
    }
    let y: u32 = year as u32;
    let full_years: u32 = y - 1;
    let full_months: u32 = month - 1;

    let leap = y % 4 == 0 && (y % 100 > 0 || y % 400 == 0);
    let array = if leap { MONTHS_DAYS_LEAP } else { MONTHS_DAYS };
    assert(leap == is_leap_year(year as int));

    if day > array[full_months as usize] {
        return 0;
    }

    let leap_days_4: u32 = full_years / 4;
    let leap_days_400: u32 = full_years / 400;
    let fake_leap_days: u32 = full_years / 100;

    let leap_days: u32 = leap_days_4 + leap_days_400 - fake_leap_days;
    let normal_days: u32 = 365 * full_years;

    let mut month_days: u32 = 0;
    let mut k: usize = 0;
    while k < full_months as usize
        invariant
            0 <= k <= full_months < 12,
            array@ == (if is_leap_year(year as int) { MONTHS_DAYS_LEAP@ } else { MONTHS_DAYS@ }),
            month_days == prefix_sum(array@, k as int),
            month_days <= 31 * k,
        decreases full_months - k,
    {
        month_days = month_days + array[k];
        k = k + 1;
    }
    proof {
        lemma_days_before_month_is_prefix_sum(year as int, month as int);
    }
    let last_year_days: u32 = day + month_days;
    let total_days: i32 = last_year_days as i32 + leap_days as i32 + normal_days as i32;
    total_days - DAYS_UNTIL_1900 as i32
}


/// A month starts at most 31 days after each earlier one.
pub proof fn lemma_days_before_month_bound(year: int, month: int)
    requires
        month <= 13,
    ensures
        0 <= days_before_month(year, month) <= 31 * (if month < 1 { 0 } else { month - 1 }),
    decreases month,
{
    if month > 1 {
        lemma_days_before_month_bound(year, month - 1);
    }
}

/// Days that the Gregorian calendar gives month `month` of `year`: thirty
/// in April, June, September and November, 28 in February (29 in a year
/// divisible by 4, unless by 100 and not by 400), 31 in the others.
pub proof fn lemma_month_lengths(year: int, month: int, day: int)
    requires
        1 <= year <= 9999,
        1 <= month <= 12,
    ensures
        is_countable_date(year, month, day) <==> 1 <= day <= (if month == 2 {
            if year % 4 == 0 && (year % 100 != 0 || year % 400 == 0) {
                29int
            } else {
                28int
            }
        } else if month == 4 || month == 6 || month == 9 || month == 11 {
            30int
        } else {
            31int
        }),
{
}

/// Where the count starts: 1899-12-30 is day 0, 1900-01-01 is day 2 and
/// 2000-01-01 is day 36526; with `lemma_serial_day_next` this fixes the
/// number of every date.
pub proof fn lemma_day_count_origin()
    ensures
        day_count(1899, 12, 30) == 0,
        day_count(1900, 1, 1) == 2,
        day_count(2000, 1, 1) == 36526,
{
    reveal_with_fuel(days_before_month, 13);
}

/// A year has 365 days, or 366 when it is a leap year: January 1 of the
/// next year is that many days after January 1.
pub proof fn lemma_year_length(year: int)
    requires
        1 <= year < 9999,
    ensures
        day_count(year + 1, 1, 1) - day_count(year, 1, 1) == if year % 4 == 0 && (year % 100 != 0
            || year % 400 == 0) {
            366int
        } else {
            365int
        },
{
}

/// The calendar day after `(year, month, day)`.
pub open spec fn next_day(year: int, month: int, day: int) -> (int, int, int) {
    if day < month_len(year, month) {
        (year, month, day + 1)
    } else if month < 12 {
        (year, month + 1, 1)
    } else {
        (year + 1, 1, 1)
    }
}

/// Consecutive calendar days have consecutive serial numbers: the count
/// `days_since_1900` makes has no gaps and no repeats, also across month and
/// year ends, leap days included.
pub proof fn lemma_serial_day_next(year: int, month: int, day: int)
    requires
        is_countable_date(year, month, day),
        is_countable_date(next_day(year, month, day).0, next_day(year, month, day).1, next_day(year, month, day).2),
    ensures
        serial_day(next_day(year, month, day).0, next_day(year, month, day).1, next_day(year, month, day).2)
            == serial_day(year, month, day) + 1,
{
    if day < month_len(year, month) {
    } else if month < 12 {
    } else {
        reveal_with_fuel(days_before_month, 12);
        assert(days_before_month(year, 12) + 31 == if is_leap_year(year) { 366int } else { 365int });
        assert(days_before_year(year + 1) == days_before_year(year) + if is_leap_year(year) { 366int } else { 365int });
    }
}


proof fn lemma_unpack_fields(y: i32, m: u32, d: u32)
    by (bit_vector)
    requires
        1 <= y <= 31,
        1 <= m <= 12,
        1 <= d <= 31,
    ensures
        ((y * 512 + m * 32 + d) as i32 as u32) & 31 == d,
        (((y * 512 + m * 32 + d) as i32 as u32) >> 5) & 15 == m,
        (((y * 512 + m * 32 + d) as i32) >> 9) & 31 == y,
{
}

/// Unpacking what `Date::enc` packs gives back the limited date, for limited
/// years up to 2034; the packed form keeps only five bits of the year offset.
pub proof fn lemma_dec_enc(date: Date)
    requires
        clamp(date.year as int, 2004, 2099) <= 2034,
    ensures
        unpacked_date(
            packed_date(
                clamp(date.year as int, 2004, 2099) - 2003,
                clamp(date.month as int, 1, 12),
                clamp(date.day as int, 1, 31),
            ) as i32,
        ) == (Date {
            day: clamp(date.day as int, 1, 31) as u32,
            month: clamp(date.month as int, 1, 12) as u32,
            year: clamp(date.year as int, 2004, 2099) as i32,
        }),
{
    let y = (clamp(date.year as int, 2004, 2099) - 2003) as i32;
    let m = clamp(date.month as int, 1, 12) as u32;
    let d = clamp(date.day as int, 1, 31) as u32;
    lemma_unpack_fields(y, m, d);
}

} // verus!
