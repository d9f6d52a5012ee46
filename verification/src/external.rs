//! The calls into `rand`, `chrono` and std that the library makes, with the
//! contracts that their documentation gives them.

use vstd::prelude::*;

use chrono::Datelike;
use rand::Rng;

verus! {

/// A number drawn from the thread-local generator of `rand`
/// (`rand::thread_rng().gen_range(low, high)`), which lies in `low..high`.
/// `gen_range` panics when `low >= high`, so that is excluded. Which number
/// comes out is left open: it rests on chance.
#[verifier::external_body]
pub(crate) fn random_in_range(low: i32, high: i32) -> (r: i32)
    requires
        low < high,
    ensures
        low <= r < high,
{
    rand::thread_rng().gen_range(low, high)
}

/// A date read from the local clock. Its fields are private to this module
/// and only `local_today` makes one, so a `ClockDate` always holds a date
/// that the clock gave.
pub struct ClockDate {
    year: i32,
    month: u32,
    day: u32,
}

impl View for ClockDate {
    type V = (i32, u32, u32);

    /// The date as (year, month, day).
    closed spec fn view(&self) -> (i32, u32, u32) {
        (self.year, self.month, self.day)
    }
}

impl ClockDate {
    /// The date as (year, month, day).
    pub fn ymd(&self) -> (r: (i32, u32, u32))
        ensures
            r == self@,
    {
        (self.year, self.month, self.day)
    }
}

/// Today's date in the local time zone, from `chrono::offset::Local::now()`,
/// as (year, month, day) through `Datelike`, whose documentation gives the
/// month as 1 to 12 and the day as 1 to 31. The date itself rests on the
/// clock and is left open.
#[verifier::external_body]
pub(crate) fn local_today() -> (r: ClockDate)
    ensures
        1 <= r@.1 <= 12,
        1 <= r@.2 <= 31,
{
    let now = chrono::offset::Local::now();
    ClockDate { year: now.year(), month: now.month(), day: now.day() }
}

/// A `String` from ASCII bytes through `String::from_utf8`: ASCII is valid
/// UTF-8, so the call succeeds, and each byte becomes the character with the
/// same code.
#[verifier::external_body]
pub(crate) fn string_from_ascii(bytes: Vec<u8>) -> (s: String)
    requires
        forall|i: int| 0 <= i < bytes@.len() ==> bytes@[i] < 128,
    ensures
        s@ == bytes@.map_values(|b: u8| b as char),
{
    String::from_utf8(bytes).unwrap()
}

} // verus!
