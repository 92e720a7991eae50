//! SOA serial numbers: a counter seeded by the date, strictly increasing.
use vstd::prelude::*;

verus! {

/// Relies on `chrono::Utc::now` and `chrono::Datelike`: today's date in
/// UTC as year (1970 or later: the date is built from the seconds since the
/// Unix epoch), month (1 to 12) and day of month (1 to 31).
#[verifier::external_body]
fn today_utc() -> (r: (i32, u32, u32))
    ensures
        r.0 >= 1970,
        1 <= r.1 <= 12,
        1 <= r.2 <= 31,
{
    let now = chrono::Utc::now();
    (chrono::Datelike::year(&now), chrono::Datelike::month(&now), chrono::Datelike::day(&now))
}

/// The serial that a date seeds: `YYYYMMDD00`.
pub open spec fn date_seed(year: int, month: int, day: int) -> int {
    year * 1_000_000 + month * 10_000 + day * 100
}

/// The serial after `old` on the given date: one more than `old`, or the
/// date's seed if that is larger. A date whose seed does not fit in 32 bits
/// seeds nothing.
pub open spec fn serial_after(old: u32, year: i32, month: u32, day: u32) -> int {
    let seed = date_seed(year as int, month as int, day as int);
    if 0 <= year && seed <= u32::MAX && seed > old + 1 {
        seed
    } else {
        old + 1
    }
}

/// The serial after `old` on the date `year`-`month`-`day`.
pub fn next_serial(old: u32, year: i32, month: u32, day: u32) -> (r: u32)
    requires
        old < u32::MAX,
        1 <= month <= 12,
        1 <= day <= 31,
    ensures
        r == serial_after(old, year, month, day),
{
    let next = old + 1;
    if year < 0 {
        return next;
    }
    let seed: u64 = year as u64 * 1_000_000 + month as u64 * 10_000 + day as u64 * 100;
    if seed <= u32::MAX as u64 && seed > next as u64 {
        seed as u32
    } else {
        next
    }
}

/// The serial after `old` today: one more than `old`, or today's
/// `YYYYMMDD00` if that is larger.
pub fn calc_serial(old_serial: u32) -> (r: u32)
    requires
        old_serial < u32::MAX,
    ensures
        r > old_serial,
        exists|year: i32, month: u32, day: u32|
            year >= 1970 && 1 <= month <= 12 && 1 <= day <= 31 && r == #[trigger] serial_after(
                old_serial,
                year,
                month,
                day,
            ),
{
    let (year, month, day) = today_utc();
    next_serial(old_serial, year, month, day)
}

/// A new serial lies above the old one; on a first run it is at least the
/// date's seed; once the counter has reached the day's seed, each further
/// run on that day adds exactly one.
pub proof fn lemma_serial_increases(old: u32, year: i32, month: u32, day: u32)
    requires
        old < u32::MAX,
        0 <= year,
        date_seed(year as int, month as int, day as int) <= u32::MAX,
    ensures
        serial_after(old, year, month, day) > old,
        old == 0 ==> serial_after(old, year, month, day) >= date_seed(
            year as int,
            month as int,
            day as int,
        ),
        old >= date_seed(year as int, month as int, day as int) ==> serial_after(
            old,
            year,
            month,
            day,
        ) == old + 1,
        serial_after(old, year, month, day) < u32::MAX ==> serial_after(
            serial_after(old, year, month, day) as u32,
            year,
            month,
            day,
        ) == serial_after(old, year, month, day) + 1,
{
}

} // verus!
