//! The revision stamper: selecting the navigation-data revision code for a
//! calendar date and rendering the identity file.

use vstd::prelude::*;
use crate::numbers::{spec_digits, u64_to_string};
use chrono::Datelike;

verus! {

/// Calendar order on (year, month, day) triples.
pub open spec fn date_ge(y: int, m: int, d: int, y2: int, m2: int, d2: int) -> bool {
    if y != y2 {
        y > y2
    } else if m != m2 {
        m > m2
    } else {
        d >= d2
    }
}

/// The revision code effective on the given date: the last entry of the 2025
/// revision table whose effective date is not after the date, defaulting to
/// the first entry.
pub open spec fn spec_revision_code(y: int, m: int, d: int) -> u32 {
    if date_ge(y, m, d, 2025, 12, 25) {
        2513u32
    } else if date_ge(y, m, d, 2025, 11, 27) {
        2512u32
    } else if date_ge(y, m, d, 2025, 10, 30) {
        2511u32
    } else if date_ge(y, m, d, 2025, 10, 2) {
        2510u32
    } else if date_ge(y, m, d, 2025, 9, 4) {
        2509u32
    } else if date_ge(y, m, d, 2025, 8, 7) {
        2508u32
    } else if date_ge(y, m, d, 2025, 7, 10) {
        2507u32
    } else if date_ge(y, m, d, 2025, 6, 12) {
        2506u32
    } else if date_ge(y, m, d, 2025, 5, 15) {
        2505u32
    } else if date_ge(y, m, d, 2025, 4, 17) {
        2504u32
    } else if date_ge(y, m, d, 2025, 3, 20) {
        2503u32
    } else if date_ge(y, m, d, 2025, 2, 20) {
        2502u32
    } else {
        2501u32
    }
}

fn day_ge(y: i32, m: u8, d: u8, y2: i32, m2: u8, d2: u8) -> (r: bool)
    ensures
        r == date_ge(y as int, m as int, d as int, y2 as int, m2 as int, d2 as int),
{
    if y != y2 {
        y > y2
    } else if m != m2 {
        m > m2
    } else {
        d >= d2
    }
}

/// The revision code for a calendar date.
pub fn revision_code(y: i32, m: u8, d: u8) -> (r: u32)
    ensures
        r == spec_revision_code(y as int, m as int, d as int),
{
    if day_ge(y, m, d, 2025, 12, 25) {
        2513
    } else if day_ge(y, m, d, 2025, 11, 27) {
        2512
    } else if day_ge(y, m, d, 2025, 10, 30) {
        2511
    } else if day_ge(y, m, d, 2025, 10, 2) {
        2510
    } else if day_ge(y, m, d, 2025, 9, 4) {
        2509
    } else if day_ge(y, m, d, 2025, 8, 7) {
        2508
    } else if day_ge(y, m, d, 2025, 7, 10) {
        2507
    } else if day_ge(y, m, d, 2025, 6, 12) {
        2506
    } else if day_ge(y, m, d, 2025, 5, 15) {
        2505
    } else if day_ge(y, m, d, 2025, 4, 17) {
        2504
    } else if day_ge(y, m, d, 2025, 3, 20) {
        2503
    } else if day_ge(y, m, d, 2025, 2, 20) {
        2502
    } else {
        2501
    }
}

/// The full text of the identity file for a revision code.
pub open spec fn spec_ident_content(code: u32) -> Seq<char> {
    "[Ident]\nSuppData=NAIP-"@ + spec_digits(code as nat) + "\n"@
}

/// Renders the identity file `FMC_Ident.txt` for a revision code.
pub fn ident_content(code: u32) -> (r: String)
    ensures
        r@ == spec_ident_content(code),
{
    let mut s = String::new();
    s.append("[Ident]\nSuppData=NAIP-");
    s.append(u64_to_string(code as u64).as_str());
    s.append("\n");
    proof {
        assert(s@ =~= spec_ident_content(code));
    }
    s
}

/// Today's date in the Asia/Shanghai time zone, as (year, month, day).
///
/// Relies on `chrono::Utc::now`, `DateTime::with_timezone` with
/// `chrono_tz::Asia::Shanghai`, `DateTime::date_naive`, and the `Datelike`
/// accessors `year`, `month` and `day`. The result depends on the wall
/// clock, so nothing is promised of it beyond the calendar ranges `chrono`
/// guarantees for a valid date: month in 1..=12 and day in 1..=31.
#[verifier::external_body]
pub fn today_shanghai() -> (r: (i32, u8, u8))
    ensures
        1 <= r.1 <= 12,
        1 <= r.2 <= 31,
{
    let date = chrono::Utc::now().with_timezone(&chrono_tz::Asia::Shanghai).date_naive();
    (date.year(), date.month() as u8, date.day() as u8)
}

} // verus!
