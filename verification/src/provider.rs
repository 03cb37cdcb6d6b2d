use vstd::prelude::*;

use crate::timestamp::days_in_month_x;
use crate::timestamp::Timestamp;
use chrono::Datelike;
use chrono::Timelike;

verus! {

/// A character that can occur in a freshly generated record id:
/// a lowercase hexadecimal digit or a hyphen.
pub open spec fn id_char(c: char) -> bool {
    c == '-' || ('0' <= c && c <= '9') || ('a' <= c && c <= 'f')
}

/// Relies on `uuid::Uuid::new_v4` and the `Display` impl of `Uuid`: a fresh
/// UUID rendered in the hyphenated form, 36 lowercase hex digits and hyphens.
#[verifier::external_body]
pub(crate) fn fresh_id() -> (r: String)
    ensures
        r@.len() == 36,
        forall|i: int| 0 <= i < r@.len() ==> id_char(r@[i]),
{
    uuid::Uuid::new_v4().to_string()
}

/// Relies on `chrono::Local::now` and the `Datelike`/`Timelike` accessors,
/// whose documentation bounds them: month 1..=12, day 1..=31, hour 0..=23,
/// minute 0..=59, second 0..=59. Nothing is assumed of the year.
#[verifier::external_body]
fn clock_now() -> (r: (i32, u32, u32, u32, u32, u32))
    ensures
        1 <= r.1 <= 12,
        1 <= r.2 <= 31,
        r.3 <= 23,
        r.4 <= 59,
        r.5 <= 59,
{
    let t = chrono::Local::now();
    (t.year(), t.month(), t.day(), t.hour(), t.minute(), t.second())
}

/// Read the wall clock and validate the reading into a well-formed
/// timestamp; a reading outside the four-digit-year era or outside the
/// calendar falls back to the Unix epoch instant.
pub fn now_timestamp() -> (r: Timestamp)
    ensures
        r.wf(),
{
    let (y, mo, d, h, mi, s) = clock_now();
    if 0 <= y && y <= 9999 {
        let t = Timestamp { year: y as u32, month: mo, day: d, hour: h, minute: mi, second: s };
        if d <= days_in_month_x(t.year, t.month) {
            return t;
        }
    }
    Timestamp { year: 1970, month: 1, day: 1, hour: 0, minute: 0, second: 0 }
}

} // verus!
