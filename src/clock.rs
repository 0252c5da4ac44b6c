//! Instants as seconds since the Unix epoch, and their UTC calendar dates.
//! Parsing RFC 3339 and the calendar itself come from chrono.
use vstd::prelude::*;

use chrono::{Datelike, Timelike};

verus! {

/// Seconds since the Unix epoch of an RFC 3339 timestamp; `None` when the text
/// is not one.
pub uninterp spec fn rfc3339_seconds(s: Seq<char>) -> Option<int>;

/// UTC year, month, day and seconds past midnight of an instant given in
/// seconds since the Unix epoch; `None` outside the calendar's range.
pub uninterp spec fn utc_calendar(secs: int) -> Option<(int, int, int, int)>;

/// Relies on chrono's `DateTime::parse_from_rfc3339`, read back through
/// `DateTime::timestamp`: the instant that the text denotes, or `None`.
#[verifier::external_body]
pub(crate) fn parse_rfc3339(s: &str) -> (r: Option<i64>)
    ensures
        match r {
            Some(t) => rfc3339_seconds(s@) == Some(t as int),
            None => rfc3339_seconds(s@).is_none(),
        },
{
    match chrono::DateTime::parse_from_rfc3339(s) {
        Ok(t) => Some(t.timestamp()),
        Err(_) => None,
    }
}

/// Relies on chrono's `DateTime::<Utc>::from_timestamp`, read back through its
/// `year`, `month`, `day` and `num_seconds_from_midnight`: month in 1..=12,
/// day in 1..=31.
#[verifier::external_body]
pub(crate) fn utc_calendar_of(secs: i64) -> (r: Option<(i32, u32, u32, u32)>)
    ensures
        match r {
            Some(c) => utc_calendar(secs as int) == Some(
                (c.0 as int, c.1 as int, c.2 as int, c.3 as int),
            ) && 1 <= c.1 <= 12 && 1 <= c.2 <= 31,
            None => utc_calendar(secs as int).is_none(),
        },
{
    match chrono::DateTime::<chrono::Utc>::from_timestamp(secs, 0) {
        Some(t) => Some((t.year(), t.month(), t.day(), t.num_seconds_from_midnight())),
        None => None,
    }
}

/// Relies on chrono's `Utc::now`, read back through `DateTime::timestamp`.
/// Nothing is known of the value. chrono panics when the system clock reads
/// before 1970.
#[verifier::external_body]
pub(crate) fn now_seconds() -> (r: i64) {
    chrono::Utc::now().timestamp()
}

/// The decimal digit `k`.
pub open spec fn digit(k: int) -> char {
    if k == 0 {
        '0'
    } else if k == 1 {
        '1'
    } else if k == 2 {
        '2'
    } else if k == 3 {
        '3'
    } else if k == 4 {
        '4'
    } else if k == 5 {
        '5'
    } else if k == 6 {
        '6'
    } else if k == 7 {
        '7'
    } else if k == 8 {
        '8'
    } else {
        '9'
    }
}

/// `n` in exactly `w` decimal digits, zero-padded.
pub open spec fn padded(n: int, w: nat) -> Seq<char>
    decreases w,
{
    if w == 0 {
        Seq::empty()
    } else {
        padded(n / 10, (w - 1) as nat).push(digit(n % 10))
    }
}

/// The day bucket `YYYY-MM-DD` of a calendar date.
pub open spec fn bucket_text(y: int, m: int, d: int) -> Seq<char> {
    padded(y, 4) + seq!['-'] + padded(m, 2) + seq!['-'] + padded(d, 2)
}

/// The day bucket of an instant: its UTC date as `YYYY-MM-DD`; `None` when the
/// year is outside 0..=9999.
pub open spec fn bucket_of(secs: int) -> Option<Seq<char>> {
    match utc_calendar(secs) {
        Some(c) => if 0 <= c.0 <= 9999 {
            Some(bucket_text(c.0, c.1, c.2))
        } else {
            None
        },
        None => None,
    }
}

fn digit_char(k: u32) -> (c: char)
    requires
        k < 10,
    ensures
        c == digit(k as int),
{
    if k == 0 {
        '0'
    } else if k == 1 {
        '1'
    } else if k == 2 {
        '2'
    } else if k == 3 {
        '3'
    } else if k == 4 {
        '4'
    } else if k == 5 {
        '5'
    } else if k == 6 {
        '6'
    } else if k == 7 {
        '7'
    } else if k == 8 {
        '8'
    } else {
        '9'
    }
}

fn push_padded(out: &mut Vec<char>, n: u32, w: u32)
    requires
        w <= 4,
    ensures
        final(out)@ == old(out)@ + padded(n as int, w as nat),
    decreases w,
{
    if w > 0 {
        push_padded(out, n / 10, w - 1);
        out.push(digit_char(n % 10));
        assert(final(out)@ =~= old(out)@ + padded(n as int, w as nat));
    } else {
        assert(final(out)@ =~= old(out)@ + padded(n as int, w as nat));
    }
}

/// The day bucket of an instant given in seconds since the Unix epoch.
pub fn day_bucket(secs: i64) -> (r: Option<String>)
    ensures
        match r {
            Some(s) => bucket_of(secs as int) == Some(s@),
            None => bucket_of(secs as int).is_none(),
        },
{
    match utc_calendar_of(secs) {
        None => None,
        Some((y, m, d, _)) => {
            if y < 0 || y > 9999 {
                return None;
            }
            let mut out: Vec<char> = Vec::new();
            push_padded(&mut out, y as u32, 4);
            out.push('-');
            push_padded(&mut out, m, 2);
            out.push('-');
            push_padded(&mut out, d, 2);
            assert(out@ =~= bucket_text(y as int, m as int, d as int));
            Some(crate::text::string_of(out.as_slice(), 0, out.len()))
        },
    }
}

} // verus!
