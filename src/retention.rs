//! Which ledgers the retention policy removes. A ledger `YYYY-MM-DD.jsonl`
//! expires when its day starts strictly before the cutoff, `days_retained`
//! days before now.
use vstd::prelude::*;

use crate::clock::{now_seconds, utc_calendar, utc_calendar_of};
use crate::error::ServiceError;
use crate::text::{chars_of, lowercase_of, string_of};
use crate::wire::{parse_unsigned, same_chars, unsigned_of};

verus! {

/// What happens to expired ledgers.
#[derive(Debug, Clone, Copy, PartialEq, Eq, Structural)]
pub enum RetentionMode {
    Delete,
    Archive,
}

/// The retention settings of the service.
#[derive(Debug, Clone, Copy, PartialEq, Eq, Structural)]
pub struct RetentionPolicy {
    pub mode: RetentionMode,
    pub days_retained: u32,
}

/// Seconds in a day.
pub const DAY_SECONDS: i64 = 86400;

/// Days retained when the configuration gives no number.
pub const DEFAULT_DAYS_RETAINED: u32 = 14;

impl RetentionMode {
    /// The mode's name as shown to operators.
    pub fn name(&self) -> (r: String)
        ensures
            r@ == match self {
                RetentionMode::Delete => "DELETE"@,
                RetentionMode::Archive => "ARCHIVE"@,
            },
    {
        let cs = match self {
            RetentionMode::Delete => chars_of("DELETE"),
            RetentionMode::Archive => chars_of("ARCHIVE"),
        };
        assert(cs@.subrange(0, cs@.len() as int) =~= cs@);
        string_of(cs.as_slice(), 0, cs.len())
    }
}

/// The mode a configuration value names: `archive` in any case gives
/// `Archive`, anything else `Delete`.
pub open spec fn mode_named(s: Seq<char>) -> RetentionMode {
    if lowercase_of(s) == "archive"@ {
        RetentionMode::Archive
    } else {
        RetentionMode::Delete
    }
}

/// The cutoff instant, in seconds since the Unix epoch.
pub open spec fn cutoff(now: int, days: int) -> int {
    now - days * DAY_SECONDS
}

/// The date of a ledger file name `YYYY-MM-DD.jsonl`; `None` for other names.
pub open spec fn ledger_date(name: Seq<char>) -> Option<(int, int, int)> {
    if name.len() == 16 && name[4] == '-' && name[7] == '-' && name.subrange(10, 16)
        == ".jsonl"@ {
        match (
            unsigned_of(name.subrange(0, 4)),
            unsigned_of(name.subrange(5, 7)),
            unsigned_of(name.subrange(8, 10)),
        ) {
            (Some(y), Some(m), Some(d)) => Some((y as int, m as int, d as int)),
            _ => None,
        }
    } else {
        None
    }
}

/// Calendar order of dates.
pub open spec fn date_before(a: (int, int, int), b: (int, int, int)) -> bool {
    a.0 < b.0 || (a.0 == b.0 && (a.1 < b.1 || (a.1 == b.1 && a.2 < b.2)))
}

/// The ledger called `name` starts strictly before the instant `cut`.
pub open spec fn is_expired(name: Seq<char>, cut: int) -> bool {
    if cut < i64::MIN {
        false
    } else {
        match ledger_date(name) {
            None => false,
            Some(d) => match utc_calendar(cut) {
                None => false,
                Some(c) => date_before(d, (c.0, c.1, c.2)) || (d == (c.0, c.1, c.2) && c.3 > 0),
            },
        }
    }
}

/// The day buckets of the expired ledgers among `names`, in order.
pub open spec fn expired_buckets(names: Seq<Seq<char>>, cut: int) -> Seq<Seq<char>>
    decreases names.len(),
{
    if names.len() == 0 {
        Seq::empty()
    } else {
        let rest = expired_buckets(names.drop_last(), cut);
        if is_expired(names.last(), cut) {
            rest.push(names.last().subrange(0, 10))
        } else {
            rest
        }
    }
}

/// What one retention pass over ledgers `names` at instant `now` gives.
pub open spec fn retention_outcome(p: RetentionPolicy, now: int, names: Seq<Seq<char>>) -> Result<
    Seq<Seq<char>>,
    ServiceError,
> {
    let e = expired_buckets(names, cutoff(now, p.days_retained as int));
    if p.mode == RetentionMode::Archive && e.len() > 0 {
        Err(ServiceError::NotImplemented)
    } else {
        Ok(e)
    }
}

pub open spec fn strings_view(v: Seq<String>) -> Seq<Seq<char>> {
    v.map_values(|s: String| s@)
}

/// The mode named by a configuration value.
pub fn mode_from_config(value: &str) -> (r: RetentionMode)
    ensures
        r == mode_named(value@),
{
    mode_from_lowercase(crate::text::lowercase(value).as_str())
}

/// The mode named by a lower-cased configuration value: `archive` gives
/// `Archive`, anything else `Delete`.
pub fn mode_from_lowercase(value: &str) -> (r: RetentionMode)
    ensures
        r == (if value@ == "archive"@ {
            RetentionMode::Archive
        } else {
            RetentionMode::Delete
        }),
{
    let lower = chars_of(value);
    let archive = chars_of("archive");
    if same_chars(lower.as_slice(), archive.as_slice()) {
        RetentionMode::Archive
    } else {
        RetentionMode::Delete
    }
}

/// The number of days a configuration value gives, or 14 when it is not an
/// unsigned decimal.
pub fn days_from_config(value: &str) -> (r: u32)
    ensures
        r == match unsigned_of(value@) {
            Some(n) => n,
            None => DEFAULT_DAYS_RETAINED,
        },
{
    let cs = chars_of(value);
    assert(cs@.subrange(0, cs@.len() as int) =~= cs@);
    match parse_unsigned(cs.as_slice(), 0, cs.len()) {
        Some(n) => n,
        None => DEFAULT_DAYS_RETAINED,
    }
}

/// The date of a ledger file name.
pub fn parse_ledger_name(name: &str) -> (r: Option<(u32, u32, u32)>)
    ensures
        match r {
            Some(d) => ledger_date(name@) == Some((d.0 as int, d.1 as int, d.2 as int)),
            None => ledger_date(name@).is_none(),
        },
{
    let cs = chars_of(name);
    if cs.len() != 16 || cs[4] != '-' || cs[7] != '-' {
        return None;
    }
    let ext = chars_of(".jsonl");
    let mut tail: Vec<char> = Vec::new();
    let mut i: usize = 10;
    while i < 16
        invariant
            10 <= i <= 16,
            cs@.len() == 16,
            tail@ == cs@.subrange(10, i as int),
        decreases 16 - i,
    {
        tail.push(cs[i]);
        i = i + 1;
        assert(tail@ =~= cs@.subrange(10, i as int));
    }
    if !same_chars(tail.as_slice(), ext.as_slice()) {
        return None;
    }
    let y = parse_unsigned(cs.as_slice(), 0, 4);
    let m = parse_unsigned(cs.as_slice(), 5, 7);
    let d = parse_unsigned(cs.as_slice(), 8, 10);
    match (y, m, d) {
        (Some(y), Some(m), Some(d)) => Some((y, m, d)),
        _ => None,
    }
}

/// Whether the ledger called `name` starts strictly before the instant `cut`.
pub fn ledger_expired(name: &str, cut: i64) -> (r: bool)
    ensures
        r == is_expired(name@, cut as int),
{
    match parse_ledger_name(name) {
        None => false,
        Some((y, m, d)) => match utc_calendar_of(cut) {
            None => false,
            Some((cy, cm, cd, secs)) => {
                let y = y as i64;
                let cy = cy as i64;
                y < cy || (y == cy && (m < cm || (m == cm && (d < cd || (d == cd && secs > 0)))))
            },
        },
    }
}

/// The day buckets of the ledgers among `names` that the policy removes at
/// instant `now` (seconds since the Unix epoch), in the order given. Names
/// that are not ledgers are passed over. In archive mode, which is not
/// implemented, `NotImplemented` when any ledger has expired.
pub fn expired_ledgers(policy: &RetentionPolicy, now: i64, names: &Vec<String>) -> (r: Result<
    Vec<String>,
    ServiceError,
>)
    ensures
        match r {
            Ok(v) => retention_outcome(*policy, now as int, strings_view(names@)) == Ok::<
                Seq<Seq<char>>,
                ServiceError,
            >(strings_view(v@)),
            Err(e) => retention_outcome(*policy, now as int, strings_view(names@)) == Err::<
                Seq<Seq<char>>,
                ServiceError,
            >(e),
        },
{
    let ghost nv = strings_view(names@);
    let ghost cut = cutoff(now as int, policy.days_retained as int);
    let span = (policy.days_retained as i64) * DAY_SECONDS;
    let mut out: Vec<String> = Vec::new();
    if now < i64::MIN + span {
        assert(expired_buckets(nv, cut) =~= Seq::<Seq<char>>::empty()) by {
            lemma_nothing_expired(nv, cut);
        }
        assert(strings_view(out@) =~= Seq::<Seq<char>>::empty());
        return Ok(out);
    }
    let cut_secs = now - span;
    let mut i: usize = 0;
    while i < names.len()
        invariant
            nv == strings_view(names@),
            cut == cut_secs as int,
            i <= names@.len(),
            strings_view(out@) == expired_buckets(nv.subrange(0, i as int), cut),
        decreases names@.len() - i,
    {
        let name = names[i].as_str();
        let ghost pre = nv.subrange(0, i + 1);
        assert(pre.drop_last() =~= nv.subrange(0, i as int));
        assert(pre.last() == name@);
        if ledger_expired(name, cut_secs) {
            let cs = chars_of(name);
            let ghost before = out@;
            out.push(string_of(cs.as_slice(), 0, 10));
            assert(strings_view(out@) =~= strings_view(before).push(name@.subrange(0, 10)));
        }
        i = i + 1;
    }
    assert(nv.subrange(0, i as int) =~= nv);
    if policy.mode == RetentionMode::Archive && out.len() > 0 {
        return Err(ServiceError::NotImplemented);
    }
    Ok(out)
}

proof fn lemma_nothing_expired(names: Seq<Seq<char>>, cut: int)
    requires
        cut < i64::MIN,
    ensures
        expired_buckets(names, cut) == Seq::<Seq<char>>::empty(),
    decreases names.len(),
{
    if names.len() > 0 {
        lemma_nothing_expired(names.drop_last(), cut);
    }
}

/// One retention pass over ledgers `names` at the present instant, read from
/// the system clock.
pub fn expired_ledgers_now(policy: &RetentionPolicy, names: &Vec<String>) -> (r: Result<
    Vec<String>,
    ServiceError,
>)
    ensures
        exists|now: i64|
            match r {
                Ok(v) => #[trigger] retention_outcome(*policy, now as int, strings_view(names@))
                    == Ok::<Seq<Seq<char>>, ServiceError>(strings_view(v@)),
                Err(e) => retention_outcome(*policy, now as int, strings_view(names@)) == Err::<
                    Seq<Seq<char>>,
                    ServiceError,
                >(e),
            },
{
    let now = now_seconds();
    expired_ledgers(policy, now, names)
}

} // verus!
