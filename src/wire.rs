//! The text wire protocol of an ingestion request. A body is a run of records;
//! each record's lines run until the sentinel line `---[EOL]---`, which ends
//! it. The first line of a record is its header `<LEVEL> - <RFC 3339 timestamp>`;
//! the others are `KEY: value` fields, and `MESSAGE` takes every line after it.
//! Lines left after the last sentinel are not a record and are ignored.
//!
//! Batch policy: a batch is accepted whole or not at all. When a record's
//! header is malformed the batch is refused with the position of the first
//! such record, and nothing of it is stored.
use vstd::prelude::*;

use crate::clock::{bucket_of, day_bucket, parse_rfc3339, rfc3339_seconds};
use crate::error::ServiceError;
use crate::text::{chars_of, string_of, trim, trim_span};

verus! {

/// Severity of a log record.
#[derive(Debug, Clone, Copy, PartialEq, Eq, Structural)]
pub enum Level {
    Emergency,
    Alert,
    Critical,
    Error,
    Warning,
    Notice,
    Info,
    Debug,
    Unknown,
}

/// A parsed log record.
pub struct LogRecord {
    /// Unique, creation-time-ordered identifier.
    pub id: String,
    pub level: Level,
    /// The timestamp as written in the header, trimmed.
    pub timestamp: String,
    /// The timestamp in seconds since the Unix epoch.
    pub seconds: i64,
    /// The UTC date of the timestamp, `YYYY-MM-DD`.
    pub bucket: String,
    pub file: String,
    pub function: String,
    pub line: Option<u32>,
    pub message: String,
    /// Fields with keys outside the known set, in order of first appearance.
    pub custom: Vec<(String, String)>,
    pub branch: String,
    pub environment: String,
    pub category: String,
}

/// What a record's lines determine.
pub ghost struct Fields {
    pub level: Level,
    pub timestamp: Seq<char>,
    pub seconds: int,
    pub bucket: Seq<char>,
    pub file: Seq<char>,
    pub function: Seq<char>,
    pub line: Option<u32>,
    pub message: Seq<char>,
    pub custom: Seq<(Seq<char>, Seq<char>)>,
    pub branch: Seq<char>,
    pub category: Seq<char>,
}

pub open spec fn pairs_view(v: Seq<(String, String)>) -> Seq<(Seq<char>, Seq<char>)> {
    v.map_values(|p: (String, String)| (p.0@, p.1@))
}

pub open spec fn lines_view(v: Seq<Vec<char>>) -> Seq<Seq<char>> {
    v.map_values(|l: Vec<char>| l@)
}

impl LogRecord {
    pub open spec fn fields(&self) -> Fields {
        Fields {
            level: self.level,
            timestamp: self.timestamp@,
            seconds: self.seconds as int,
            bucket: self.bucket@,
            file: self.file@,
            function: self.function@,
            line: self.line,
            message: self.message@,
            custom: pairs_view(self.custom@),
            branch: self.branch@,
            category: self.category@,
        }
    }
}

/// The line that ends a record.
pub open spec fn sentinel() -> Seq<char> {
    "---[EOL]---"@
}

// ---------------------------------------------------------------- lines

pub open spec fn strip_cr(l: Seq<char>) -> Seq<char> {
    if l.len() > 0 && l.last() == '\r' {
        l.drop_last()
    } else {
        l
    }
}

/// Lines of `s` from a line that starts at `start`, scanning at `i`: split at
/// each line feed, with a carriage return before it dropped, and no empty line
/// after a final line feed.
pub open spec fn lines_scan(s: Seq<char>, start: int, i: int) -> Seq<Seq<char>>
    decreases s.len() - i,
{
    if i < 0 || i >= s.len() {
        if 0 <= start < s.len() {
            seq![strip_cr(s.subrange(start, s.len() as int))]
        } else {
            Seq::empty()
        }
    } else if s[i] == '\n' {
        seq![strip_cr(s.subrange(start, i))] + lines_scan(s, i + 1, i + 1)
    } else {
        lines_scan(s, start, i + 1)
    }
}

pub open spec fn lines_of(s: Seq<char>) -> Seq<Seq<char>> {
    lines_scan(s, 0, 0)
}

/// Records among `ls`, for a record whose header is line `start`, scanning at
/// line `i`. A record without its sentinel at the end of the body is dropped.
pub open spec fn groups_scan(ls: Seq<Seq<char>>, start: int, i: int) -> Seq<Seq<Seq<char>>>
    decreases ls.len() + 1 - i,
{
    if i < 0 || i >= ls.len() {
        Seq::empty()
    } else if ls[i] == sentinel() {
        seq![ls.subrange(start, i)] + groups_scan(ls, i + 1, i + 2)
    } else {
        groups_scan(ls, start, i + 1)
    }
}

/// The lines of each complete record among `ls`, sentinel excluded.
pub open spec fn groups_of(ls: Seq<Seq<char>>) -> Seq<Seq<Seq<char>>> {
    if ls.len() == 0 {
        Seq::empty()
    } else {
        groups_scan(ls, 0, 1)
    }
}

/// The lines of each complete record of a body, sentinel excluded.
pub open spec fn batch_records(body: Seq<char>) -> Seq<Seq<Seq<char>>> {
    groups_of(lines_of(body))
}

// ---------------------------------------------------------------- fields

/// Index of the first `c` in `s` at or after `from`, or `s.len()`.
pub open spec fn first_index_of(s: Seq<char>, c: char, from: int) -> int
    decreases s.len() - from,
{
    if from < 0 || from >= s.len() {
        s.len() as int
    } else if s[from] == c {
        from
    } else {
        first_index_of(s, c, from + 1)
    }
}

/// ASCII letters compare without regard to case.
pub open spec fn ci_eq(a: char, b: char) -> bool {
    a == b || ('a' <= a <= 'z' && a as u32 == b as u32 + 32) || ('A' <= a <= 'Z' && b as u32
        == a as u32 + 32)
}

/// `w` is the keyword `kw`, ignoring ASCII case.
pub open spec fn is_keyword(w: Seq<char>, kw: Seq<char>) -> bool {
    w.len() == kw.len() && forall|i: int| 0 <= i < w.len() ==> ci_eq(#[trigger] w[i], kw[i])
}

pub open spec fn level_of(w: Seq<char>) -> Level {
    if is_keyword(w, "EMERGENCY"@) {
        Level::Emergency
    } else if is_keyword(w, "ALERT"@) {
        Level::Alert
    } else if is_keyword(w, "CRITICAL"@) {
        Level::Critical
    } else if is_keyword(w, "ERROR"@) {
        Level::Error
    } else if is_keyword(w, "WARNING"@) {
        Level::Warning
    } else if is_keyword(w, "NOTICE"@) {
        Level::Notice
    } else if is_keyword(w, "INFORMATIONAL"@) {
        Level::Info
    } else if is_keyword(w, "DEBUG"@) {
        Level::Debug
    } else {
        Level::Unknown
    }
}

pub open spec fn is_digit(c: char) -> bool {
    '0' <= c <= '9'
}

/// The value of a run of decimal digits.
pub open spec fn decimal(s: Seq<char>) -> int
    decreases s.len(),
{
    if s.len() == 0 {
        0
    } else {
        decimal(s.drop_last()) * 10 + (s.last() as int - '0' as int)
    }
}

/// `s` as an unsigned 32-bit decimal, if it is one.
pub open spec fn unsigned_of(s: Seq<char>) -> Option<u32> {
    if s.len() > 0 && (forall|i: int| 0 <= i < s.len() ==> is_digit(#[trigger] s[i])) && decimal(s)
        <= u32::MAX {
        Some(decimal(s) as u32)
    } else {
        None
    }
}

/// The key of a field line: the trimmed text before its first colon.
pub open spec fn key_of(l: Seq<char>) -> Seq<char> {
    trim(l.subrange(0, first_index_of(l, ':', 0)))
}

/// The text after the first colon of a line; empty when it has none.
pub open spec fn after_colon(l: Seq<char>) -> Seq<char> {
    let k = first_index_of(l, ':', 0);
    if k < l.len() {
        l.subrange(k + 1, l.len() as int)
    } else {
        Seq::empty()
    }
}

/// Index of the first pair with key `k`, or `c.len()`.
pub open spec fn key_index(c: Seq<(Seq<char>, Seq<char>)>, k: Seq<char>, from: int) -> int
    decreases c.len() - from,
{
    if from < 0 || from >= c.len() {
        c.len() as int
    } else if c[from].0 == k {
        from
    } else {
        key_index(c, k, from + 1)
    }
}

/// Sets `k` to `v`, in place when `k` is present, else at the end.
pub open spec fn upsert(c: Seq<(Seq<char>, Seq<char>)>, k: Seq<char>, v: Seq<char>) -> Seq<
    (Seq<char>, Seq<char>),
> {
    let i = key_index(c, k, 0);
    if i < c.len() {
        c.update(i, (k, v))
    } else {
        c.push((k, v))
    }
}

/// The effect of one field line other than `MESSAGE`.
pub open spec fn apply_field(f: Fields, l: Seq<char>) -> Fields {
    let k = key_of(l);
    let v = trim(after_colon(l));
    if is_keyword(k, "FILE"@) {
        Fields { file: v, ..f }
    } else if is_keyword(k, "FUNCTION"@) {
        Fields { function: v, ..f }
    } else if is_keyword(k, "LINE"@) {
        Fields {
            line: Some(
                match unsigned_of(v) {
                    Some(n) => n,
                    None => 0u32,
                },
            ),
            ..f
        }
    } else if is_keyword(k, "CATEGORY"@) {
        Fields { category: v, ..f }
    } else if is_keyword(k, "BRANCH"@) {
        Fields { branch: v, ..f }
    } else {
        Fields { custom: upsert(f.custom, k, v), ..f }
    }
}

/// A line feed before each line from `j` on, joined.
pub open spec fn join_tail(ls: Seq<Seq<char>>, j: int) -> Seq<char>
    decreases ls.len() - j,
{
    if j < 0 || j >= ls.len() {
        Seq::empty()
    } else {
        seq!['\n'] + ls[j] + join_tail(ls, j + 1)
    }
}

/// The effect of the field lines of a record from line `i` on. Blank lines are
/// skipped; `MESSAGE` takes the rest of its own line and every later line.
pub open spec fn apply_lines(f: Fields, ls: Seq<Seq<char>>, i: int) -> Fields
    decreases ls.len() - i,
{
    if i < 0 || i >= ls.len() {
        f
    } else if trim(ls[i]).len() == 0 {
        apply_lines(f, ls, i + 1)
    } else if is_keyword(key_of(ls[i]), "MESSAGE"@) {
        Fields { message: trim(after_colon(ls[i]) + join_tail(ls, i + 1)), ..f }
    } else {
        apply_lines(apply_field(f, ls[i]), ls, i + 1)
    }
}

/// What a header line gives, or `None` when its timestamp is missing or bad.
pub open spec fn header_fields(h: Seq<char>) -> Option<Fields> {
    let d = first_index_of(h, '-', 0);
    let ts = trim(h.subrange(d + 1, h.len() as int));
    if d >= h.len() {
        None
    } else {
        match rfc3339_seconds(ts) {
            None => None,
            Some(secs) => match bucket_of(secs) {
                None => None,
                Some(b) => Some(
                    Fields {
                        level: level_of(trim(h.subrange(0, d))),
                        timestamp: ts,
                        seconds: secs,
                        bucket: b,
                        file: Seq::empty(),
                        function: Seq::empty(),
                        line: None,
                        message: Seq::empty(),
                        custom: Seq::empty(),
                        branch: Seq::empty(),
                        category: Seq::empty(),
                    },
                ),
            },
        }
    }
}

/// The fields of a record's lines, or `None` when its header is malformed.
pub open spec fn record_fields(ls: Seq<Seq<char>>) -> Option<Fields> {
    if ls.len() == 0 {
        None
    } else {
        match header_fields(ls[0]) {
            Some(f) => Some(apply_lines(f, ls, 1)),
            None => None,
        }
    }
}


// ---------------------------------------------------------------- exec

/// Relies on uuid's `Uuid::now_v7`, rendered by its `to_string`: a fresh
/// identifier that sorts by creation time. Nothing is known of the value.
#[verifier::external_body]
fn new_record_id() -> (r: String) {
    uuid::Uuid::now_v7().to_string()
}

fn push_all<T: Copy>(v: &mut Vec<T>, s: &[T], from: usize, to: usize)
    requires
        from <= to <= s@.len(),
    ensures
        final(v)@ == old(v)@ + s@.subrange(from as int, to as int),
{
    let ghost start = v@;
    let mut i: usize = from;
    while i < to
        invariant
            from <= i <= to,
            to <= s@.len(),
            v@ == start + s@.subrange(from as int, i as int),
        decreases to - i,
    {
        v.push(s[i]);
        i = i + 1;
        assert(v@ =~= start + s@.subrange(from as int, i as int));
    }
}

fn find_char(s: &[char], c: char, from: usize) -> (r: usize)
    requires
        from <= s@.len(),
    ensures
        r == first_index_of(s@, c, from as int),
        from <= r <= s@.len(),
{
    let mut i: usize = from;
    while i < s.len() && s[i] != c
        invariant
            from <= i <= s@.len(),
            first_index_of(s@, c, from as int) == first_index_of(s@, c, i as int),
        decreases s@.len() - i,
    {
        i = i + 1;
    }
    i
}

pub(crate) fn same_chars(a: &[char], b: &[char]) -> (r: bool)
    ensures
        r == (a@ == b@),
{
    if a.len() != b.len() {
        return false;
    }
    let mut i: usize = 0;
    while i < a.len()
        invariant
            a@.len() == b@.len(),
            i <= a@.len(),
            a@.subrange(0, i as int) == b@.subrange(0, i as int),
        decreases a@.len() - i,
    {
        if a[i] != b[i] {
            return false;
        }
        assert(a@.subrange(0, i + 1) =~= a@.subrange(0, i as int).push(a@[i as int]));
        assert(b@.subrange(0, i + 1) =~= b@.subrange(0, i as int).push(b@[i as int]));
        i = i + 1;
    }
    assert(a@.subrange(0, i as int) =~= a@);
    assert(b@.subrange(0, i as int) =~= b@);
    true
}

fn ci_eq_exec(a: char, b: char) -> (r: bool)
    ensures
        r == ci_eq(a, b),
{
    a == b || ('a' <= a && a <= 'z' && (a as u32) - 32 == (b as u32)) || ('A' <= a && a <= 'Z'
        && (b as u32) >= 32 && (b as u32) - 32 == (a as u32))
}

/// Whether `s[from..to]` is the keyword `kw`, ignoring ASCII case.
fn keyword_at(s: &[char], from: usize, to: usize, kw: &str) -> (r: bool)
    requires
        from <= to <= s@.len(),
    ensures
        r == is_keyword(s@.subrange(from as int, to as int), kw@),
{
    let k = chars_of(kw);
    let ghost w = s@.subrange(from as int, to as int);
    if to - from != k.len() {
        return false;
    }
    let mut i: usize = 0;
    while i < k.len()
        invariant
            w == s@.subrange(from as int, to as int),
            to - from == k@.len(),
            to <= s@.len(),
            k@ == kw@,
            i <= k@.len(),
            forall|t: int| 0 <= t < i ==> ci_eq(#[trigger] w[t], k@[t]),
        decreases k@.len() - i,
    {
        if !ci_eq_exec(s[from + i], k[i]) {
            assert(!ci_eq(w[i as int], k@[i as int]));
            return false;
        }
        i = i + 1;
    }
    true
}

fn level_at(s: &[char], from: usize, to: usize) -> (r: Level)
    requires
        from <= to <= s@.len(),
    ensures
        r == level_of(s@.subrange(from as int, to as int)),
{
    if keyword_at(s, from, to, "EMERGENCY") {
        Level::Emergency
    } else if keyword_at(s, from, to, "ALERT") {
        Level::Alert
    } else if keyword_at(s, from, to, "CRITICAL") {
        Level::Critical
    } else if keyword_at(s, from, to, "ERROR") {
        Level::Error
    } else if keyword_at(s, from, to, "WARNING") {
        Level::Warning
    } else if keyword_at(s, from, to, "NOTICE") {
        Level::Notice
    } else if keyword_at(s, from, to, "INFORMATIONAL") {
        Level::Info
    } else if keyword_at(s, from, to, "DEBUG") {
        Level::Debug
    } else {
        Level::Unknown
    }
}

/// Reads `s[from..to]` as an unsigned 32-bit decimal.
pub fn parse_unsigned(s: &[char], from: usize, to: usize) -> (r: Option<u32>)
    requires
        from <= to <= s@.len(),
    ensures
        r == unsigned_of(s@.subrange(from as int, to as int)),
{
    let ghost w = s@.subrange(from as int, to as int);
    if from == to {
        return None;
    }
    let mut acc: u32 = 0;
    let mut over = false;
    let mut i: usize = from;
    while i < to
        invariant
            w == s@.subrange(from as int, to as int),
            from <= i <= to,
            to <= s@.len(),
            forall|t: int| 0 <= t < i - from ==> is_digit(#[trigger] w[t]),
            !over ==> acc == decimal(w.subrange(0, i - from)),
            over ==> decimal(w.subrange(0, i - from)) > u32::MAX,
        decreases to - i,
    {
        let c = s[i];
        if !('0' <= c && c <= '9') {
            assert(!is_digit(w[i - from]));
            return None;
        }
        let d = (c as u32) - ('0' as u32);
        assert(w.subrange(0, i + 1 - from).drop_last() =~= w.subrange(0, i - from));
        if !over {
            if acc > 429496729 || (acc == 429496729 && d > 5) {
                over = true;
            } else {
                acc = acc * 10 + d;
            }
        }
        i = i + 1;
    }
    assert(w.subrange(0, i - from) =~= w);
    if over {
        None
    } else {
        Some(acc)
    }
}

/// `s[from..to]` without a final carriage return, as its own vector.
fn line_at(s: &[char], from: usize, to: usize) -> (r: Vec<char>)
    requires
        from <= to <= s@.len(),
    ensures
        r@ == strip_cr(s@.subrange(from as int, to as int)),
{
    let end = if to > from && s[to - 1] == '\r' {
        to - 1
    } else {
        to
    };
    let mut v: Vec<char> = Vec::new();
    push_all(&mut v, s, from, end);
    assert(v@ =~= strip_cr(s@.subrange(from as int, to as int)));
    v
}

/// Splits a body into lines at each line feed, dropping a carriage return
/// before it; a final line feed does not start an empty line.
pub fn split_lines(s: &[char]) -> (r: Vec<Vec<char>>)
    ensures
        lines_view(r@) == lines_of(s@),
{
    let mut out: Vec<Vec<char>> = Vec::new();
    let mut start: usize = 0;
    let mut i: usize = 0;
    while i < s.len()
        invariant
            start <= i <= s@.len(),
            lines_of(s@) == lines_view(out@) + lines_scan(s@, start as int, i as int),
        decreases s@.len() - i,
    {
        if s[i] == '\n' {
            let line = line_at(s, start, i);
            let ghost before = out@;
            out.push(line);
            assert(lines_view(out@) =~= lines_view(before).push(line@));
            assert(lines_view(before) + lines_scan(s@, start as int, i as int) =~= lines_view(out@)
                + lines_scan(s@, i + 1, i + 1));
            i = i + 1;
            start = i;
        } else {
            i = i + 1;
        }
    }
    if start < s.len() {
        let line = line_at(s, start, s.len());
        let ghost before = out@;
        out.push(line);
        assert(lines_view(out@) =~= lines_view(before).push(line@));
        assert(lines_view(out@) =~= lines_view(before) + lines_scan(s@, start as int, i as int));
    } else {
        assert(lines_view(out@) =~= lines_view(out@) + lines_scan(s@, start as int, i as int));
    }
    out
}

pub open spec fn ranges_view(ls: Seq<Seq<char>>, v: Seq<(usize, usize)>) -> Seq<Seq<Seq<char>>> {
    v.map_values(|p: (usize, usize)| ls.subrange(p.0 as int, p.1 as int))
}

/// Line ranges of the complete records among `lines`, sentinel excluded.
pub fn group_records(lines: &Vec<Vec<char>>) -> (r: Vec<(usize, usize)>)
    ensures
        forall|k: int| 0 <= k < r@.len() ==> (#[trigger] r@[k]).0 <= r@[k].1 <= lines@.len(),
        ranges_view(lines_view(lines@), r@) == groups_of(lines_view(lines@)),
{
    let ghost lv = lines_view(lines@);
    let mut out: Vec<(usize, usize)> = Vec::new();
    if lines.len() == 0 {
        assert(ranges_view(lv, out@) =~= groups_of(lv));
        return out;
    }
    let eol = chars_of("---[EOL]---");
    let mut start: usize = 0;
    let mut i: usize = 1;
    while i < lines.len()
        invariant
            lv == lines_view(lines@),
            eol@ == sentinel(),
            start < i <= lines@.len() || start == i == lines@.len(),
            forall|k: int| 0 <= k < out@.len() ==> (#[trigger] out@[k]).0 <= out@[k].1 <= lines@.len(),
            groups_of(lv) == ranges_view(lv, out@) + groups_scan(lv, start as int, i as int),
        decreases lines@.len() + 1 - i,
    {
        assert(lv[i as int] == lines@[i as int]@);
        if same_chars(lines[i].as_slice(), eol.as_slice()) {
            let ghost before = out@;
            out.push((start, i));
            assert(ranges_view(lv, out@) =~= ranges_view(lv, before).push(lv.subrange(start as int, i as int)));
            assert(ranges_view(lv, before) + groups_scan(lv, start as int, i as int) =~= ranges_view(lv, out@) + groups_scan(lv, i + 1, i + 2));
            start = i + 1;
            if start < lines.len() {
                i = start + 1;
            } else {
                i = start;
            }
        } else {
            i = i + 1;
        }
    }
    assert(ranges_view(lv, out@) + groups_scan(lv, start as int, i as int) =~= ranges_view(lv, out@));
    out
}

/// Sets the custom field `k` to `v`: in place when present, else at the end.
fn upsert_pair(c: &mut Vec<(String, String)>, k: String, v: String)
    ensures
        pairs_view(final(c)@) == upsert(pairs_view(old(c)@), k@, v@),
{
    let ghost pv = pairs_view(c@);
    let mut i: usize = 0;
    while i < c.len() && c[i].0 != k
        invariant
            pv == pairs_view(c@),
            i <= c@.len(),
            key_index(pv, k@, 0) == key_index(pv, k@, i as int),
        decreases c@.len() - i,
    {
        i = i + 1;
    }
    if i < c.len() {
        let ghost kv = k@;
        let ghost vv = v@;
        c.set(i, (k, v));
        assert(pairs_view(c@) =~= pv.update(i as int, (kv, vv)));
    } else {
        let ghost kv = k@;
        let ghost vv = v@;
        c.push((k, v));
        assert(pairs_view(c@) =~= pv.push((kv, vv)));
    }
}

/// Applies one field line other than `MESSAGE` to a record.
fn apply_field_line(rec: &mut LogRecord, l: &[char])
    ensures
        final(rec).fields() == apply_field(old(rec).fields(), l@),
        final(rec).id == old(rec).id,
        final(rec).environment == old(rec).environment,
{
    let c = find_char(l, ':', 0);
    let (ka, kb) = trim_span(l, 0, c);
    let vfrom = if c < l.len() {
        c + 1
    } else {
        l.len()
    };
    let (va, vb) = trim_span(l, vfrom, l.len());
    let ghost v = trim(after_colon(l@));
    assert(c < l@.len() ==> l@.subrange(vfrom as int, l@.len() as int) == after_colon(l@));
    assert(c >= l@.len() ==> l@.subrange(vfrom as int, l@.len() as int) =~= after_colon(l@));
    let value = string_of(l, va, vb);
    if keyword_at(l, ka, kb, "FILE") {
        rec.file = value;
    } else if keyword_at(l, ka, kb, "FUNCTION") {
        rec.function = value;
    } else if keyword_at(l, ka, kb, "LINE") {
        rec.line = Some(
            match parse_unsigned(l, va, vb) {
                Some(n) => n,
                None => 0,
            },
        );
    } else if keyword_at(l, ka, kb, "CATEGORY") {
        rec.category = value;
    } else if keyword_at(l, ka, kb, "BRANCH") {
        rec.branch = value;
    } else {
        let key = string_of(l, ka, kb);
        upsert_pair(&mut rec.custom, key, value);
    }
}

proof fn lemma_join_tail_shift(ls: Seq<Seq<char>>, k: int)
    requires
        0 <= k <= ls.len(),
    ensures
        join_tail(ls, k) == join_tail(ls.subrange(k, ls.len() as int), 0),
    decreases ls.len() - k,
{
    let m = ls.subrange(k, ls.len() as int);
    if k < ls.len() {
        lemma_join_tail_shift(ls, k + 1);
        lemma_join_tail_shift(m, 1);
        assert(m.subrange(1, m.len() as int) =~= ls.subrange(k + 1, ls.len() as int));
    }
}

/// The text of a `MESSAGE` field: the rest of its own line, `head`, then each
/// of `lines[from..to]` after a line feed, the whole block trimmed.
pub fn parse_log_message(head: &[char], lines: &Vec<Vec<char>>, from: usize, to: usize) -> (r:
    String)
    requires
        from <= to <= lines@.len(),
    ensures
        r@ == trim(head@ + join_tail(lines_view(lines@).subrange(from as int, to as int), 0)),
{
    let ghost m = lines_view(lines@).subrange(from as int, to as int);
    let mut block: Vec<char> = Vec::new();
    push_all(&mut block, head, 0, head.len());
    assert(head@.subrange(0, head@.len() as int) =~= head@);
    let mut j: usize = from;
    while j < to
        invariant
            m == lines_view(lines@).subrange(from as int, to as int),
            from <= j <= to,
            to <= lines@.len(),
            block@ + join_tail(m, j - from) == head@ + join_tail(m, 0),
        decreases to - j,
    {
        let ghost before = block@;
        block.push('\n');
        let line = &lines[j];
        push_all(&mut block, line.as_slice(), 0, line.len());
        assert(line@.subrange(0, line@.len() as int) =~= line@);
        assert(m[j - from] == line@);
        assert(block@ + join_tail(m, j + 1 - from) =~= before + join_tail(m, j - from));
        j = j + 1;
    }
    assert(block@ =~= block@ + join_tail(m, j - from));
    let (a, b) = trim_span(block.as_slice(), 0, block.len());
    assert(block@.subrange(0, block@.len() as int) =~= block@);
    string_of(block.as_slice(), a, b)
}

proof fn lemma_apply_lines_shift(f: Fields, ls: Seq<Seq<char>>, k: int)
    requires
        0 <= k <= ls.len(),
    ensures
        apply_lines(f, ls, k) == apply_lines(f, ls.subrange(k, ls.len() as int), 0),
    decreases ls.len() - k,
{
    let m = ls.subrange(k, ls.len() as int);
    if k < ls.len() {
        assert(m[0] == ls[k]);
        assert(m.subrange(1, m.len() as int) =~= ls.subrange(k + 1, ls.len() as int));
        lemma_apply_lines_shift(f, ls, k + 1);
        lemma_apply_lines_shift(f, m, 1);
        lemma_apply_lines_shift(apply_field(f, ls[k]), ls, k + 1);
        lemma_apply_lines_shift(apply_field(f, ls[k]), m, 1);
        lemma_join_tail_shift(ls, k + 1);
        lemma_join_tail_shift(m, 1);
    } else {
        assert(m.len() == 0);
    }
}

/// Applies the field lines `lines[from..to]` of a record, in order, to the
/// record built from its header: blank lines are skipped, `MESSAGE` takes the
/// rest of its own line and every later line, and other lines set a field.
pub fn apply_field_lines(rec: &mut LogRecord, lines: &Vec<Vec<char>>, from: usize, to: usize)
    requires
        from <= to <= lines@.len(),
    ensures
        final(rec).fields() == apply_lines(
            old(rec).fields(),
            lines_view(lines@).subrange(from as int, to as int),
            0,
        ),
        final(rec).id == old(rec).id,
        final(rec).environment == old(rec).environment,
{
    let ghost m = lines_view(lines@).subrange(from as int, to as int);
    let ghost goal = apply_lines(rec.fields(), m, 0);
    let ghost id = rec.id;
    let ghost env = rec.environment;
    let mut j: usize = from;
    let mut done = false;
    while j < to && !done
        invariant
            m == lines_view(lines@).subrange(from as int, to as int),
            from <= j <= to,
            to <= lines@.len(),
            rec.id == id,
            rec.environment == env,
            !done ==> goal == apply_lines(rec.fields(), m, j - from),
            done ==> goal == rec.fields(),
        decreases to - j, if done { 0int } else { 1int },
    {
        let l = lines[j].as_slice();
        assert(m[j - from] == l@);
        let (a, b) = trim_span(l, 0, l.len());
        assert(l@.subrange(0, l@.len() as int) =~= l@);
        if a == b {
            j = j + 1;
        } else {
            let c = find_char(l, ':', 0);
            let (ka, kb) = trim_span(l, 0, c);
            if keyword_at(l, ka, kb, "MESSAGE") {
                let hfrom = if c < l.len() {
                    c + 1
                } else {
                    l.len()
                };
                let ghost before = rec.fields();
                let mut head: Vec<char> = Vec::new();
                push_all(&mut head, l, hfrom, l.len());
                assert(head@ =~= after_colon(l@));
                rec.message = parse_log_message(head.as_slice(), lines, j + 1, to);
                proof {
                    lemma_join_tail_shift(m, j + 1 - from);
                    assert(m.subrange(j + 1 - from, m.len() as int) =~= lines_view(
                        lines@,
                    ).subrange(j + 1, to as int));
                    assert(rec.fields() =~= apply_lines(before, m, j - from));
                }
                done = true;
            } else {
                apply_field_line(rec, l);
                j = j + 1;
            }
        }
    }
}

/// Parses the record made of `lines[start..end]`, the `index`-th of its batch,
/// stamping it with a fresh identifier and the batch's environment.
pub fn parse_record(lines: &Vec<Vec<char>>, start: usize, end: usize, index: usize, env: &str) -> (r:
    Result<LogRecord, ServiceError>)
    requires
        start <= end <= lines@.len(),
    ensures
        match r {
            Ok(rec) => record_fields(lines_view(lines@).subrange(start as int, end as int)) == Some(
                rec.fields(),
            ) && rec.environment@ == env@,
            Err(e) => record_fields(lines_view(lines@).subrange(start as int, end as int)).is_none()
                && e == (ServiceError::ParseError { index }),
        },
{
    let ghost ls = lines_view(lines@).subrange(start as int, end as int);
    if start == end {
        return Err(ServiceError::ParseError { index });
    }
    let h = lines[start].as_slice();
    assert(ls[0] == h@);
    let d = find_char(h, '-', 0);
    if d >= h.len() {
        return Err(ServiceError::ParseError { index });
    }
    let (ta, tb) = trim_span(h, d + 1, h.len());
    let timestamp = string_of(h, ta, tb);
    let seconds = match parse_rfc3339(timestamp.as_str()) {
        Some(t) => t,
        None => {
            return Err(ServiceError::ParseError { index });
        },
    };
    let bucket = match day_bucket(seconds) {
        Some(b) => b,
        None => {
            return Err(ServiceError::ParseError { index });
        },
    };
    let (la, lb) = trim_span(h, 0, d);
    let level = level_at(h, la, lb);
    let env_chars = chars_of(env);
    let mut rec = LogRecord {
        id: new_record_id(),
        level,
        timestamp,
        seconds,
        bucket,
        file: String::new(),
        function: String::new(),
        line: None,
        message: String::new(),
        custom: Vec::new(),
        branch: String::new(),
        environment: string_of(env_chars.as_slice(), 0, env_chars.len()),
        category: String::new(),
    };
    assert(env_chars@.subrange(0, env_chars@.len() as int) =~= env@);
    assert(pairs_view(rec.custom@) =~= Seq::<(Seq<char>, Seq<char>)>::empty());
    assert(header_fields(h@) == Some(rec.fields()));
    assert(record_fields(ls) == Some(apply_lines(rec.fields(), ls, 1)));
    proof {
        lemma_apply_lines_shift(rec.fields(), ls, 1);
        assert(ls.subrange(1, ls.len() as int) =~= lines_view(lines@).subrange(
            start + 1,
            end as int,
        ));
    }
    apply_field_lines(&mut rec, lines, start + 1, end);
    Ok(rec)
}

/// Parses a request body into its records, each stamped with a fresh
/// identifier and the environment `env`. The batch is refused whole, with the
/// position of its first malformed record, when any record's header is
/// malformed.
pub fn parse_batch(body: &str, env: &str) -> (r: Result<Vec<LogRecord>, ServiceError>)
    ensures
        match r {
            Ok(recs) => {
                &&& recs@.len() == batch_records(body@).len()
                &&& forall|t: int|
                    0 <= t < recs@.len() ==> record_fields(batch_records(body@)[t]) == Some(
                        (#[trigger] recs@[t]).fields(),
                    ) && recs@[t].environment@ == env@
            },
            Err(e) => exists|t: int|
                0 <= t < batch_records(body@).len() && e == (ServiceError::ParseError {
                    index: t as usize,
                }) && record_fields(#[trigger] batch_records(body@)[t]).is_none() && forall|u: int|
                    0 <= u < t ==> record_fields(#[trigger] batch_records(body@)[u]).is_some(),
        },
{
    let cs = chars_of(body);
    let lines = split_lines(cs.as_slice());
    let groups = group_records(&lines);
    let ghost lv = lines_view(lines@);
    let ghost g = batch_records(body@);
    assert(g == ranges_view(lv, groups@));
    let mut out: Vec<LogRecord> = Vec::new();
    let mut k: usize = 0;
    while k < groups.len()
        invariant
            g == ranges_view(lv, groups@),
            g == batch_records(body@),
            lv == lines_view(lines@),
            forall|q: int| 0 <= q < groups@.len() ==> (#[trigger] groups@[q]).0 <= groups@[q].1 <= lines@.len(),
            k <= groups@.len(),
            out@.len() == k,
            forall|t: int|
                0 <= t < k ==> record_fields(g[t]) == Some((#[trigger] out@[t]).fields())
                    && out@[t].environment@ == env@,
        decreases groups@.len() - k,
    {
        let (a, b) = groups[k];
        assert(g[k as int] == lv.subrange(a as int, b as int));
        match parse_record(&lines, a, b, k, env) {
            Ok(rec) => {
                out.push(rec);
            },
            Err(e) => {
                assert(record_fields(g[k as int]).is_none());
                assert forall|u: int| 0 <= u < k implies record_fields(
                    #[trigger] g[u],
                ).is_some() by {
                    assert(record_fields(g[u]) == Some(out@[u].fields()));
                }
                assert(g.len() == groups@.len());
                assert(e == (ServiceError::ParseError { index: (k as int) as usize }));
                return Err(e);
            },
        }
        k = k + 1;
    }
    Ok(out)
}


// ---------------------------------------------------------------- laws

/// Field lines never make a record fail: whether it parses depends on its
/// header line alone.
pub proof fn lemma_fields_never_fail(ls: Seq<Seq<char>>)
    requires
        ls.len() > 0,
    ensures
        record_fields(ls).is_some() == header_fields(ls[0]).is_some(),
{
}

/// A `LINE` field whose value is not an unsigned decimal sets the line to 0.
pub proof fn lemma_malformed_line_is_zero(f: Fields, l: Seq<char>)
    requires
        is_keyword(key_of(l), "LINE"@),
        unsigned_of(trim(after_colon(l))).is_none(),
    ensures
        apply_field(f, l).line == Some(0u32),
{
    reveal_strlit("LINE");
    reveal_strlit("FILE");
    reveal_strlit("FUNCTION");
    let k = key_of(l);
    assert(ci_eq(k[0], 'L'));
    assert(!is_keyword(k, "FILE"@)) by {
        if is_keyword(k, "FILE"@) {
            assert(ci_eq(k[0], 'F'));
        }
    }
}

} // verus!
