//! Binary keychain of one application: a header `{version: u32, active_count: u32}`
//! (big-endian) followed by fixed records `{flag: u8, key: [u8; 64]}`.
//! Records are never removed: revoking a key clears its flag in place.
use vstd::prelude::*;

use crate::error::ServiceError;

verus! {

/// Format version written by this library; the only one it reads.
pub const KEYCHAIN_VERSION: u32 = 1;

/// Bytes of the header.
pub const HEADER_LEN: usize = 8;

/// Bytes of a key.
pub const KEY_LEN: usize = 64;

/// Bytes of one record: the flag, then the key.
pub const RECORD_LEN: usize = 65;

/// Flag byte of an active record; any other value marks a tombstone.
pub const FLAG_ACTIVE: u8 = 1;

/// Flag byte written when a record is revoked.
pub const FLAG_REVOKED: u8 = 0;

/// One record as handed to `encode_header_and_records`.
pub struct KeyRecord {
    pub active: bool,
    pub key: Vec<u8>,
}

impl View for KeyRecord {
    type V = (bool, Seq<u8>);

    open spec fn view(&self) -> (bool, Seq<u8>) {
        (self.active, self.key@)
    }
}

// ---------------------------------------------------------------- model

/// The big-endian `u32` stored at `at`.
pub open spec fn be_u32_at(b: Seq<u8>, at: int) -> int {
    b[at] * 16777216 + b[at + 1] * 65536 + b[at + 2] * 256 + b[at + 3]
}

/// The four big-endian bytes of `n`.
pub open spec fn be_bytes(n: u32) -> Seq<u8> {
    seq![
        (n / 16777216) as u8,
        ((n / 65536) % 256) as u8,
        ((n / 256) % 256) as u8,
        (n % 256) as u8,
    ]
}

pub open spec fn header_version(b: Seq<u8>) -> int {
    be_u32_at(b, 0)
}

pub open spec fn header_count(b: Seq<u8>) -> int {
    be_u32_at(b, 4)
}

/// The header is present and of the supported version.
pub open spec fn header_ok(b: Seq<u8>) -> bool {
    b.len() >= HEADER_LEN && header_version(b) == KEYCHAIN_VERSION
}

/// Keys of the active records met scanning from `pos`, stopping once `need`
/// of them are collected; `None` when the image ends first.
pub open spec fn scan_active(b: Seq<u8>, pos: int, need: int) -> Option<Seq<Seq<u8>>>
    decreases b.len() - pos,
{
    if need <= 0 {
        Some(Seq::empty())
    } else if pos < 0 || pos + RECORD_LEN > b.len() {
        None
    } else {
        let active = b[pos] == FLAG_ACTIVE;
        match scan_active(b, pos + RECORD_LEN, if active { need - 1 } else { need }) {
            Some(rest) => Some(
                if active {
                    seq![b.subrange(pos + 1, pos + RECORD_LEN)] + rest
                } else {
                    rest
                },
            ),
            None => None,
        }
    }
}

/// The active keys of a keychain image, in file order; `None` when the image is corrupt.
pub open spec fn decoded_keys(b: Seq<u8>) -> Option<Seq<Seq<u8>>> {
    if !header_ok(b) {
        None
    } else {
        scan_active(b, HEADER_LEN as int, header_count(b))
    }
}

/// `b` with the header's count replaced by `n`.
pub open spec fn with_count(b: Seq<u8>, n: u32) -> Seq<u8> {
    b.subrange(0, 4) + be_bytes(n) + b.subrange(8, b.len() as int)
}

pub open spec fn record_bytes(active: bool, key: Seq<u8>) -> Seq<u8> {
    seq![if active { FLAG_ACTIVE } else { FLAG_REVOKED }] + key
}

/// The records laid out one after the other.
pub open spec fn records_bytes(rs: Seq<(bool, Seq<u8>)>) -> Seq<u8>
    decreases rs.len(),
{
    if rs.len() == 0 {
        Seq::empty()
    } else {
        record_bytes(rs[0].0, rs[0].1) + records_bytes(rs.drop_first())
    }
}

/// Keys of the active records, in order.
pub open spec fn active_keys(rs: Seq<(bool, Seq<u8>)>) -> Seq<Seq<u8>>
    decreases rs.len(),
{
    if rs.len() == 0 {
        Seq::empty()
    } else if rs[0].0 {
        seq![rs[0].1] + active_keys(rs.drop_first())
    } else {
        active_keys(rs.drop_first())
    }
}

/// The image of a keychain holding exactly these records.
pub open spec fn encoded(rs: Seq<(bool, Seq<u8>)>) -> Seq<u8> {
    be_bytes(KEYCHAIN_VERSION) + be_bytes(active_keys(rs).len() as u32) + records_bytes(rs)
}

/// The image can take one more record: it is empty (a new keychain), or it
/// has a supported header, whole records and room in its count.
pub open spec fn accepts_record(b: Seq<u8>) -> bool {
    b.len() == 0 || (header_ok(b) && (b.len() - HEADER_LEN) % (RECORD_LEN as int) == 0
        && header_count(b) < u32::MAX)
}

/// Why appending `key` to `b` is refused, if it is.
pub open spec fn append_refusal(b: Seq<u8>, key: Seq<u8>) -> Option<ServiceError> {
    if key.len() != KEY_LEN {
        Some(ServiceError::ValidationError)
    } else if !accepts_record(b) {
        Some(ServiceError::CorruptStore)
    } else {
        None
    }
}

/// The image after appending `key` as a new active record; an empty image is a new keychain.
pub open spec fn appended(b: Seq<u8>, key: Seq<u8>) -> Seq<u8> {
    if b.len() == 0 {
        be_bytes(KEYCHAIN_VERSION) + be_bytes(1) + record_bytes(true, key)
    } else {
        with_count(b, (header_count(b) + 1) as u32) + record_bytes(true, key)
    }
}

pub open spec fn is_ascii_space(c: u8) -> bool {
    c == 0x20u8 || c == 0x09u8 || c == 0x0Au8 || c == 0x0Cu8 || c == 0x0Du8
}

pub open spec fn trim_start_bytes(s: Seq<u8>) -> Seq<u8>
    decreases s.len(),
{
    if s.len() > 0 && is_ascii_space(s[0]) {
        trim_start_bytes(s.drop_first())
    } else {
        s
    }
}

pub open spec fn trim_end_bytes(s: Seq<u8>) -> Seq<u8>
    decreases s.len(),
{
    if s.len() > 0 && is_ascii_space(s.last()) {
        trim_end_bytes(s.drop_last())
    } else {
        s
    }
}

/// `s` without leading and trailing ASCII whitespace.
pub open spec fn trim_bytes(s: Seq<u8>) -> Seq<u8> {
    trim_end_bytes(trim_start_bytes(s))
}

/// Number of whole records after the header.
pub open spec fn record_total(b: Seq<u8>) -> int {
    (b.len() - HEADER_LEN) / (RECORD_LEN as int)
}

pub open spec fn record_key(b: Seq<u8>, k: int) -> Seq<u8> {
    b.subrange(HEADER_LEN + RECORD_LEN * k + 1, HEADER_LEN + RECORD_LEN * k + RECORD_LEN)
}

/// Record `k` is active and its trimmed key equals the trimmed target.
pub open spec fn record_matches(b: Seq<u8>, k: int, target: Seq<u8>) -> bool {
    b[HEADER_LEN + RECORD_LEN * k] == FLAG_ACTIVE && trim_bytes(record_key(b, k)) == trim_bytes(
        target,
    )
}

/// The first record at or after `k` that matches the target.
pub open spec fn first_match_from(b: Seq<u8>, target: Seq<u8>, k: int) -> Option<int>
    decreases record_total(b) - k,
{
    if k < 0 || k >= record_total(b) {
        None
    } else if record_matches(b, k, target) {
        Some(k)
    } else {
        first_match_from(b, target, k + 1)
    }
}

pub open spec fn first_match(b: Seq<u8>, target: Seq<u8>) -> Option<int> {
    first_match_from(b, target, 0)
}

/// The image after tombstoning record `k`.
pub open spec fn revoked(b: Seq<u8>, k: int) -> Seq<u8> {
    with_count(b, (header_count(b) - 1) as u32).update(HEADER_LEN + RECORD_LEN * k, FLAG_REVOKED)
}

/// What `revoke_key` returns on `b`.
pub open spec fn revoke_outcome(b: Seq<u8>, target: Seq<u8>) -> Result<bool, ServiceError> {
    if !header_ok(b) {
        Err(ServiceError::CorruptStore)
    } else {
        match first_match(b, target) {
            None => Ok(false),
            Some(_) => if header_count(b) == 0 {
                Err(ServiceError::CorruptStore)
            } else {
                Ok(true)
            },
        }
    }
}

pub open spec fn keys_view(v: Seq<Vec<u8>>) -> Seq<Seq<u8>> {
    v.map_values(|k: Vec<u8>| k@)
}

// ---------------------------------------------------------------- lemmas

/// Reading back the four big-endian bytes of `n` gives `n`.
pub proof fn lemma_be_round_trip(n: u32)
    ensures
        be_u32_at(be_bytes(n), 0) == n,
        be_bytes(n).len() == 4,
{
    let b = be_bytes(n);
    assert(b[0] == n / 16777216);
    assert(b[1] == (n / 65536) % 256);
    assert(b[2] == (n / 256) % 256);
    assert(b[3] == n % 256);
    assert((n / 16777216) * 16777216 + ((n / 65536) % 256) * 65536 + ((n / 256) % 256) * 256 + n
        % 256 == n) by (nonlinear_arith);
}

/// Scanning the encoded records, from any prefix, yields their active keys.
proof fn lemma_scan_records(p: Seq<u8>, rs: Seq<(bool, Seq<u8>)>)
    requires
        forall|i: int| 0 <= i < rs.len() ==> (#[trigger] rs[i]).1.len() == KEY_LEN,
    ensures
        scan_active(p + records_bytes(rs), p.len() as int, active_keys(rs).len() as int) == Some(
            active_keys(rs),
        ),
        records_bytes(rs).len() == RECORD_LEN * rs.len(),
    decreases rs.len(),
{
    if rs.len() > 0 {
        let r = rs[0];
        let tail = rs.drop_first();
        let head = record_bytes(r.0, r.1);
        assert forall|i: int| 0 <= i < tail.len() implies (#[trigger] tail[i]).1.len()
            == KEY_LEN by {
            assert(tail[i] == rs[i + 1]);
        }
        lemma_scan_records(p + head, tail);
        let b = p + records_bytes(rs);
        assert(b =~= (p + head) + records_bytes(tail));
        assert(b[p.len() as int] == head[0]);
        assert(b.subrange(p.len() as int + 1, p.len() + RECORD_LEN) =~= r.1);
    }
}

/// Decoding the image of a record list yields exactly its active keys, in
/// order, whatever tombstones lie between them.
pub proof fn lemma_decode_encode(rs: Seq<(bool, Seq<u8>)>)
    requires
        forall|i: int| 0 <= i < rs.len() ==> (#[trigger] rs[i]).1.len() == KEY_LEN,
        rs.len() <= u32::MAX,
    ensures
        decoded_keys(encoded(rs)) == Some(active_keys(rs)),
{
    let n = active_keys(rs).len();
    lemma_active_keys_len(rs);
    let h = be_bytes(KEYCHAIN_VERSION) + be_bytes(n as u32);
    lemma_be_round_trip(KEYCHAIN_VERSION);
    lemma_be_round_trip(n as u32);
    lemma_scan_records(h, rs);
    let b = encoded(rs);
    assert(b =~= h + records_bytes(rs));
    assert(b.subrange(0, 4) =~= be_bytes(KEYCHAIN_VERSION));
    assert(b.subrange(4, 8) =~= be_bytes(n as u32));
    assert(header_version(b) == be_u32_at(be_bytes(KEYCHAIN_VERSION), 0));
    assert(header_count(b) == be_u32_at(be_bytes(n as u32), 0));
}

/// There are no more active keys than records.
pub proof fn lemma_active_keys_len(rs: Seq<(bool, Seq<u8>)>)
    ensures
        active_keys(rs).len() <= rs.len(),
    decreases rs.len(),
{
    if rs.len() > 0 {
        lemma_active_keys_len(rs.drop_first());
    }
}

/// Laying out one more record appends its bytes, and its key when active.
pub proof fn lemma_records_snoc(rs: Seq<(bool, Seq<u8>)>, r: (bool, Seq<u8>))
    ensures
        records_bytes(rs.push(r)) == records_bytes(rs) + record_bytes(r.0, r.1),
        active_keys(rs.push(r)) == if r.0 {
            active_keys(rs).push(r.1)
        } else {
            active_keys(rs)
        },
    decreases rs.len(),
{
    if rs.len() == 0 {
        assert(rs.push(r).drop_first() =~= rs);
        assert(records_bytes(rs.push(r)) =~= records_bytes(rs) + record_bytes(r.0, r.1));
        assert(active_keys(rs.push(r)) =~= if r.0 {
            active_keys(rs).push(r.1)
        } else {
            active_keys(rs)
        });
    } else {
        lemma_records_snoc(rs.drop_first(), r);
        assert(rs.push(r).drop_first() =~= rs.drop_first().push(r));
        assert(records_bytes(rs.push(r)) =~= records_bytes(rs) + record_bytes(r.0, r.1));
        assert(active_keys(rs.push(r)) =~= if r.0 {
            active_keys(rs).push(r.1)
        } else {
            active_keys(rs)
        });
    }
}


/// The header's count of an image; an empty image holds no keys.
pub open spec fn image_count(b: Seq<u8>) -> int {
    if b.len() == 0 {
        0
    } else {
        header_count(b)
    }
}

/// The image after appending each of `keys` in turn.
pub open spec fn append_all(b: Seq<u8>, keys: Seq<Seq<u8>>) -> Seq<u8>
    decreases keys.len(),
{
    if keys.len() == 0 {
        b
    } else {
        append_all(appended(b, keys[0]), keys.drop_first())
    }
}

proof fn lemma_append_header(b: Seq<u8>, key: Seq<u8>)
    requires
        append_refusal(b, key).is_none(),
    ensures
        header_ok(appended(b, key)),
        header_count(appended(b, key)) == image_count(b) + 1,
        (appended(b, key).len() - HEADER_LEN) % (RECORD_LEN as int) == 0,
        appended(b, key).len() == if b.len() == 0 {
            HEADER_LEN + RECORD_LEN
        } else {
            b.len() + RECORD_LEN
        },
{
    let a = appended(b, key);
    lemma_be_round_trip(KEYCHAIN_VERSION);
    if b.len() == 0 {
        lemma_be_round_trip(1);
        assert(a.subrange(0, 4) =~= be_bytes(KEYCHAIN_VERSION));
        assert(a.subrange(4, 8) =~= be_bytes(1));
        assert(header_version(a) == be_u32_at(be_bytes(KEYCHAIN_VERSION), 0));
        assert(header_count(a) == be_u32_at(be_bytes(1), 0));
    } else {
        let n = (header_count(b) + 1) as u32;
        lemma_be_round_trip(n);
        assert(a.subrange(0, 4) =~= b.subrange(0, 4));
        assert(a.subrange(4, 8) =~= be_bytes(n));
        assert(header_version(a) == header_version(b));
        assert(header_count(a) == be_u32_at(be_bytes(n), 0));
        assert((a.len() - HEADER_LEN) == (b.len() - HEADER_LEN) + RECORD_LEN);
    }
}

/// Key creations on one keychain never lose an update: after each of `keys` is
/// appended in turn, the header counts exactly `keys.len()` more active keys.
pub proof fn lemma_creations_add_up(b: Seq<u8>, keys: Seq<Seq<u8>>)
    requires
        b.len() == 0 || (header_ok(b) && (b.len() - HEADER_LEN) % (RECORD_LEN as int) == 0),
        forall|i: int| 0 <= i < keys.len() ==> (#[trigger] keys[i]).len() == KEY_LEN,
        image_count(b) + keys.len() <= u32::MAX,
    ensures
        image_count(append_all(b, keys)) == image_count(b) + keys.len(),
    decreases keys.len(),
{
    if keys.len() > 0 {
        assert(keys[0].len() == KEY_LEN);
        assert(append_refusal(b, keys[0]).is_none());
        lemma_append_header(b, keys[0]);
        let rest = keys.drop_first();
        assert forall|i: int| 0 <= i < rest.len() implies (#[trigger] rest[i]).len() == KEY_LEN by {
            assert(rest[i] == keys[i + 1]);
        }
        lemma_creations_add_up(appended(b, keys[0]), rest);
    }
}

/// Every record takes 65 bytes.
pub proof fn lemma_records_len(rs: Seq<(bool, Seq<u8>)>)
    requires
        forall|i: int| 0 <= i < rs.len() ==> (#[trigger] rs[i]).1.len() == KEY_LEN,
    ensures
        records_bytes(rs).len() == RECORD_LEN * rs.len(),
    decreases rs.len(),
{
    if rs.len() > 0 {
        let tail = rs.drop_first();
        assert forall|i: int| 0 <= i < tail.len() implies (#[trigger] tail[i]).1.len()
            == KEY_LEN by {
            assert(tail[i] == rs[i + 1]);
        }
        lemma_records_len(tail);
    }
}

/// Record `j` of the laid-out records sits at offset `65 * j`.
proof fn lemma_records_slice(rs: Seq<(bool, Seq<u8>)>, j: int)
    requires
        forall|i: int| 0 <= i < rs.len() ==> (#[trigger] rs[i]).1.len() == KEY_LEN,
        0 <= j < rs.len(),
    ensures
        records_bytes(rs).subrange(RECORD_LEN * j, RECORD_LEN * j + RECORD_LEN) == record_bytes(
            rs[j].0,
            rs[j].1,
        ),
    decreases j,
{
    let tail = rs.drop_first();
    assert forall|i: int| 0 <= i < tail.len() implies (#[trigger] tail[i]).1.len() == KEY_LEN by {
        assert(tail[i] == rs[i + 1]);
    }
    lemma_records_len(tail);
    let head = record_bytes(rs[0].0, rs[0].1);
    if j == 0 {
        assert(records_bytes(rs).subrange(0, RECORD_LEN as int) =~= head);
    } else {
        lemma_records_slice(tail, j - 1);
        assert(tail[j - 1] == rs[j]);
        assert(records_bytes(rs).subrange(RECORD_LEN * j, RECORD_LEN * j + RECORD_LEN)
            =~= records_bytes(tail).subrange(RECORD_LEN * (j - 1), RECORD_LEN * (j - 1) + RECORD_LEN));
    }
}

/// Flag and key of record `j` of an encoded image.
pub proof fn lemma_encoded_record(rs: Seq<(bool, Seq<u8>)>, j: int)
    requires
        forall|i: int| 0 <= i < rs.len() ==> (#[trigger] rs[i]).1.len() == KEY_LEN,
        0 <= j < rs.len(),
    ensures
        encoded(rs).len() == HEADER_LEN + RECORD_LEN * rs.len(),
        record_total(encoded(rs)) == rs.len(),
        encoded(rs)[HEADER_LEN + RECORD_LEN * j] == (if rs[j].0 {
            FLAG_ACTIVE
        } else {
            FLAG_REVOKED
        }),
        record_key(encoded(rs), j) == rs[j].1,
{
    lemma_records_len(rs);
    lemma_records_slice(rs, j);
    let b = encoded(rs);
    let h = be_bytes(KEYCHAIN_VERSION) + be_bytes(active_keys(rs).len() as u32);
    assert(b =~= h + records_bytes(rs));
    let s = records_bytes(rs).subrange(RECORD_LEN * j, RECORD_LEN * j + RECORD_LEN);
    assert(b[HEADER_LEN + RECORD_LEN * j] == s[0]);
    assert(record_key(b, j) =~= s.subrange(1, RECORD_LEN as int));
    assert(record_bytes(rs[j].0, rs[j].1).subrange(1, RECORD_LEN as int) =~= rs[j].1);
    assert((RECORD_LEN * rs.len()) / (RECORD_LEN as int) == rs.len()) by (nonlinear_arith);
}

/// Appending to an encoded image encodes the records with the new one last.
pub proof fn lemma_appended_encoded(rs: Seq<(bool, Seq<u8>)>, key: Seq<u8>)
    requires
        forall|i: int| 0 <= i < rs.len() ==> (#[trigger] rs[i]).1.len() == KEY_LEN,
        key.len() == KEY_LEN,
        active_keys(rs).len() < u32::MAX,
    ensures
        appended(encoded(rs), key) == encoded(rs.push((true, key))),
{
    let n = active_keys(rs).len();
    lemma_records_snoc(rs, (true, key));
    lemma_be_round_trip(n as u32);
    let b = encoded(rs);
    let h = be_bytes(KEYCHAIN_VERSION) + be_bytes(n as u32);
    assert(b =~= h + records_bytes(rs));
    assert(b.subrange(4, 8) =~= be_bytes(n as u32));
    assert(header_count(b) == n);
    assert(b.subrange(0, 4) =~= be_bytes(KEYCHAIN_VERSION));
    assert(b.subrange(8, b.len() as int) =~= records_bytes(rs));
    assert(appended(b, key) =~= encoded(rs.push((true, key))));
}

/// Tombstoning a record in the laid-out records clears its flag byte.
proof fn lemma_records_update(rs: Seq<(bool, Seq<u8>)>, k: int)
    requires
        forall|i: int| 0 <= i < rs.len() ==> (#[trigger] rs[i]).1.len() == KEY_LEN,
        0 <= k < rs.len(),
    ensures
        records_bytes(rs.update(k, (false, rs[k].1))) == records_bytes(rs).update(
            RECORD_LEN * k,
            FLAG_REVOKED,
        ),
    decreases k,
{
    let u = rs.update(k, (false, rs[k].1));
    let tail = rs.drop_first();
    assert forall|i: int| 0 <= i < tail.len() implies (#[trigger] tail[i]).1.len() == KEY_LEN by {
        assert(tail[i] == rs[i + 1]);
    }
    if k == 0 {
        assert(u.drop_first() =~= tail);
        assert(records_bytes(u) =~= records_bytes(rs).update(0, FLAG_REVOKED));
    } else {
        lemma_records_update(tail, k - 1);
        lemma_records_len(tail);
        assert(u.drop_first() =~= tail.update(k - 1, (false, tail[k - 1].1)));
        assert(u[0] == rs[0]);
        let head = record_bytes(rs[0].0, rs[0].1);
        assert(head.len() == RECORD_LEN);
        assert(records_bytes(rs) == head + records_bytes(tail));
        assert(records_bytes(u) == head + records_bytes(tail).update(RECORD_LEN * (k - 1), FLAG_REVOKED));
        assert(records_bytes(u) =~= records_bytes(rs).update(RECORD_LEN * k, FLAG_REVOKED));
    }
}

/// Tombstoning an active record leaves one active key fewer.
pub proof fn lemma_active_keys_update(rs: Seq<(bool, Seq<u8>)>, k: int)
    requires
        0 <= k < rs.len(),
        rs[k].0,
    ensures
        active_keys(rs.update(k, (false, rs[k].1))).len() == active_keys(rs).len() - 1,
    decreases k,
{
    let u = rs.update(k, (false, rs[k].1));
    if k == 0 {
        assert(u.drop_first() =~= rs.drop_first());
    } else {
        lemma_active_keys_update(rs.drop_first(), k - 1);
        assert(u.drop_first() =~= rs.drop_first().update(k - 1, (false, rs[k].1)));
    }
}

/// The header of an encoded image: supported version, the number of active
/// records, whole records after it.
pub proof fn lemma_encoded_header(rs: Seq<(bool, Seq<u8>)>)
    requires
        forall|i: int| 0 <= i < rs.len() ==> (#[trigger] rs[i]).1.len() == KEY_LEN,
        rs.len() <= u32::MAX,
    ensures
        header_ok(encoded(rs)),
        header_count(encoded(rs)) == active_keys(rs).len(),
        encoded(rs).len() == HEADER_LEN + RECORD_LEN * rs.len(),
        (encoded(rs).len() - HEADER_LEN) % (RECORD_LEN as int) == 0,
{
    let n = active_keys(rs).len();
    lemma_active_keys_len(rs);
    lemma_records_len(rs);
    lemma_be_round_trip(KEYCHAIN_VERSION);
    lemma_be_round_trip(n as u32);
    let b = encoded(rs);
    let h = be_bytes(KEYCHAIN_VERSION) + be_bytes(n as u32);
    assert(b =~= h + records_bytes(rs));
    assert(b.subrange(0, 4) =~= be_bytes(KEYCHAIN_VERSION));
    assert(b.subrange(4, 8) =~= be_bytes(n as u32));
    assert(header_version(b) == be_u32_at(be_bytes(KEYCHAIN_VERSION), 0));
    assert(header_count(b) == be_u32_at(be_bytes(n as u32), 0));
    assert((RECORD_LEN * rs.len()) % (RECORD_LEN as int) == 0) by (nonlinear_arith);
}

/// Tombstoning record `k` of an encoded image encodes the records with that
/// one inactive.
pub proof fn lemma_revoked_encoded(rs: Seq<(bool, Seq<u8>)>, k: int)
    requires
        forall|i: int| 0 <= i < rs.len() ==> (#[trigger] rs[i]).1.len() == KEY_LEN,
        0 <= k < rs.len(),
        rs[k].0,
        rs.len() <= u32::MAX,
    ensures
        revoked(encoded(rs), k) == encoded(rs.update(k, (false, rs[k].1))),
        header_count(encoded(rs)) == active_keys(rs).len(),
{
    let n = active_keys(rs).len();
    lemma_active_keys_len(rs);
    lemma_active_keys_update(rs, k);
    lemma_records_update(rs, k);
    lemma_records_len(rs);
    lemma_be_round_trip(n as u32);
    let b = encoded(rs);
    let h = be_bytes(KEYCHAIN_VERSION) + be_bytes(n as u32);
    assert(b =~= h + records_bytes(rs));
    assert(b.subrange(4, 8) =~= be_bytes(n as u32));
    assert(header_count(b) == n);
    assert(revoked(b, k) =~= encoded(rs.update(k, (false, rs[k].1))));
}

// ---------------------------------------------------------------- exec

fn read_be_u32(b: &[u8], at: usize) -> (r: u32)
    requires
        at + 4 <= b@.len(),
    ensures
        r == be_u32_at(b@, at as int),
{
    (b[at] as u32) * 16777216 + (b[at + 1] as u32) * 65536 + (b[at + 2] as u32) * 256 + (b[at
        + 3] as u32)
}

fn push_be_u32(v: &mut Vec<u8>, n: u32)
    ensures
        final(v)@ == old(v)@ + be_bytes(n),
{
    v.push((n / 16777216) as u8);
    v.push(((n / 65536) % 256) as u8);
    v.push(((n / 256) % 256) as u8);
    v.push((n % 256) as u8);
    assert(final(v)@ =~= old(v)@ + be_bytes(n));
}

fn push_bytes(v: &mut Vec<u8>, s: &[u8])
    ensures
        final(v)@ == old(v)@ + s@,
{
    let ghost start = v@;
    let mut i: usize = 0;
    while i < s.len()
        invariant
            i <= s@.len(),
            v@ == start + s@.subrange(0, i as int),
        decreases s@.len() - i,
    {
        v.push(s[i]);
        i = i + 1;
        assert(v@ =~= start + s@.subrange(0, i as int));
    }
    assert(s@.subrange(0, i as int) =~= s@);
}

pub(crate) fn copy_range(s: &[u8], from: usize, to: usize) -> (r: Vec<u8>)
    requires
        from <= to <= s@.len(),
    ensures
        r@ == s@.subrange(from as int, to as int),
{
    let mut r: Vec<u8> = Vec::new();
    let mut i: usize = from;
    while i < to
        invariant
            from <= i <= to,
            to <= s@.len(),
            r@ == s@.subrange(from as int, i as int),
        decreases to - i,
    {
        r.push(s[i]);
        i = i + 1;
        assert(r@ =~= s@.subrange(from as int, i as int));
    }
    r
}

/// Reads the active keys of a keychain image, in file order.
pub fn decode_active_keys(bytes: &[u8]) -> (r: Result<Vec<Vec<u8>>, ServiceError>)
    ensures
        match r {
            Ok(keys) => decoded_keys(bytes@) == Some(keys_view(keys@)),
            Err(e) => decoded_keys(bytes@).is_none() && e == ServiceError::CorruptStore,
        },
{
    if bytes.len() < HEADER_LEN {
        return Err(ServiceError::CorruptStore);
    }
    if read_be_u32(bytes, 0) != KEYCHAIN_VERSION {
        return Err(ServiceError::CorruptStore);
    }
    let count = read_be_u32(bytes, 4);
    let ghost b = bytes@;
    let mut keys: Vec<Vec<u8>> = Vec::new();
    let mut pos: usize = HEADER_LEN;
    let mut need: u32 = count;
    while need > 0
        invariant
            HEADER_LEN <= pos,
            b == bytes@,
            header_ok(b),
            count == header_count(b),
            match scan_active(b, pos as int, need as int) {
                Some(rest) => scan_active(b, HEADER_LEN as int, count as int) == Some(
                    keys_view(keys@) + rest,
                ),
                None => scan_active(b, HEADER_LEN as int, count as int).is_none(),
            },
        decreases bytes@.len() - pos,
    {
        if bytes.len() < pos || bytes.len() - pos < RECORD_LEN {
            return Err(ServiceError::CorruptStore);
        }
        if bytes[pos] == FLAG_ACTIVE {
            let key = copy_range(bytes, pos + 1, pos + RECORD_LEN);
            let ghost before = keys@;
            keys.push(key);
            assert(keys_view(keys@) =~= keys_view(before) + seq![key@]);
            need = need - 1;
            proof {
                let next = scan_active(b, (pos + RECORD_LEN) as int, need as int);
                if let Some(rest) = next {
                    assert(keys_view(before) + (seq![key@] + rest) =~= keys_view(keys@) + rest);
                }
            }
        }
        pos = pos + RECORD_LEN;
    }
    assert(keys_view(keys@) + Seq::<Seq<u8>>::empty() =~= keys_view(keys@));
    Ok(keys)
}

/// The image of a keychain holding exactly `records`, with the header's count
/// set to the number of active ones.
pub fn encode_header_and_records(records: &Vec<KeyRecord>) -> (r: Vec<u8>)
    requires
        forall|i: int| 0 <= i < records@.len() ==> (#[trigger] records@[i]).key@.len() == KEY_LEN,
        records@.len() <= u32::MAX,
        HEADER_LEN + RECORD_LEN * records@.len() <= usize::MAX,
    ensures
        r@ == encoded(records@.map_values(|k: KeyRecord| k@)),
{
    let ghost rs = records@.map_values(|k: KeyRecord| k@);
    let mut active: u32 = 0;
    let mut i: usize = 0;
    while i < records.len()
        invariant
            i <= records@.len(),
            rs == records@.map_values(|k: KeyRecord| k@),
            records@.len() <= u32::MAX,
            active == active_keys(rs.subrange(0, i as int)).len(),
            active <= i,
        decreases records@.len() - i,
    {
        proof {
            lemma_records_snoc(rs.subrange(0, i as int), rs[i as int]);
            assert(rs.subrange(0, i as int).push(rs[i as int]) =~= rs.subrange(0, i + 1));
        }
        if records[i].active {
            active = active + 1;
        }
        i = i + 1;
    }
    let mut out: Vec<u8> = Vec::new();
    push_be_u32(&mut out, KEYCHAIN_VERSION);
    push_be_u32(&mut out, active);
    let mut j: usize = 0;
    while j < records.len()
        invariant
            j <= records@.len(),
            rs == records@.map_values(|k: KeyRecord| k@),
            forall|i: int| 0 <= i < records@.len() ==> (#[trigger] records@[i]).key@.len() == KEY_LEN,
            out@ == be_bytes(KEYCHAIN_VERSION) + be_bytes(active) + records_bytes(rs.subrange(0, j as int)),
            out@.len() == HEADER_LEN + RECORD_LEN * j,
            HEADER_LEN + RECORD_LEN * records@.len() <= usize::MAX,
        decreases records@.len() - j,
    {
        proof {
            lemma_records_snoc(rs.subrange(0, j as int), rs[j as int]);
            assert(rs.subrange(0, j as int).push(rs[j as int]) =~= rs.subrange(0, j + 1));
        }
        let rec = &records[j];
        out.push(if rec.active { FLAG_ACTIVE } else { FLAG_REVOKED });
        push_bytes(&mut out, rec.key.as_slice());
        j = j + 1;
        assert(out@ =~= be_bytes(KEYCHAIN_VERSION) + be_bytes(active) + records_bytes(rs.subrange(0, j as int)));
    }
    assert(rs.subrange(0, records@.len() as int) =~= rs);
    out
}

/// Appends `key` as a new active record and raises the header's count by one.
/// An empty image stands for a keychain that does not exist yet.
pub fn append_new_key(file: &mut Vec<u8>, key: &[u8]) -> (r: Result<(), ServiceError>)
    ensures
        match append_refusal(old(file)@, key@) {
            Some(e) => r == Err::<(), ServiceError>(e) && final(file)@ == old(file)@,
            None => r is Ok && final(file)@ == appended(old(file)@, key@),
        },
{
    if key.len() != KEY_LEN {
        return Err(ServiceError::ValidationError);
    }
    if file.len() == 0 {
        push_be_u32(file, KEYCHAIN_VERSION);
        push_be_u32(file, 1);
        file.push(FLAG_ACTIVE);
        push_bytes(file, key);
        assert(final(file)@ =~= appended(old(file)@, key@));
        return Ok(());
    }
    if file.len() < HEADER_LEN || read_be_u32(file.as_slice(), 0) != KEYCHAIN_VERSION
        || (file.len() - HEADER_LEN) % RECORD_LEN != 0 {
        return Err(ServiceError::CorruptStore);
    }
    let count = read_be_u32(file.as_slice(), 4);
    if count == u32::MAX {
        return Err(ServiceError::CorruptStore);
    }
    set_count(file, count + 1);
    file.push(FLAG_ACTIVE);
    push_bytes(file, key);
    assert(final(file)@ =~= appended(old(file)@, key@));
    Ok(())
}

pub(crate) fn trim_range(s: &[u8], from: usize, to: usize) -> (r: (usize, usize))
    requires
        from <= to <= s@.len(),
    ensures
        from <= r.0 <= r.1 <= to,
        s@.subrange(r.0 as int, r.1 as int) == trim_bytes(s@.subrange(from as int, to as int)),
{
    let mut i: usize = from;
    while i < to && (s[i] == 0x20 || s[i] == 0x09 || s[i] == 0x0A || s[i] == 0x0C || s[i] == 0x0D)
        invariant
            from <= i <= to,
            to <= s@.len(),
            trim_start_bytes(s@.subrange(from as int, to as int)) == trim_start_bytes(
                s@.subrange(i as int, to as int),
            ),
        decreases to - i,
    {
        assert(s@.subrange(i as int, to as int).drop_first() =~= s@.subrange(i + 1, to as int));
        i = i + 1;
    }
    assert(trim_start_bytes(s@.subrange(i as int, to as int)) == s@.subrange(i as int, to as int));
    let mut j: usize = to;
    while j > i && (s[j - 1] == 0x20 || s[j - 1] == 0x09 || s[j - 1] == 0x0A || s[j - 1] == 0x0C
        || s[j - 1] == 0x0D)
        invariant
            from <= i <= j <= to,
            to <= s@.len(),
            trim_bytes(s@.subrange(from as int, to as int)) == trim_end_bytes(
                s@.subrange(i as int, j as int),
            ),
        decreases j,
    {
        assert(s@.subrange(i as int, j as int).drop_last() =~= s@.subrange(i as int, j - 1));
        j = j - 1;
    }
    (i, j)
}

fn range_equals(s: &[u8], from: usize, to: usize, t: &[u8], tf: usize, tt: usize) -> (r: bool)
    requires
        from <= to <= s@.len(),
        tf <= tt <= t@.len(),
    ensures
        r == (s@.subrange(from as int, to as int) == t@.subrange(tf as int, tt as int)),
{
    if to - from != tt - tf {
        assert(s@.subrange(from as int, to as int).len() != t@.subrange(tf as int, tt as int).len());
        return false;
    }
    let mut i: usize = 0;
    while i < to - from
        invariant
            from <= to <= s@.len(),
            tf <= tt <= t@.len(),
            to - from == tt - tf,
            i <= to - from,
            s@.subrange(from as int, from + i) == t@.subrange(tf as int, tf + i),
        decreases to - from - i,
    {
        if s[from + i] != t[tf + i] {
            assert(s@.subrange(from as int, to as int)[i as int] != t@.subrange(tf as int, tt as int)[i as int]);
            return false;
        }
        assert(s@.subrange(from as int, from + i + 1) =~= s@.subrange(from as int, from + i).push(s@[from + i]));
        assert(t@.subrange(tf as int, tf + i + 1) =~= t@.subrange(tf as int, tf + i).push(t@[tf + i]));
        i = i + 1;
    }
    true
}

/// Tombstones the first active record whose trimmed key equals the trimmed
/// `key`, and lowers the header's count by one. Returns whether one was found;
/// when none is, the image is left as it was.
pub fn revoke_key(file: &mut Vec<u8>, key: &[u8]) -> (r: Result<bool, ServiceError>)
    ensures
        r == revoke_outcome(old(file)@, key@),
        r == Ok::<bool, ServiceError>(true) ==> final(file)@ == revoked(
            old(file)@,
            first_match(old(file)@, key@).unwrap(),
        ),
        r != Ok::<bool, ServiceError>(true) ==> final(file)@ == old(file)@,
{
    if file.len() < HEADER_LEN || read_be_u32(file.as_slice(), 0) != KEYCHAIN_VERSION {
        return Err(ServiceError::CorruptStore);
    }
    let ghost b = file@;
    let (ts, te) = trim_range(key, 0, key.len());
    assert(key@.subrange(0, key@.len() as int) =~= key@);
    let flen = file.len();
    let total = (flen - HEADER_LEN) / RECORD_LEN;
    let mut k: usize = 0;
    let mut found = false;
    while k < total && !found
        invariant
            b == file@,
            flen == b.len(),
            header_ok(b),
            total == record_total(b),
            k <= total,
            ts <= te <= key@.len(),
            key@.subrange(ts as int, te as int) == trim_bytes(key@),
            found ==> k < total && first_match(b, key@) == Some(k as int),
            !found ==> first_match(b, key@) == first_match_from(b, key@, k as int),
        decreases total - k, if found { 0int } else { 1int },
    {
        assert(HEADER_LEN + RECORD_LEN * k + RECORD_LEN <= b.len()) by (nonlinear_arith)
            requires
                k < total,
                total == (b.len() - HEADER_LEN) / (RECORD_LEN as int),
                b.len() >= HEADER_LEN;
        let pos = HEADER_LEN + RECORD_LEN * k;
        let mut hit = false;
        if file[pos] == FLAG_ACTIVE {
            let (rs, re) = trim_range(file.as_slice(), pos + 1, pos + RECORD_LEN);
            hit = range_equals(file.as_slice(), rs, re, key, ts, te);
        }
        assert(hit == record_matches(b, k as int, key@));
        if hit {
            found = true;
        } else {
            k = k + 1;
        }
    }
    if !found {
        return Ok(false);
    }
    let count = read_be_u32(file.as_slice(), 4);
    if count == 0 {
        return Err(ServiceError::CorruptStore);
    }
    let pos = HEADER_LEN + RECORD_LEN * k;
    set_count(file, count - 1);
    file[pos] = FLAG_REVOKED;
    Ok(true)
}

fn set_count(file: &mut Vec<u8>, n: u32)
    requires
        old(file)@.len() >= HEADER_LEN,
    ensures
        final(file)@ == with_count(old(file)@, n),
{
    file[4] = (n / 16777216) as u8;
    file[5] = ((n / 65536) % 256) as u8;
    file[6] = ((n / 256) % 256) as u8;
    file[7] = (n % 256) as u8;
    assert(final(file)@ =~= with_count(old(file)@, n));
}

} // verus!
