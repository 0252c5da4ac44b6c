//! The process-wide authorization state: for each known application, its
//! active API keys, mirrored from its keychain. Every mutation goes through a
//! `&mut KeyStore` together with the keychain image it changes, so holding the
//! store exclusively (behind one lock) serializes all key administration.
use vstd::prelude::*;

use rand::Rng;

use crate::error::ServiceError;
use crate::keychain::{
    accepts_record, active_keys, append_new_key, appended, append_refusal, copy_range, decode_active_keys,
    decoded_keys, encoded, first_match, first_match_from, keys_view, lemma_active_keys_len,
    lemma_appended_encoded, lemma_decode_encode, lemma_encoded_record, lemma_records_len,
    lemma_records_snoc, lemma_revoked_encoded, lemma_encoded_header, lemma_active_keys_update,
    record_total, records_bytes, revoke_key as tombstone_key, revoke_outcome, revoked,
    trim_bytes, trim_range, trim_start_bytes, HEADER_LEN, KEY_LEN,
};
use crate::text::{chars_of, kebab, string_of, to_kebab_case};

verus! {

/// Relies on rand's `Alphanumeric` distribution drawn from `thread_rng`: `len`
/// bytes, each an ASCII letter or digit.
#[verifier::external_body]
fn random_alphanumeric(len: usize) -> (r: Vec<u8>)
    ensures
        r@.len() == len,
        forall|i: int| 0 <= i < len ==> is_alphanumeric(#[trigger] r@[i]),
{
    rand::thread_rng().sample_iter(&rand::distributions::Alphanumeric).take(len).collect()
}

pub open spec fn is_alphanumeric(b: u8) -> bool {
    (0x30u8 <= b <= 0x39u8) || (0x41u8 <= b <= 0x5Au8) || (0x61u8 <= b <= 0x7Au8)
}

/// A secret as this store issues it: 64 ASCII letters and digits.
pub open spec fn valid_secret(s: Seq<u8>) -> bool {
    s.len() == KEY_LEN && forall|i: int| 0 <= i < s.len() ==> is_alphanumeric(#[trigger] s[i])
}

/// `ks` without every key equal to `t`.
pub open spec fn without(ks: Seq<Seq<u8>>, t: Seq<u8>) -> Seq<Seq<u8>>
    decreases ks.len(),
{
    if ks.len() == 0 {
        ks
    } else {
        let rest = without(ks.drop_last(), t);
        if ks.last() == t {
            rest
        } else {
            rest.push(ks.last())
        }
    }
}

/// The mirror after a key is created for `app`.
pub open spec fn with_created(
    m: Map<Seq<char>, Seq<Seq<u8>>>,
    app: Seq<char>,
    secret: Seq<u8>,
) -> Map<Seq<char>, Seq<Seq<u8>>> {
    m.insert(
        app,
        if m.contains_key(app) {
            m[app].push(secret)
        } else {
            seq![secret]
        },
    )
}

/// The mirror after `key` is revoked for `app`: every copy of the trimmed key
/// leaves the application's list.
pub open spec fn with_revoked(m: Map<Seq<char>, Seq<Seq<u8>>>, app: Seq<char>, key: Seq<u8>) -> Map<
    Seq<char>,
    Seq<Seq<u8>>,
> {
    if m.contains_key(app) {
        m.insert(app, without(m[app], trim_bytes(key)))
    } else {
        m
    }
}

/// Whether `presented` opens `app`: it is the master key, or one of the
/// application's active keys.
pub open spec fn authorized(
    m: Map<Seq<char>, Seq<Seq<u8>>>,
    app: Seq<char>,
    presented: Seq<u8>,
    master: Seq<u8>,
) -> bool {
    presented == master || (m.contains_key(app) && m[app].contains(presented))
}

/// Active keys of one application.
pub struct AppKeys {
    name: String,
    keys: Vec<Vec<u8>>,
}

/// The active keys of every known application.
pub struct KeyStore {
    apps: Vec<AppKeys>,
}

spec fn names_of(apps: Seq<AppKeys>) -> Seq<Seq<char>> {
    apps.map_values(|a: AppKeys| a.name@)
}

/// Index of the first name equal to `n` at or after `from`, or `names.len()`.
pub open spec fn name_index(names: Seq<Seq<char>>, n: Seq<char>, from: int) -> int
    decreases names.len() - from,
{
    if from < 0 || from >= names.len() {
        names.len() as int
    } else if names[from] == n {
        from
    } else {
        name_index(names, n, from + 1)
    }
}

proof fn lemma_name_index(names: Seq<Seq<char>>, n: Seq<char>, from: int)
    requires
        0 <= from <= names.len(),
    ensures
        from <= name_index(names, n, from) <= names.len(),
        name_index(names, n, from) < names.len() ==> names[name_index(names, n, from)] == n,
        name_index(names, n, from) == names.len() ==> forall|k: int|
            from <= k < names.len() ==> names[k] != n,
    decreases names.len() - from,
{
    if from < names.len() && names[from] != n {
        lemma_name_index(names, n, from + 1);
    }
}

proof fn lemma_name_index_push(names: Seq<Seq<char>>, x: Seq<char>, n: Seq<char>, from: int)
    requires
        0 <= from <= names.len(),
    ensures
        name_index(names.push(x), n, from) == if name_index(names, n, from) < names.len() {
            name_index(names, n, from)
        } else if n == x {
            names.len() as int
        } else {
            names.len() + 1int
        },
    decreases names.len() - from,
{
    lemma_name_index(names, n, from);
    if from < names.len() {
        assert(names.push(x)[from] == names[from]);
        if names[from] != n {
            lemma_name_index_push(names, x, n, from + 1);
        }
    } else {
        assert(names.push(x)[from] == x);
        assert(name_index(names.push(x), n, from + 1) == names.len() + 1);
    }
}

impl View for KeyStore {
    type V = Map<Seq<char>, Seq<Seq<u8>>>;

    closed spec fn view(&self) -> Map<Seq<char>, Seq<Seq<u8>>> {
        let names = names_of(self.apps@);
        Map::new(
            |n: Seq<char>| name_index(names, n, 0) < names.len(),
            |n: Seq<char>| keys_view(self.apps@[name_index(names, n, 0)].keys@),
        )
    }
}

fn owned(s: &str) -> (r: String)
    ensures
        r@ == s@,
{
    let cs = chars_of(s);
    assert(cs@.subrange(0, cs@.len() as int) =~= cs@);
    string_of(cs.as_slice(), 0, cs.len())
}

fn copy_key(k: &Vec<u8>) -> (r: Vec<u8>)
    ensures
        r@ == k@,
{
    assert(k@.subrange(0, k@.len() as int) =~= k@);
    copy_range(k.as_slice(), 0, k.len())
}

fn same_bytes(a: &[u8], b: &[u8]) -> (r: bool)
    ensures
        r == (a@ == b@),
{
    if a.len() != b.len() {
        return false;
    }
    let mut i: usize = 0;
    while i < a.len()
        invariant
            a@.len() == b@.len(),
            i <= a@.len(),
            a@.subrange(0, i as int) == b@.subrange(0, i as int),
        decreases a@.len() - i,
    {
        if a[i] != b[i] {
            return false;
        }
        assert(a@.subrange(0, i + 1) =~= a@.subrange(0, i as int).push(a@[i as int]));
        assert(b@.subrange(0, i + 1) =~= b@.subrange(0, i as int).push(b@[i as int]));
        i = i + 1;
    }
    assert(a@.subrange(0, i as int) =~= a@);
    assert(b@.subrange(0, i as int) =~= b@);
    true
}

/// Whether every byte of `s` is an ASCII letter or digit and it has the size of a key.
pub fn is_valid_secret(s: &[u8]) -> (r: bool)
    ensures
        r == valid_secret(s@),
{
    if s.len() != KEY_LEN {
        return false;
    }
    let mut i: usize = 0;
    while i < s.len()
        invariant
            i <= s@.len(),
            forall|t: int| 0 <= t < i ==> is_alphanumeric(#[trigger] s@[t]),
        decreases s@.len() - i,
    {
        let b = s[i];
        if !((0x30 <= b && b <= 0x39) || (0x41 <= b && b <= 0x5A) || (0x61 <= b && b <= 0x7A)) {
            return false;
        }
        i = i + 1;
    }
    true
}

/// The normalized application named by a request header; `ValidationError` when
/// the header is absent or names nothing.
pub fn application_from_header(header: Option<&str>) -> (r: Result<String, ServiceError>)
    ensures
        match header {
            None => r == Err::<String, ServiceError>(ServiceError::ValidationError),
            Some(h) => if kebab(h@).len() == 0 {
                r == Err::<String, ServiceError>(ServiceError::ValidationError)
            } else {
                r matches Ok(name) && name@ == kebab(h@)
            },
        },
{
    match header {
        None => Err(ServiceError::ValidationError),
        Some(h) => {
            let name = to_kebab_case(h);
            if name.as_str().is_empty() {
                Err(ServiceError::ValidationError)
            } else {
                Ok(name)
            }
        },
    }
}

/// Admits the master key alone. `MissingCredential` when none is presented,
/// `InvalidCredential` when another is.
pub fn check_master(presented: Option<&[u8]>, master: &[u8]) -> (r: Result<(), ServiceError>)
    ensures
        match presented {
            None => r == Err::<(), ServiceError>(ServiceError::MissingCredential),
            Some(p) => if p@ == master@ {
                r is Ok
            } else {
                r == Err::<(), ServiceError>(ServiceError::InvalidCredential)
            },
        },
{
    match presented {
        None => Err(ServiceError::MissingCredential),
        Some(p) => if same_bytes(p, master) {
            Ok(())
        } else {
            Err(ServiceError::InvalidCredential)
        },
    }
}

impl KeyStore {
    /// Application names are distinct.
    pub closed spec fn wf(&self) -> bool {
        let names = names_of(self.apps@);
        forall|i: int, j: int| 0 <= i < j < names.len() ==> names[i] != names[j]
    }

    /// An empty store.
    pub fn new() -> (r: KeyStore)
        ensures
            r.wf(),
            r@ == Map::<Seq<char>, Seq<Seq<u8>>>::empty(),
    {
        let r = KeyStore { apps: Vec::new() };
        assert(r@ =~= Map::<Seq<char>, Seq<Seq<u8>>>::empty());
        r
    }

    fn find(&self, name: &String) -> (r: usize)
        ensures
            r == name_index(names_of(self.apps@), name@, 0),
            r <= self.apps@.len(),
    {
        let ghost names = names_of(self.apps@);
        let mut i: usize = 0;
        while i < self.apps.len() && self.apps[i].name != *name
            invariant
                names == names_of(self.apps@),
                i <= self.apps@.len(),
                name_index(names, name@, 0) == name_index(names, name@, i as int),
            decreases self.apps@.len() - i,
        {
            i = i + 1;
        }
        i
    }

    /// Sets the keys of `name`, adding the application when it is new.
    fn put(&mut self, name: String, keys: Vec<Vec<u8>>)
        requires
            old(self).wf(),
        ensures
            final(self).wf(),
            final(self)@ == old(self)@.insert(name@, keys_view(keys@)),
    {
        let i = self.find(&name);
        let ghost names = names_of(self.apps@);
        let ghost nv = name@;
        let ghost kv = keys_view(keys@);
        proof {
            lemma_name_index(names, nv, 0);
        }
        if i < self.apps.len() {
            self.apps.set(i, AppKeys { name, keys });
            proof {
                assert(names_of(self.apps@) =~= names);
                assert forall|n: Seq<char>| #[trigger] self@.contains_key(n) == old(self)@.insert(
                    nv,
                    kv,
                ).contains_key(n) && (self@.contains_key(n) ==> self@[n] == old(self)@.insert(
                    nv,
                    kv,
                )[n]) by {
                    lemma_name_index(names, n, 0);
                }
                assert(self@ =~= old(self)@.insert(nv, kv));
            }
        } else {
            self.apps.push(AppKeys { name, keys });
            proof {
                let names2 = names_of(self.apps@);
                assert(names2 =~= names.push(nv));
                assert forall|n: Seq<char>| #[trigger] self@.contains_key(n) == old(self)@.insert(
                    nv,
                    kv,
                ).contains_key(n) && (self@.contains_key(n) ==> self@[n] == old(self)@.insert(
                    nv,
                    kv,
                )[n]) by {
                    lemma_name_index(names, n, 0);
                    lemma_name_index_push(names, nv, n, 0);
                }
                assert(self@ =~= old(self)@.insert(nv, kv));
            }
        }
    }

    /// Loads the keychain image of `app` read at startup. A corrupt image
    /// leaves the store as it was and is reported, so that the caller can skip
    /// that application and go on with the others.
    pub fn load_keychain(&mut self, app: &str, image: &[u8]) -> (r: Result<(), ServiceError>)
        requires
            old(self).wf(),
        ensures
            final(self).wf(),
            match decoded_keys(image@) {
                Some(keys) => r is Ok && final(self)@ == old(self)@.insert(app@, keys),
                None => r == Err::<(), ServiceError>(ServiceError::CorruptStore) && final(self)@
                    == old(self)@,
            },
    {
        match decode_active_keys(image) {
            Ok(keys) => {
                self.put(owned(app), keys);
                Ok(())
            },
            Err(e) => Err(e),
        }
    }

    /// Persists `secret` as a new active key of `app` in its keychain image and
    /// adds it to the mirror. An empty image stands for a keychain not yet
    /// created. `ValidationError` when the secret is not 64 letters and digits;
    /// `CorruptStore` when the image cannot take a record. On failure nothing
    /// changes.
    pub fn create_key_with(&mut self, app: &str, secret: &[u8], keychain: &mut Vec<u8>) -> (r:
        Result<(), ServiceError>)
        requires
            old(self).wf(),
        ensures
            final(self).wf(),
            !valid_secret(secret@) ==> r == Err::<(), ServiceError>(ServiceError::ValidationError),
            valid_secret(secret@) ==> match append_refusal(old(keychain)@, secret@) {
                Some(e) => r == Err::<(), ServiceError>(e),
                None => r is Ok,
            },
            r is Ok ==> final(keychain)@ == appended(old(keychain)@, secret@) && final(self)@
                == with_created(old(self)@, app@, secret@),
            r is Err ==> final(keychain)@ == old(keychain)@ && final(self)@ == old(self)@,
    {
        if !is_valid_secret(secret) {
            return Err(ServiceError::ValidationError);
        }
        match append_new_key(keychain, secret) {
            Err(e) => Err(e),
            Ok(()) => {
                let name = owned(app);
                let i = self.find(&name);
                let mut keys: Vec<Vec<u8>> = Vec::new();
                if i < self.apps.len() {
                    keys = self.copy_keys(i);
                }
                let ghost before = keys@;
                keys.push(copy_range(secret, 0, secret.len()));
                proof {
                    assert(secret@.subrange(0, secret@.len() as int) =~= secret@);
                    assert(keys_view(keys@) =~= keys_view(before).push(secret@));
                    lemma_name_index(names_of(self.apps@), app@, 0);
                    if i >= self.apps@.len() {
                        assert(keys_view(keys@) =~= seq![secret@]);
                    }
                }
                self.put(name, keys);
                Ok(())
            },
        }
    }

    fn copy_keys(&self, i: usize) -> (r: Vec<Vec<u8>>)
        requires
            i < self.apps@.len(),
        ensures
            keys_view(r@) == keys_view(self.apps@[i as int].keys@),
    {
        let src = &self.apps[i].keys;
        let mut out: Vec<Vec<u8>> = Vec::new();
        let mut j: usize = 0;
        while j < src.len()
            invariant
                i < self.apps@.len(),
                src == self.apps@[i as int].keys,
                j <= src@.len(),
                keys_view(out@) == keys_view(src@.subrange(0, j as int)),
            decreases src@.len() - j,
        {
            let ghost before = out@;
            out.push(copy_key(&src[j]));
            assert(keys_view(out@) =~= keys_view(before).push(src@[j as int]@));
            assert(keys_view(src@.subrange(0, j + 1)) =~= keys_view(src@.subrange(0, j as int)).push(
                src@[j as int]@,
            ));
            j = j + 1;
        }
        assert(src@.subrange(0, j as int) =~= src@);
        out
    }

    /// Issues a fresh 64-character secret for `app`, persists it in the
    /// keychain image and adds it to the mirror. Returns the secret, which is
    /// shown once.
    pub fn create_key(&mut self, app: &str, keychain: &mut Vec<u8>) -> (r: Result<
        Vec<u8>,
        ServiceError,
    >)
        requires
            old(self).wf(),
        ensures
            final(self).wf(),
            r is Ok <==> accepts_record(old(keychain)@),
            match r {
                Ok(secret) => valid_secret(secret@) && append_refusal(old(keychain)@, secret@).is_none()
                    && final(keychain)@ == appended(old(keychain)@, secret@) && final(self)@
                    == with_created(old(self)@, app@, secret@),
                Err(e) => final(keychain)@ == old(keychain)@ && final(self)@ == old(self)@
                    && e == ServiceError::CorruptStore,
            },
    {
        let secret = random_alphanumeric(KEY_LEN);
        assert(valid_secret(secret@));
        match self.create_key_with(app, secret.as_slice(), keychain) {
            Ok(()) => Ok(secret),
            Err(e) => Err(e),
        }
    }

    /// Tombstones `key` in the keychain image of `app` and removes it from the
    /// mirror. The mirror loses the key whatever the image holds, so that it
    /// never lists a key that the file does not. Returns whether the image
    /// held the key as active.
    pub fn revoke_key(&mut self, app: &str, key: &[u8], keychain: &mut Vec<u8>) -> (r: Result<
        bool,
        ServiceError,
    >)
        requires
            old(self).wf(),
        ensures
            final(self).wf(),
            r == revoke_outcome(old(keychain)@, key@),
            r == Ok::<bool, ServiceError>(true) ==> final(keychain)@ == revoked(
                old(keychain)@,
                first_match(old(keychain)@, key@).unwrap(),
            ),
            r != Ok::<bool, ServiceError>(true) ==> final(keychain)@ == old(keychain)@,
            final(self)@ == with_revoked(old(self)@, app@, key@),
    {
        let r = tombstone_key(keychain, key);
        let (a, b) = trim_range(key, 0, key.len());
        assert(key@.subrange(0, key@.len() as int) =~= key@);
        let target = copy_range(key, a, b);
        let name = owned(app);
        let i = self.find(&name);
        proof {
            lemma_name_index(names_of(self.apps@), app@, 0);
        }
        if i < self.apps.len() {
            let src = &self.apps[i].keys;
            let mut kept: Vec<Vec<u8>> = Vec::new();
            let mut j: usize = 0;
            while j < src.len()
                invariant
                    i < self.apps@.len(),
                    src == self.apps@[i as int].keys,
                    target@ == trim_bytes(key@),
                    j <= src@.len(),
                    keys_view(kept@) == without(keys_view(src@.subrange(0, j as int)), target@),
                decreases src@.len() - j,
            {
                let ghost before = kept@;
                let ghost pre = keys_view(src@.subrange(0, j + 1));
                assert(pre.drop_last() =~= keys_view(src@.subrange(0, j as int)));
                assert(pre.last() == src@[j as int]@);
                if !same_bytes(src[j].as_slice(), target.as_slice()) {
                    kept.push(copy_key(&src[j]));
                    assert(keys_view(kept@) =~= keys_view(before).push(src@[j as int]@));
                }
                j = j + 1;
            }
            assert(src@.subrange(0, j as int) =~= src@);
            self.put(name, kept);
        }
        r
    }

    /// The active keys of `app`, in the order they were created; `AppNotFound`
    /// when the application has never been seen.
    pub fn list_active(&self, app: &str) -> (r: Result<Vec<Vec<u8>>, ServiceError>)
        ensures
            match r {
                Ok(keys) => self@.contains_key(app@) && keys_view(keys@) == self@[app@],
                Err(e) => !self@.contains_key(app@) && e == ServiceError::AppNotFound,
            },
    {
        let name = owned(app);
        let i = self.find(&name);
        proof {
            lemma_name_index(names_of(self.apps@), app@, 0);
        }
        if i < self.apps.len() {
            Ok(self.copy_keys(i))
        } else {
            Err(ServiceError::AppNotFound)
        }
    }

    /// Whether `presented` opens `app`: it is the master key, which opens every
    /// application including unknown ones, or an active key of `app`.
    pub fn authorize(&self, app: &str, presented: &[u8], master: &[u8]) -> (r: bool)
        ensures
            r == authorized(self@, app@, presented@, master@),
    {
        if same_bytes(presented, master) {
            return true;
        }
        let name = owned(app);
        let i = self.find(&name);
        proof {
            lemma_name_index(names_of(self.apps@), app@, 0);
        }
        if i >= self.apps.len() {
            return false;
        }
        let keys = &self.apps[i].keys;
        let ghost kv = keys_view(keys@);
        let mut j: usize = 0;
        while j < keys.len()
            invariant
                i < self.apps@.len(),
                i as int == name_index(names_of(self.apps@), app@, 0),
                keys == self.apps@[i as int].keys,
                kv == keys_view(keys@),
                j <= keys@.len(),
                forall|t: int| 0 <= t < j ==> kv[t] != presented@,
            decreases keys@.len() - j,
        {
            if same_bytes(keys[j].as_slice(), presented) {
                assert(kv[j as int] == presented@);
                assert(self@.contains_key(app@));
                assert(self@[app@] == kv);
                assert(kv.contains(presented@));
                return true;
            }
            j = j + 1;
        }
        false
    }

    /// Admits a request for `app`: `MissingCredential` when no credential is
    /// presented, `InvalidCredential` when it does not open the application.
    pub fn check_access(&self, app: &str, presented: Option<&[u8]>, master: &[u8]) -> (r: Result<
        (),
        ServiceError,
    >)
        ensures
            match presented {
                None => r == Err::<(), ServiceError>(ServiceError::MissingCredential),
                Some(p) => if authorized(self@, app@, p@, master@) {
                    r is Ok
                } else {
                    r == Err::<(), ServiceError>(ServiceError::InvalidCredential)
                },
            },
    {
        match presented {
            None => Err(ServiceError::MissingCredential),
            Some(p) => if self.authorize(app, p, master) {
                Ok(())
            } else {
                Err(ServiceError::InvalidCredential)
            },
        }
    }
}

// ---------------------------------------------------------------- laws

proof fn lemma_without_cons(x: Seq<u8>, s: Seq<Seq<u8>>, t: Seq<u8>)
    ensures
        without(seq![x] + s, t) == if x == t {
            without(s, t)
        } else {
            seq![x] + without(s, t)
        },
    decreases s.len(),
{
    if s.len() == 0 {
        assert((seq![x] + s).drop_last() =~= s);
        assert(without(s, t) =~= s);
        assert(seq![x] + without(s, t) =~= seq![x]);
    } else {
        lemma_without_cons(x, s.drop_last(), t);
        assert((seq![x] + s).drop_last() =~= seq![x] + s.drop_last());
        assert((seq![x] + s).last() == s.last());
        if x != t && s.last() != t {
            assert(seq![x] + without(s.drop_last(), t).push(s.last()) =~= (seq![x] + without(
                s.drop_last(),
                t,
            )).push(s.last()));
        }
    }
}

proof fn lemma_without_excludes(s: Seq<Seq<u8>>, t: Seq<u8>)
    ensures
        !without(s, t).contains(t),
    decreases s.len(),
{
    if s.len() > 0 {
        lemma_without_excludes(s.drop_last(), t);
        let rest = without(s.drop_last(), t);
        if s.last() != t {
            assert forall|i: int| 0 <= i < rest.push(s.last()).len() implies rest.push(s.last())[i]
                != t by {
                if i < rest.len() {
                    assert(rest.push(s.last())[i] == rest[i]);
                }
            }
        }
    }
}

/// No active record holds key `t`.
pub open spec fn no_active(rs: Seq<(bool, Seq<u8>)>, t: Seq<u8>) -> bool {
    forall|j: int| 0 <= j < rs.len() ==> !((#[trigger] rs[j]).0 && rs[j].1 == t)
}

/// No two active records hold the same key.
pub open spec fn distinct_active(rs: Seq<(bool, Seq<u8>)>) -> bool {
    forall|i: int, j: int|
        0 <= i < rs.len() && 0 <= j < rs.len() && i != j && (#[trigger] rs[i]).0 && (
        #[trigger] rs[j]).0 ==> rs[i].1 != rs[j].1
}

/// Every record holds a key as this store issues them.
pub open spec fn all_valid(rs: Seq<(bool, Seq<u8>)>) -> bool {
    forall|i: int| 0 <= i < rs.len() ==> valid_secret((#[trigger] rs[i]).1)
}

proof fn lemma_without_absent(rs: Seq<(bool, Seq<u8>)>, t: Seq<u8>)
    requires
        no_active(rs, t),
    ensures
        without(active_keys(rs), t) == active_keys(rs),
    decreases rs.len(),
{
    if rs.len() == 0 {
        assert(without(active_keys(rs), t) =~= active_keys(rs));
    } else {
        let tail = rs.drop_first();
        assert forall|j: int| 0 <= j < tail.len() implies !((#[trigger] tail[j]).0 && tail[j].1
            == t) by {
            assert(tail[j] == rs[j + 1]);
        }
        lemma_without_absent(tail, t);
        if rs[0].0 {
            assert(!(rs[0].0 && rs[0].1 == t));
            lemma_without_cons(rs[0].1, active_keys(tail), t);
        }
    }
}

proof fn lemma_without_update(rs: Seq<(bool, Seq<u8>)>, k: int, t: Seq<u8>)
    requires
        0 <= k < rs.len(),
        rs[k] == (true, t),
        forall|j: int| 0 <= j < rs.len() && j != k ==> !((#[trigger] rs[j]).0 && rs[j].1 == t),
    ensures
        active_keys(rs.update(k, (false, t))) == without(active_keys(rs), t),
    decreases k,
{
    let tail = rs.drop_first();
    let u = rs.update(k, (false, t));
    if k == 0 {
        assert(u.drop_first() =~= tail);
        assert forall|j: int| 0 <= j < tail.len() implies !((#[trigger] tail[j]).0 && tail[j].1
            == t) by {
            assert(tail[j] == rs[j + 1]);
        }
        lemma_without_absent(tail, t);
        lemma_without_cons(t, active_keys(tail), t);
    } else {
        assert(u.drop_first() =~= tail.update(k - 1, (false, t)));
        assert(u[0] == rs[0]);
        assert forall|j: int| 0 <= j < tail.len() && j != k - 1 implies !((#[trigger] tail[j]).0
            && tail[j].1 == t) by {
            assert(tail[j] == rs[j + 1]);
        }
        lemma_without_update(tail, k - 1, t);
        if rs[0].0 {
            lemma_without_cons(rs[0].1, active_keys(tail), t);
        }
    }
}

proof fn lemma_trim_valid(s: Seq<u8>)
    requires
        valid_secret(s),
    ensures
        trim_bytes(s) == s,
{
    assert(is_alphanumeric(s[0]));
    assert(is_alphanumeric(s[s.len() - 1]));
    assert(trim_start_bytes(s) == s);
}

proof fn lemma_first_match_found(rs: Seq<(bool, Seq<u8>)>, key: Seq<u8>, k: int, j: int)
    requires
        all_valid(rs),
        0 <= j <= k < rs.len(),
        rs[k] == (true, trim_bytes(key)),
        forall|i: int|
            0 <= i < rs.len() && i != k ==> !((#[trigger] rs[i]).0 && rs[i].1 == trim_bytes(key)),
    ensures
        first_match_from(encoded(rs), key, j) == Some(k),
    decreases k - j,
{
    lemma_encoded_record(rs, j);
    lemma_trim_valid(rs[j].1);
    if j < k {
        lemma_first_match_found(rs, key, k, j + 1);
    }
}

proof fn lemma_first_match_none(rs: Seq<(bool, Seq<u8>)>, key: Seq<u8>, j: int)
    requires
        all_valid(rs),
        0 <= j <= rs.len(),
        no_active(rs, trim_bytes(key)),
    ensures
        first_match_from(encoded(rs), key, j).is_none(),
    decreases rs.len() - j,
{
    if j < rs.len() {
        lemma_encoded_record(rs, j);
        lemma_trim_valid(rs[j].1);
        lemma_first_match_none(rs, key, j + 1);
    } else if rs.len() > 0 {
        lemma_encoded_record(rs, 0);
    } else {
        assert(record_total(encoded(rs)) == 0) by {
            assert(records_bytes(rs) =~= Seq::<u8>::empty());
            assert(encoded(rs).len() == HEADER_LEN);
        }
    }
}

/// Creating a key keeps the keychain file and the mirror in agreement: for a
/// keychain that holds records `rs` (none when the application is new) and a
/// mirror that lists their active keys, the new key is listed afterwards, and
/// reading the file back gives exactly the listed keys.
pub proof fn lemma_create_then_list_and_reload(
    m: Map<Seq<char>, Seq<Seq<u8>>>,
    app: Seq<char>,
    rs: Seq<(bool, Seq<u8>)>,
    image: Seq<u8>,
    secret: Seq<u8>,
)
    requires
        all_valid(rs),
        valid_secret(secret),
        rs.len() < u32::MAX,
        m.contains_key(app) ==> image == encoded(rs) && m[app] == active_keys(rs),
        !m.contains_key(app) ==> image.len() == 0 && rs.len() == 0,
    ensures
        append_refusal(image, secret).is_none(),
        with_created(m, app, secret)[app].contains(secret),
        decoded_keys(appended(image, secret)) == Some(with_created(m, app, secret)[app]),
{
    let r2 = rs.push((true, secret));
    let after = with_created(m, app, secret)[app];
    assert(after[after.len() - 1] == secret);
    lemma_active_keys_len(rs);
    lemma_records_snoc(rs, (true, secret));
    assert forall|i: int| 0 <= i < r2.len() implies (#[trigger] r2[i]).1.len() == KEY_LEN by {
        if i < rs.len() {
            assert(r2[i] == rs[i]);
        }
    }
    lemma_decode_encode(r2);
    if m.contains_key(app) {
        assert forall|i: int| 0 <= i < rs.len() implies (#[trigger] rs[i]).1.len() == KEY_LEN by {
            assert(valid_secret(rs[i].1));
        }
        lemma_decode_encode(rs);
        lemma_records_len(rs);
        lemma_appended_encoded(rs, secret);
        lemma_encoded_header(rs);
    } else {
        assert(rs =~= Seq::<(bool, Seq<u8>)>::empty());
        assert(active_keys(r2) =~= seq![secret]);
        assert(records_bytes(rs) =~= Seq::<u8>::empty());
        assert(appended(image, secret) =~= encoded(r2));
    }
}

/// Revoking a key keeps the keychain file and the mirror in agreement: for a
/// keychain that holds records `rs`, issued by this store and with no key
/// active twice, and a mirror that lists their active keys, the revoked key is
/// no longer listed, and reading the file back gives exactly the listed keys.
pub proof fn lemma_revoke_then_list_and_reload(
    m: Map<Seq<char>, Seq<Seq<u8>>>,
    app: Seq<char>,
    rs: Seq<(bool, Seq<u8>)>,
    key: Seq<u8>,
)
    requires
        all_valid(rs),
        distinct_active(rs),
        rs.len() <= u32::MAX,
        m.contains_key(app),
        m[app] == active_keys(rs),
    ensures
        revoke_outcome(encoded(rs), key) is Ok,
        !with_revoked(m, app, key)[app].contains(trim_bytes(key)),
        decoded_keys(
            if revoke_outcome(encoded(rs), key) == Ok::<bool, ServiceError>(true) {
                revoked(encoded(rs), first_match(encoded(rs), key).unwrap())
            } else {
                encoded(rs)
            },
        ) == Some(with_revoked(m, app, key)[app]),
{
    let t = trim_bytes(key);
    let b = encoded(rs);
    assert forall|i: int| 0 <= i < rs.len() implies (#[trigger] rs[i]).1.len() == KEY_LEN by {
        assert(valid_secret(rs[i].1));
    }
    lemma_without_excludes(active_keys(rs), t);
    lemma_decode_encode(rs);
    lemma_encoded_header(rs);
    if exists|k: int| 0 <= k < rs.len() && (#[trigger] rs[k]).0 && rs[k].1 == t {
        let k = choose|k: int| 0 <= k < rs.len() && (#[trigger] rs[k]).0 && rs[k].1 == t;
        assert forall|i: int| 0 <= i < rs.len() && i != k implies !((#[trigger] rs[i]).0 && rs[i].1
            == t) by {
            if rs[i].0 && rs[i].1 == t {
                assert(rs[i].1 != rs[k].1);
            }
        }
        lemma_first_match_found(rs, key, k, 0);
        lemma_revoked_encoded(rs, k);
        lemma_active_keys_update(rs, k);
        let u = rs.update(k, (false, t));
        assert forall|i: int| 0 <= i < u.len() implies (#[trigger] u[i]).1.len() == KEY_LEN by {
            assert(u[i].1 == rs[i].1);
        }
        lemma_decode_encode(u);
        lemma_without_update(rs, k, t);
    } else {
        lemma_first_match_none(rs, key, 0);
        lemma_without_absent(rs, t);
    }
}

/// The mirror after each of `secrets` is created for `app` in turn.
pub open spec fn with_all_created(
    m: Map<Seq<char>, Seq<Seq<u8>>>,
    app: Seq<char>,
    secrets: Seq<Seq<u8>>,
) -> Map<Seq<char>, Seq<Seq<u8>>>
    decreases secrets.len(),
{
    if secrets.len() == 0 {
        m
    } else {
        with_all_created(with_created(m, app, secrets[0]), app, secrets.drop_first())
    }
}

/// The number of keys that an application lists, none when it is unknown.
pub open spec fn listed_count(m: Map<Seq<char>, Seq<Seq<u8>>>, app: Seq<char>) -> int {
    if m.contains_key(app) {
        m[app].len() as int
    } else {
        0
    }
}

/// Key creations for one application never lose an update in the mirror:
/// after each of `secrets` is created in turn, the application lists exactly
/// `secrets.len()` more keys, the last of them in the order created.
pub proof fn lemma_mirror_creations_add_up(
    m: Map<Seq<char>, Seq<Seq<u8>>>,
    app: Seq<char>,
    secrets: Seq<Seq<u8>>,
)
    ensures
        listed_count(with_all_created(m, app, secrets), app) == listed_count(m, app)
            + secrets.len(),
        secrets.len() > 0 ==> with_all_created(m, app, secrets)[app].last() == secrets.last(),
    decreases secrets.len(),
{
    if secrets.len() > 0 {
        let m1 = with_created(m, app, secrets[0]);
        let rest = secrets.drop_first();
        lemma_mirror_creations_add_up(m1, app, rest);
        if rest.len() == 0 {
            assert(secrets.last() == secrets[0]);
        } else {
            assert(rest.last() == secrets.last());
        }
    }
}

/// Revoking a key that no record holds as active is a no-op: the keychain
/// reports no match, so its image is kept as it was, and the mirror that
/// lists the active keys is unchanged.
pub proof fn lemma_revoke_inactive_is_noop(
    m: Map<Seq<char>, Seq<Seq<u8>>>,
    app: Seq<char>,
    rs: Seq<(bool, Seq<u8>)>,
    key: Seq<u8>,
)
    requires
        all_valid(rs),
        rs.len() <= u32::MAX,
        m.contains_key(app) ==> m[app] == active_keys(rs),
        no_active(rs, trim_bytes(key)),
    ensures
        revoke_outcome(encoded(rs), key) == Ok::<bool, ServiceError>(false),
        with_revoked(m, app, key) == m,
{
    assert forall|i: int| 0 <= i < rs.len() implies (#[trigger] rs[i]).1.len() == KEY_LEN by {
        assert(valid_secret(rs[i].1));
    }
    lemma_decode_encode(rs);
    lemma_first_match_none(rs, key, 0);
    lemma_without_absent(rs, trim_bytes(key));
    if m.contains_key(app) {
        assert(m.insert(app, m[app]) =~= m);
    }
}

} // verus!
