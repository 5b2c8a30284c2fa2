//! Ordered map from 64-bit integer keys to bounded message records.
//!
//! Keys are supplied by the caller and unique; entries are kept sorted by key,
//! so listing the store walks the keys in ascending order. A record's content
//! is bounded in length and oversize writes are rejected outright rather than
//! truncated.

use vstd::prelude::*;

verus! {

/// The largest content length (in characters) a stored record may carry.
pub const MAX_CONTENT_LEN: usize = 100;

/// One stored record: its text and the store-assigned time of creation or
/// last modification.
#[derive(Debug)]
pub struct MapRecord {
    pub content: String,
    pub timestamp: u64,
}

impl Clone for MapRecord {
    fn clone(&self) -> (r: Self)
        ensures
            r == *self,
    {
        MapRecord { content: self.content.clone(), timestamp: self.timestamp }
    }
}

impl PartialEq for MapRecord {
    fn eq(&self, other: &Self) -> (r: bool) {
        self.content == other.content && self.timestamp == other.timestamp
    }
}

impl vstd::std_specs::cmp::PartialEqSpecImpl for MapRecord {
    open spec fn obeys_eq_spec() -> bool {
        true
    }

    open spec fn eq_spec(&self, other: &Self) -> bool {
        self.content@ == other.content@ && self.timestamp == other.timestamp
    }
}

/// Why a write into the map store was rejected.
#[derive(Clone, Copy, PartialEq, Eq, Structural, Debug)]
pub enum MapError {
    /// A record already exists under the requested key.
    KeyConflict,
    /// The content exceeds the bounded record size.
    RecordTooLarge,
}

/// Whether content of this length may be stored.
pub open spec fn content_fits(content: Seq<char>) -> bool {
    content.len() <= MAX_CONTENT_LEN
}

/// The keys of `s` are strictly increasing, so each key occurs at most once.
pub open spec fn keys_sorted(s: Seq<(u64, MapRecord)>) -> bool {
    forall|i: int, j: int| 0 <= i < j < s.len() ==> s[i].0 < s[j].0
}

/// Some entry of `s` carries the key.
pub open spec fn has_key(s: Seq<(u64, MapRecord)>, key: u64) -> bool {
    exists|i: int| 0 <= i < s.len() && s[i].0 == key
}

/// The index of the entry carrying the key (meaningful when `has_key` holds
/// and the keys are sorted, which makes the index unique).
pub open spec fn key_index(s: Seq<(u64, MapRecord)>, key: u64) -> int {
    choose|i: int| 0 <= i < s.len() && s[i].0 == key
}

/// The record stored under the key, or nothing if the key is absent.
pub open spec fn lookup(s: Seq<(u64, MapRecord)>, key: u64) -> Option<MapRecord> {
    if has_key(s, key) {
        Some(s[key_index(s, key)].1)
    } else {
        None
    }
}

/// Every key other than `key` resolves to the same record (or the same
/// absence) in `s1` and `s2`.
pub open spec fn others_unchanged(s1: Seq<(u64, MapRecord)>, s2: Seq<(u64, MapRecord)>, key: u64) -> bool {
    forall|k: u64| k != key ==> #[trigger] lookup(s2, k) == lookup(s1, k)
}

/// With sorted keys, an entry carrying `key` at index `i` is the entry
/// `key_index` denotes.
pub proof fn lemma_key_index_unique(s: Seq<(u64, MapRecord)>, key: u64, i: int)
    requires
        keys_sorted(s),
        0 <= i < s.len(),
        s[i].0 == key,
    ensures
        has_key(s, key),
        key_index(s, key) == i,
{
    assert(has_key(s, key));
    let j = key_index(s, key);
    if j < i {
        assert(s[j].0 < s[i].0);
    } else if i < j {
        assert(s[i].0 < s[j].0);
    }
}

/// Law: after a successful `create(key, content, now)` on a store where the
/// key was absent, `get(key)` returns a record carrying exactly the content
/// and timestamp that were written — the round trip gives back what was
/// stored. The hypotheses are what `create`'s contract ensures on success;
/// the conclusion is what `get`'s contract then returns.
pub proof fn lemma_create_then_get(
    pre: Seq<(u64, MapRecord)>,
    post: Seq<(u64, MapRecord)>,
    key: u64,
    content: String,
    now: u64,
)
    requires
        !has_key(pre, key),
        lookup(post, key) == Some((MapRecord { content, timestamp: now })),
        others_unchanged(pre, post, key),
    ensures
        has_key(post, key),
        lookup(post, key) matches Some(r) && r.content@ == content@ && r.timestamp == now,
{
}

/// Law: once `lookup` yields a record under a key, the key is occupied, so a
/// second `create` under it falls into the conflict branch of `create`'s
/// contract: it is rejected and the store — the earlier record included — is
/// left exactly as it was.
pub proof fn lemma_create_conflict_preserves(post: Seq<(u64, MapRecord)>, key: u64, record: MapRecord)
    requires
        lookup(post, key) == Some(record),
    ensures
        has_key(post, key),
{
}

/// Law: after `delete(key)` the key is absent, so `get(key)` returns
/// nothing; and `delete` on an absent key returns nothing rather than an
/// error (its contract returns the prior binding, which is `None`).
pub proof fn lemma_delete_then_get(post: Seq<(u64, MapRecord)>, key: u64)
    requires
        !has_key(post, key),
    ensures
        lookup(post, key) is None,
{
}

/// Law: reads are idempotent — two `get` calls under one and the same store
/// value return identical results, since each returns exactly `lookup` of
/// the store, and a shared reference rules out intervening mutation.
pub proof fn lemma_get_idempotent(
    s: Seq<(u64, MapRecord)>,
    key: u64,
    r1: Option<MapRecord>,
    r2: Option<MapRecord>,
)
    requires
        r1 == lookup(s, key),
        r2 == lookup(s, key),
    ensures
        r1 == r2,
{
}

/// Indexing into a sequence with one entry inserted at `p`.
proof fn lemma_insert_index(s: Seq<(u64, MapRecord)>, p: int, pair: (u64, MapRecord), i: int)
    requires
        0 <= p <= s.len(),
        0 <= i < s.len() + 1,
    ensures
        s.insert(p, pair).len() == s.len() + 1,
        i < p ==> s.insert(p, pair)[i] == s[i],
        i == p ==> s.insert(p, pair)[i] == pair,
        i > p ==> s.insert(p, pair)[i] == s[i - 1],
{
}

/// Inserting a fresh key at its sorted position keeps the keys sorted, binds
/// the key to the inserted record, and leaves every other key's binding as it
/// was.
proof fn lemma_insert_binding(s1: Seq<(u64, MapRecord)>, s2: Seq<(u64, MapRecord)>, p: int, pair: (u64, MapRecord))
    requires
        keys_sorted(s1),
        !has_key(s1, pair.0),
        0 <= p <= s1.len(),
        s2 == s1.insert(p, pair),
        forall|j: int| 0 <= j < p ==> s1[j].0 < pair.0,
        forall|j: int| p <= j < s1.len() ==> s1[j].0 > pair.0,
    ensures
        keys_sorted(s2),
        lookup(s2, pair.0) == Some(pair.1),
        others_unchanged(s1, s2, pair.0),
        s2.len() == s1.len() + 1,
{
    let key = pair.0;
    assert forall|i: int, j: int| 0 <= i < j < s2.len() implies s2[i].0 < s2[j].0 by {
        lemma_insert_index(s1, p, pair, i);
        lemma_insert_index(s1, p, pair, j);
    }
    lemma_insert_index(s1, p, pair, p);
    lemma_key_index_unique(s2, key, p);
    assert forall|k: u64| k != key implies #[trigger] lookup(s2, k) == lookup(s1, k) by {
        if has_key(s1, k) {
            let i = choose|i: int| 0 <= i < s1.len() && s1[i].0 == k;
            lemma_key_index_unique(s1, k, i);
            if i < p {
                lemma_insert_index(s1, p, pair, i);
                lemma_key_index_unique(s2, k, i);
            } else {
                lemma_insert_index(s1, p, pair, i + 1);
                lemma_key_index_unique(s2, k, i + 1);
            }
        } else if has_key(s2, k) {
            let i = choose|i: int| 0 <= i < s2.len() && s2[i].0 == k;
            lemma_insert_index(s1, p, pair, i);
            if i < p {
                assert(s1[i].0 == k);
            } else if i > p {
                assert(s1[i - 1].0 == k);
            }
            assert(false);
        }
    }
}

/// Overwriting the entry at the key's index with a new record under the same
/// key keeps the keys sorted, rebinds the key, and leaves every other key's
/// binding as it was.
proof fn lemma_update_binding(s1: Seq<(u64, MapRecord)>, s2: Seq<(u64, MapRecord)>, p: int, pair: (u64, MapRecord))
    requires
        keys_sorted(s1),
        0 <= p < s1.len(),
        s1[p].0 == pair.0,
        s2 == s1.update(p, pair),
    ensures
        keys_sorted(s2),
        lookup(s2, pair.0) == Some(pair.1),
        others_unchanged(s1, s2, pair.0),
        s2.len() == s1.len(),
{
    let key = pair.0;
    assert forall|i: int, j: int| 0 <= i < j < s2.len() implies s2[i].0 < s2[j].0 by {
        assert(s1[i].0 < s1[j].0);
    }
    lemma_key_index_unique(s2, key, p);
    assert forall|k: u64| k != key implies #[trigger] lookup(s2, k) == lookup(s1, k) by {
        if has_key(s1, k) {
            let i = choose|i: int| 0 <= i < s1.len() && s1[i].0 == k;
            lemma_key_index_unique(s1, k, i);
            lemma_key_index_unique(s2, k, i);
        } else if has_key(s2, k) {
            let i = choose|i: int| 0 <= i < s2.len() && s2[i].0 == k;
            assert(s1[i].0 == k);
            assert(false);
        }
    }
}

/// Removing the entry at the key's index keeps the keys sorted, leaves the
/// key absent, and leaves every other key's binding as it was.
proof fn lemma_remove_binding(s1: Seq<(u64, MapRecord)>, s2: Seq<(u64, MapRecord)>, p: int, key: u64)
    requires
        keys_sorted(s1),
        0 <= p < s1.len(),
        s1[p].0 == key,
        s2 == s1.remove(p),
    ensures
        keys_sorted(s2),
        !has_key(s2, key),
        others_unchanged(s1, s2, key),
        s2.len() == s1.len() - 1,
{
    s1.remove_ensures(p);
    assert forall|i: int, j: int| 0 <= i < j < s2.len() implies s2[i].0 < s2[j].0 by {
        assert(s2[i] == if i < p { s1[i] } else { s1[i + 1] });
        assert(s2[j] == if j < p { s1[j] } else { s1[j + 1] });
    }
    assert forall|i: int| 0 <= i < s2.len() implies s2[i].0 != key by {
        assert(s2[i] == if i < p { s1[i] } else { s1[i + 1] });
        if i < p {
            assert(s1[i].0 < s1[p].0);
        } else {
            assert(s1[p].0 < s1[i + 1].0);
        }
    }
    assert forall|k: u64| k != key implies #[trigger] lookup(s2, k) == lookup(s1, k) by {
        if has_key(s1, k) {
            let i = choose|i: int| 0 <= i < s1.len() && s1[i].0 == k;
            lemma_key_index_unique(s1, k, i);
            if i < p {
                assert(s2[i] == s1[i]);
                lemma_key_index_unique(s2, k, i);
            } else {
                assert(i > p);
                assert(s2[i - 1] == s1[i]);
                lemma_key_index_unique(s2, k, i - 1);
            }
        } else if has_key(s2, k) {
            let i = choose|i: int| 0 <= i < s2.len() && s2[i].0 == k;
            assert(s2[i] == if i < p { s1[i] } else { s1[i + 1] });
            assert(false);
        }
    }
}

/// The map store. Its abstract value is the sequence of key/record entries
/// in ascending key order; `wf` says the order is kept.
pub struct MapStore {
    entries: Vec<(u64, MapRecord)>,
}

impl View for MapStore {
    type V = Seq<(u64, MapRecord)>;

    closed spec fn view(&self) -> Seq<(u64, MapRecord)> {
        self.entries@
    }
}

impl MapStore {
    /// The store's invariant: entries sorted by strictly increasing key.
    pub open spec fn wf(&self) -> bool {
        keys_sorted(self@)
    }

    /// An empty map.
    pub fn new() -> (r: MapStore)
        ensures
            r.wf(),
            r@ == Seq::<(u64, MapRecord)>::empty(),
    {
        MapStore { entries: Vec::new() }
    }

    /// The index of the entry carrying `key`, if any.
    fn position_of(&self, key: u64) -> (r: Option<usize>)
        requires
            self.wf(),
        ensures
            match r {
                Some(i) => i < self@.len() && self@[i as int].0 == key && has_key(self@, key)
                    && key_index(self@, key) == i,
                None => !has_key(self@, key),
            },
    {
        let mut i: usize = 0;
        while i < self.entries.len()
            invariant
                self.wf(),
                i <= self@.len(),
                forall|j: int| 0 <= j < i ==> self@[j].0 != key,
            decreases self@.len() - i,
        {
            if self.entries[i].0 == key {
                proof {
                    lemma_key_index_unique(self@, key, i as int);
                }
                return Some(i);
            }
            i = i + 1;
        }
        None
    }

    /// The record stored under `key`, or nothing if the key is absent; the
    /// store itself is untouched.
    pub fn get(&self, key: u64) -> (r: Option<MapRecord>)
        requires
            self.wf(),
        ensures
            r == lookup(self@, key),
    {
        match self.position_of(key) {
            Some(i) => Some(self.entries[i].1.clone()),
            None => None,
        }
    }

    /// The first index whose key is above `key`; entries before it all carry
    /// smaller keys. Meaningful only while `key` is absent.
    fn insert_pos(&self, key: u64) -> (r: usize)
        requires
            self.wf(),
            !has_key(self@, key),
        ensures
            r <= self@.len(),
            forall|j: int| 0 <= j < r ==> self@[j].0 < key,
            forall|j: int| r <= j < self@.len() ==> self@[j].0 > key,
    {
        let mut i: usize = 0;
        while i < self.entries.len()
            invariant
                self.wf(),
                !has_key(self@, key),
                i <= self@.len(),
                forall|j: int| 0 <= j < i ==> self@[j].0 < key,
            decreases self@.len() - i,
        {
            proof {
                assert(self@[i as int].0 != key) by {
                    if self@[i as int].0 == key {
                        assert(has_key(self@, key));
                    }
                }
            }
            if self.entries[i].0 > key {
                proof {
                    assert forall|j: int| i <= j < self@.len() implies self@[j].0 > key by {
                        if i < j {
                            assert(self@[i as int].0 < self@[j].0);
                        }
                    }
                }
                return i;
            }
            i = i + 1;
        }
        i
    }

    /// Inserts a fresh record under `key`, stamped with the supplied current
    /// time, and returns a copy of it. The call is rejected with
    /// `KeyConflict` if the key is already occupied (the stored record is
    /// never overwritten) and with `RecordTooLarge` if the content exceeds
    /// the bound; rejected calls leave the store untouched.
    pub fn create(&mut self, key: u64, content: String, now: u64) -> (r: Result<MapRecord, MapError>)
        requires
            old(self).wf(),
        ensures
            final(self).wf(),
            has_key(old(self)@, key) ==> r == Err::<MapRecord, MapError>(MapError::KeyConflict)
                && final(self)@ == old(self)@,
            !has_key(old(self)@, key) && !content_fits(content@) ==> r == Err::<MapRecord, MapError>(
                MapError::RecordTooLarge,
            ) && final(self)@ == old(self)@,
            !has_key(old(self)@, key) && content_fits(content@) ==> r == Ok::<MapRecord, MapError>(
                (MapRecord { content, timestamp: now }),
            ) && lookup(final(self)@, key) == Some((MapRecord { content, timestamp: now }))
                && others_unchanged(old(self)@, final(self)@, key)
                && final(self)@.len() == old(self)@.len() + 1,
    {
        match self.position_of(key) {
            Some(_) => Err(MapError::KeyConflict),
            None => {
                if content.as_str().unicode_len() > MAX_CONTENT_LEN {
                    return Err(MapError::RecordTooLarge);
                }
                let record = MapRecord { content, timestamp: now };
                let stored = record.clone();
                let p = self.insert_pos(key);
                self.entries.insert(p, (key, stored));
                proof {
                    lemma_insert_binding(old(self)@, self@, p as int, (key, stored));
                }
                Ok(record)
            },
        }
    }

    /// Writes a record holding `content` under `key`, stamped with the
    /// supplied current time, whether or not the key was occupied: an
    /// occupied key is overwritten and the previous record returned, an
    /// absent key is inserted and nothing returned (upsert). The call is
    /// rejected with `RecordTooLarge` if the content exceeds the bound, and
    /// then leaves the store untouched.
    pub fn update(&mut self, key: u64, content: String, now: u64) -> (r: Result<Option<MapRecord>, MapError>)
        requires
            old(self).wf(),
        ensures
            final(self).wf(),
            !content_fits(content@) ==> r == Err::<Option<MapRecord>, MapError>(
                MapError::RecordTooLarge,
            ) && final(self)@ == old(self)@,
            content_fits(content@) ==> r == Ok::<Option<MapRecord>, MapError>(
                lookup(old(self)@, key),
            ) && lookup(final(self)@, key) == Some((MapRecord { content, timestamp: now }))
                && others_unchanged(old(self)@, final(self)@, key) && final(self)@.len() == old(
                self,
            )@.len() + (if has_key(old(self)@, key) {
                0int
            } else {
                1int
            }),
    {
        if content.as_str().unicode_len() > MAX_CONTENT_LEN {
            return Err(MapError::RecordTooLarge);
        }
        let record = MapRecord { content, timestamp: now };
        match self.position_of(key) {
            Some(i) => {
                let previous = self.entries[i].1.clone();
                self.entries[i] = (key, record);
                proof {
                    lemma_update_binding(old(self)@, self@, i as int, self@[i as int]);
                }
                Ok(Some(previous))
            },
            None => {
                let p = self.insert_pos(key);
                self.entries.insert(p, (key, record));
                proof {
                    lemma_insert_binding(old(self)@, self@, p as int, self@[p as int]);
                }
                Ok(None)
            },
        }
    }

    /// Removes the record under `key` and returns it, or returns nothing and
    /// changes nothing if the key is absent; absence is not an error.
    pub fn delete(&mut self, key: u64) -> (r: Option<MapRecord>)
        requires
            old(self).wf(),
        ensures
            final(self).wf(),
            r == lookup(old(self)@, key),
            !has_key(final(self)@, key),
            others_unchanged(old(self)@, final(self)@, key),
            final(self)@.len() == old(self)@.len() - (if has_key(old(self)@, key) {
                1int
            } else {
                0int
            }),
    {
        match self.position_of(key) {
            Some(i) => {
                let (_, record) = self.entries.remove(i);
                proof {
                    lemma_remove_binding(old(self)@, self@, i as int, key);
                }
                Some(record)
            },
            None => None,
        }
    }

    /// All entries in ascending key order, or nothing if the store is empty;
    /// an empty store and an absent listing are the same caller-visible
    /// condition.
    pub fn list_all(&self) -> (r: Option<Vec<(u64, MapRecord)>>)
        requires
            self.wf(),
        ensures
            match r {
                Some(v) => self@.len() > 0 && v@ == self@,
                None => self@.len() == 0,
            },
    {
        if self.entries.len() == 0 {
            return None;
        }
        let mut out: Vec<(u64, MapRecord)> = Vec::new();
        let mut i: usize = 0;
        while i < self.entries.len()
            invariant
                i <= self@.len(),
                out@ =~= self@.take(i as int),
            decreases self@.len() - i,
        {
            out.push((self.entries[i].0, self.entries[i].1.clone()));
            proof {
                assert(out@ =~= self@.take(i + 1 as int));
            }
            i = i + 1;
        }
        proof {
            assert(out@ =~= self@);
        }
        Some(out)
    }
}

} // verus!
