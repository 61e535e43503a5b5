//! The store: a concurrent map from key to value with an optional deadline,
//! and a concurrent map from key to list. Times are milliseconds on a
//! monotonic clock.

use dashmap::DashMap;
use vstd::prelude::*;
use vstd::slice::slice_to_vec;

verus! {

#[verifier::external_type_specification]
#[verifier::external_body]
#[verifier::reject_recursive_types(K)]
#[verifier::reject_recursive_types(V)]
#[verifier::reject_recursive_types(S)]
pub struct ExDashMap<K, V, S>(DashMap<K, V, S>);

/// A key of the store: bytes, compared byte by byte.
pub type RedisKey = Vec<u8>;

/// An expiration that a writer hands to the scheduler: the deadline and the
/// key.
pub type ExpiryEvent = (u64, RedisKey);

/// The number of entries that each map of the store first makes room for.
pub const INITIAL_CAPACITY: usize = 16;

/// A stored value and its deadline, if it has one.
#[derive(Debug, Clone)]
pub struct Value {
    /// The payload.
    pub value: Vec<u8>,
    /// The instant from which the entry is gone; `None` when it never expires.
    pub expiration: Option<u64>,
}

/// Whether an entry with deadline `expiration` is gone at `now`.
pub open spec fn is_expired(expiration: Option<u64>, now: u64) -> bool {
    match expiration {
        Some(t) => now >= t,
        None => false,
    }
}

/// What a GET at `now` sees of an entry: its payload unless it has expired.
pub open spec fn visible(entry: Option<(Seq<u8>, Option<u64>)>, now: u64) -> Option<Seq<u8>> {
    match entry {
        Some((payload, expiration)) => if is_expired(expiration, now) {
            None
        } else {
            Some(payload)
        },
        None => None,
    }
}

/// The payload and deadline of an entry, if there is one.
pub open spec fn entry_model(entry: Option<Value>) -> Option<(Seq<u8>, Option<u64>)> {
    match entry {
        Some(e) => Some(e.model()),
        None => None,
    }
}

impl Value {
    pub open spec fn model(&self) -> (Seq<u8>, Option<u64>) {
        (self.value@, self.expiration)
    }

    pub fn new(value: Vec<u8>, expiration: Option<u64>) -> (r: Value)
        ensures
            r.value@ == value@,
            r.expiration == expiration,
    {
        Value { value, expiration }
    }

    /// Whether the entry is gone at `current`.
    pub fn expired(&self, current: u64) -> (r: bool)
        ensures
            r == is_expired(self.expiration, current),
    {
        if let Some(expiration) = self.expiration {
            current >= expiration
        } else {
            false
        }
    }

    /// Whether the entry's deadline is exactly `deadline`.
    pub fn expires_at(&self, deadline: u64) -> (r: bool)
        ensures
            r == (self.expiration == Some(deadline)),
    {
        match self.expiration {
            Some(t) => t == deadline,
            None => false,
        }
    }

    /// A copy of the payload.
    pub fn get_value(&self) -> (r: Vec<u8>)
        ensures
            r@ == self.value@,
    {
        slice_to_vec(self.value.as_slice())
    }

    pub fn get_expiration(&self) -> (r: Option<u64>)
        ensures
            r == self.expiration,
    {
        self.expiration
    }

    /// The deadline of the entry that a lookup found, if it found one and the
    /// entry has one.
    pub fn expiration_of(entry: Option<Value>) -> (r: Option<u64>)
        ensures
            r == match entry {
                Some(v) => v.expiration,
                None => None,
            },
    {
        match entry {
            Some(v) => v.get_expiration(),
            None => None,
        }
    }

    /// What a GET at `now` returns, given the entry that the lookup found.
    pub fn visible_value(entry: Option<Value>, now: u64) -> (r: Option<Vec<u8>>)
        ensures
            match r {
                Some(v) => visible(entry_model(entry), now) == Some(v@),
                None => visible(entry_model(entry), now) is None,
            },
    {
        match entry {
            Some(v) => {
                if !v.expired(now) {
                    Some(v.get_value())
                } else {
                    None
                }
            },
            None => None,
        }
    }
}

/// Relies on DashMap::with_capacity: an empty map with room for `capacity`
/// entries.
#[verifier::external_body]
fn new_map<V>(capacity: usize) -> (r: DashMap<RedisKey, V>) {
    DashMap::with_capacity(capacity)
}

/// Relies on DashMap::get: a copy of the entry under `key`, if there is one
/// at the moment of the call. Other tasks may change the map at any time, so
/// nothing is promised of the result.
#[verifier::external_body]
fn kv_get(m: &DashMap<RedisKey, Value>, key: &RedisKey) -> (r: Option<Value>) {
    m.get(key).map(|r| r.value().clone())
}

/// Relies on DashMap::insert: `value` replaces any entry under `key`; the
/// entry it replaced is returned.
#[verifier::external_body]
fn kv_insert(m: &DashMap<RedisKey, Value>, key: RedisKey, value: Value) -> (r: Option<Value>) {
    m.insert(key, value)
}

/// Relies on DashMap::remove: the entry under `key` leaves the map.
#[verifier::external_body]
fn kv_remove(m: &DashMap<RedisKey, Value>, key: &RedisKey) {
    m.remove(key);
}

/// Relies on DashMap::remove_if: the entry under `key` leaves the map when,
/// under the shard's lock, its deadline is `deadline`; the entry removed, if
/// any, is returned.
#[verifier::external_body]
fn kv_remove_if_deadline(m: &DashMap<RedisKey, Value>, key: &RedisKey, deadline: u64) -> (r: Option<
    Value,
>)
    ensures
        r matches Some(v) ==> v.expiration == Some(deadline),
{
    m.remove_if(key, |_, v| v.expires_at(deadline)).map(|(_, v)| v)
}

/// Relies on DashMap::entry, `Entry::or_insert` and `Vec::extend`: the
/// elements are appended, in order, to the list under `key`, which is made
/// empty first if absent; the list's new length is returned.
#[verifier::external_body]
fn list_append(m: &DashMap<RedisKey, Vec<Vec<u8>>>, key: RedisKey, elements: Vec<Vec<u8>>) -> (r:
    usize)
    ensures
        r >= elements@.len(),
{
    let mut list = m.entry(key).or_insert(Vec::new());
    list.extend(elements);
    list.len()
}

/// The store, shared by every connection and the scheduler.
pub struct Database {
    /// Basic key/value store
    kv: DashMap<RedisKey, Value>,
    /// List support
    lists: DashMap<RedisKey, Vec<Vec<u8>>>,
}

impl Database {
    pub fn new() -> (r: Database) {
        Database { kv: new_map(INITIAL_CAPACITY), lists: new_map(INITIAL_CAPACITY) }
    }

    /// The payload under `key`, unless absent or expired at `now`.
    /// What the lookup finds depends on the other tasks; what is returned of
    /// it is `Value::visible_value`'s.
    pub fn get_key(&self, key: &RedisKey, now: u64) -> (r: Option<Vec<u8>>) {
        let entry = kv_get(&self.kv, key);
        Value::visible_value(entry, now)
    }

    /// The deadline of the entry under `key`, if it exists and has one.
    /// What the lookup finds depends on the other tasks; what is returned of
    /// it is `Value::expiration_of`'s.
    pub fn get_key_expiration(&self, key: &RedisKey) -> (r: Option<u64>) {
        Value::expiration_of(kv_get(&self.kv, key))
    }

    /// Puts `value` under `key`, replacing any entry; returns the one replaced.
    pub fn set_key(&self, key: &RedisKey, value: Value) -> (r: Option<Value>) {
        kv_insert(&self.kv, slice_to_vec(key.as_slice()), value)
    }

    /// Removes the entry under `key`.
    pub fn remove_key(&self, key: &RedisKey) {
        kv_remove(&self.kv, key)
    }

    /// Removes the entry under `key` if its deadline is still `deadline`:
    /// an entry set again since then stays. Returns the entry removed.
    pub fn remove_if_expires_at(&self, key: &RedisKey, deadline: u64) -> (r: Option<Value>)
        ensures
            r matches Some(v) ==> v.expiration == Some(deadline),
    {
        kv_remove_if_deadline(&self.kv, key, deadline)
    }

    /// Appends `elements` to the list under `key`, making the list if absent;
    /// returns the list's new length.
    pub fn rpush(&self, key: &RedisKey, elements: Vec<Vec<u8>>) -> (r: usize)
        ensures
            r >= elements@.len(),
    {
        list_append(&self.lists, slice_to_vec(key.as_slice()), elements)
    }
}

/// An entry set without a duration is seen by every GET, with the value it
/// was set to.
pub proof fn lemma_get_after_set(value: Seq<u8>, now: u64)
    ensures
        visible(Some((value, None)), now) == Some(value),
{
}

/// An entry set with deadline `deadline` is seen, with its value, by a GET
/// before the deadline, and by none from the deadline on, whether or not
/// the scheduler has removed it yet.
pub proof fn lemma_get_with_deadline(value: Seq<u8>, deadline: u64, now: u64)
    ensures
        now < deadline ==> visible(Some((value, Some(deadline))), now) == Some(value),
        now >= deadline ==> visible(Some((value, Some(deadline))), now) is None,
{
}

} // verus!
