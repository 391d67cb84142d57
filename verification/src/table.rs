//! The open substreams, and sets of their keys, in hash tables.

use crate::addr::SocketAddr;
use crate::substream::{Direction, SubstreamKey, SubstreamState, SubstreamValue};
use fnv::{FnvHashMap, FnvHashSet};
use vstd::prelude::*;

verus! {

/// A [`SubstreamKey`] as plain values: the address (IPv4, or else IPv6), whether
/// the substream is outbound, and the number of the stream.
pub type RawKey = (Result<(u32, u16), (u128, u16, u32, u32)>, bool, u32);

/// The plain values of a key.
pub open spec fn raw_key(key: SubstreamKey) -> RawKey {
    (
        match key.remote_addr {
            SocketAddr::V4 { ip, port } => Ok((ip, port)),
            SocketAddr::V6 { ip, port, flowinfo, scope_id } => Err((ip, port, flowinfo, scope_id)),
        },
        key.direction is Outbound,
        key.substream_id,
    )
}

/// The key of which these are the plain values.
pub open spec fn key_of(raw: RawKey) -> SubstreamKey {
    SubstreamKey {
        remote_addr: match raw.0 {
            Ok((ip, port)) => SocketAddr::V4 { ip, port },
            Err((ip, port, flowinfo, scope_id)) => SocketAddr::V6 { ip, port, flowinfo, scope_id },
        },
        direction: if raw.1 {
            Direction::Outbound
        } else {
            Direction::Inbound
        },
        substream_id: raw.2,
    }
}

/// A key and its plain values stand for each other.
pub broadcast proof fn lemma_raw_key(key: SubstreamKey)
    ensures
        key_of(#[trigger] raw_key(key)) == key,
{
}

/// Plain values and the key that they make up stand for each other.
pub broadcast proof fn lemma_key_of(raw: RawKey)
    ensures
        raw_key(#[trigger] key_of(raw)) == raw,
{
}

fn to_raw_key(key: SubstreamKey) -> (raw: RawKey)
    ensures
        raw == raw_key(key),
{
    let addr = match key.remote_addr {
        SocketAddr::V4 { ip, port } => Ok((ip, port)),
        SocketAddr::V6 { ip, port, flowinfo, scope_id } => Err((ip, port, flowinfo, scope_id)),
    };
    (addr, key.direction == Direction::Outbound, key.substream_id)
}

fn to_key(raw: RawKey) -> (key: SubstreamKey)
    ensures
        key == key_of(raw),
{
    let remote_addr = match raw.0 {
        Ok((ip, port)) => SocketAddr::V4 { ip, port },
        Err((ip, port, flowinfo, scope_id)) => SocketAddr::V6 { ip, port, flowinfo, scope_id },
    };
    let direction = if raw.1 {
        Direction::Outbound
    } else {
        Direction::Inbound
    };
    SubstreamKey { remote_addr, direction, substream_id: raw.2 }
}

/// The keys of which these are the plain values.
spec fn keys_of(raws: Seq<RawKey>) -> Seq<SubstreamKey> {
    raws.map_values(|raw: RawKey| key_of(raw))
}

fn to_keys(raws: Vec<RawKey>) -> (keys: Vec<SubstreamKey>)
    ensures
        keys@ == keys_of(raws@),
{
    let mut keys: Vec<SubstreamKey> = Vec::new();
    let mut i: usize = 0;
    while i < raws.len()
        invariant
            i <= raws@.len(),
            keys@.len() == i,
            forall|j: int| 0 <= j < i ==> keys@[j] == key_of(raws@[j]),
        decreases raws@.len() - i,
    {
        keys.push(to_key(raws[i]));
        i += 1;
    }
    assert(keys@ =~= keys_of(raws@));
    keys
}

// ---------------------------------------------------------------------------
// The hash tables of `fnv`.
// ---------------------------------------------------------------------------

/// Declares `fnv::FnvHasher`.
#[verifier::external_type_specification]
#[verifier::external_body]
pub struct ExFnvHasher(fnv::FnvHasher);

/// Declares `std::hash::BuildHasherDefault`, through which the tables of `fnv`
/// make their hashers.
#[verifier::external_type_specification]
#[verifier::external_body]
#[verifier::reject_recursive_types(H)]
pub struct ExBuildHasherDefault<H>(std::hash::BuildHasherDefault<H>);

/// Calls `insert` of an `FnvHashMap`: the key maps to the value, whatever it
/// mapped to before.
#[verifier::external_body]
fn map_insert(map: &mut FnvHashMap<RawKey, SubstreamValue>, key: RawKey, value: SubstreamValue)
    ensures
        final(map)@ == old(map)@.insert(key, value),
{
    map.insert(key, value);
}

/// Calls `remove` of an `FnvHashMap`: the key maps to nothing.
#[verifier::external_body]
fn map_remove(map: &mut FnvHashMap<RawKey, SubstreamValue>, key: RawKey)
    ensures
        final(map)@ == old(map)@.remove(key),
{
    map.remove(&key);
}

/// Calls `contains_key` of an `FnvHashMap`: whether the key maps to something.
#[verifier::external_body]
fn map_contains(map: &FnvHashMap<RawKey, SubstreamValue>, key: RawKey) -> (found: bool)
    ensures
        found == map@.contains_key(key),
{
    map.contains_key(&key)
}

/// Calls `get_mut` of an `FnvHashMap`: the value that the key maps to, in place;
/// nothing else in the map changes.
#[verifier::external_body]
fn map_get_mut(map: &mut FnvHashMap<RawKey, SubstreamValue>, key: RawKey) -> (found: Option<
    &mut SubstreamValue,
>)
    ensures
        match found {
            Some(value) => {
                &&& old(map)@.contains_key(key)
                &&& *value == old(map)@[key]
                &&& final(map)@ == old(map)@.insert(key, *final(value))
            },
            None => !old(map)@.contains_key(key) && final(map)@ == old(map)@,
        },
{
    map.get_mut(&key)
}

/// Calls `keys` of an `FnvHashMap` and collects them: each key that maps to
/// something, once, in no particular order.
#[verifier::external_body]
fn map_keys(map: &FnvHashMap<RawKey, SubstreamValue>) -> (keys: Vec<RawKey>)
    ensures
        keys@.no_duplicates(),
        keys@.to_set() == map@.dom(),
{
    map.keys().cloned().collect()
}

/// Calls `insert` of an `FnvHashSet`: the key is in the set.
#[verifier::external_body]
fn set_insert(set: &mut FnvHashSet<RawKey>, key: RawKey)
    ensures
        final(set)@ == old(set)@.insert(key),
{
    set.insert(key);
}

/// Calls `drain` of an `FnvHashSet` and collects what it hands out: each key that
/// was in the set, once, in no particular order. The set is left empty.
#[verifier::external_body]
fn set_drain(set: &mut FnvHashSet<RawKey>) -> (keys: Vec<RawKey>)
    ensures
        final(set)@ == Set::<RawKey>::empty(),
        keys@.no_duplicates(),
        keys@.to_set() == old(set)@,
{
    set.drain().collect()
}

// ---------------------------------------------------------------------------
// The tables of the library.
// ---------------------------------------------------------------------------

/// The open substreams.
pub struct SubstreamTable {
    map: FnvHashMap<RawKey, SubstreamValue>,
}

impl View for SubstreamTable {
    type V = Map<SubstreamKey, SubstreamState>;

    closed spec fn view(&self) -> Map<SubstreamKey, SubstreamState> {
        Map::new(
            |key: SubstreamKey| self.map@.contains_key(raw_key(key)),
            |key: SubstreamKey| self.map@[raw_key(key)]@,
        )
    }
}

impl SubstreamTable {
    /// No substream is open.
    pub fn new() -> (table: SubstreamTable)
        ensures
            table@ == Map::<SubstreamKey, SubstreamState>::empty(),
    {
        let table = SubstreamTable { map: FnvHashMap::default() };
        assert(table@ =~= Map::<SubstreamKey, SubstreamState>::empty());
        table
    }

    /// Opens a substream. One with the same key is replaced.
    pub fn insert(&mut self, key: SubstreamKey, value: SubstreamValue)
        ensures
            final(self)@ == old(self)@.insert(key, value@),
    {
        broadcast use lemma_raw_key;

        let ghost before = self@;
        map_insert(&mut self.map, to_raw_key(key), value);
        assert(self@ =~= before.insert(key, value@));
    }

    /// Closes a substream, if it is open.
    pub fn remove(&mut self, key: SubstreamKey)
        ensures
            final(self)@ == old(self)@.remove(key),
    {
        broadcast use lemma_raw_key;

        let ghost before = self@;
        map_remove(&mut self.map, to_raw_key(key));
        assert(self@ =~= before.remove(key));
    }

    /// Whether a substream is open.
    pub fn contains(&self, key: SubstreamKey) -> (open: bool)
        ensures
            open == self@.contains_key(key),
    {
        map_contains(&self.map, to_raw_key(key))
    }

    /// The substream with this key, to be changed in place.
    pub fn get_mut(&mut self, key: SubstreamKey) -> (found: Option<&mut SubstreamValue>)
        ensures
            match found {
                Some(value) => {
                    &&& old(self)@.contains_key(key)
                    &&& value@ == old(self)@[key]
                    &&& final(self)@ == old(self)@.insert(key, final(value)@)
                },
                None => !old(self)@.contains_key(key) && final(self)@ == old(self)@,
            },
    {
        map_get_mut(&mut self.map, to_raw_key(key))
    }

    /// The keys of the open substreams, in no particular order.
    pub fn keys(&self) -> (keys: Vec<SubstreamKey>)
        ensures
            keys@.no_duplicates(),
            keys@.to_set() == self@.dom(),
    {
        broadcast use {lemma_raw_key, lemma_key_of};

        let raws = map_keys(&self.map);
        let ghost all = raws@;
        let keys = to_keys(raws);
        proof {
            lemma_keys_of(all);
            assert(keys@.to_set() =~= self@.dom()) by {
                assert forall|key: SubstreamKey|
                    keys@.to_set().contains(key) == #[trigger] self@.dom().contains(key) by {
                    let raw = raw_key(key);
                    assert(all.to_set().contains(raw) == self.map@.dom().contains(raw));
                }
            }
        }
        keys
    }
}

/// Turning plain values into keys keeps them apart and loses none.
proof fn lemma_keys_of(raws: Seq<RawKey>)
    requires
        raws.no_duplicates(),
    ensures
        keys_of(raws).no_duplicates(),
        forall|key: SubstreamKey|
            #[trigger] keys_of(raws).contains(key) == raws.contains(raw_key(key)),
{
    broadcast use {lemma_raw_key, lemma_key_of};

    let keys = keys_of(raws);
    assert forall|i: int, j: int|
        0 <= i < keys.len() && 0 <= j < keys.len() && i != j implies keys[i] != keys[j] by {
        assert(raw_key(keys[i]) == raws[i]);
        assert(raw_key(keys[j]) == raws[j]);
    }
    assert forall|key: SubstreamKey| #[trigger]
        keys.contains(key) == raws.contains(raw_key(key)) by {
        if keys.contains(key) {
            let i = choose|i: int| 0 <= i < keys.len() && keys[i] == key;
            assert(raws[i] == raw_key(key));
        }
        if raws.contains(raw_key(key)) {
            let i = choose|i: int| 0 <= i < raws.len() && raws[i] == raw_key(key);
            assert(keys[i] == key);
        }
    }
}

/// A set of keys of substreams.
pub struct KeySet {
    set: FnvHashSet<RawKey>,
}

impl View for KeySet {
    type V = Set<SubstreamKey>;

    closed spec fn view(&self) -> Set<SubstreamKey> {
        Set::new(|key: SubstreamKey| self.set@.contains(raw_key(key)))
    }
}

impl KeySet {
    /// The empty set.
    pub fn new() -> (keys: KeySet)
        ensures
            keys@ == Set::<SubstreamKey>::empty(),
    {
        let keys = KeySet { set: FnvHashSet::default() };
        assert(keys@ =~= Set::<SubstreamKey>::empty());
        keys
    }

    /// Adds `key`.
    pub fn insert(&mut self, key: SubstreamKey)
        ensures
            final(self)@ == old(self)@.insert(key),
    {
        broadcast use lemma_raw_key;

        let ghost before = self@;
        set_insert(&mut self.set, to_raw_key(key));
        assert(self@ =~= before.insert(key));
    }

    /// Takes all keys out, in no particular order.
    pub fn drain(&mut self) -> (keys: Vec<SubstreamKey>)
        ensures
            final(self)@ == Set::<SubstreamKey>::empty(),
            keys@.no_duplicates(),
            keys@.to_set() == old(self)@,
    {
        broadcast use {lemma_raw_key, lemma_key_of};

        let ghost before = self@;
        let ghost before_raw = self.set@;
        let raws = set_drain(&mut self.set);
        let ghost all = raws@;
        let keys = to_keys(raws);
        proof {
            assert(self@ =~= Set::<SubstreamKey>::empty());
            lemma_keys_of(all);
            assert(keys@.to_set() =~= before) by {
                assert forall|key: SubstreamKey|
                    keys@.to_set().contains(key) == #[trigger] before.contains(key) by {
                    let raw = raw_key(key);
                    assert(all.to_set().contains(raw) == before_raw.contains(raw));
                }
            }
        }
        keys
    }
}

} // verus!
