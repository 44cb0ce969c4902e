//! A table that maps keys to values.

use crate::errors::DbError;
use crate::errors::DbResult;
use crate::framing::frames;
use crate::framing::fits;
use crate::framing::lemma_framing_round_trip;
use crate::framing::parse;
use crate::framing::Parsed;
use crate::table::apply_all;
use crate::table::lemma_records_framable;
use crate::table::lemma_replay_entries;
use crate::framing::lemma_frames_push;
use crate::framing::Record;
use crate::logger::Logger;
use crate::serializer::Codec;
use crate::table::lemma_replay_push;
use crate::table::records;
use crate::table::replay;
use crate::table::Model;
use crate::table::Table;
use crate::wire::get_u32;
use crate::wire::lemma_u32_round_trip;
use crate::wire::put_u32;
use crate::wire::u32_le;
use crate::TableId;
use core::marker::PhantomData;
use std::collections::HashMap;
use std::hash::Hash;
use vstd::prelude::*;
use vstd::slice::slice_subrange;
use vstd::std_specs::hash::obeys_key_model;
use vstd::std_specs::hash::spec_hash_map_iter;
use vstd::std_specs::iter::IteratorSpec;

verus! {

broadcast use vstd::std_specs::hash::group_hash_axioms;

/// A table backed by a hash map from `K` to `V`.
///
/// A key stands for itself in contracts, so its type has to be one whose
/// view is the value itself and whose hashing and equality follow that
/// value, as the integer types are.
#[verifier::reject_recursive_types(K)]
pub struct LookupTable<K: View<V = K> + Eq + Hash, V: View, C: Codec<K> + Codec<V>> {
    table_id: TableId,
    inner: HashMap<K, V>,
    codec: PhantomData<C>,
}

/// What a lookup table writes to the log: a number for the kind of entry in
/// four bytes, then the key as the codec writes it where the entry has one,
/// then the value where the entry has one.
pub enum LogEntry<K, V> {
    Insert(K, V),
    Remove(K),
    Clear,
}

/// Whether keys of type `K` stand for themselves.
pub open spec fn keys_are_values<K: View<V = K>>() -> bool {
    &&& obeys_key_model::<K>()
    &&& forall|k: K| #[trigger] k.view() == k
}

/// The entry that an entry of keys and values stands for.
pub open spec fn model<K: View, V: View>(entry: LogEntry<K, V>) -> LogEntry<K::V, V::V> {
    match entry {
        LogEntry::Insert(k, v) => LogEntry::Insert(k@, v@),
        LogEntry::Remove(k) => LogEntry::Remove(k@),
        LogEntry::Clear => LogEntry::Clear,
    }
}

/// The map that a map of values stands for.
pub open spec fn models<K, V: View>(m: Map<K, V>) -> Map<K, V::V> {
    m.map_values(|v: V| v@)
}

/// The number that says which kind an entry is of.
pub open spec fn tag<K, V>(entry: LogEntry<K, V>) -> nat {
    match entry {
        LogEntry::Insert(_, _) => 0,
        LogEntry::Remove(_) => 1,
        LogEntry::Clear => 2,
    }
}

/// Whether an entry can be written: what it holds can be encoded.
pub open spec fn entry_encodable<K: View<V = K>, V: View, C: Codec<K> + Codec<V>>(
    entry: LogEntry<K, V::V>,
) -> bool {
    match entry {
        LogEntry::Insert(k, v) => <C as Codec<K>>::encodable(k) && <C as Codec<V>>::encodable(v),
        LogEntry::Remove(k) => <C as Codec<K>>::encodable(k),
        LogEntry::Clear => true,
    }
}

/// The bytes of an entry.
pub open spec fn entry_bytes<K: View<V = K>, V: View, C: Codec<K> + Codec<V>>(
    entry: LogEntry<K, V::V>,
) -> Seq<u8> {
    u32_le(tag(entry)) + match entry {
        LogEntry::Insert(k, v) => <C as Codec<K>>::encoding(k) + <C as Codec<V>>::encoding(v),
        LogEntry::Remove(k) => <C as Codec<K>>::encoding(k),
        LogEntry::Clear => Seq::empty(),
    }
}

/// Whether the payload starts with the bytes of the entry.
pub open spec fn starts<K: View<V = K>, V: View, C: Codec<K> + Codec<V>>(
    payload: Seq<u8>,
    entry: LogEntry<K, V::V>,
) -> bool {
    entry_encodable::<K, V, C>(entry) && entry_bytes::<K, V, C>(entry).is_prefix_of(payload)
}

/// The entry that a payload starts with, if it starts with one.
pub open spec fn decoded<K: View<V = K>, V: View, C: Codec<K> + Codec<V>>(
    payload: Seq<u8>,
) -> Option<LogEntry<K, V::V>> {
    if exists|entry: LogEntry<K, V::V>| starts::<K, V, C>(payload, entry) {
        Some(choose|entry: LogEntry<K, V::V>| starts::<K, V, C>(payload, entry))
    } else {
        None
    }
}

/// What a lookup table holds after an entry is applied to it.
pub open spec fn apply<K, W>(state: Map<K, W>, entry: LogEntry<K, W>) -> Map<K, W> {
    match entry {
        LogEntry::Insert(k, v) => state.insert(k, v),
        LogEntry::Remove(k) => state.remove(k),
        LogEntry::Clear => Map::empty(),
    }
}

/// What a payload that starts with an entry has at its start: the entry's
/// kind, then its key, then its value.
pub proof fn lemma_starts<K: View<V = K>, V: View, C: Codec<K> + Codec<V>>(
    payload: Seq<u8>,
    entry: LogEntry<K, V::V>,
)
    requires
        starts::<K, V, C>(payload, entry),
    ensures
        payload.len() >= 4,
        payload.subrange(0, 4) == u32_le(tag(entry)),
        entry matches LogEntry::Insert(k, v) ==> <C as Codec<K>>::encoding(k).is_prefix_of(
            payload.skip(4),
        ) && <C as Codec<V>>::encoding(v).is_prefix_of(
            payload.skip(4 + <C as Codec<K>>::encoding(k).len() as int),
        ),
        entry matches LogEntry::Remove(k) ==> <C as Codec<K>>::encoding(k).is_prefix_of(
            payload.skip(4),
        ),
{
    let bytes = entry_bytes::<K, V, C>(entry);
    assert(bytes =~= payload.subrange(0, bytes.len() as int));
    assert(payload.subrange(0, 4) =~= bytes.subrange(0, 4));
    assert(bytes.subrange(0, 4) =~= u32_le(tag(entry)));
    match entry {
        LogEntry::Insert(k, v) => {
            let ek = <C as Codec<K>>::encoding(k);
            let ev = <C as Codec<V>>::encoding(v);
            assert(ek =~= bytes.subrange(4, 4 + ek.len() as int));
            assert(ek =~= payload.skip(4).subrange(0, ek.len() as int));
            assert(ev =~= bytes.skip(4 + ek.len() as int));
            assert(ev =~= payload.skip(4 + ek.len() as int).subrange(0, ev.len() as int));
        },
        LogEntry::Remove(k) => {
            let ek = <C as Codec<K>>::encoding(k);
            assert(ek =~= bytes.skip(4));
            assert(ek =~= payload.skip(4).subrange(0, ek.len() as int));
        },
        LogEntry::Clear => {},
    }
}

/// A payload starts with at most one entry. So what is decoded from the
/// bytes of an entry, whatever follows them, is that entry.
pub proof fn lemma_decoded<K: View<V = K>, V: View, C: Codec<K> + Codec<V>>(
    payload: Seq<u8>,
    entry: LogEntry<K, V::V>,
)
    requires
        starts::<K, V, C>(payload, entry),
    ensures
        decoded::<K, V, C>(payload) == Some(entry),
{
    let found = choose|e: LogEntry<K, V::V>| starts::<K, V, C>(payload, e);
    assert(starts::<K, V, C>(payload, found));
    lemma_starts::<K, V, C>(payload, entry);
    lemma_starts::<K, V, C>(payload, found);
    lemma_u32_round_trip(tag(entry), Seq::empty());
    lemma_u32_round_trip(tag(found), Seq::empty());
    assert(tag(entry) == tag(found));
    match (entry, found) {
        (LogEntry::Insert(k, v), LogEntry::Insert(k2, v2)) => {
            <C as Codec<K>>::lemma_self_delimiting(k, k2, payload.skip(4));
            <C as Codec<V>>::lemma_self_delimiting(
                v,
                v2,
                payload.skip(4 + <C as Codec<K>>::encoding(k).len() as int),
            );
        },
        (LogEntry::Remove(k), LogEntry::Remove(k2)) => {
            <C as Codec<K>>::lemma_self_delimiting(k, k2, payload.skip(4));
        },
        _ => {},
    }
}

/// The payloads that insert a run of keys with their values, in order.
pub open spec fn inserts<K: View<V = K>, V: View, C: Codec<K> + Codec<V>>(
    pairs: Seq<(K, V::V)>,
) -> Seq<Seq<u8>> {
    pairs.map_values(|p: (K, V::V)| entry_bytes::<K, V, C>(LogEntry::Insert(p.0, p.1)))
}

/// The map that holds a run of keys with their values, a later pair
/// replacing an earlier one with the same key.
pub open spec fn as_map<K, W>(pairs: Seq<(K, W)>) -> Map<K, W>
    decreases pairs.len(),
{
    if pairs.len() == 0 {
        Map::empty()
    } else {
        as_map(pairs.drop_last()).insert(pairs.last().0, pairs.last().1)
    }
}

/// A map made of a run of pairs holds exactly the keys of the run.
pub proof fn lemma_as_map_keys<K, W>(pairs: Seq<(K, W)>)
    ensures
        forall|k: K|
            as_map(pairs).contains_key(k) <==> exists|j: int|
                0 <= j < pairs.len() && (#[trigger] pairs[j]).0 == k,
    decreases pairs.len(),
{
    if pairs.len() > 0 {
        let front = pairs.drop_last();
        let last = pairs.last();
        lemma_as_map_keys(front);
        assert(as_map(pairs) == as_map(front).insert(last.0, last.1));
        assert forall|k: K|
            as_map(pairs).contains_key(k) <==> exists|j: int|
                0 <= j < pairs.len() && (#[trigger] pairs[j]).0 == k by {
            if as_map(pairs).contains_key(k) {
                if k == last.0 {
                    assert(pairs[pairs.len() - 1].0 == k);
                } else {
                    assert(as_map(front).contains_key(k));
                    assert(exists|j: int| 0 <= j < front.len() && (#[trigger] front[j]).0 == k);
                    let j = choose|j: int| 0 <= j < front.len() && (#[trigger] front[j]).0 == k;
                    assert(pairs[j].0 == k);
                }
            }
            if exists|j: int| 0 <= j < pairs.len() && (#[trigger] pairs[j]).0 == k {
                let j = choose|j: int| 0 <= j < pairs.len() && (#[trigger] pairs[j]).0 == k;
                if j < front.len() {
                    assert(front[j].0 == k);
                    assert(as_map(front).contains_key(k));
                } else {
                    assert(pairs[j] == last);
                }
            }
        }
    }
}

/// A run of pairs that lists what a map holds, in any order, makes that
/// map.
pub proof fn lemma_as_map<K, W>(pairs: Seq<(K, W)>, m: Map<K, W>)
    requires
        forall|j: int|
            0 <= j < pairs.len() ==> m.contains_key((#[trigger] pairs[j]).0) && m[pairs[j].0]
                == pairs[j].1,
        forall|k: K|
            m.contains_key(k) ==> exists|j: int| 0 <= j < pairs.len() && (#[trigger] pairs[j]).0 == k,
    ensures
        as_map(pairs) == m,
{
    lemma_as_map_keys(pairs);
    lemma_as_map_values(pairs, m);
    assert(as_map(pairs) =~= m);
}

/// A map made of a run of pairs holds, with each key, the value that a map
/// holds with which every pair of the run agrees.
proof fn lemma_as_map_values<K, W>(pairs: Seq<(K, W)>, m: Map<K, W>)
    requires
        forall|j: int|
            0 <= j < pairs.len() ==> m.contains_key((#[trigger] pairs[j]).0) && m[pairs[j].0]
                == pairs[j].1,
    ensures
        forall|k: K| as_map(pairs).contains_key(k) ==> as_map(pairs)[k] == m[k],
    decreases pairs.len(),
{
    if pairs.len() > 0 {
        let front = pairs.drop_last();
        let last = pairs.last();
        assert forall|j: int| 0 <= j < front.len() implies m.contains_key((#[trigger] front[j]).0)
            && m[front[j].0] == front[j].1 by {
            assert(front[j] == pairs[j]);
        }
        lemma_as_map_values(front, m);
        assert(pairs[pairs.len() - 1] == last);
    }
}

impl<K: View<V = K> + Eq + Hash, V: View, C: Codec<K> + Codec<V>> View for LookupTable<K, V, C> {
    type V = Map<K, V::V>;

    closed spec fn view(&self) -> Map<K, V::V> {
        models(self.inner@)
    }
}

impl<K: View<V = K> + Eq + Hash, V: View, C: Codec<K> + Codec<V>> Model for LookupTable<K, V, C> {
    type State = Map<K, V::V>;

    open spec fn empty() -> Map<K, V::V> {
        Map::empty()
    }

    open spec fn replayed(state: Map<K, V::V>, payload: Seq<u8>) -> Option<Map<K, V::V>> {
        match decoded::<K, V, C>(payload) {
            Some(entry) => Some(apply(state, entry)),
            None => None,
        }
    }
}

/// Replaying the inserts of a run of keys with their values onto an empty
/// table gives the map that the run makes.
pub proof fn lemma_replay_inserts<K: View<V = K> + Eq + Hash, V: View, C: Codec<K> + Codec<V>>(
    pairs: Seq<(K, V::V)>,
)
    requires
        forall|j: int|
            0 <= j < pairs.len() ==> entry_encodable::<K, V, C>(
                LogEntry::Insert((#[trigger] pairs[j]).0, pairs[j].1),
            ),
    ensures
        replay::<LookupTable<K, V, C>>(Map::empty(), inserts::<K, V, C>(pairs)) == Some(
            as_map(pairs),
        ),
    decreases pairs.len(),
{
    if pairs.len() == 0 {
        assert(inserts::<K, V, C>(pairs) =~= Seq::<Seq<u8>>::empty());
    } else {
        let front = pairs.drop_last();
        let last = pairs.last();
        assert forall|j: int| 0 <= j < front.len() implies entry_encodable::<K, V, C>(
            LogEntry::Insert((#[trigger] front[j]).0, front[j].1),
        ) by {
            assert(front[j] == pairs[j]);
        }
        lemma_replay_inserts::<K, V, C>(front);
        let entry = LogEntry::Insert(last.0, last.1);
        let payload = entry_bytes::<K, V, C>(entry);
        assert(inserts::<K, V, C>(pairs) =~= inserts::<K, V, C>(front).push(payload));
        lemma_replay_push::<LookupTable<K, V, C>>(
            Map::empty(),
            inserts::<K, V, C>(front),
            payload,
        );
        assert(payload.is_prefix_of(payload));
        assert(pairs[pairs.len() - 1] == last);
        lemma_decoded::<K, V, C>(payload, entry);
    }
}

impl<K: View<V = K> + Eq + Hash, V: View, C: Codec<K> + Codec<V>> LookupTable<K, V, C> {
    /// What every operation keeps: the id is that of a user table, keys
    /// stand for themselves, and every key and value that the table holds
    /// can be encoded.
    pub closed spec fn well_formed(&self) -> bool {
        &&& 1 <= self.table_id <= 254
        &&& keys_are_values::<K>()
        &&& forall|k: K| #[trigger]
            self@.contains_key(k) ==> entry_encodable::<K, V, C>(LogEntry::Insert(k, self@[k]))
    }

    /// The id under which the table's records stand in the log.
    pub closed spec fn table_id(&self) -> TableId {
        self.table_id
    }

    /// Encodes an entry.
    fn encode(entry: &LogEntry<&K, &V>) -> (r: DbResult<Vec<u8>>)
        ensures
            r is Ok <==> entry_encodable::<K, V, C>(model(*entry)),
            r matches Ok(data) ==> data@ == entry_bytes::<K, V, C>(model(*entry)),
    {
        let mut data: Vec<u8> = Vec::new();
        match entry {
            LogEntry::Insert(key, value) => {
                put_u32(&mut data, 0);
                let mut encoded_key = <C as Codec<K>>::serialize(key)?;
                let mut encoded_value = <C as Codec<V>>::serialize(value)?;
                data.append(&mut encoded_key);
                data.append(&mut encoded_value);
            },
            LogEntry::Remove(key) => {
                put_u32(&mut data, 1);
                let mut encoded_key = <C as Codec<K>>::serialize(key)?;
                data.append(&mut encoded_key);
            },
            LogEntry::Clear => {
                put_u32(&mut data, 2);
            },
        }
        assert(data@ =~= entry_bytes::<K, V, C>(model(*entry)));
        Ok(data)
    }

    /// Decodes the entry that a payload starts with.
    fn decode(bytes: &[u8]) -> (r: DbResult<LogEntry<K, V>>)
        ensures
            match r {
                Ok(entry) => decoded::<K, V, C>(bytes@) == Some(model(entry)),
                Err(_) => decoded::<K, V, C>(bytes@) is None,
            },
    {
        let kind = match get_u32(bytes, 0) {
            Some(kind) => kind,
            None => {
                assert forall|e: LogEntry<K, V::V>| !starts::<K, V, C>(bytes@, e) by {
                    if starts::<K, V, C>(bytes@, e) {
                        lemma_starts::<K, V, C>(bytes@, e);
                    }
                }
                return Err(DbError::Unexpected("a record without the kind of its entry"));
            },
        };
        proof {
            lemma_u32_round_trip(kind as nat, Seq::empty());
        }
        if kind == 0 || kind == 1 {
            let rest = slice_subrange(bytes, 4, bytes.len());
            let (key, n) = match <C as Codec<K>>::deserialize(rest) {
                Ok(found) => found,
                Err(e) => {
                    assert forall|e: LogEntry<K, V::V>| !starts::<K, V, C>(bytes@, e) by {
                        if starts::<K, V, C>(bytes@, e) {
                            lemma_starts::<K, V, C>(bytes@, e);
                            lemma_u32_round_trip(tag(e), Seq::empty());
                        }
                    }
                    return Err(e);
                },
            };
            if kind == 1 {
                let entry: LogEntry<K, V> = LogEntry::Remove(key);
                proof {
                    assert(entry_bytes::<K, V, C>(model(entry)) =~= bytes@.subrange(0, 4 + n));
                    lemma_decoded::<K, V, C>(bytes@, model(entry));
                }
                return Ok(entry);
            }
            let rest = slice_subrange(bytes, 4 + n, bytes.len());
            match <C as Codec<V>>::deserialize(rest) {
                Ok((value, m)) => {
                    let entry = LogEntry::Insert(key, value);
                    proof {
                        assert(entry_bytes::<K, V, C>(model(entry)) =~= bytes@.subrange(
                            0,
                            4 + n + m,
                        ));
                        lemma_decoded::<K, V, C>(bytes@, model(entry));
                    }
                    Ok(entry)
                },
                Err(e) => {
                    assert forall|e: LogEntry<K, V::V>| !starts::<K, V, C>(bytes@, e) by {
                        if starts::<K, V, C>(bytes@, e) {
                            lemma_starts::<K, V, C>(bytes@, e);
                            lemma_u32_round_trip(tag(e), Seq::empty());
                            let k2 = e->Insert_0;
                            assert(<C as Codec<K>>::encoding(key@).is_prefix_of(bytes@.skip(4)));
                            <C as Codec<K>>::lemma_self_delimiting(key@, k2, bytes@.skip(4));
                            assert(bytes@.skip(4 + n) =~= rest@);
                        }
                    }
                    Err(e)
                },
            }
        } else if kind == 2 {
            let entry: LogEntry<K, V> = LogEntry::Clear;
            proof {
                assert(entry_bytes::<K, V, C>(model(entry)) =~= bytes@.subrange(0, 4));
                lemma_decoded::<K, V, C>(bytes@, model(entry));
            }
            Ok(entry)
        } else {
            assert forall|e: LogEntry<K, V::V>| !starts::<K, V, C>(bytes@, e) by {
                if starts::<K, V, C>(bytes@, e) {
                    lemma_starts::<K, V, C>(bytes@, e);
                    lemma_u32_round_trip(tag(e), Seq::empty());
                }
            }
            Err(DbError::Unexpected("a record with an entry of unknown kind"))
        }
    }

    /// Puts a value under a key, in place of the one that stands there, and
    /// writes the entry for it. Gives back the value that was replaced.
    ///
    /// Fails, and changes nothing, if and only if the key or the value
    /// cannot be encoded or
    /// the log does not take the entry.
    pub fn insert(&mut self, logger: &mut Logger, key: K, value: V) -> (r: DbResult<Option<V>>)
        requires
            old(self).well_formed(),
        ensures
            final(self).table_id() == old(self).table_id(),
            final(self).well_formed(),
            match r {
                Ok(replaced) => {
                    &&& entry_encodable::<K, V, C>(LogEntry::Insert(key, value@))
                    &&& match replaced {
                        Some(v) => old(self)@.contains_key(key) && old(self)@[key] == v@,
                        None => !old(self)@.contains_key(key),
                    }
                    &&& final(self)@ == old(self)@.insert(key, value@)
                    &&& old(logger)@.accepts(entry_bytes::<K, V, C>(LogEntry::Insert(key, value@)))
                    &&& Self::replayed(old(self)@, entry_bytes::<K, V, C>(LogEntry::Insert(key, value@))) == Some(final(self)@)
                    &&& final(logger)@ == old(logger)@.write(
                        old(self).table_id(),
                        entry_bytes::<K, V, C>(LogEntry::Insert(key, value@)),
                    )
                },
                Err(_) => {
                    &&& !(entry_encodable::<K, V, C>(LogEntry::Insert(key, value@)) && old(logger)@.accepts(entry_bytes::<K, V, C>(LogEntry::Insert(key, value@))))
                    &&& final(self)@ == old(self)@
                    &&& final(logger)@ == old(logger)@
                },
            },
    {
        assert(key@ == key);
        let data = Self::encode(&LogEntry::Insert(&key, &value))?;
        logger.write(self.table_id, data)?;
        proof {
            lemma_replayed::<K, V, C>(old(self)@, LogEntry::Insert(key, value@));
        }
        let ret = self.inner.insert(key, value);
        assert(self@ =~= old(self)@.insert(key, value@));
        Ok(ret)
    }

    /// The map that the table holds.
    pub fn data(&self) -> (r: &HashMap<K, V>)
        ensures
            models(r@) == self@,
    {
        &self.inner
    }

    /// The value that stands under a key.
    pub fn get(&self, k: &K) -> (r: Option<&V>)
        requires
            self.well_formed(),
        ensures
            match r {
                Some(v) => self@.contains_key(*k) && self@[*k] == v@,
                None => !self@.contains_key(*k),
            },
    {
        self.inner.get(k)
    }

    /// Empties the table and writes the entry for it.
    ///
    /// Fails, and changes nothing, if and only if the log does not take the
    /// entry.
    pub fn clear(&mut self, logger: &mut Logger) -> (r: DbResult<()>)
        requires
            old(self).well_formed(),
        ensures
            final(self).table_id() == old(self).table_id(),
            final(self).well_formed(),
            match r {
                Ok(()) => {
                    &&& old(logger)@.accepts(entry_bytes::<K, V, C>(LogEntry::Clear))
                    &&& Self::replayed(old(self)@, entry_bytes::<K, V, C>(LogEntry::Clear)) == Some(final(self)@)
                    &&& final(self)@ == Map::<K, V::V>::empty()
                    &&& final(logger)@ == old(logger)@.write(
                        old(self).table_id(),
                        entry_bytes::<K, V, C>(LogEntry::Clear),
                    )
                },
                Err(e) => {
                    &&& !old(logger)@.accepts(entry_bytes::<K, V, C>(LogEntry::Clear))
                    &&& e matches DbError::Unexpected(_)
                    &&& final(self)@ == old(self)@
                    &&& final(logger)@ == old(logger)@
                },
            },
    {
        let entry: LogEntry<&K, &V> = LogEntry::Clear;
        let data = Self::encode(&entry)?;
        logger.write(self.table_id, data)?;
        proof {
            lemma_replayed::<K, V, C>(old(self)@, LogEntry::Clear);
        }
        self.inner.clear();
        assert(self@ =~= Map::<K, V::V>::empty());
        Ok(())
    }
}

impl<K: View<V = K> + Eq + Hash, V: View, C: Codec<K> + Codec<V>> Table for LookupTable<K, V, C> {
    open spec fn state(&self) -> Map<K, V::V> {
        self@
    }

    open spec fn id(&self) -> TableId {
        self.table_id()
    }

    open spec fn supported() -> bool {
        keys_are_values::<K>()
    }

    open spec fn wf(&self) -> bool {
        self.well_formed()
    }

    /// A table that is well formed can always be written down.
    open spec fn compactable(&self) -> bool {
        true
    }

    fn init(table_id: TableId) -> (table: Self) {
        let table = Self { table_id, inner: HashMap::new(), codec: PhantomData };
        assert(table@ =~= Map::<K, V::V>::empty());
        table
    }

    fn handle_event(&mut self, bytes: &[u8]) -> (r: DbResult<()>) {
        let entry = Self::decode(bytes)?;
        proof {
            let found = choose|e: LogEntry<K, V::V>| starts::<K, V, C>(bytes@, e);
            assert(starts::<K, V, C>(bytes@, found));
        }
        match entry {
            LogEntry::Insert(k, v) => {
                assert(k@ == k);
                self.inner.insert(k, v);
                assert(self@ =~= old(self)@.insert(k, v@));
            },
            LogEntry::Remove(k) => {
                assert(k@ == k);
                self.inner.remove(&k);
                assert(self@ =~= old(self)@.remove(k));
            },
            LogEntry::Clear => {
                self.inner.clear();
                assert(self@ =~= Map::<K, V::V>::empty());
            },
        }
        Ok(())
    }

    /// One insert for each key with its value, in the order in which the
    /// hash map hands them out.
    fn compact_repr(&self) -> (r: DbResult<Vec<u8>>)
        ensures
            r matches Ok(repr) && exists|pairs: Seq<(K, V::V)>|
                #![trigger inserts::<K, V, C>(pairs)]
                {
                    &&& as_map(pairs) == self@
                    &&& pairs.len() == self@.len()
                    &&& repr@ == frames(records(self.table_id(), inserts::<K, V, C>(pairs)))
                },
    {
        let mut repr: Vec<u8> = Vec::new();
        let ghost mut pairs: Seq<(K, V::V)> = Seq::empty();
        let ghost items = IteratorSpec::remaining(&spec_hash_map_iter(&self.inner));
        proof {
            assert(records(self.table_id, inserts::<K, V, C>(pairs)) =~= Seq::<Record>::empty());
        }
        for pair in it: self.inner.iter()
            invariant
                self.well_formed(),
                it.seq() == items,
                items.len() == self.inner@.dom().len(),
                pairs.len() == it.index(),
                forall|j: int|
                    0 <= j < pairs.len() ==> (#[trigger] pairs[j]) == (*items[j].0, (*items[j].1)@),
                repr@ == frames(records(self.table_id, inserts::<K, V, C>(pairs))),
        {
            let (k, v) = pair;
            assert(self.inner@.contains_key(*k) && self.inner@[*k] == *v);
            assert(self@.contains_key(*k) && self@[*k] == v@);
            assert(k@ == *k);
            let data = Self::encode(&LogEntry::Insert(k, v))?;
            let mut entry = Logger::log_entry(self.table_id, data);
            proof {
                let before = records(self.table_id, inserts::<K, V, C>(pairs));
                let payload = entry_bytes::<K, V, C>(LogEntry::Insert(*k, v@));
                let record = Record { table_id: self.table_id, payload };
                lemma_frames_push(before, record);
                pairs = pairs.push((*k, v@));
                assert(records(self.table_id, inserts::<K, V, C>(pairs)) =~= before.push(record));
            }
            repr.append(&mut entry);
        }
        proof {
            let m = self@;
            assert(pairs.len() == items.len());
            assert forall|j: int| 0 <= j < pairs.len() implies m.contains_key(
                (#[trigger] pairs[j]).0,
            ) && m[pairs[j].0] == pairs[j].1 && entry_encodable::<K, V, C>(
                LogEntry::Insert(pairs[j].0, pairs[j].1),
            ) by {
                assert(self.inner@.contains_key(*items[j].0));
            }
            assert forall|k: K| m.contains_key(k) implies exists|j: int|
                0 <= j < pairs.len() && (#[trigger] pairs[j]).0 == k by {
                assert(self.inner@.contains_key(k));
                let item = (&k, &self.inner@[k]);
                assert(items.contains(item));
                let j = choose|j: int| 0 <= j < items.len() && items[j] == item;
                assert(pairs[j].0 == k);
            }
            lemma_as_map(pairs, m);
            lemma_replay_inserts::<K, V, C>(pairs);
            assert(self@.dom() =~= self.inner@.dom());
            assert(pairs.len() == self@.len());
            let payloads = inserts::<K, V, C>(pairs);
            assert(repr@ == frames(records(self.id(), payloads)));
            assert(replay::<Self>(Self::empty(), payloads) == Some(self.state()));
        }
        Ok(repr)
    }
}


/// What replaying the payload of one entry gives.
pub proof fn lemma_replayed<K: View<V = K> + Eq + Hash, V: View, C: Codec<K> + Codec<V>>(state: Map<K, V::V>, entry: LogEntry<K, V::V>)
    requires
        entry_encodable::<K, V, C>(entry),
    ensures
        <LookupTable<K, V, C>>::replayed(state, entry_bytes::<K, V, C>(entry)) == Some(apply(state, entry)),
{
    let payload = entry_bytes::<K, V, C>(entry);
    assert(payload.is_prefix_of(payload));
    lemma_decoded::<K, V, C>(payload, entry);
}

/// The payloads of a run of entries.
pub open spec fn payloads<K: View<V = K> + Eq + Hash, V: View, C: Codec<K> + Codec<V>>(
    entries: Seq<LogEntry<K, V::V>>,
) -> Seq<Seq<u8>> {
    entries.map_values(|e: LogEntry<K, V::V>| entry_bytes::<K, V, C>(e))
}

/// Replay fidelity: where a run of entries is written to the log of a
/// table, each as one record, parsing the log gives back exactly those
/// records, and replaying them changes a table as applying the entries
/// does.
pub proof fn lemma_replay_fidelity<K: View<V = K> + Eq + Hash, V: View, C: Codec<K> + Codec<V>>(
    id: TableId,
    state: Map<K, V::V>,
    entries: Seq<LogEntry<K, V::V>>,
)
    requires
        id != 0,
        forall|i: int|
            0 <= i < entries.len() ==> entry_encodable::<K, V, C>(#[trigger] entries[i]) && fits(
                entry_bytes::<K, V, C>(entries[i]),
            ),
    ensures
        parse(frames(records(id, payloads::<K, V, C>(entries)))) == (Parsed {
            records: records(id, payloads::<K, V, C>(entries)),
            incomplete: false,
        }),
        replay::<LookupTable<K, V, C>>(state, payloads::<K, V, C>(entries)) == apply_all(
            state,
            entries,
            |s: Map<K, V::V>, e: LogEntry<K, V::V>| Some(apply(s, e)),
        ),
{
    let written = payloads::<K, V, C>(entries);
    assert forall|i: int| 0 <= i < written.len() implies fits(#[trigger] written[i]) by {
        assert(written[i] == entry_bytes::<K, V, C>(entries[i]));
    }
    lemma_records_framable(id, written);
    lemma_framing_round_trip(records(id, written));
    assert forall|s: Map<K, V::V>, i: int| 0 <= i < entries.len() implies #[trigger] <LookupTable<K, V, C>>::replayed(
        s,
        entry_bytes::<K, V, C>(entries[i]),
    ) == (|s: Map<K, V::V>, e: LogEntry<K, V::V>| Some(apply(s, e)))(s, entries[i]) by {
        let payload = entry_bytes::<K, V, C>(entries[i]);
        assert(payload.is_prefix_of(payload));
        lemma_decoded::<K, V, C>(payload, entries[i]);
    }
    lemma_replay_entries::<LookupTable<K, V, C>, LogEntry<K, V::V>>(
        state,
        entries,
        |e: LogEntry<K, V::V>| entry_bytes::<K, V, C>(e),
        |s: Map<K, V::V>, e: LogEntry<K, V::V>| Some(apply(s, e)),
    );
}

} // verus!
