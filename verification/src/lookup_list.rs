//! A table that maps keys to ordered sequences of values.

use crate::errors::DbError;
use crate::errors::DbResult;
use crate::framing::frames;
use crate::framing::fits;
use crate::framing::lemma_framing_round_trip;
use crate::framing::parse;
use crate::framing::Parsed;
use crate::table::apply_all;
use crate::table::lemma_records_framable;
use crate::table::lemma_replay_entries;
use crate::framing::lemma_frames_push;
use crate::framing::Record;
use crate::logger::Logger;
use crate::lookup::as_map;
use crate::lookup::keys_are_values;
use crate::lookup::lemma_as_map;
use crate::lookup::lemma_as_map_keys;
use crate::serializer::Codec;
use crate::table::lemma_records_push;
use crate::table::lemma_replay_append;
use crate::table::lemma_replay_push;
use crate::table::records;
use crate::table::replay;
use crate::table::Model;
use crate::table::Table;
use crate::wire::get_u32;
use crate::wire::get_usize;
use crate::wire::lemma_u32_round_trip;
use crate::wire::lemma_u64_round_trip;
use crate::wire::put_u32;
use crate::wire::put_u64;
use crate::wire::u32_le;
use crate::wire::u64_le;
use crate::TableId;
use core::marker::PhantomData;
use std::collections::HashMap;
use std::hash::Hash;
use vstd::prelude::*;
use vstd::slice::slice_subrange;
use vstd::std_specs::hash::spec_hash_map_iter;
use vstd::std_specs::iter::IteratorSpec;

verus! {

broadcast use vstd::std_specs::hash::group_hash_axioms;

/// A table backed by a hash map from `K` to vectors of `V`. A key without
/// values and a key that is absent are different things.
///
/// A key stands for itself in contracts, as in a lookup table.
#[verifier::reject_recursive_types(K)]
pub struct LookupList<K: View<V = K> + Eq + Hash, V: View, C: Codec<K> + Codec<V>> {
    table_id: TableId,
    inner: HashMap<K, Vec<V>>,
    codec: PhantomData<C>,
}

/// What a lookup list writes to the log: a number for the kind of entry in
/// four bytes, then the key as the codec writes it where the entry has one,
/// then a value as the codec writes it or an index in eight bytes.
pub enum LogEntry<K, V> {
    Push(K, V),
    Remove(K, usize),
    CreateKey(K),
    ClearKey(K),
    Clear,
}

/// The entry that an entry of keys and values stands for.
pub open spec fn model<K: View, V: View>(entry: LogEntry<K, V>) -> LogEntry<K::V, V::V> {
    match entry {
        LogEntry::Push(k, v) => LogEntry::Push(k@, v@),
        LogEntry::Remove(k, i) => LogEntry::Remove(k@, i),
        LogEntry::CreateKey(k) => LogEntry::CreateKey(k@),
        LogEntry::ClearKey(k) => LogEntry::ClearKey(k@),
        LogEntry::Clear => LogEntry::Clear,
    }
}

/// The values that a vector of values stands for.
pub open spec fn values<V: View>(vec: Vec<V>) -> Seq<V::V> {
    vec@.map_values(|v: V| v@)
}

/// The map that a map of vectors stands for.
pub open spec fn models<K, V: View>(m: Map<K, Vec<V>>) -> Map<K, Seq<V::V>> {
    m.map_values(|vec: Vec<V>| values(vec))
}

/// The number that says which kind an entry is of.
pub open spec fn tag<K, V>(entry: LogEntry<K, V>) -> nat {
    match entry {
        LogEntry::Push(_, _) => 0,
        LogEntry::Remove(_, _) => 1,
        LogEntry::CreateKey(_) => 2,
        LogEntry::ClearKey(_) => 3,
        LogEntry::Clear => 4,
    }
}

/// The key of an entry, if it has one.
pub open spec fn key_of<K, V>(entry: LogEntry<K, V>) -> Option<K> {
    match entry {
        LogEntry::Push(k, _) => Some(k),
        LogEntry::Remove(k, _) => Some(k),
        LogEntry::CreateKey(k) => Some(k),
        LogEntry::ClearKey(k) => Some(k),
        LogEntry::Clear => None,
    }
}

/// Whether an entry can be written: what it holds can be encoded.
pub open spec fn entry_encodable<K: View<V = K>, V: View, C: Codec<K> + Codec<V>>(
    entry: LogEntry<K, V::V>,
) -> bool {
    &&& key_of(entry) matches Some(k) ==> <C as Codec<K>>::encodable(k)
    &&& entry matches LogEntry::Push(_, v) ==> <C as Codec<V>>::encodable(v)
}

/// The bytes of what follows the key in an entry.
pub open spec fn tail_bytes<K: View<V = K>, V: View, C: Codec<K> + Codec<V>>(
    entry: LogEntry<K, V::V>,
) -> Seq<u8> {
    match entry {
        LogEntry::Push(_, v) => <C as Codec<V>>::encoding(v),
        LogEntry::Remove(_, i) => u64_le(i as nat),
        _ => Seq::empty(),
    }
}

/// The bytes of an entry.
pub open spec fn entry_bytes<K: View<V = K>, V: View, C: Codec<K> + Codec<V>>(
    entry: LogEntry<K, V::V>,
) -> Seq<u8> {
    u32_le(tag(entry)) + match key_of(entry) {
        Some(k) => <C as Codec<K>>::encoding(k),
        None => Seq::empty(),
    } + tail_bytes::<K, V, C>(entry)
}

/// Whether the payload starts with the bytes of the entry.
pub open spec fn starts<K: View<V = K>, V: View, C: Codec<K> + Codec<V>>(
    payload: Seq<u8>,
    entry: LogEntry<K, V::V>,
) -> bool {
    entry_encodable::<K, V, C>(entry) && entry_bytes::<K, V, C>(entry).is_prefix_of(payload)
}

/// The entry that a payload starts with, if it starts with one.
pub open spec fn decoded<K: View<V = K>, V: View, C: Codec<K> + Codec<V>>(
    payload: Seq<u8>,
) -> Option<LogEntry<K, V::V>> {
    if exists|entry: LogEntry<K, V::V>| starts::<K, V, C>(payload, entry) {
        Some(choose|entry: LogEntry<K, V::V>| starts::<K, V, C>(payload, entry))
    } else {
        None
    }
}

/// What a lookup list holds after an entry is applied to it. A removal
/// under a key that is absent changes nothing; a removal at an index that
/// is out of range cannot be applied.
pub open spec fn apply<K, W>(state: Map<K, Seq<W>>, entry: LogEntry<K, W>) -> Option<
    Map<K, Seq<W>>,
> {
    match entry {
        LogEntry::Push(k, v) => Some(
            state.insert(
                k,
                if state.contains_key(k) {
                    state[k].push(v)
                } else {
                    seq![v]
                },
            ),
        ),
        LogEntry::Remove(k, i) => if !state.contains_key(k) {
            Some(state)
        } else if i < state[k].len() {
            Some(state.insert(k, state[k].remove(i as int)))
        } else {
            None
        },
        LogEntry::CreateKey(k) => Some(state.insert(k, Seq::empty())),
        LogEntry::ClearKey(k) => Some(state.remove(k)),
        LogEntry::Clear => Some(Map::empty()),
    }
}

/// What a payload that starts with an entry has at its start: the entry's
/// kind, then its key, then what follows the key.
pub proof fn lemma_starts<K: View<V = K>, V: View, C: Codec<K> + Codec<V>>(
    payload: Seq<u8>,
    entry: LogEntry<K, V::V>,
)
    requires
        starts::<K, V, C>(payload, entry),
    ensures
        payload.len() >= 4,
        payload.subrange(0, 4) == u32_le(tag(entry)),
        key_of(entry) matches Some(k) ==> <C as Codec<K>>::encoding(k).is_prefix_of(
            payload.skip(4),
        ) && tail_bytes::<K, V, C>(entry).is_prefix_of(
            payload.skip(4 + <C as Codec<K>>::encoding(k).len() as int),
        ),
{
    let bytes = entry_bytes::<K, V, C>(entry);
    assert(bytes =~= payload.subrange(0, bytes.len() as int));
    assert(payload.subrange(0, 4) =~= bytes.subrange(0, 4));
    assert(bytes.subrange(0, 4) =~= u32_le(tag(entry)));
    match key_of(entry) {
        Some(k) => {
            let ek = <C as Codec<K>>::encoding(k);
            let et = tail_bytes::<K, V, C>(entry);
            assert(ek =~= bytes.subrange(4, 4 + ek.len() as int));
            assert(ek =~= payload.skip(4).subrange(0, ek.len() as int));
            assert(et =~= bytes.skip(4 + ek.len() as int));
            assert(et =~= payload.skip(4 + ek.len() as int).subrange(0, et.len() as int));
        },
        None => {},
    }
}

/// A payload starts with at most one entry. So what is decoded from the
/// bytes of an entry, whatever follows them, is that entry.
pub proof fn lemma_decoded<K: View<V = K>, V: View, C: Codec<K> + Codec<V>>(
    payload: Seq<u8>,
    entry: LogEntry<K, V::V>,
)
    requires
        starts::<K, V, C>(payload, entry),
    ensures
        decoded::<K, V, C>(payload) == Some(entry),
{
    let found = choose|e: LogEntry<K, V::V>| starts::<K, V, C>(payload, e);
    assert(starts::<K, V, C>(payload, found));
    lemma_starts::<K, V, C>(payload, entry);
    lemma_starts::<K, V, C>(payload, found);
    lemma_u32_round_trip(tag(entry), Seq::empty());
    lemma_u32_round_trip(tag(found), Seq::empty());
    assert(tag(entry) == tag(found));
    match (key_of(entry), key_of(found)) {
        (Some(k), Some(k2)) => {
            <C as Codec<K>>::lemma_self_delimiting(k, k2, payload.skip(4));
            let rest = payload.skip(4 + <C as Codec<K>>::encoding(k).len() as int);
            match (entry, found) {
                (LogEntry::Push(_, v), LogEntry::Push(_, v2)) => {
                    <C as Codec<V>>::lemma_self_delimiting(v, v2, rest);
                },
                (LogEntry::Remove(_, i), LogEntry::Remove(_, i2)) => {
                    lemma_u64_round_trip(i as nat, Seq::empty());
                    lemma_u64_round_trip(i2 as nat, Seq::empty());
                    assert(u64_le(i as nat) =~= rest.subrange(0, 8));
                    assert(u64_le(i2 as nat) =~= rest.subrange(0, 8));
                },
                _ => {},
            }
        },
        _ => {},
    }
}

/// The payloads that rebuild what stands under one key: a push for each
/// value, in order, or the creation of the key where there are no values.
pub open spec fn key_payloads<K: View<V = K>, V: View, C: Codec<K> + Codec<V>>(
    k: K,
    vals: Seq<V::V>,
) -> Seq<Seq<u8>> {
    if vals.len() == 0 {
        seq![entry_bytes::<K, V, C>(LogEntry::CreateKey(k))]
    } else {
        pushes::<K, V, C>(k, vals)
    }
}

/// The payloads that push a run of values under one key, in order.
pub open spec fn pushes<K: View<V = K>, V: View, C: Codec<K> + Codec<V>>(
    k: K,
    vals: Seq<V::V>,
) -> Seq<Seq<u8>> {
    vals.map_values(|v: V::V| entry_bytes::<K, V, C>(LogEntry::Push(k, v)))
}

/// The payloads that rebuild a run of keys with their values, key by key.
pub open spec fn snapshot<K: View<V = K>, V: View, C: Codec<K> + Codec<V>>(
    pairs: Seq<(K, Seq<V::V>)>,
) -> Seq<Seq<u8>>
    decreases pairs.len(),
{
    if pairs.len() == 0 {
        Seq::empty()
    } else {
        snapshot::<K, V, C>(pairs.drop_last()) + key_payloads::<K, V, C>(
            pairs.last().0,
            pairs.last().1,
        )
    }
}

/// Whether a key and the values under it can be encoded.
pub open spec fn pair_encodable<K: View<V = K>, V: View, C: Codec<K> + Codec<V>>(
    k: K,
    vals: Seq<V::V>,
) -> bool {
    &&& <C as Codec<K>>::encodable(k)
    &&& forall|i: int| 0 <= i < vals.len() ==> <C as Codec<V>>::encodable(#[trigger] vals[i])
}

impl<K: View<V = K> + Eq + Hash, V: View, C: Codec<K> + Codec<V>> View for LookupList<K, V, C> {
    type V = Map<K, Seq<V::V>>;

    closed spec fn view(&self) -> Map<K, Seq<V::V>> {
        models(self.inner@)
    }
}

impl<K: View<V = K> + Eq + Hash, V: View, C: Codec<K> + Codec<V>> Model for LookupList<K, V, C> {
    type State = Map<K, Seq<V::V>>;

    open spec fn empty() -> Map<K, Seq<V::V>> {
        Map::empty()
    }

    open spec fn replayed(state: Map<K, Seq<V::V>>, payload: Seq<u8>) -> Option<
        Map<K, Seq<V::V>>,
    > {
        match decoded::<K, V, C>(payload) {
            Some(entry) => apply(state, entry),
            None => None,
        }
    }
}

/// What replaying the payload of one entry gives.
pub proof fn lemma_replayed<K: View<V = K> + Eq + Hash, V: View, C: Codec<K> + Codec<V>>(
    state: Map<K, Seq<V::V>>,
    entry: LogEntry<K, V::V>,
)
    requires
        entry_encodable::<K, V, C>(entry),
    ensures
        LookupList::<K, V, C>::replayed(state, entry_bytes::<K, V, C>(entry)) == apply(
            state,
            entry,
        ),
{
    let payload = entry_bytes::<K, V, C>(entry);
    assert(payload.is_prefix_of(payload));
    lemma_decoded::<K, V, C>(payload, entry);
}

/// Replaying the first `n` pushes of a run of values under a key that is
/// absent puts the first `n` values under the key.
proof fn lemma_replay_pushes<K: View<V = K> + Eq + Hash, V: View, C: Codec<K> + Codec<V>>(
    state: Map<K, Seq<V::V>>,
    k: K,
    vals: Seq<V::V>,
    n: int,
)
    requires
        !state.contains_key(k),
        pair_encodable::<K, V, C>(k, vals),
        1 <= n <= vals.len(),
    ensures
        replay::<LookupList<K, V, C>>(state, pushes::<K, V, C>(k, vals.take(n))) == Some(
            state.insert(k, vals.take(n)),
        ),
    decreases n,
{
    let entry = LogEntry::Push(k, vals[n - 1]);
    let payload = entry_bytes::<K, V, C>(entry);
    let before = pushes::<K, V, C>(k, vals.take(n - 1));
    assert(pushes::<K, V, C>(k, vals.take(n)) =~= before.push(payload));
    lemma_replay_push::<LookupList<K, V, C>>(state, before, payload);
    if n == 1 {
        assert(before =~= Seq::<Seq<u8>>::empty());
        lemma_replayed::<K, V, C>(state, entry);
        assert(vals.take(1) =~= seq![vals[0]]);
    } else {
        lemma_replay_pushes::<K, V, C>(state, k, vals, n - 1);
        let middle = state.insert(k, vals.take(n - 1));
        lemma_replayed::<K, V, C>(middle, entry);
        assert(vals.take(n - 1).push(vals[n - 1]) =~= vals.take(n));
        assert(middle.insert(k, vals.take(n)) =~= state.insert(k, vals.take(n)));
    }
}

/// Replaying the payloads of one key that is absent puts its values under
/// it.
pub proof fn lemma_replay_key<K: View<V = K> + Eq + Hash, V: View, C: Codec<K> + Codec<V>>(
    state: Map<K, Seq<V::V>>,
    k: K,
    vals: Seq<V::V>,
)
    requires
        !state.contains_key(k),
        pair_encodable::<K, V, C>(k, vals),
    ensures
        replay::<LookupList<K, V, C>>(state, key_payloads::<K, V, C>(k, vals)) == Some(
            state.insert(k, vals),
        ),
{
    if vals.len() == 0 {
        let entry = LogEntry::CreateKey(k);
        let payload = entry_bytes::<K, V, C>(entry);
        lemma_replay_push::<LookupList<K, V, C>>(state, Seq::empty(), payload);
        assert(Seq::<Seq<u8>>::empty().push(payload) =~= key_payloads::<K, V, C>(k, vals));
        lemma_replayed::<K, V, C>(state, entry);
        assert(vals =~= Seq::<V::V>::empty());
    } else {
        lemma_replay_pushes::<K, V, C>(state, k, vals, vals.len() as int);
        assert(vals.take(vals.len() as int) =~= vals);
    }
}

/// Replaying the snapshot of a run of different keys with their values onto
/// an empty table gives the map that the run makes.
pub proof fn lemma_replay_snapshot<K: View<V = K> + Eq + Hash, V: View, C: Codec<K> + Codec<V>>(
    pairs: Seq<(K, Seq<V::V>)>,
)
    requires
        forall|i: int, j: int|
            0 <= i < j < pairs.len() ==> (#[trigger] pairs[i]).0 != (#[trigger] pairs[j]).0,
        forall|j: int|
            0 <= j < pairs.len() ==> pair_encodable::<K, V, C>(
                (#[trigger] pairs[j]).0,
                pairs[j].1,
            ),
    ensures
        replay::<LookupList<K, V, C>>(Map::empty(), snapshot::<K, V, C>(pairs)) == Some(
            as_map(pairs),
        ),
    decreases pairs.len(),
{
    if pairs.len() > 0 {
        let front = pairs.drop_last();
        let last = pairs.last();
        assert forall|i: int, j: int| 0 <= i < j < front.len() implies (#[trigger] front[i]).0 != (
        #[trigger] front[j]).0 by {
            assert(front[i] == pairs[i] && front[j] == pairs[j]);
        }
        assert forall|j: int| 0 <= j < front.len() implies pair_encodable::<K, V, C>(
            (#[trigger] front[j]).0,
            front[j].1,
        ) by {
            assert(front[j] == pairs[j]);
        }
        lemma_replay_snapshot::<K, V, C>(front);
        lemma_replay_append::<LookupList<K, V, C>>(
            Map::empty(),
            snapshot::<K, V, C>(front),
            key_payloads::<K, V, C>(last.0, last.1),
        );
        lemma_as_map_keys(front);
        assert(!as_map(front).contains_key(last.0)) by {
            if as_map(front).contains_key(last.0) {
                let j = choose|j: int| 0 <= j < front.len() && (#[trigger] front[j]).0 == last.0;
                assert(pairs[j].0 == pairs[pairs.len() - 1].0);
            }
        }
        assert(pairs[pairs.len() - 1] == last);
        lemma_replay_key::<K, V, C>(as_map(front), last.0, last.1);
    }
}

impl<K: View<V = K> + Eq + Hash, V: View, C: Codec<K> + Codec<V>> LookupList<K, V, C> {
    /// What every operation keeps: the id is that of a user table, keys
    /// stand for themselves, and every key and value that the table holds
    /// can be encoded.
    pub closed spec fn well_formed(&self) -> bool {
        &&& 1 <= self.table_id <= 254
        &&& keys_are_values::<K>()
        &&& forall|k: K| #[trigger] self@.contains_key(k) ==> pair_encodable::<K, V, C>(k, self@[k])
    }

    /// The id under which the table's records stand in the log.
    pub closed spec fn table_id(&self) -> TableId {
        self.table_id
    }

    /// Encodes an entry.
    fn encode(entry: &LogEntry<&K, &V>) -> (r: DbResult<Vec<u8>>)
        ensures
            r is Ok <==> entry_encodable::<K, V, C>(model(*entry)),
            r matches Ok(data) ==> data@ == entry_bytes::<K, V, C>(model(*entry)),
    {
        let mut data: Vec<u8> = Vec::new();
        match entry {
            LogEntry::Push(key, value) => {
                put_u32(&mut data, 0);
                let mut encoded_key = <C as Codec<K>>::serialize(key)?;
                let mut encoded_value = <C as Codec<V>>::serialize(value)?;
                data.append(&mut encoded_key);
                data.append(&mut encoded_value);
            },
            LogEntry::Remove(key, index) => {
                put_u32(&mut data, 1);
                let mut encoded_key = <C as Codec<K>>::serialize(key)?;
                data.append(&mut encoded_key);
                put_u64(&mut data, *index as u64);
            },
            LogEntry::CreateKey(key) => {
                put_u32(&mut data, 2);
                let mut encoded_key = <C as Codec<K>>::serialize(key)?;
                data.append(&mut encoded_key);
            },
            LogEntry::ClearKey(key) => {
                put_u32(&mut data, 3);
                let mut encoded_key = <C as Codec<K>>::serialize(key)?;
                data.append(&mut encoded_key);
            },
            LogEntry::Clear => {
                put_u32(&mut data, 4);
            },
        }
        assert(data@ =~= entry_bytes::<K, V, C>(model(*entry)));
        Ok(data)
    }

    /// Decodes the entry that a payload starts with.
    fn decode(bytes: &[u8]) -> (r: DbResult<LogEntry<K, V>>)
        ensures
            match r {
                Ok(entry) => decoded::<K, V, C>(bytes@) == Some(model(entry)),
                Err(_) => decoded::<K, V, C>(bytes@) is None,
            },
    {
        let kind = match get_u32(bytes, 0) {
            Some(kind) => kind,
            None => {
                assert forall|e: LogEntry<K, V::V>| !starts::<K, V, C>(bytes@, e) by {
                    if starts::<K, V, C>(bytes@, e) {
                        lemma_starts::<K, V, C>(bytes@, e);
                    }
                }
                return Err(DbError::Unexpected("a record without the kind of its entry"));
            },
        };
        proof {
            lemma_u32_round_trip(kind as nat, Seq::empty());
        }
        if kind == 4 {
            let entry: LogEntry<K, V> = LogEntry::Clear;
            proof {
                assert(entry_bytes::<K, V, C>(model(entry)) =~= bytes@.subrange(0, 4));
                lemma_decoded::<K, V, C>(bytes@, model(entry));
            }
            return Ok(entry);
        }
        if kind > 4 {
            assert forall|e: LogEntry<K, V::V>| !starts::<K, V, C>(bytes@, e) by {
                if starts::<K, V, C>(bytes@, e) {
                    lemma_starts::<K, V, C>(bytes@, e);
                    lemma_u32_round_trip(tag(e), Seq::empty());
                }
            }
            return Err(DbError::Unexpected("a record with an entry of unknown kind"));
        }
        let rest = slice_subrange(bytes, 4, bytes.len());
        let (key, n) = match <C as Codec<K>>::deserialize(rest) {
            Ok(found) => found,
            Err(e) => {
                assert forall|e: LogEntry<K, V::V>| !starts::<K, V, C>(bytes@, e) by {
                    if starts::<K, V, C>(bytes@, e) {
                        lemma_starts::<K, V, C>(bytes@, e);
                        lemma_u32_round_trip(tag(e), Seq::empty());
                    }
                }
                return Err(e);
            },
        };
        assert(<C as Codec<K>>::encoding(key@).is_prefix_of(bytes@.skip(4)));
        let ghost tail = bytes@.skip(4 + n);
        if kind == 0 {
            let rest = slice_subrange(bytes, 4 + n, bytes.len());
            match <C as Codec<V>>::deserialize(rest) {
                Ok((value, m)) => {
                    let entry = LogEntry::Push(key, value);
                    proof {
                        assert(entry_bytes::<K, V, C>(model(entry)) =~= bytes@.subrange(
                            0,
                            4 + n + m,
                        ));
                        lemma_decoded::<K, V, C>(bytes@, model(entry));
                    }
                    Ok(entry)
                },
                Err(e) => {
                    assert forall|e: LogEntry<K, V::V>| !starts::<K, V, C>(bytes@, e) by {
                        if starts::<K, V, C>(bytes@, e) {
                            lemma_starts::<K, V, C>(bytes@, e);
                            lemma_u32_round_trip(tag(e), Seq::empty());
                            <C as Codec<K>>::lemma_self_delimiting(
                                key@,
                                key_of(e)->Some_0,
                                bytes@.skip(4),
                            );
                            assert(tail =~= rest@);
                        }
                    }
                    Err(e)
                },
            }
        } else if kind == 1 {
            match get_usize(bytes, 4 + n) {
                Some(index) => {
                    let entry: LogEntry<K, V> = LogEntry::Remove(key, index);
                    proof {
                        assert(entry_bytes::<K, V, C>(model(entry)) =~= bytes@.subrange(
                            0,
                            4 + n + 8,
                        ));
                        lemma_decoded::<K, V, C>(bytes@, model(entry));
                    }
                    Ok(entry)
                },
                None => {
                    assert forall|e: LogEntry<K, V::V>| !starts::<K, V, C>(bytes@, e) by {
                        if starts::<K, V, C>(bytes@, e) {
                            lemma_starts::<K, V, C>(bytes@, e);
                            lemma_u32_round_trip(tag(e), Seq::empty());
                            <C as Codec<K>>::lemma_self_delimiting(
                                key@,
                                key_of(e)->Some_0,
                                bytes@.skip(4),
                            );
                            let i = e->Remove_1;
                            lemma_u64_round_trip(i as nat, Seq::empty());
                            assert(u64_le(i as nat) =~= tail.subrange(0, 8));
                            assert(tail.subrange(0, 8) =~= bytes@.subrange(4 + n, 4 + n + 8));
                        }
                    }
                    Err(DbError::Unexpected("a record without the index of its entry"))
                },
            }
        } else {
            let entry: LogEntry<K, V> = if kind == 2 {
                LogEntry::CreateKey(key)
            } else {
                LogEntry::ClearKey(key)
            };
            proof {
                assert(entry_bytes::<K, V, C>(model(entry)) =~= bytes@.subrange(0, 4 + n));
                lemma_decoded::<K, V, C>(bytes@, model(entry));
            }
            Ok(entry)
        }
    }

    /// Appends a value to what stands under a key, a key that is absent
    /// getting that value alone.
    fn push_inner(&mut self, k: K, v: V)
        requires
            old(self).well_formed(),
            entry_encodable::<K, V, C>(LogEntry::Push(k, v@)),
        ensures
            final(self).table_id() == old(self).table_id(),
            final(self).well_formed(),
            Some(final(self)@) == apply(old(self)@, LogEntry::Push(k, v@)),
    {
        let mut vec = match self.inner.remove(&k) {
            Some(vec) => {
                assert(old(self)@.contains_key(k) && values(vec) == old(self)@[k]);
                vec
            },
            None => {
                let fresh: Vec<V> = Vec::new();
                assert(!old(self)@.contains_key(k) && values(fresh) =~= Seq::<V::V>::empty());
                fresh
            },
        };
        let ghost held = values(vec);
        vec.push(v);
        assert(values(vec) =~= held.push(v@));
        self.inner.insert(k, vec);
        assert(self.inner@ =~= old(self).inner@.insert(k, vec));
        assert(self@ =~= old(self)@.insert(k, held.push(v@)));
        assert(Seq::<V::V>::empty().push(v@) =~= seq![v@]);
        assert forall|key: K| #[trigger] self@.contains_key(key) implies pair_encodable::<K, V, C>(
            key,
            self@[key],
        ) by {
            if key != k {
                assert(old(self)@.contains_key(key));
            } else if old(self)@.contains_key(k) {
                assert(pair_encodable::<K, V, C>(k, old(self)@[k]));
            }
        }
    }

    /// Appends a value to what stands under a key, a key that is absent
    /// getting that value alone, and writes the entry for it.
    ///
    /// Fails, and changes nothing, if and only if the key or the value
    /// cannot be encoded or
    /// the log does not take the entry.
    pub fn push(&mut self, logger: &mut Logger, k: K, v: V) -> (r: DbResult<()>)
        requires
            old(self).well_formed(),
        ensures
            final(self).table_id() == old(self).table_id(),
            final(self).well_formed(),
            match r {
                Ok(()) => {
                    &&& entry_encodable::<K, V, C>(LogEntry::Push(k, v@))
                    &&& Some(final(self)@) == apply(old(self)@, LogEntry::Push(k, v@))
                    &&& old(logger)@.accepts(entry_bytes::<K, V, C>(LogEntry::Push(k, v@)))
                    &&& Self::replayed(old(self)@, entry_bytes::<K, V, C>(LogEntry::Push(k, v@))) == Some(final(self)@)
                    &&& final(logger)@ == old(logger)@.write(
                        old(self).table_id(),
                        entry_bytes::<K, V, C>(LogEntry::Push(k, v@)),
                    )
                },
                Err(_) => {
                    &&& !(entry_encodable::<K, V, C>(LogEntry::Push(k, v@)) && old(logger)@.accepts(entry_bytes::<K, V, C>(LogEntry::Push(k, v@))))
                    &&& final(self)@ == old(self)@
                    &&& final(logger)@ == old(logger)@
                },
            },
    {
        assert(k@ == k);
        let data = Self::encode(&LogEntry::Push(&k, &v))?;
        logger.write(self.table_id, data)?;
        proof {
            lemma_replayed::<K, V, C>(old(self)@, LogEntry::Push(k, v@));
        }
        self.push_inner(k, v);
        Ok(())
    }

    /// Puts an empty sequence under a key and writes the entry for it.
    /// Gives back what stood under the key.
    ///
    /// Fails, and changes nothing, if and only if the key cannot be
    /// encoded or
    /// the log does not take the entry.
    pub fn create_key(&mut self, logger: &mut Logger, key: K) -> (r: DbResult<Option<Vec<V>>>)
        requires
            old(self).well_formed(),
        ensures
            final(self).table_id() == old(self).table_id(),
            final(self).well_formed(),
            match r {
                Ok(replaced) => {
                    &&& <C as Codec<K>>::encodable(key)
                    &&& match replaced {
                        Some(vec) => old(self)@.contains_key(key) && old(self)@[key] == values(vec),
                        None => !old(self)@.contains_key(key),
                    }
                    &&& final(self)@ == old(self)@.insert(key, Seq::empty())
                    &&& old(logger)@.accepts(entry_bytes::<K, V, C>(LogEntry::CreateKey(key)))
                    &&& Self::replayed(old(self)@, entry_bytes::<K, V, C>(LogEntry::CreateKey(key))) == Some(final(self)@)
                    &&& final(logger)@ == old(logger)@.write(
                        old(self).table_id(),
                        entry_bytes::<K, V, C>(LogEntry::CreateKey(key)),
                    )
                },
                Err(_) => {
                    &&& !(<C as Codec<K>>::encodable(key) && old(logger)@.accepts(entry_bytes::<K, V, C>(LogEntry::CreateKey(key))))
                    &&& final(self)@ == old(self)@
                    &&& final(logger)@ == old(logger)@
                },
            },
    {
        assert(key@ == key);
        let entry: LogEntry<&K, &V> = LogEntry::CreateKey(&key);
        let data = Self::encode(&entry)?;
        logger.write(self.table_id, data)?;
        proof {
            lemma_replayed::<K, V, C>(old(self)@, LogEntry::CreateKey(key));
        }
        let created: Vec<V> = Vec::new();
        assert(values(created) =~= Seq::<V::V>::empty());
        let ret = self.inner.insert(key, created);
        assert(self@ =~= old(self)@.insert(key, Seq::empty()));
        Ok(ret)
    }

    /// Removes the value at `idx` from what stands under a key and writes
    /// the entry for it. Says whether the key was there; where it was not,
    /// nothing changes and nothing is written.
    ///
    /// Fails, and changes nothing, if and only if the key is there and the
    /// index is out of range or the log does not take the entry.
    pub fn remove(&mut self, logger: &mut Logger, key: K, idx: usize) -> (r: DbResult<bool>)
        requires
            old(self).well_formed(),
        ensures
            final(self).table_id() == old(self).table_id(),
            final(self).well_formed(),
            match r {
                Ok(found) => {
                    &&& found == old(self)@.contains_key(key)
                    &&& found ==> idx < old(self)@[key].len() && old(logger)@.accepts(
                        entry_bytes::<K, V, C>(LogEntry::Remove(key, idx)),
                    )
                    &&& Some(final(self)@) == apply(old(self)@, LogEntry::Remove(key, idx))
                    &&& found ==> Self::replayed(
                        old(self)@,
                        entry_bytes::<K, V, C>(LogEntry::Remove(key, idx)),
                    ) == Some(final(self)@)
                    &&& final(logger)@ == if found {
                        old(logger)@.write(
                            old(self).table_id(),
                            entry_bytes::<K, V, C>(LogEntry::Remove(key, idx)),
                        )
                    } else {
                        old(logger)@
                    }
                },
                Err(e) => {
                    &&& old(self)@.contains_key(key)
                    &&& idx >= old(self)@[key].len() || !old(logger)@.accepts(
                        entry_bytes::<K, V, C>(LogEntry::Remove(key, idx)),
                    )
                    &&& e matches DbError::Unexpected(_)
                    &&& final(self)@ == old(self)@
                    &&& final(logger)@ == old(logger)@
                },
            },
    {
        assert(key@ == key);
        match self.inner.get(&key) {
            None => {
                return Ok(false);
            },
            Some(vec) => {
                assert(values(*vec) == self@[key]);
                if idx >= vec.len() {
                    return Err(DbError::Unexpected("an index that is out of range"));
                }
            },
        }
        assert(pair_encodable::<K, V, C>(key, self@[key]));
        let entry: LogEntry<&K, &V> = LogEntry::Remove(&key, idx);
        let data = Self::encode(&entry)?;
        logger.write(self.table_id, data)?;
        proof {
            lemma_replayed::<K, V, C>(old(self)@, LogEntry::Remove(key, idx));
        }
        self.remove_inner(key, idx);
        Ok(true)
    }

    /// Removes the value at `idx` from what stands under a key.
    fn remove_inner(&mut self, key: K, idx: usize)
        requires
            old(self).well_formed(),
            old(self)@.contains_key(key),
            idx < old(self)@[key].len(),
        ensures
            final(self).table_id() == old(self).table_id(),
            final(self).well_formed(),
            final(self)@ == old(self)@.insert(key, old(self)@[key].remove(idx as int)),
    {
        assert(key@ == key);
        match self.inner.remove(&key) {
            Some(mut vec) => {
                let ghost held = values(vec);
                assert(held == old(self)@[key]);
                vec.remove(idx);
                assert(values(vec) =~= held.remove(idx as int));
                self.inner.insert(key, vec);
                assert(self@ =~= old(self)@.insert(key, held.remove(idx as int)));
                assert forall|k: K| #[trigger] self@.contains_key(k) implies pair_encodable::<
                    K,
                    V,
                    C,
                >(k, self@[k]) by {
                    assert(old(self)@.contains_key(k));
                    assert(pair_encodable::<K, V, C>(k, old(self)@[k]));
                    if k == key {
                        assert forall|i: int| 0 <= i < self@[k].len() implies <C as Codec<
                            V,
                        >>::encodable(#[trigger] self@[k][i]) by {
                            if i < idx {
                                assert(self@[k][i] == held[i]);
                            } else {
                                assert(self@[k][i] == held[i + 1]);
                            }
                        }
                    }
                }
            },
            None => {},
        }
    }

    /// The map that the table holds.
    pub fn get(&self) -> (r: &HashMap<K, Vec<V>>)
        ensures
            models(r@) == self@,
    {
        &self.inner
    }

    /// Empties the table and writes the entry for it.
    ///
    /// Fails, and changes nothing, if and only if the log does not take the
    /// entry.
    pub fn clear(&mut self, logger: &mut Logger) -> (r: DbResult<()>)
        requires
            old(self).well_formed(),
        ensures
            final(self).table_id() == old(self).table_id(),
            final(self).well_formed(),
            match r {
                Ok(()) => {
                    &&& old(logger)@.accepts(entry_bytes::<K, V, C>(LogEntry::Clear))
                    &&& Self::replayed(old(self)@, entry_bytes::<K, V, C>(LogEntry::Clear)) == Some(final(self)@)
                    &&& final(self)@ == Map::<K, Seq<V::V>>::empty()
                    &&& final(logger)@ == old(logger)@.write(
                        old(self).table_id(),
                        entry_bytes::<K, V, C>(LogEntry::Clear),
                    )
                },
                Err(e) => {
                    &&& !old(logger)@.accepts(entry_bytes::<K, V, C>(LogEntry::Clear))
                    &&& e matches DbError::Unexpected(_)
                    &&& final(self)@ == old(self)@
                    &&& final(logger)@ == old(logger)@
                },
            },
    {
        let entry: LogEntry<&K, &V> = LogEntry::Clear;
        let data = Self::encode(&entry)?;
        logger.write(self.table_id, data)?;
        proof {
            lemma_replayed::<K, V, C>(old(self)@, LogEntry::Clear);
        }
        self.inner.clear();
        assert(self@ =~= Map::<K, Seq<V::V>>::empty());
        Ok(())
    }

    /// Removes a key with what stands under it and writes the entry for
    /// it. Gives back what stood under the key.
    ///
    /// Fails, and changes nothing, if and only if the key cannot be
    /// encoded or
    /// the log does not take the entry.
    pub fn clear_key(&mut self, logger: &mut Logger, key: &K) -> (r: DbResult<Option<Vec<V>>>)
        requires
            old(self).well_formed(),
        ensures
            final(self).table_id() == old(self).table_id(),
            final(self).well_formed(),
            match r {
                Ok(removed) => {
                    &&& <C as Codec<K>>::encodable(*key)
                    &&& match removed {
                        Some(vec) => old(self)@.contains_key(*key) && old(self)@[*key] == values(
                            vec,
                        ),
                        None => !old(self)@.contains_key(*key),
                    }
                    &&& final(self)@ == old(self)@.remove(*key)
                    &&& old(logger)@.accepts(entry_bytes::<K, V, C>(LogEntry::ClearKey(*key)))
                    &&& Self::replayed(old(self)@, entry_bytes::<K, V, C>(LogEntry::ClearKey(*key))) == Some(final(self)@)
                    &&& final(logger)@ == old(logger)@.write(
                        old(self).table_id(),
                        entry_bytes::<K, V, C>(LogEntry::ClearKey(*key)),
                    )
                },
                Err(_) => {
                    &&& !(<C as Codec<K>>::encodable(*key) && old(logger)@.accepts(entry_bytes::<K, V, C>(LogEntry::ClearKey(*key))))
                    &&& final(self)@ == old(self)@
                    &&& final(logger)@ == old(logger)@
                },
            },
    {
        assert(key@ == *key);
        let entry: LogEntry<&K, &V> = LogEntry::ClearKey(key);
        let data = Self::encode(&entry)?;
        logger.write(self.table_id, data)?;
        proof {
            lemma_replayed::<K, V, C>(old(self)@, LogEntry::ClearKey(*key));
        }
        let ret = self.inner.remove(key);
        assert(self@ =~= old(self)@.remove(*key));
        Ok(ret)
    }
}

impl<K: View<V = K> + Eq + Hash, V: View, C: Codec<K> + Codec<V>> Table for LookupList<K, V, C> {
    open spec fn state(&self) -> Map<K, Seq<V::V>> {
        self@
    }

    open spec fn id(&self) -> TableId {
        self.table_id()
    }

    open spec fn supported() -> bool {
        keys_are_values::<K>()
    }

    open spec fn wf(&self) -> bool {
        self.well_formed()
    }

    /// A table that is well formed can always be written down.
    open spec fn compactable(&self) -> bool {
        true
    }

    fn init(table_id: TableId) -> (table: Self) {
        let table = Self { table_id, inner: HashMap::new(), codec: PhantomData };
        assert(table@ =~= Map::<K, Seq<V::V>>::empty());
        table
    }

    fn handle_event(&mut self, bytes: &[u8]) -> (r: DbResult<()>) {
        let entry = Self::decode(bytes)?;
        proof {
            let found = choose|e: LogEntry<K, V::V>| starts::<K, V, C>(bytes@, e);
            assert(starts::<K, V, C>(bytes@, found));
        }
        match entry {
            LogEntry::Push(k, v) => {
                assert(k@ == k);
                self.push_inner(k, v);
            },
            LogEntry::Remove(k, idx) => {
                assert(k@ == k);
                let in_range = match self.inner.get(&k) {
                    None => None,
                    Some(vec) => {
                        assert(values(*vec) == self@[k]);
                        Some(idx < vec.len())
                    },
                };
                match in_range {
                    None => {},
                    Some(true) => {
                        self.remove_inner(k, idx);
                    },
                    Some(false) => {
                        return Err(
                            DbError::Unexpected("an entry with an index that is out of range"),
                        );
                    },
                }
            },
            LogEntry::CreateKey(k) => {
                assert(k@ == k);
                let created: Vec<V> = Vec::new();
                assert(values(created) =~= Seq::<V::V>::empty());
                self.inner.insert(k, created);
                assert(self@ =~= old(self)@.insert(k, Seq::empty()));
            },
            LogEntry::ClearKey(k) => {
                assert(k@ == k);
                self.inner.remove(&k);
                assert(self@ =~= old(self)@.remove(k));
            },
            LogEntry::Clear => {
                self.inner.clear();
                assert(self@ =~= Map::<K, Seq<V::V>>::empty());
            },
        }
        Ok(())
    }

    /// For each key, in the order in which the hash map hands them out, a
    /// push for each value under it, or the creation of the key where
    /// there are no values.
    fn compact_repr(&self) -> (r: DbResult<Vec<u8>>)
        ensures
            r matches Ok(repr) && exists|pairs: Seq<(K, Seq<V::V>)>|
                #![trigger snapshot::<K, V, C>(pairs)]
                {
                    &&& as_map(pairs) == self@
                    &&& pairs.len() == self@.len()
                    &&& repr@ == frames(records(self.table_id(), snapshot::<K, V, C>(pairs)))
                },
    {
        let mut repr: Vec<u8> = Vec::new();
        let ghost mut pairs: Seq<(K, Seq<V::V>)> = Seq::empty();
        let ghost items = IteratorSpec::remaining(&spec_hash_map_iter(&self.inner));
        proof {
            assert(records(self.table_id, snapshot::<K, V, C>(pairs)) =~= Seq::<Record>::empty());
        }
        for pair in it: self.inner.iter()
            invariant
                self.well_formed(),
                it.seq() == items,
                items.no_duplicates(),
                items.len() == self.inner@.dom().len(),
                pairs.len() == it.index(),
                forall|j: int|
                    0 <= j < pairs.len() ==> (#[trigger] pairs[j]) == (
                        *items[j].0,
                        values(*items[j].1),
                    ),
                repr@ == frames(records(self.table_id, snapshot::<K, V, C>(pairs))),
        {
            let (k, vec) = pair;
            assert(self.inner@.contains_key(*k) && self.inner@[*k] == *vec);
            assert(self@.contains_key(*k) && self@[*k] == values(*vec));
            assert(k@ == *k);
            let ghost vals = values(*vec);
            let ghost done = snapshot::<K, V, C>(pairs);
            if vec.len() == 0 {
                let entry: LogEntry<&K, &V> = LogEntry::CreateKey(k);
                let data = Self::encode(&entry)?;
                let mut framed = Logger::log_entry(self.table_id, data);
                proof {
                    let payload = entry_bytes::<K, V, C>(LogEntry::CreateKey(*k));
                    lemma_records_push(self.table_id, done, payload);
                    lemma_frames_push(
                        records(self.table_id, done),
                        Record { table_id: self.table_id, payload },
                    );
                    assert(done.push(payload) =~= done + key_payloads::<K, V, C>(*k, vals));
                }
                repr.append(&mut framed);
            } else {
                let mut i: usize = 0;
                proof {
                    assert(done + pushes::<K, V, C>(*k, vals.take(0)) =~= done);
                }
                while i < vec.len()
                    invariant
                        i <= vec.len(),
                        vals == values(*vec),
                        pair_encodable::<K, V, C>(*k, vals),
                        k@ == *k,
                        repr@ == frames(
                            records(
                                self.table_id,
                                done + pushes::<K, V, C>(*k, vals.take(i as int)),
                            ),
                        ),
                    decreases vec.len() - i,
                {
                    let value = &vec[i];
                    assert(value@ == vals[i as int]);
                    let data = Self::encode(&LogEntry::Push(k, value))?;
                    let mut framed = Logger::log_entry(self.table_id, data);
                    proof {
                        let so_far = done + pushes::<K, V, C>(*k, vals.take(i as int));
                        let payload = entry_bytes::<K, V, C>(LogEntry::Push(*k, value@));
                        lemma_records_push(self.table_id, so_far, payload);
                        lemma_frames_push(
                            records(self.table_id, so_far),
                            Record { table_id: self.table_id, payload },
                        );
                        assert(vals.take(i + 1) =~= vals.take(i as int).push(value@));
                        assert(so_far.push(payload) =~= done + pushes::<K, V, C>(
                            *k,
                            vals.take(i + 1),
                        ));
                    }
                    repr.append(&mut framed);
                    i += 1;
                }
                proof {
                    assert(vals.take(i as int) =~= vals);
                }
            }
            proof {
                let more = pairs.push((*k, vals));
                assert(more.drop_last() =~= pairs);
                assert(more.last() == (*k, vals));
                pairs = more;
            }
        }
        proof {
            let m = self@;
            assert(pairs.len() == items.len());
            assert forall|j: int| 0 <= j < pairs.len() implies m.contains_key(
                (#[trigger] pairs[j]).0,
            ) && m[pairs[j].0] == pairs[j].1 && pair_encodable::<K, V, C>(
                pairs[j].0,
                pairs[j].1,
            ) by {
                assert(self.inner@.contains_key(*items[j].0));
            }
            assert forall|k: K| m.contains_key(k) implies exists|j: int|
                0 <= j < pairs.len() && (#[trigger] pairs[j]).0 == k by {
                assert(self.inner@.contains_key(k));
                let item = (&k, &self.inner@[k]);
                assert(items.contains(item));
                let j = choose|j: int| 0 <= j < items.len() && items[j] == item;
                assert(pairs[j].0 == k);
            }
            assert forall|i: int, j: int| 0 <= i < j < pairs.len() implies (#[trigger] pairs[i]).0
                != (#[trigger] pairs[j]).0 by {
                if pairs[i].0 == pairs[j].0 {
                    assert(self.inner@.contains_key(*items[i].0));
                    assert(self.inner@.contains_key(*items[j].0));
                    assert(items[i] == items[j]);
                }
            }
            lemma_as_map(pairs, m);
            lemma_replay_snapshot::<K, V, C>(pairs);
            assert(self@.dom() =~= self.inner@.dom());
            assert(pairs.len() == self@.len());
            let payloads = snapshot::<K, V, C>(pairs);
            assert(repr@ == frames(records(self.id(), payloads)));
            assert(replay::<Self>(Self::empty(), payloads) == Some(self.state()));
        }
        Ok(repr)
    }
}


/// The payloads of a run of entries.
pub open spec fn payloads<K: View<V = K> + Eq + Hash, V: View, C: Codec<K> + Codec<V>>(
    entries: Seq<LogEntry<K, V::V>>,
) -> Seq<Seq<u8>> {
    entries.map_values(|e: LogEntry<K, V::V>| entry_bytes::<K, V, C>(e))
}

/// Replay fidelity: where a run of entries is written to the log of a
/// table, each as one record, parsing the log gives back exactly those
/// records, and replaying them changes a table as applying the entries
/// does.
pub proof fn lemma_replay_fidelity<K: View<V = K> + Eq + Hash, V: View, C: Codec<K> + Codec<V>>(
    id: TableId,
    state: Map<K, Seq<V::V>>,
    entries: Seq<LogEntry<K, V::V>>,
)
    requires
        id != 0,
        forall|i: int|
            0 <= i < entries.len() ==> entry_encodable::<K, V, C>(#[trigger] entries[i]) && fits(
                entry_bytes::<K, V, C>(entries[i]),
            ),
    ensures
        parse(frames(records(id, payloads::<K, V, C>(entries)))) == (Parsed {
            records: records(id, payloads::<K, V, C>(entries)),
            incomplete: false,
        }),
        replay::<LookupList<K, V, C>>(state, payloads::<K, V, C>(entries)) == apply_all(
            state,
            entries,
            |s: Map<K, Seq<V::V>>, e: LogEntry<K, V::V>| apply(s, e),
        ),
{
    let written = payloads::<K, V, C>(entries);
    assert forall|i: int| 0 <= i < written.len() implies fits(#[trigger] written[i]) by {
        assert(written[i] == entry_bytes::<K, V, C>(entries[i]));
    }
    lemma_records_framable(id, written);
    lemma_framing_round_trip(records(id, written));
    assert forall|s: Map<K, Seq<V::V>>, i: int| 0 <= i < entries.len() implies #[trigger] <LookupList<K, V, C>>::replayed(
        s,
        entry_bytes::<K, V, C>(entries[i]),
    ) == (|s: Map<K, Seq<V::V>>, e: LogEntry<K, V::V>| apply(s, e))(s, entries[i]) by {
        let payload = entry_bytes::<K, V, C>(entries[i]);
        assert(payload.is_prefix_of(payload));
        lemma_decoded::<K, V, C>(payload, entries[i]);
    }
    lemma_replay_entries::<LookupList<K, V, C>, LogEntry<K, V::V>>(
        state,
        entries,
        |e: LogEntry<K, V::V>| entry_bytes::<K, V, C>(e),
        |s: Map<K, Seq<V::V>>, e: LogEntry<K, V::V>| apply(s, e),
    );
}

} // verus!
