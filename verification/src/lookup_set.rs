//! A table that maps keys to sets of values.

use crate::errors::DbError;
use crate::errors::DbResult;
use crate::framing::frames;
use crate::framing::fits;
use crate::framing::lemma_framing_round_trip;
use crate::framing::parse;
use crate::framing::Parsed;
use crate::table::apply_all;
use crate::table::lemma_records_framable;
use crate::table::lemma_replay_entries;
use crate::framing::lemma_frames_push;
use crate::framing::Record;
use crate::logger::Logger;
use crate::lookup::as_map;
use crate::lookup::keys_are_values;
use crate::lookup::lemma_as_map;
use crate::lookup::lemma_as_map_keys;
use crate::serializer::Codec;
use crate::table::lemma_records_push;
use crate::table::lemma_replay_append;
use crate::table::lemma_replay_push;
use crate::table::records;
use crate::table::replay;
use crate::table::Model;
use crate::table::Table;
use crate::wire::get_u32;
use crate::wire::lemma_u32_round_trip;
use crate::wire::put_u32;
use crate::wire::u32_le;
use crate::TableId;
use core::marker::PhantomData;
use std::collections::HashMap;
use std::collections::HashSet;
use std::hash::Hash;
use vstd::prelude::*;
use vstd::slice::slice_subrange;
use vstd::std_specs::hash::spec_hash_keys_iter;
use vstd::std_specs::hash::spec_hash_map_iter;
use vstd::std_specs::iter::IteratorSpec;

verus! {

broadcast use vstd::std_specs::hash::group_hash_axioms;

/// A table backed by a hash map from `K` to hash sets of `V`. A key with an
/// empty set and a key that is absent are different things.
///
/// Keys and values stand for themselves in contracts, as the keys of a
/// lookup table do.
#[verifier::reject_recursive_types(K)]
#[verifier::reject_recursive_types(V)]
pub struct LookupSet<
    K: View<V = K> + Eq + Hash,
    V: View<V = V> + Eq + Hash,
    C: Codec<K> + Codec<V>,
> {
    table_id: TableId,
    inner: HashMap<K, HashSet<V>>,
    codec: PhantomData<C>,
}

/// What a lookup set writes to the log: a number for the kind of entry in
/// four bytes, then the key as the codec writes it where the entry has one,
/// then the value where the entry has one.
pub enum LogEntry<K, V> {
    Insert(K, V),
    Remove(K, V),
    CreateKey(K),
    ClearKey(K),
    Clear,
}

/// The entry that an entry of keys and values stands for.
pub open spec fn model<K: View, V: View>(entry: LogEntry<K, V>) -> LogEntry<K::V, V::V> {
    match entry {
        LogEntry::Insert(k, v) => LogEntry::Insert(k@, v@),
        LogEntry::Remove(k, v) => LogEntry::Remove(k@, v@),
        LogEntry::CreateKey(k) => LogEntry::CreateKey(k@),
        LogEntry::ClearKey(k) => LogEntry::ClearKey(k@),
        LogEntry::Clear => LogEntry::Clear,
    }
}

/// The map that a map of hash sets stands for.
pub open spec fn models<K, V>(m: Map<K, HashSet<V>>) -> Map<K, Set<V>> {
    m.map_values(|s: HashSet<V>| s@)
}

/// The number that says which kind an entry is of.
pub open spec fn tag<K, V>(entry: LogEntry<K, V>) -> nat {
    match entry {
        LogEntry::Insert(_, _) => 0,
        LogEntry::Remove(_, _) => 1,
        LogEntry::CreateKey(_) => 2,
        LogEntry::ClearKey(_) => 3,
        LogEntry::Clear => 4,
    }
}

/// The key of an entry, if it has one.
pub open spec fn key_of<K, V>(entry: LogEntry<K, V>) -> Option<K> {
    match entry {
        LogEntry::Insert(k, _) => Some(k),
        LogEntry::Remove(k, _) => Some(k),
        LogEntry::CreateKey(k) => Some(k),
        LogEntry::ClearKey(k) => Some(k),
        LogEntry::Clear => None,
    }
}

/// The value of an entry, if it has one.
pub open spec fn value_of<K, V>(entry: LogEntry<K, V>) -> Option<V> {
    match entry {
        LogEntry::Insert(_, v) => Some(v),
        LogEntry::Remove(_, v) => Some(v),
        _ => None,
    }
}

/// Whether an entry can be written: what it holds can be encoded.
pub open spec fn entry_encodable<
    K: View<V = K>,
    V: View<V = V>,
    C: Codec<K> + Codec<V>,
>(entry: LogEntry<K, V>) -> bool {
    &&& key_of(entry) matches Some(k) ==> <C as Codec<K>>::encodable(k)
    &&& value_of(entry) matches Some(v) ==> <C as Codec<V>>::encodable(v)
}

/// The bytes of an entry.
pub open spec fn entry_bytes<K: View<V = K>, V: View<V = V>, C: Codec<K> + Codec<V>>(
    entry: LogEntry<K, V>,
) -> Seq<u8> {
    u32_le(tag(entry)) + match key_of(entry) {
        Some(k) => <C as Codec<K>>::encoding(k),
        None => Seq::empty(),
    } + match value_of(entry) {
        Some(v) => <C as Codec<V>>::encoding(v),
        None => Seq::empty(),
    }
}

/// Whether the payload starts with the bytes of the entry.
pub open spec fn starts<K: View<V = K>, V: View<V = V>, C: Codec<K> + Codec<V>>(
    payload: Seq<u8>,
    entry: LogEntry<K, V>,
) -> bool {
    entry_encodable::<K, V, C>(entry) && entry_bytes::<K, V, C>(entry).is_prefix_of(payload)
}

/// The entry that a payload starts with, if it starts with one.
pub open spec fn decoded<K: View<V = K>, V: View<V = V>, C: Codec<K> + Codec<V>>(
    payload: Seq<u8>,
) -> Option<LogEntry<K, V>> {
    if exists|entry: LogEntry<K, V>| starts::<K, V, C>(payload, entry) {
        Some(choose|entry: LogEntry<K, V>| starts::<K, V, C>(payload, entry))
    } else {
        None
    }
}

/// The set that stands under a key, a key that is absent having none.
pub open spec fn held<K, V>(state: Map<K, Set<V>>, k: K) -> Set<V> {
    if state.contains_key(k) {
        state[k]
    } else {
        Set::empty()
    }
}

/// What a lookup set holds after an entry is applied to it. A removal
/// under a key that is absent changes nothing.
pub open spec fn apply<K, V>(state: Map<K, Set<V>>, entry: LogEntry<K, V>) -> Map<K, Set<V>> {
    match entry {
        LogEntry::Insert(k, v) => state.insert(k, held(state, k).insert(v)),
        LogEntry::Remove(k, v) => if state.contains_key(k) {
            state.insert(k, state[k].remove(v))
        } else {
            state
        },
        LogEntry::CreateKey(k) => state.insert(k, Set::empty()),
        LogEntry::ClearKey(k) => state.remove(k),
        LogEntry::Clear => Map::empty(),
    }
}

/// What a payload that starts with an entry has at its start: the entry's
/// kind, then its key, then its value.
pub proof fn lemma_starts<K: View<V = K>, V: View<V = V>, C: Codec<K> + Codec<V>>(
    payload: Seq<u8>,
    entry: LogEntry<K, V>,
)
    requires
        starts::<K, V, C>(payload, entry),
    ensures
        payload.len() >= 4,
        payload.subrange(0, 4) == u32_le(tag(entry)),
        key_of(entry) matches Some(k) ==> <C as Codec<K>>::encoding(k).is_prefix_of(
            payload.skip(4),
        ),
        value_of(entry) matches Some(v) ==> <C as Codec<V>>::encoding(v).is_prefix_of(
            payload.skip(4 + <C as Codec<K>>::encoding(key_of(entry)->Some_0).len() as int),
        ),
{
    let bytes = entry_bytes::<K, V, C>(entry);
    assert(bytes =~= payload.subrange(0, bytes.len() as int));
    assert(payload.subrange(0, 4) =~= bytes.subrange(0, 4));
    assert(bytes.subrange(0, 4) =~= u32_le(tag(entry)));
    match key_of(entry) {
        Some(k) => {
            let ek = <C as Codec<K>>::encoding(k);
            assert(ek =~= bytes.subrange(4, 4 + ek.len() as int));
            assert(ek =~= payload.skip(4).subrange(0, ek.len() as int));
            match value_of(entry) {
                Some(v) => {
                    let ev = <C as Codec<V>>::encoding(v);
                    assert(ev =~= bytes.skip(4 + ek.len() as int));
                    assert(ev =~= payload.skip(4 + ek.len() as int).subrange(0, ev.len() as int));
                },
                None => {},
            }
        },
        None => {},
    }
}

/// A payload starts with at most one entry. So what is decoded from the
/// bytes of an entry, whatever follows them, is that entry.
pub proof fn lemma_decoded<K: View<V = K>, V: View<V = V>, C: Codec<K> + Codec<V>>(
    payload: Seq<u8>,
    entry: LogEntry<K, V>,
)
    requires
        starts::<K, V, C>(payload, entry),
    ensures
        decoded::<K, V, C>(payload) == Some(entry),
{
    let found = choose|e: LogEntry<K, V>| starts::<K, V, C>(payload, e);
    assert(starts::<K, V, C>(payload, found));
    lemma_starts::<K, V, C>(payload, entry);
    lemma_starts::<K, V, C>(payload, found);
    lemma_u32_round_trip(tag(entry), Seq::empty());
    lemma_u32_round_trip(tag(found), Seq::empty());
    assert(tag(entry) == tag(found));
    match (key_of(entry), key_of(found)) {
        (Some(k), Some(k2)) => {
            <C as Codec<K>>::lemma_self_delimiting(k, k2, payload.skip(4));
            let rest = payload.skip(4 + <C as Codec<K>>::encoding(k).len() as int);
            match (value_of(entry), value_of(found)) {
                (Some(v), Some(v2)) => {
                    <C as Codec<V>>::lemma_self_delimiting(v, v2, rest);
                },
                _ => {},
            }
        },
        _ => {},
    }
}

/// The set of the values of a run.
pub open spec fn members<V>(run: Seq<V>) -> Set<V>
    decreases run.len(),
{
    if run.len() == 0 {
        Set::empty()
    } else {
        members(run.drop_last()).insert(run.last())
    }
}

/// The set of the values of a run holds exactly the values of the run.
pub proof fn lemma_members<V>(run: Seq<V>)
    ensures
        forall|v: V| members(run).contains(v) <==> run.contains(v),
    decreases run.len(),
{
    if run.len() > 0 {
        let front = run.drop_last();
        lemma_members(front);
        assert forall|v: V| members(run).contains(v) <==> run.contains(v) by {
            if members(run).contains(v) {
                if v == run.last() {
                    assert(run[run.len() - 1] == v);
                } else {
                    assert(front.contains(v));
                    let i = choose|i: int| 0 <= i < front.len() && front[i] == v;
                    assert(run[i] == v);
                }
            }
            if run.contains(v) {
                let i = choose|i: int| 0 <= i < run.len() && run[i] == v;
                if i < front.len() {
                    assert(front[i] == v);
                    assert(front.contains(v));
                } else {
                    assert(run[i] == run.last());
                }
            }
        }
    }
}

/// The payloads that insert a run of values under one key, in order.
pub open spec fn inserts<K: View<V = K>, V: View<V = V>, C: Codec<K> + Codec<V>>(
    k: K,
    run: Seq<V>,
) -> Seq<Seq<u8>> {
    run.map_values(|v: V| entry_bytes::<K, V, C>(LogEntry::Insert(k, v)))
}

/// The payloads that rebuild what stands under one key: an insert for each
/// value, or the creation of the key where there are no values.
pub open spec fn key_payloads<K: View<V = K>, V: View<V = V>, C: Codec<K> + Codec<V>>(
    k: K,
    run: Seq<V>,
) -> Seq<Seq<u8>> {
    if run.len() == 0 {
        seq![entry_bytes::<K, V, C>(LogEntry::CreateKey(k))]
    } else {
        inserts::<K, V, C>(k, run)
    }
}

/// The payloads that rebuild a run of keys with their values, key by key.
pub open spec fn snapshot<K: View<V = K>, V: View<V = V>, C: Codec<K> + Codec<V>>(
    pairs: Seq<(K, Seq<V>)>,
) -> Seq<Seq<u8>>
    decreases pairs.len(),
{
    if pairs.len() == 0 {
        Seq::empty()
    } else {
        snapshot::<K, V, C>(pairs.drop_last()) + key_payloads::<K, V, C>(
            pairs.last().0,
            pairs.last().1,
        )
    }
}

/// A run of keys, each with the set of its values.
pub open spec fn with_sets<K, V>(pairs: Seq<(K, Seq<V>)>) -> Seq<(K, Set<V>)> {
    pairs.map_values(|p: (K, Seq<V>)| (p.0, members(p.1)))
}

/// Whether a key and the values under it can be encoded.
pub open spec fn pair_encodable<K: View<V = K>, V: View<V = V>, C: Codec<K> + Codec<V>>(
    k: K,
    run: Seq<V>,
) -> bool {
    &&& <C as Codec<K>>::encodable(k)
    &&& forall|i: int| 0 <= i < run.len() ==> <C as Codec<V>>::encodable(#[trigger] run[i])
}

impl<K: View<V = K> + Eq + Hash, V: View<V = V> + Eq + Hash, C: Codec<K> + Codec<V>> View for LookupSet<
    K,
    V,
    C,
> {
    type V = Map<K, Set<V>>;

    closed spec fn view(&self) -> Map<K, Set<V>> {
        models(self.inner@)
    }
}

impl<K: View<V = K> + Eq + Hash, V: View<V = V> + Eq + Hash, C: Codec<K> + Codec<V>> Model for LookupSet<
    K,
    V,
    C,
> {
    type State = Map<K, Set<V>>;

    open spec fn empty() -> Map<K, Set<V>> {
        Map::empty()
    }

    open spec fn replayed(state: Map<K, Set<V>>, payload: Seq<u8>) -> Option<Map<K, Set<V>>> {
        match decoded::<K, V, C>(payload) {
            Some(entry) => Some(apply(state, entry)),
            None => None,
        }
    }
}

/// What replaying the payload of one entry gives.
pub proof fn lemma_replayed<
    K: View<V = K> + Eq + Hash,
    V: View<V = V> + Eq + Hash,
    C: Codec<K> + Codec<V>,
>(state: Map<K, Set<V>>, entry: LogEntry<K, V>)
    requires
        entry_encodable::<K, V, C>(entry),
    ensures
        LookupSet::<K, V, C>::replayed(state, entry_bytes::<K, V, C>(entry)) == Some(
            apply(state, entry),
        ),
{
    let payload = entry_bytes::<K, V, C>(entry);
    assert(payload.is_prefix_of(payload));
    lemma_decoded::<K, V, C>(payload, entry);
}

/// Replaying the first `n` inserts of a run of values under a key that is
/// absent puts the set of the first `n` values under the key.
proof fn lemma_replay_inserts<
    K: View<V = K> + Eq + Hash,
    V: View<V = V> + Eq + Hash,
    C: Codec<K> + Codec<V>,
>(state: Map<K, Set<V>>, k: K, run: Seq<V>, n: int)
    requires
        !state.contains_key(k),
        pair_encodable::<K, V, C>(k, run),
        1 <= n <= run.len(),
    ensures
        replay::<LookupSet<K, V, C>>(state, inserts::<K, V, C>(k, run.take(n))) == Some(
            state.insert(k, members(run.take(n))),
        ),
    decreases n,
{
    let entry = LogEntry::Insert(k, run[n - 1]);
    let payload = entry_bytes::<K, V, C>(entry);
    let before = inserts::<K, V, C>(k, run.take(n - 1));
    assert(inserts::<K, V, C>(k, run.take(n)) =~= before.push(payload));
    lemma_replay_push::<LookupSet<K, V, C>>(state, before, payload);
    assert(run.take(n).drop_last() =~= run.take(n - 1));
    assert(run.take(n).last() == run[n - 1]);
    if n == 1 {
        assert(before =~= Seq::<Seq<u8>>::empty());
        lemma_replayed::<K, V, C>(state, entry);
        assert(members(run.take(0)) =~= Set::<V>::empty());
    } else {
        lemma_replay_inserts::<K, V, C>(state, k, run, n - 1);
        let middle = state.insert(k, members(run.take(n - 1)));
        lemma_replayed::<K, V, C>(middle, entry);
        assert(middle.insert(k, members(run.take(n))) =~= state.insert(k, members(run.take(n))));
    }
}

/// Replaying the payloads of one key that is absent puts the set of its
/// values under it.
pub proof fn lemma_replay_key<
    K: View<V = K> + Eq + Hash,
    V: View<V = V> + Eq + Hash,
    C: Codec<K> + Codec<V>,
>(state: Map<K, Set<V>>, k: K, run: Seq<V>)
    requires
        !state.contains_key(k),
        pair_encodable::<K, V, C>(k, run),
    ensures
        replay::<LookupSet<K, V, C>>(state, key_payloads::<K, V, C>(k, run)) == Some(
            state.insert(k, members(run)),
        ),
{
    if run.len() == 0 {
        let entry = LogEntry::CreateKey(k);
        let payload = entry_bytes::<K, V, C>(entry);
        lemma_replay_push::<LookupSet<K, V, C>>(state, Seq::empty(), payload);
        assert(Seq::<Seq<u8>>::empty().push(payload) =~= key_payloads::<K, V, C>(k, run));
        lemma_replayed::<K, V, C>(state, entry);
    } else {
        lemma_replay_inserts::<K, V, C>(state, k, run, run.len() as int);
        assert(run.take(run.len() as int) =~= run);
    }
}

/// Replaying the snapshot of a run of different keys with their values onto
/// an empty table gives the map from each key to the set of its values.
pub proof fn lemma_replay_snapshot<
    K: View<V = K> + Eq + Hash,
    V: View<V = V> + Eq + Hash,
    C: Codec<K> + Codec<V>,
>(pairs: Seq<(K, Seq<V>)>)
    requires
        forall|i: int, j: int|
            0 <= i < j < pairs.len() ==> (#[trigger] pairs[i]).0 != (#[trigger] pairs[j]).0,
        forall|j: int|
            0 <= j < pairs.len() ==> pair_encodable::<K, V, C>(
                (#[trigger] pairs[j]).0,
                pairs[j].1,
            ),
    ensures
        replay::<LookupSet<K, V, C>>(Map::empty(), snapshot::<K, V, C>(pairs)) == Some(
            as_map(with_sets(pairs)),
        ),
    decreases pairs.len(),
{
    if pairs.len() == 0 {
        assert(with_sets(pairs) =~= Seq::<(K, Set<V>)>::empty());
    } else {
        let front = pairs.drop_last();
        let last = pairs.last();
        assert forall|i: int, j: int| 0 <= i < j < front.len() implies (#[trigger] front[i]).0 != (
        #[trigger] front[j]).0 by {
            assert(front[i] == pairs[i] && front[j] == pairs[j]);
        }
        assert forall|j: int| 0 <= j < front.len() implies pair_encodable::<K, V, C>(
            (#[trigger] front[j]).0,
            front[j].1,
        ) by {
            assert(front[j] == pairs[j]);
        }
        lemma_replay_snapshot::<K, V, C>(front);
        lemma_replay_append::<LookupSet<K, V, C>>(
            Map::empty(),
            snapshot::<K, V, C>(front),
            key_payloads::<K, V, C>(last.0, last.1),
        );
        let sets = with_sets(pairs);
        let front_sets = with_sets(front);
        assert(sets.drop_last() =~= front_sets);
        assert(sets.last() == (last.0, members(last.1)));
        lemma_as_map_keys(front_sets);
        assert(!as_map(front_sets).contains_key(last.0)) by {
            if as_map(front_sets).contains_key(last.0) {
                let j = choose|j: int|
                    0 <= j < front_sets.len() && (#[trigger] front_sets[j]).0 == last.0;
                assert(front_sets[j].0 == pairs[j].0);
                assert(pairs[j].0 == pairs[pairs.len() - 1].0);
            }
        }
        assert(pairs[pairs.len() - 1] == last);
        lemma_replay_key::<K, V, C>(as_map(front_sets), last.0, last.1);
    }
}

impl<
    K: View<V = K> + Eq + Hash,
    V: View<V = V> + Eq + Hash,
    C: Codec<K> + Codec<V>,
> LookupSet<K, V, C> {
    /// What every operation keeps: the id is that of a user table, keys and
    /// values stand for themselves, and every key and value that the table
    /// holds can be encoded.
    pub closed spec fn well_formed(&self) -> bool {
        &&& 1 <= self.table_id <= 254
        &&& keys_are_values::<K>()
        &&& keys_are_values::<V>()
        &&& forall|k: K| #[trigger]
            self@.contains_key(k) ==> <C as Codec<K>>::encodable(k) && forall|v: V| #[trigger]
                self@[k].contains(v) ==> <C as Codec<V>>::encodable(v)
    }

    /// The id under which the table's records stand in the log.
    pub closed spec fn table_id(&self) -> TableId {
        self.table_id
    }

    /// Encodes an entry.
    fn encode(entry: &LogEntry<&K, &V>) -> (r: DbResult<Vec<u8>>)
        requires
            keys_are_values::<K>(),
            keys_are_values::<V>(),
        ensures
            r is Ok <==> entry_encodable::<K, V, C>(model(*entry)),
            r matches Ok(data) ==> data@ == entry_bytes::<K, V, C>(model(*entry)),
    {
        let mut data: Vec<u8> = Vec::new();
        match entry {
            LogEntry::Insert(key, value) => {
                put_u32(&mut data, 0);
                let mut encoded_key = <C as Codec<K>>::serialize(key)?;
                let mut encoded_value = <C as Codec<V>>::serialize(value)?;
                data.append(&mut encoded_key);
                data.append(&mut encoded_value);
            },
            LogEntry::Remove(key, value) => {
                put_u32(&mut data, 1);
                let mut encoded_key = <C as Codec<K>>::serialize(key)?;
                let mut encoded_value = <C as Codec<V>>::serialize(value)?;
                data.append(&mut encoded_key);
                data.append(&mut encoded_value);
            },
            LogEntry::CreateKey(key) => {
                put_u32(&mut data, 2);
                let mut encoded_key = <C as Codec<K>>::serialize(key)?;
                data.append(&mut encoded_key);
            },
            LogEntry::ClearKey(key) => {
                put_u32(&mut data, 3);
                let mut encoded_key = <C as Codec<K>>::serialize(key)?;
                data.append(&mut encoded_key);
            },
            LogEntry::Clear => {
                put_u32(&mut data, 4);
            },
        }
        assert(data@ =~= entry_bytes::<K, V, C>(model(*entry)));
        Ok(data)
    }

    /// Decodes the entry that a payload starts with.
    fn decode(bytes: &[u8]) -> (r: DbResult<LogEntry<K, V>>)
        requires
            keys_are_values::<K>(),
            keys_are_values::<V>(),
        ensures
            match r {
                Ok(entry) => decoded::<K, V, C>(bytes@) == Some(entry),
                Err(_) => decoded::<K, V, C>(bytes@) is None,
            },
    {
        let kind = match get_u32(bytes, 0) {
            Some(kind) => kind,
            None => {
                assert forall|e: LogEntry<K, V>| !starts::<K, V, C>(bytes@, e) by {
                    if starts::<K, V, C>(bytes@, e) {
                        lemma_starts::<K, V, C>(bytes@, e);
                    }
                }
                return Err(DbError::Unexpected("a record without the kind of its entry"));
            },
        };
        proof {
            lemma_u32_round_trip(kind as nat, Seq::empty());
        }
        if kind == 4 {
            let entry: LogEntry<K, V> = LogEntry::Clear;
            proof {
                assert(entry_bytes::<K, V, C>(entry) =~= bytes@.subrange(0, 4));
                lemma_decoded::<K, V, C>(bytes@, entry);
            }
            return Ok(entry);
        }
        if kind > 4 {
            assert forall|e: LogEntry<K, V>| !starts::<K, V, C>(bytes@, e) by {
                if starts::<K, V, C>(bytes@, e) {
                    lemma_starts::<K, V, C>(bytes@, e);
                    lemma_u32_round_trip(tag(e), Seq::empty());
                }
            }
            return Err(DbError::Unexpected("a record with an entry of unknown kind"));
        }
        let rest = slice_subrange(bytes, 4, bytes.len());
        let (key, n) = match <C as Codec<K>>::deserialize(rest) {
            Ok(found) => found,
            Err(e) => {
                assert forall|e: LogEntry<K, V>| !starts::<K, V, C>(bytes@, e) by {
                    if starts::<K, V, C>(bytes@, e) {
                        lemma_starts::<K, V, C>(bytes@, e);
                        lemma_u32_round_trip(tag(e), Seq::empty());
                    }
                }
                return Err(e);
            },
        };
        assert(key@ == key);
        assert(<C as Codec<K>>::encoding(key).is_prefix_of(bytes@.skip(4)));
        if kind == 0 || kind == 1 {
            let rest = slice_subrange(bytes, 4 + n, bytes.len());
            match <C as Codec<V>>::deserialize(rest) {
                Ok((value, m)) => {
                    assert(value@ == value);
                    let entry = if kind == 0 {
                        LogEntry::Insert(key, value)
                    } else {
                        LogEntry::Remove(key, value)
                    };
                    proof {
                        assert(entry_bytes::<K, V, C>(entry) =~= bytes@.subrange(0, 4 + n + m));
                        lemma_decoded::<K, V, C>(bytes@, entry);
                    }
                    Ok(entry)
                },
                Err(e) => {
                    assert forall|e: LogEntry<K, V>| !starts::<K, V, C>(bytes@, e) by {
                        if starts::<K, V, C>(bytes@, e) {
                            lemma_starts::<K, V, C>(bytes@, e);
                            lemma_u32_round_trip(tag(e), Seq::empty());
                            <C as Codec<K>>::lemma_self_delimiting(
                                key,
                                key_of(e)->Some_0,
                                bytes@.skip(4),
                            );
                            assert(bytes@.skip(4 + n) =~= rest@);
                        }
                    }
                    Err(e)
                },
            }
        } else {
            let entry: LogEntry<K, V> = if kind == 2 {
                LogEntry::CreateKey(key)
            } else {
                LogEntry::ClearKey(key)
            };
            proof {
                assert(entry_bytes::<K, V, C>(entry) =~= bytes@.subrange(0, 4 + n));
                lemma_decoded::<K, V, C>(bytes@, entry);
            }
            Ok(entry)
        }
    }

    /// Adds a value to the set under a key, a key that is absent getting
    /// the set of that value alone. Says whether the value is new there.
    fn insert_inner(&mut self, k: K, v: V) -> (added: bool)
        requires
            old(self).well_formed(),
            entry_encodable::<K, V, C>(LogEntry::Insert(k, v)),
        ensures
            final(self).table_id() == old(self).table_id(),
            final(self).well_formed(),
            final(self)@ == apply(old(self)@, LogEntry::Insert(k, v)),
            added == !held(old(self)@, k).contains(v),
    {
        let mut set = match self.inner.remove(&k) {
            Some(set) => {
                assert(old(self)@.contains_key(k) && set@ == old(self)@[k]);
                set
            },
            None => {
                assert(!old(self)@.contains_key(k));
                HashSet::new()
            },
        };
        let ghost before = set@;
        assert(before == held(old(self)@, k));
        let added = set.insert(v);
        self.inner.insert(k, set);
        assert(self.inner@ =~= old(self).inner@.insert(k, set));
        assert(self@ =~= old(self)@.insert(k, before.insert(v)));
        assert forall|key: K| #[trigger] self@.contains_key(key) implies <C as Codec<
            K,
        >>::encodable(key) && forall|value: V| #[trigger]
            self@[key].contains(value) ==> <C as Codec<V>>::encodable(value) by {
            if key != k {
                assert(old(self)@.contains_key(key));
            } else if old(self)@.contains_key(k) {
                assert(<C as Codec<K>>::encodable(k));
            }
        }
        added
    }

    /// Adds a value to the set under a key, a key that is absent getting
    /// the set of that value alone, and writes the entry for it. Says
    /// whether the value is new there.
    ///
    /// Fails, and changes nothing, if and only if the key or the value
    /// cannot be encoded or
    /// the log does not take the entry.
    pub fn insert(&mut self, logger: &mut Logger, key: K, value: V) -> (r: DbResult<bool>)
        requires
            old(self).well_formed(),
        ensures
            final(self).table_id() == old(self).table_id(),
            final(self).well_formed(),
            match r {
                Ok(added) => {
                    &&& entry_encodable::<K, V, C>(LogEntry::Insert(key, value))
                    &&& added == !held(old(self)@, key).contains(value)
                    &&& final(self)@ == apply(old(self)@, LogEntry::Insert(key, value))
                    &&& old(logger)@.accepts(entry_bytes::<K, V, C>(LogEntry::Insert(key, value)))
                    &&& Self::replayed(old(self)@, entry_bytes::<K, V, C>(LogEntry::Insert(key, value))) == Some(final(self)@)
                    &&& final(logger)@ == old(logger)@.write(
                        old(self).table_id(),
                        entry_bytes::<K, V, C>(LogEntry::Insert(key, value)),
                    )
                },
                Err(_) => {
                    &&& !(entry_encodable::<K, V, C>(LogEntry::Insert(key, value)) && old(logger)@.accepts(entry_bytes::<K, V, C>(LogEntry::Insert(key, value))))
                    &&& final(self)@ == old(self)@
                    &&& final(logger)@ == old(logger)@
                },
            },
    {
        assert(key@ == key && value@ == value);
        let data = Self::encode(&LogEntry::Insert(&key, &value))?;
        logger.write(self.table_id, data)?;
        proof {
            lemma_replayed::<K, V, C>(old(self)@, LogEntry::Insert(key, value));
        }
        let ret = self.insert_inner(key, value);
        Ok(ret)
    }

    /// Puts an empty set under a key and writes the entry for it. Gives
    /// back what stood under the key.
    ///
    /// Fails, and changes nothing, if and only if the key cannot be
    /// encoded or
    /// the log does not take the entry.
    pub fn create_key(&mut self, logger: &mut Logger, key: K) -> (r: DbResult<Option<HashSet<V>>>)
        requires
            old(self).well_formed(),
        ensures
            final(self).table_id() == old(self).table_id(),
            final(self).well_formed(),
            match r {
                Ok(replaced) => {
                    &&& <C as Codec<K>>::encodable(key)
                    &&& match replaced {
                        Some(set) => old(self)@.contains_key(key) && old(self)@[key] == set@,
                        None => !old(self)@.contains_key(key),
                    }
                    &&& final(self)@ == old(self)@.insert(key, Set::empty())
                    &&& old(logger)@.accepts(entry_bytes::<K, V, C>(LogEntry::CreateKey(key)))
                    &&& Self::replayed(old(self)@, entry_bytes::<K, V, C>(LogEntry::CreateKey(key))) == Some(final(self)@)
                    &&& final(logger)@ == old(logger)@.write(
                        old(self).table_id(),
                        entry_bytes::<K, V, C>(LogEntry::CreateKey(key)),
                    )
                },
                Err(_) => {
                    &&& !(<C as Codec<K>>::encodable(key) && old(logger)@.accepts(entry_bytes::<K, V, C>(LogEntry::CreateKey(key))))
                    &&& final(self)@ == old(self)@
                    &&& final(logger)@ == old(logger)@
                },
            },
    {
        assert(key@ == key);
        let entry: LogEntry<&K, &V> = LogEntry::CreateKey(&key);
        let data = Self::encode(&entry)?;
        logger.write(self.table_id, data)?;
        proof {
            lemma_replayed::<K, V, C>(old(self)@, LogEntry::CreateKey(key));
        }
        let ret = self.inner.insert(key, HashSet::new());
        assert(self@ =~= old(self)@.insert(key, Set::empty()));
        Ok(ret)
    }

    /// Removes a value from the set under a key and writes the entry for
    /// it. Says whether the value was there. Where the key is absent,
    /// nothing changes and nothing is written.
    ///
    /// Fails, and changes nothing, if and only if the key is there and the
    /// value cannot be encoded or the log does not take the entry.
    pub fn remove(&mut self, logger: &mut Logger, key: K, value: &V) -> (r: DbResult<bool>)
        requires
            old(self).well_formed(),
        ensures
            final(self).table_id() == old(self).table_id(),
            final(self).well_formed(),
            match r {
                Ok(found) => {
                    &&& found == held(old(self)@, key).contains(*value)
                    &&& final(self)@ == apply(old(self)@, LogEntry::Remove(key, *value))
                    &&& old(self)@.contains_key(key) ==> Self::replayed(
                        old(self)@,
                        entry_bytes::<K, V, C>(LogEntry::Remove(key, *value)),
                    ) == Some(final(self)@)
                    &&& final(logger)@ == if old(self)@.contains_key(key) {
                        old(logger)@.write(
                            old(self).table_id(),
                            entry_bytes::<K, V, C>(LogEntry::Remove(key, *value)),
                        )
                    } else {
                        old(logger)@
                    }
                    &&& old(self)@.contains_key(key) ==> <C as Codec<V>>::encodable(*value)
                        && old(logger)@.accepts(
                        entry_bytes::<K, V, C>(LogEntry::Remove(key, *value)),
                    )
                },
                Err(_) => {
                    &&& old(self)@.contains_key(key)
                    &&& !(<C as Codec<V>>::encodable(*value) && old(logger)@.accepts(
                        entry_bytes::<K, V, C>(LogEntry::Remove(key, *value)),
                    ))
                    &&& final(self)@ == old(self)@
                    &&& final(logger)@ == old(logger)@
                },
            },
    {
        assert(key@ == key && value@ == *value);
        if !self.inner.contains_key(&key) {
            return Ok(false);
        }
        let entry: LogEntry<&K, &V> = LogEntry::Remove(&key, value);
        let data = Self::encode(&entry)?;
        logger.write(self.table_id, data)?;
        proof {
            lemma_replayed::<K, V, C>(old(self)@, LogEntry::Remove(key, *value));
        }
        let found = self.remove_inner(key, value);
        Ok(found)
    }

    /// Removes a value from the set under a key. Says whether the value
    /// was there.
    fn remove_inner(&mut self, key: K, value: &V) -> (found: bool)
        requires
            old(self).well_formed(),
        ensures
            final(self).table_id() == old(self).table_id(),
            final(self).well_formed(),
            final(self)@ == apply(old(self)@, LogEntry::Remove(key, *value)),
            found == held(old(self)@, key).contains(*value),
    {
        match self.inner.remove(&key) {
            Some(mut set) => {
                let ghost before = set@;
                assert(before == old(self)@[key]);
                let found = set.remove(value);
                assert(set@ == before.remove(*value));
                self.inner.insert(key, set);
                assert(self.inner@ =~= old(self).inner@.insert(key, set));
                assert(self@ =~= old(self)@.insert(key, before.remove(*value)));
                assert forall|k: K| #[trigger] self@.contains_key(k) implies <C as Codec<
                    K,
                >>::encodable(k) && forall|v: V| #[trigger]
                    self@[k].contains(v) ==> <C as Codec<V>>::encodable(v) by {
                    assert(old(self)@.contains_key(k));
                }
                found
            },
            None => {
                assert(self@ =~= old(self)@);
                false
            },
        }
    }

    /// The map that the table holds.
    pub fn get(&self) -> (r: &HashMap<K, HashSet<V>>)
        ensures
            models(r@) == self@,
    {
        &self.inner
    }

    /// Empties the table and writes the entry for it.
    ///
    /// Fails, and changes nothing, if and only if the log does not take the
    /// entry.
    pub fn clear(&mut self, logger: &mut Logger) -> (r: DbResult<()>)
        requires
            old(self).well_formed(),
        ensures
            final(self).table_id() == old(self).table_id(),
            final(self).well_formed(),
            match r {
                Ok(()) => {
                    &&& old(logger)@.accepts(entry_bytes::<K, V, C>(LogEntry::Clear))
                    &&& Self::replayed(old(self)@, entry_bytes::<K, V, C>(LogEntry::Clear)) == Some(final(self)@)
                    &&& final(self)@ == Map::<K, Set<V>>::empty()
                    &&& final(logger)@ == old(logger)@.write(
                        old(self).table_id(),
                        entry_bytes::<K, V, C>(LogEntry::Clear),
                    )
                },
                Err(e) => {
                    &&& !old(logger)@.accepts(entry_bytes::<K, V, C>(LogEntry::Clear))
                    &&& e matches DbError::Unexpected(_)
                    &&& final(self)@ == old(self)@
                    &&& final(logger)@ == old(logger)@
                },
            },
    {
        let entry: LogEntry<&K, &V> = LogEntry::Clear;
        let data = Self::encode(&entry)?;
        logger.write(self.table_id, data)?;
        proof {
            lemma_replayed::<K, V, C>(old(self)@, LogEntry::Clear);
        }
        self.inner.clear();
        assert(self@ =~= Map::<K, Set<V>>::empty());
        Ok(())
    }

    /// Removes a key with what stands under it and writes the entry for
    /// it. Gives back what stood under the key.
    ///
    /// Fails, and changes nothing, if and only if the key cannot be
    /// encoded or
    /// the log does not take the entry.
    pub fn clear_key(&mut self, logger: &mut Logger, key: &K) -> (r: DbResult<Option<HashSet<V>>>)
        requires
            old(self).well_formed(),
        ensures
            final(self).table_id() == old(self).table_id(),
            final(self).well_formed(),
            match r {
                Ok(removed) => {
                    &&& <C as Codec<K>>::encodable(*key)
                    &&& match removed {
                        Some(set) => old(self)@.contains_key(*key) && old(self)@[*key] == set@,
                        None => !old(self)@.contains_key(*key),
                    }
                    &&& final(self)@ == old(self)@.remove(*key)
                    &&& old(logger)@.accepts(entry_bytes::<K, V, C>(LogEntry::ClearKey(*key)))
                    &&& Self::replayed(old(self)@, entry_bytes::<K, V, C>(LogEntry::ClearKey(*key))) == Some(final(self)@)
                    &&& final(logger)@ == old(logger)@.write(
                        old(self).table_id(),
                        entry_bytes::<K, V, C>(LogEntry::ClearKey(*key)),
                    )
                },
                Err(_) => {
                    &&& !(<C as Codec<K>>::encodable(*key) && old(logger)@.accepts(entry_bytes::<K, V, C>(LogEntry::ClearKey(*key))))
                    &&& final(self)@ == old(self)@
                    &&& final(logger)@ == old(logger)@
                },
            },
    {
        assert(key@ == *key);
        let entry: LogEntry<&K, &V> = LogEntry::ClearKey(key);
        let data = Self::encode(&entry)?;
        logger.write(self.table_id, data)?;
        proof {
            lemma_replayed::<K, V, C>(old(self)@, LogEntry::ClearKey(*key));
        }
        let ret = self.inner.remove(key);
        assert(self@ =~= old(self)@.remove(*key));
        Ok(ret)
    }
}

impl<K: View<V = K> + Eq + Hash, V: View<V = V> + Eq + Hash, C: Codec<K> + Codec<V>> Table for LookupSet<
    K,
    V,
    C,
> {
    open spec fn state(&self) -> Map<K, Set<V>> {
        self@
    }

    open spec fn id(&self) -> TableId {
        self.table_id()
    }

    open spec fn supported() -> bool {
        keys_are_values::<K>() && keys_are_values::<V>()
    }

    open spec fn wf(&self) -> bool {
        self.well_formed()
    }

    /// A table that is well formed can always be written down.
    open spec fn compactable(&self) -> bool {
        true
    }

    fn init(table_id: TableId) -> (table: Self) {
        let table = Self { table_id, inner: HashMap::new(), codec: PhantomData };
        assert(table@ =~= Map::<K, Set<V>>::empty());
        table
    }

    fn handle_event(&mut self, bytes: &[u8]) -> (r: DbResult<()>) {
        let entry = Self::decode(bytes)?;
        proof {
            let found = choose|e: LogEntry<K, V>| starts::<K, V, C>(bytes@, e);
            assert(starts::<K, V, C>(bytes@, found));
        }
        match entry {
            LogEntry::Insert(k, v) => {
                self.insert_inner(k, v);
            },
            LogEntry::Remove(k, v) => {
                self.remove_inner(k, &v);
            },
            LogEntry::CreateKey(k) => {
                self.inner.insert(k, HashSet::new());
                assert(self@ =~= old(self)@.insert(k, Set::empty()));
            },
            LogEntry::ClearKey(k) => {
                self.inner.remove(&k);
                assert(self@ =~= old(self)@.remove(k));
            },
            LogEntry::Clear => {
                self.inner.clear();
                assert(self@ =~= Map::<K, Set<V>>::empty());
            },
        }
        Ok(())
    }

    /// For each key, in the order in which the hash map hands them out, an
    /// insert for each value of its set, in the order in which the hash set
    /// hands them out, or the creation of the key where the set is empty.
    fn compact_repr(&self) -> (r: DbResult<Vec<u8>>)
        ensures
            r matches Ok(repr) && exists|pairs: Seq<(K, Seq<V>)>|
                #![trigger snapshot::<K, V, C>(pairs)]
                {
                    &&& as_map(with_sets(pairs)) == self@
                    &&& pairs.len() == self@.len()
                    &&& forall|j: int| 0 <= j < pairs.len() ==> (#[trigger] pairs[j]).1.no_duplicates()
                    &&& repr@ == frames(records(self.table_id(), snapshot::<K, V, C>(pairs)))
                },
    {
        let mut repr: Vec<u8> = Vec::new();
        let ghost mut pairs: Seq<(K, Seq<V>)> = Seq::empty();
        let ghost items = IteratorSpec::remaining(&spec_hash_map_iter(&self.inner));
        proof {
            assert(records(self.table_id, snapshot::<K, V, C>(pairs)) =~= Seq::<Record>::empty());
        }
        for pair in it: self.inner.iter()
            invariant
                self.well_formed(),
                it.seq() == items,
                items.no_duplicates(),
                items.len() == self.inner@.dom().len(),
                pairs.len() == it.index(),
                forall|j: int|
                    0 <= j < pairs.len() ==> (#[trigger] pairs[j]).0 == *items[j].0 && members(
                        pairs[j].1,
                    ) == (*items[j].1)@ && pair_encodable::<K, V, C>(pairs[j].0, pairs[j].1)
                        && pairs[j].1.no_duplicates(),
                repr@ == frames(records(self.table_id, snapshot::<K, V, C>(pairs))),
        {
            let (k, set) = pair;
            assert(self.inner@.contains_key(*k) && self.inner@[*k] == *set);
            assert(self@.contains_key(*k) && self@[*k] == set@);
            assert(k@ == *k);
            let ghost done = snapshot::<K, V, C>(pairs);
            let ghost mut run: Seq<V> = Seq::empty();
            if set.is_empty() {
                let entry: LogEntry<&K, &V> = LogEntry::CreateKey(k);
                let data = Self::encode(&entry)?;
                let mut framed = Logger::log_entry(self.table_id, data);
                proof {
                    let payload = entry_bytes::<K, V, C>(LogEntry::CreateKey(*k));
                    lemma_records_push(self.table_id, done, payload);
                    lemma_frames_push(
                        records(self.table_id, done),
                        Record { table_id: self.table_id, payload },
                    );
                    assert(done.push(payload) =~= done + key_payloads::<K, V, C>(*k, run));
                    assert(members(run) =~= set@);
                }
                repr.append(&mut framed);
            } else {
                let ghost values = IteratorSpec::remaining(&spec_hash_keys_iter(set));
                proof {
                    assert(done + inserts::<K, V, C>(*k, run) =~= done);
                    assert forall|j: int| 0 <= j < values.len() implies set@.contains(
                        *#[trigger] values[j],
                    ) by {
                        let unreffed = values.unref();
                        assert(unreffed[j] == *values[j]);
                        assert(unreffed.contains(unreffed[j]));
                        assert(unreffed.to_set().contains(unreffed[j]));
                    }
                }
                for value in inner: set.iter()
                    invariant
                        self.well_formed(),
                        values.no_duplicates(),
                        self@.contains_key(*k) && self@[*k] == set@,
                        k@ == *k,
                        inner.seq() == values,
                        forall|j: int|
                            0 <= j < values.len() ==> set@.contains(*#[trigger] values[j]),
                        run.len() == inner.index(),
                        forall|j: int| 0 <= j < run.len() ==> #[trigger] run[j] == *values[j],
                        repr@ == frames(
                            records(self.table_id, done + inserts::<K, V, C>(*k, run)),
                        ),
                {
                    assert(set@.contains(*value));
                    assert(value@ == *value);
                    let data = Self::encode(&LogEntry::Insert(k, value))?;
                    let mut framed = Logger::log_entry(self.table_id, data);
                    proof {
                        let so_far = done + inserts::<K, V, C>(*k, run);
                        let payload = entry_bytes::<K, V, C>(LogEntry::Insert(*k, *value));
                        lemma_records_push(self.table_id, so_far, payload);
                        lemma_frames_push(
                            records(self.table_id, so_far),
                            Record { table_id: self.table_id, payload },
                        );
                        assert(so_far.push(payload) =~= done + inserts::<K, V, C>(
                            *k,
                            run.push(*value),
                        ));
                        run = run.push(*value);
                    }
                    repr.append(&mut framed);
                }
                proof {
                    assert(run.len() == values.len());
                    assert(run =~= values.unref());
                    assert(run.no_duplicates()) by {
                        assert forall|i: int, j: int|
                            0 <= i < run.len() && 0 <= j < run.len() && i != j implies run[i]
                            != run[j] by {
                            assert(values[i] != values[j]);
                        }
                    }
                    assert(run.to_set() == set@);
                    lemma_members(run);
                    assert(members(run) =~= set@);
                    assert(run.len() > 0) by {
                        if run.len() == 0 {
                            assert(set@ =~= Set::<V>::empty());
                        }
                    }
                    assert(pair_encodable::<K, V, C>(*k, run)) by {
                        assert forall|i: int| 0 <= i < run.len() implies <C as Codec<
                            V,
                        >>::encodable(#[trigger] run[i]) by {
                            assert(set@.contains(*values[i]));
                        }
                    }
                }
            }
            proof {
                let more = pairs.push((*k, run));
                assert(more.drop_last() =~= pairs);
                assert(more.last() == (*k, run));
                pairs = more;
            }
        }
        proof {
            let m = self@;
            let sets = with_sets(pairs);
            assert(pairs.len() == items.len());
            assert forall|j: int| 0 <= j < sets.len() implies m.contains_key(
                (#[trigger] sets[j]).0,
            ) && m[sets[j].0] == sets[j].1 by {
                assert(sets[j] == (pairs[j].0, members(pairs[j].1)));
                assert(self.inner@.contains_key(*items[j].0));
            }
            assert forall|k: K| m.contains_key(k) implies exists|j: int|
                0 <= j < sets.len() && (#[trigger] sets[j]).0 == k by {
                assert(self.inner@.contains_key(k));
                let item = (&k, &self.inner@[k]);
                assert(items.contains(item));
                let j = choose|j: int| 0 <= j < items.len() && items[j] == item;
                assert(pairs[j].0 == k);
                assert(sets[j].0 == k);
            }
            assert forall|i: int, j: int| 0 <= i < j < pairs.len() implies (#[trigger] pairs[i]).0
                != (#[trigger] pairs[j]).0 by {
                if pairs[i].0 == pairs[j].0 {
                    assert(self.inner@.contains_key(*items[i].0));
                    assert(self.inner@.contains_key(*items[j].0));
                    assert(items[i] == items[j]);
                }
            }
            lemma_as_map(sets, m);
            lemma_replay_snapshot::<K, V, C>(pairs);
            assert(self@.dom() =~= self.inner@.dom());
            assert(pairs.len() == self@.len());
            let payloads = snapshot::<K, V, C>(pairs);
            assert(repr@ == frames(records(self.id(), payloads)));
            assert(replay::<Self>(Self::empty(), payloads) == Some(self.state()));
        }
        Ok(repr)
    }
}


/// The payloads of a run of entries.
pub open spec fn payloads<K: View<V = K> + Eq + Hash, V: View<V = V> + Eq + Hash, C: Codec<K> + Codec<V>>(
    entries: Seq<LogEntry<K, V>>,
) -> Seq<Seq<u8>> {
    entries.map_values(|e: LogEntry<K, V>| entry_bytes::<K, V, C>(e))
}

/// Replay fidelity: where a run of entries is written to the log of a
/// table, each as one record, parsing the log gives back exactly those
/// records, and replaying them changes a table as applying the entries
/// does.
pub proof fn lemma_replay_fidelity<K: View<V = K> + Eq + Hash, V: View<V = V> + Eq + Hash, C: Codec<K> + Codec<V>>(
    id: TableId,
    state: Map<K, Set<V>>,
    entries: Seq<LogEntry<K, V>>,
)
    requires
        id != 0,
        forall|i: int|
            0 <= i < entries.len() ==> entry_encodable::<K, V, C>(#[trigger] entries[i]) && fits(
                entry_bytes::<K, V, C>(entries[i]),
            ),
    ensures
        parse(frames(records(id, payloads::<K, V, C>(entries)))) == (Parsed {
            records: records(id, payloads::<K, V, C>(entries)),
            incomplete: false,
        }),
        replay::<LookupSet<K, V, C>>(state, payloads::<K, V, C>(entries)) == apply_all(
            state,
            entries,
            |s: Map<K, Set<V>>, e: LogEntry<K, V>| Some(apply(s, e)),
        ),
{
    let written = payloads::<K, V, C>(entries);
    assert forall|i: int| 0 <= i < written.len() implies fits(#[trigger] written[i]) by {
        assert(written[i] == entry_bytes::<K, V, C>(entries[i]));
    }
    lemma_records_framable(id, written);
    lemma_framing_round_trip(records(id, written));
    assert forall|s: Map<K, Set<V>>, i: int| 0 <= i < entries.len() implies #[trigger] <LookupSet<K, V, C>>::replayed(
        s,
        entry_bytes::<K, V, C>(entries[i]),
    ) == (|s: Map<K, Set<V>>, e: LogEntry<K, V>| Some(apply(s, e)))(s, entries[i]) by {
        let payload = entry_bytes::<K, V, C>(entries[i]);
        assert(payload.is_prefix_of(payload));
        lemma_decoded::<K, V, C>(payload, entries[i]);
    }
    lemma_replay_entries::<LookupSet<K, V, C>, LogEntry<K, V>>(
        state,
        entries,
        |e: LogEntry<K, V>| entry_bytes::<K, V, C>(e),
        |s: Map<K, Set<V>>, e: LogEntry<K, V>| Some(apply(s, e)),
    );
}

} // verus!
