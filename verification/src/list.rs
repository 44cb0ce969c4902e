//! A table that holds an ordered sequence of values.

use crate::errors::DbError;
use crate::errors::DbResult;
use crate::framing::fits;
use crate::framing::lemma_framing_round_trip;
use crate::framing::parse;
use crate::framing::Parsed;
use crate::table::apply_all;
use crate::table::lemma_records_framable;
use crate::table::lemma_replay_entries;
use crate::framing::frames;
use crate::framing::lemma_frames_push;
use crate::framing::Record;
use crate::logger::Logger;
use crate::serializer::Codec;
use crate::table::lemma_replay_push;
use crate::table::records;
use crate::table::replay;
use crate::table::Model;
use crate::table::Table;
use crate::wire::get_u32;
use crate::wire::get_usize;
use crate::wire::lemma_u32_round_trip;
use crate::wire::lemma_u64_round_trip;
use crate::wire::put_u32;
use crate::wire::put_u64;
use crate::wire::u32_le;
use crate::wire::u64_le;
use crate::TableId;
use core::marker::PhantomData;
use vstd::prelude::*;
use vstd::slice::slice_subrange;

verus! {

/// A table backed by a vector of `T`.
pub struct List<T: View, C: Codec<T>> {
    table_id: TableId,
    inner: Vec<T>,
    codec: PhantomData<C>,
}

/// What a list writes to the log: a number for the kind of entry in four
/// bytes, then an index in eight bytes where the entry has one, then the
/// value as the codec writes it where the entry has one.
pub enum LogEntry<T> {
    Push(T),
    Insert(usize, T),
    Remove(usize),
    Clear,
}

/// The entry that an entry of values stands for.
pub open spec fn model<T: View>(entry: LogEntry<T>) -> LogEntry<T::V> {
    match entry {
        LogEntry::Push(t) => LogEntry::Push(t@),
        LogEntry::Insert(i, t) => LogEntry::Insert(i, t@),
        LogEntry::Remove(i) => LogEntry::Remove(i),
        LogEntry::Clear => LogEntry::Clear,
    }
}

/// The values that a sequence of values stands for.
pub open spec fn models<T: View>(values: Seq<T>) -> Seq<T::V> {
    values.map_values(|t: T| t@)
}

/// The number that says which kind an entry is of.
pub open spec fn tag<V>(entry: LogEntry<V>) -> nat {
    match entry {
        LogEntry::Push(_) => 0,
        LogEntry::Insert(_, _) => 1,
        LogEntry::Remove(_) => 2,
        LogEntry::Clear => 3,
    }
}

/// Whether an entry can be written: the value in it, if any, can be encoded.
pub open spec fn entry_encodable<T: View, C: Codec<T>>(entry: LogEntry<T::V>) -> bool {
    match entry {
        LogEntry::Push(v) => C::encodable(v),
        LogEntry::Insert(_, v) => C::encodable(v),
        LogEntry::Remove(_) => true,
        LogEntry::Clear => true,
    }
}

/// The bytes of an entry.
pub open spec fn entry_bytes<T: View, C: Codec<T>>(entry: LogEntry<T::V>) -> Seq<u8> {
    u32_le(tag(entry)) + match entry {
        LogEntry::Push(v) => C::encoding(v),
        LogEntry::Insert(i, v) => u64_le(i as nat) + C::encoding(v),
        LogEntry::Remove(i) => u64_le(i as nat),
        LogEntry::Clear => Seq::empty(),
    }
}

/// Whether the payload starts with the bytes of the entry.
pub open spec fn starts<T: View, C: Codec<T>>(payload: Seq<u8>, entry: LogEntry<T::V>) -> bool {
    entry_encodable::<T, C>(entry) && entry_bytes::<T, C>(entry).is_prefix_of(payload)
}

/// The entry that a payload starts with, if it starts with one.
pub open spec fn decoded<T: View, C: Codec<T>>(payload: Seq<u8>) -> Option<LogEntry<T::V>> {
    if exists|entry: LogEntry<T::V>| starts::<T, C>(payload, entry) {
        Some(choose|entry: LogEntry<T::V>| starts::<T, C>(payload, entry))
    } else {
        None
    }
}

/// What a list holds after an entry is applied to it. An index that is out
/// of range cannot be applied.
pub open spec fn apply<V>(state: Seq<V>, entry: LogEntry<V>) -> Option<Seq<V>> {
    match entry {
        LogEntry::Push(v) => Some(state.push(v)),
        LogEntry::Insert(i, v) => if i <= state.len() {
            Some(state.insert(i as int, v))
        } else {
            None
        },
        LogEntry::Remove(i) => if i < state.len() {
            Some(state.remove(i as int))
        } else {
            None
        },
        LogEntry::Clear => Some(Seq::empty()),
    }
}

/// What a payload that starts with an entry has at its start: the entry's
/// kind, then its index, then its value.
pub proof fn lemma_starts<T: View, C: Codec<T>>(payload: Seq<u8>, entry: LogEntry<T::V>)
    requires
        starts::<T, C>(payload, entry),
    ensures
        payload.len() >= 4,
        payload.subrange(0, 4) == u32_le(tag(entry)),
        entry matches LogEntry::Push(v) ==> C::encoding(v).is_prefix_of(payload.skip(4)),
        entry matches LogEntry::Insert(i, v) ==> payload.len() >= 12 && payload.subrange(4, 12)
            == u64_le(i as nat) && C::encoding(v).is_prefix_of(payload.skip(12)),
        entry matches LogEntry::Remove(i) ==> payload.len() >= 12 && payload.subrange(4, 12)
            == u64_le(i as nat),
{
    let bytes = entry_bytes::<T, C>(entry);
    assert(bytes =~= payload.subrange(0, bytes.len() as int));
    assert(payload.subrange(0, 4) =~= bytes.subrange(0, 4));
    assert(bytes.subrange(0, 4) =~= u32_le(tag(entry)));
    match entry {
        LogEntry::Push(v) => {
            assert(C::encoding(v) =~= bytes.skip(4));
            assert(C::encoding(v) =~= payload.skip(4).subrange(0, C::encoding(v).len() as int));
        },
        LogEntry::Insert(i, v) => {
            assert(payload.subrange(4, 12) =~= bytes.subrange(4, 12));
            assert(bytes.subrange(4, 12) =~= u64_le(i as nat));
            assert(C::encoding(v) =~= bytes.skip(12));
            assert(C::encoding(v) =~= payload.skip(12).subrange(0, C::encoding(v).len() as int));
        },
        LogEntry::Remove(i) => {
            assert(payload.subrange(4, 12) =~= bytes.subrange(4, 12));
            assert(bytes.subrange(4, 12) =~= u64_le(i as nat));
        },
        LogEntry::Clear => {},
    }
}

/// A payload starts with at most one entry. So what is decoded from the
/// bytes of an entry, whatever follows them, is that entry.
pub proof fn lemma_decoded<T: View, C: Codec<T>>(payload: Seq<u8>, entry: LogEntry<T::V>)
    requires
        starts::<T, C>(payload, entry),
    ensures
        decoded::<T, C>(payload) == Some(entry),
{
    let found = choose|e: LogEntry<T::V>| starts::<T, C>(payload, e);
    assert(starts::<T, C>(payload, found));
    lemma_starts::<T, C>(payload, entry);
    lemma_starts::<T, C>(payload, found);
    lemma_u32_round_trip(tag(entry), Seq::empty());
    lemma_u32_round_trip(tag(found), Seq::empty());
    assert(tag(entry) == tag(found));
    match (entry, found) {
        (LogEntry::Push(a), LogEntry::Push(b)) => {
            C::lemma_self_delimiting(a, b, payload.skip(4));
        },
        (LogEntry::Insert(i, a), LogEntry::Insert(j, b)) => {
            lemma_u64_round_trip(i as nat, Seq::empty());
            lemma_u64_round_trip(j as nat, Seq::empty());
            C::lemma_self_delimiting(a, b, payload.skip(12));
        },
        (LogEntry::Remove(i), LogEntry::Remove(j)) => {
            lemma_u64_round_trip(i as nat, Seq::empty());
            lemma_u64_round_trip(j as nat, Seq::empty());
        },
        _ => {},
    }
}

/// The payloads that rebuild a list: one push for each value, in order.
pub open spec fn pushes<T: View, C: Codec<T>>(values: Seq<T::V>) -> Seq<Seq<u8>> {
    values.map_values(|v: T::V| entry_bytes::<T, C>(LogEntry::Push(v)))
}

impl<T: View, C: Codec<T>> View for List<T, C> {
    type V = Seq<T::V>;

    closed spec fn view(&self) -> Seq<T::V> {
        models(self.inner@)
    }
}

impl<T: View, C: Codec<T>> Model for List<T, C> {
    type State = Seq<T::V>;

    open spec fn empty() -> Seq<T::V> {
        Seq::empty()
    }

    open spec fn replayed(state: Seq<T::V>, payload: Seq<u8>) -> Option<Seq<T::V>> {
        match decoded::<T, C>(payload) {
            Some(entry) => apply(state, entry),
            None => None,
        }
    }
}

/// Replaying the pushes of a run of values onto an empty list gives those
/// values.
pub proof fn lemma_replay_pushes<T: View, C: Codec<T>>(values: Seq<T::V>)
    requires
        forall|i: int| 0 <= i < values.len() ==> C::encodable(#[trigger] values[i]),
    ensures
        replay::<List<T, C>>(Seq::empty(), pushes::<T, C>(values)) == Some(values),
    decreases values.len(),
{
    if values.len() == 0 {
        assert(pushes::<T, C>(values) =~= Seq::<Seq<u8>>::empty());
    } else {
        let front = values.drop_last();
        let last = values.last();
        lemma_replay_pushes::<T, C>(front);
        let payload = entry_bytes::<T, C>(LogEntry::Push(last));
        assert(pushes::<T, C>(values) =~= pushes::<T, C>(front).push(payload));
        lemma_replay_push::<List<T, C>>(Seq::empty(), pushes::<T, C>(front), payload);
        assert(payload.is_prefix_of(payload));
        lemma_decoded::<T, C>(payload, LogEntry::Push(last));
        assert(front.push(last) =~= values);
    }
}

impl<T: View, C: Codec<T>> List<T, C> {
    /// What every operation keeps: the id is that of a user table, and
    /// every value that the list holds can be encoded.
    pub closed spec fn well_formed(&self) -> bool {
        &&& 1 <= self.table_id <= 254
        &&& forall|i: int| 0 <= i < self@.len() ==> C::encodable(#[trigger] self@[i])
    }

    /// The id under which the table's records stand in the log.
    pub closed spec fn table_id(&self) -> TableId {
        self.table_id
    }

    /// Encodes an entry.
    fn encode(entry: &LogEntry<&T>) -> (r: DbResult<Vec<u8>>)
        ensures
            r is Ok <==> entry_encodable::<T, C>(model(*entry)),
            r matches Ok(data) ==> data@ == entry_bytes::<T, C>(model(*entry)),
    {
        let mut data: Vec<u8> = Vec::new();
        match entry {
            LogEntry::Push(value) => {
                put_u32(&mut data, 0);
                let mut encoded = C::serialize(value)?;
                data.append(&mut encoded);
            },
            LogEntry::Insert(index, value) => {
                put_u32(&mut data, 1);
                put_u64(&mut data, *index as u64);
                let mut encoded = C::serialize(value)?;
                data.append(&mut encoded);
            },
            LogEntry::Remove(index) => {
                put_u32(&mut data, 2);
                put_u64(&mut data, *index as u64);
            },
            LogEntry::Clear => {
                put_u32(&mut data, 3);
            },
        }
        assert(data@ =~= entry_bytes::<T, C>(model(*entry)));
        Ok(data)
    }

    /// Decodes the entry that a payload starts with.
    fn decode(bytes: &[u8]) -> (r: DbResult<LogEntry<T>>)
        ensures
            match r {
                Ok(entry) => decoded::<T, C>(bytes@) == Some(model(entry)),
                Err(_) => decoded::<T, C>(bytes@) is None,
            },
    {
        let kind = match get_u32(bytes, 0) {
            Some(kind) => kind,
            None => {
                assert forall|e: LogEntry<T::V>| !starts::<T, C>(bytes@, e) by {
                    if starts::<T, C>(bytes@, e) {
                        lemma_starts::<T, C>(bytes@, e);
                    }
                }
                return Err(DbError::Unexpected("a record without the kind of its entry"));
            },
        };
        proof {
            lemma_u32_round_trip(kind as nat, Seq::empty());
        }
        if kind == 0 {
            let rest = slice_subrange(bytes, 4, bytes.len());
            match C::deserialize(rest) {
                Ok((value, n)) => {
                    let entry = LogEntry::Push(value);
                    proof {
                        assert(entry_bytes::<T, C>(model(entry)) =~= bytes@.subrange(0, 4 + n));
                        lemma_decoded::<T, C>(bytes@, model(entry));
                    }
                    Ok(entry)
                },
                Err(e) => {
                    assert forall|e: LogEntry<T::V>| !starts::<T, C>(bytes@, e) by {
                        if starts::<T, C>(bytes@, e) {
                            lemma_starts::<T, C>(bytes@, e);
                            lemma_u32_round_trip(tag(e), Seq::empty());
                        }
                    }
                    Err(e)
                },
            }
        } else if kind == 1 {
            let index = match get_usize(bytes, 4) {
                Some(index) => index,
                None => {
                    assert forall|e: LogEntry<T::V>| !starts::<T, C>(bytes@, e) by {
                        if starts::<T, C>(bytes@, e) {
                            lemma_starts::<T, C>(bytes@, e);
                            lemma_u32_round_trip(tag(e), Seq::empty());
                        }
                    }
                    return Err(DbError::Unexpected("a record without the index of its entry"));
                },
            };
            let rest = slice_subrange(bytes, 12, bytes.len());
            match C::deserialize(rest) {
                Ok((value, n)) => {
                    let entry = LogEntry::Insert(index, value);
                    proof {
                        assert(entry_bytes::<T, C>(model(entry)) =~= bytes@.subrange(0, 12 + n));
                        lemma_decoded::<T, C>(bytes@, model(entry));
                    }
                    Ok(entry)
                },
                Err(e) => {
                    assert forall|e: LogEntry<T::V>| !starts::<T, C>(bytes@, e) by {
                        if starts::<T, C>(bytes@, e) {
                            lemma_starts::<T, C>(bytes@, e);
                            lemma_u32_round_trip(tag(e), Seq::empty());
                        }
                    }
                    Err(e)
                },
            }
        } else if kind == 2 {
            match get_usize(bytes, 4) {
                Some(index) => {
                    let entry: LogEntry<T> = LogEntry::Remove(index);
                    proof {
                        assert(entry_bytes::<T, C>(model(entry)) =~= bytes@.subrange(0, 12));
                        lemma_decoded::<T, C>(bytes@, model(entry));
                    }
                    Ok(entry)
                },
                None => {
                    assert forall|e: LogEntry<T::V>| !starts::<T, C>(bytes@, e) by {
                        if starts::<T, C>(bytes@, e) {
                            lemma_starts::<T, C>(bytes@, e);
                            lemma_u32_round_trip(tag(e), Seq::empty());
                        }
                    }
                    Err(DbError::Unexpected("a record without the index of its entry"))
                },
            }
        } else if kind == 3 {
            let entry: LogEntry<T> = LogEntry::Clear;
            proof {
                assert(entry_bytes::<T, C>(model(entry)) =~= bytes@.subrange(0, 4));
                lemma_decoded::<T, C>(bytes@, model(entry));
            }
            Ok(entry)
        } else {
            assert forall|e: LogEntry<T::V>| !starts::<T, C>(bytes@, e) by {
                if starts::<T, C>(bytes@, e) {
                    lemma_starts::<T, C>(bytes@, e);
                    lemma_u32_round_trip(tag(e), Seq::empty());
                }
            }
            Err(DbError::Unexpected("a record with an entry of unknown kind"))
        }
    }

    /// Appends a value to the list and writes the entry for it.
    ///
    /// Fails, and changes nothing, if and only if the value cannot be
    /// encoded or
    /// the log does not take the entry.
    pub fn push(&mut self, logger: &mut Logger, t: T) -> (r: DbResult<()>)
        ensures
            final(self).table_id() == old(self).table_id(),
            old(self).well_formed() ==> final(self).well_formed(),
            match r {
                Ok(()) => {
                    &&& C::encodable(t@)
                    &&& final(self)@ == old(self)@.push(t@)
                    &&& old(logger)@.accepts(entry_bytes::<T, C>(LogEntry::Push(t@)))
                    &&& Self::replayed(old(self)@, entry_bytes::<T, C>(LogEntry::Push(t@))) == Some(final(self)@)
                    &&& final(logger)@ == old(logger)@.write(
                        old(self).table_id(),
                        entry_bytes::<T, C>(LogEntry::Push(t@)),
                    )
                },
                Err(_) => {
                    &&& !(C::encodable(t@) && old(logger)@.accepts(entry_bytes::<T, C>(LogEntry::Push(t@))))
                    &&& final(self)@ == old(self)@
                    &&& final(logger)@ == old(logger)@
                },
            },
    {
        let data = Self::encode(&LogEntry::Push(&t))?;
        logger.write(self.table_id, data)?;
        proof {
            lemma_replayed::<T, C>(old(self)@, LogEntry::Push(t@));
        }
        self.inner.push(t);
        assert(self@ =~= old(self)@.push(t@));
        Ok(())
    }

    /// Removes the last value of the list and writes the entry for it: the
    /// removal at the last index. Gives back the value. From an empty list
    /// nothing is removed and nothing is written.
    ///
    /// Fails, and changes nothing, if and only if the list is not empty and
    /// the log does not take the entry.
    pub fn pop(&mut self, logger: &mut Logger) -> (r: DbResult<Option<T>>)
        ensures
            final(self).table_id() == old(self).table_id(),
            old(self).well_formed() ==> final(self).well_formed(),
            match r {
                Ok(Some(t)) => {
                    &&& old(self)@.len() > 0
                    &&& old(logger)@.accepts(
                        entry_bytes::<T, C>(LogEntry::Remove((old(self)@.len() - 1) as usize)),
                    )
                    &&& Self::replayed(old(self)@, entry_bytes::<T, C>(LogEntry::Remove((old(self)@.len() - 1) as usize))) == Some(final(self)@)
                    &&& t@ == old(self)@.last()
                    &&& final(self)@ == old(self)@.drop_last()
                    &&& final(logger)@ == old(logger)@.write(
                        old(self).table_id(),
                        entry_bytes::<T, C>(LogEntry::Remove((old(self)@.len() - 1) as usize)),
                    )
                },
                Ok(None) => {
                    &&& old(self)@.len() == 0
                    &&& final(self)@ == old(self)@
                    &&& final(logger)@ == old(logger)@
                },
                Err(e) => {
                    &&& old(self)@.len() > 0
                    &&& !old(logger)@.accepts(
                        entry_bytes::<T, C>(LogEntry::Remove((old(self)@.len() - 1) as usize)),
                    )
                    &&& e matches DbError::Unexpected(_)
                    &&& final(self)@ == old(self)@
                    &&& final(logger)@ == old(logger)@
                },
            },
    {
        if self.inner.len() == 0 {
            return Ok(None);
        }
        let entry: LogEntry<&T> = LogEntry::Remove(self.inner.len() - 1);
        let data = Self::encode(&entry)?;
        logger.write(self.table_id, data)?;
        proof {
            lemma_replayed::<T, C>(old(self)@, LogEntry::Remove((old(self)@.len() - 1) as usize));
        }
        let result = self.inner.pop();
        assert(self@ =~= old(self)@.drop_last());
        Ok(result)
    }

    /// Removes the value at `index`, moves the values behind it one place
    /// to the front, and writes the entry for it. Gives back the value.
    ///
    /// Fails, and changes nothing, if and only if the index is out of range
    /// or the log does not take the entry.
    pub fn remove(&mut self, logger: &mut Logger, index: usize) -> (r: DbResult<T>)
        ensures
            final(self).table_id() == old(self).table_id(),
            old(self).well_formed() ==> final(self).well_formed(),
            match r {
                Ok(t) => {
                    &&& index < old(self)@.len()
                    &&& old(logger)@.accepts(entry_bytes::<T, C>(LogEntry::Remove(index)))
                    &&& Self::replayed(old(self)@, entry_bytes::<T, C>(LogEntry::Remove(index))) == Some(final(self)@)
                    &&& t@ == old(self)@[index as int]
                    &&& final(self)@ == old(self)@.remove(index as int)
                    &&& final(logger)@ == old(logger)@.write(
                        old(self).table_id(),
                        entry_bytes::<T, C>(LogEntry::Remove(index)),
                    )
                },
                Err(e) => {
                    &&& index >= old(self)@.len() || !old(logger)@.accepts(
                        entry_bytes::<T, C>(LogEntry::Remove(index)),
                    )
                    &&& e matches DbError::Unexpected(_)
                    &&& final(self)@ == old(self)@
                    &&& final(logger)@ == old(logger)@
                },
            },
    {
        if index >= self.inner.len() {
            return Err(DbError::Unexpected("an index that is out of range"));
        }
        let entry: LogEntry<&T> = LogEntry::Remove(index);
        let data = Self::encode(&entry)?;
        logger.write(self.table_id, data)?;
        proof {
            lemma_replayed::<T, C>(old(self)@, LogEntry::Remove(index));
        }
        let result = self.inner.remove(index);
        assert(self@ =~= old(self)@.remove(index as int));
        Ok(result)
    }

    /// Empties the list and writes the entry for it.
    ///
    /// Fails, and changes nothing, if and only if the log does not take the
    /// entry.
    pub fn clear(&mut self, logger: &mut Logger) -> (r: DbResult<()>)
        ensures
            final(self).table_id() == old(self).table_id(),
            old(self).well_formed() ==> final(self).well_formed(),
            match r {
                Ok(()) => {
                    &&& old(logger)@.accepts(entry_bytes::<T, C>(LogEntry::Clear))
                    &&& Self::replayed(old(self)@, entry_bytes::<T, C>(LogEntry::Clear)) == Some(final(self)@)
                    &&& final(self)@ == Seq::<T::V>::empty()
                    &&& final(logger)@ == old(logger)@.write(
                        old(self).table_id(),
                        entry_bytes::<T, C>(LogEntry::Clear),
                    )
                },
                Err(e) => {
                    &&& !old(logger)@.accepts(entry_bytes::<T, C>(LogEntry::Clear))
                    &&& e matches DbError::Unexpected(_)
                    &&& final(self)@ == old(self)@
                    &&& final(logger)@ == old(logger)@
                },
            },
    {
        let entry: LogEntry<&T> = LogEntry::Clear;
        let data = Self::encode(&entry)?;
        logger.write(self.table_id, data)?;
        proof {
            lemma_replayed::<T, C>(old(self)@, LogEntry::Clear);
        }
        self.inner.clear();
        assert(self@ =~= Seq::<T::V>::empty());
        Ok(())
    }

    /// The values that the list holds, in order.
    pub fn get(&self) -> (r: &[T])
        ensures
            models(r@) == self@,
    {
        self.inner.as_slice()
    }
}

impl<T: View, C: Codec<T>> Table for List<T, C> {
    open spec fn state(&self) -> Seq<T::V> {
        self@
    }

    open spec fn id(&self) -> TableId {
        self.table_id()
    }

    open spec fn supported() -> bool {
        true
    }

    open spec fn wf(&self) -> bool {
        self.well_formed()
    }

    /// A table that is well formed can always be written down.
    open spec fn compactable(&self) -> bool {
        true
    }

    fn init(table_id: TableId) -> (table: Self) {
        let table = Self { table_id, inner: Vec::new(), codec: PhantomData };
        assert(table@ =~= Seq::<T::V>::empty());
        table
    }

    fn handle_event(&mut self, bytes: &[u8]) -> (r: DbResult<()>) {
        let entry = Self::decode(bytes)?;
        proof {
            let found = choose|e: LogEntry<T::V>| starts::<T, C>(bytes@, e);
            assert(starts::<T, C>(bytes@, found));
        }
        match entry {
            LogEntry::Insert(idx, element) => {
                if idx > self.inner.len() {
                    return Err(DbError::Unexpected("an entry with an index that is out of range"));
                }
                self.inner.insert(idx, element);
                assert(self@ =~= old(self)@.insert(idx as int, element@));
            },
            LogEntry::Remove(idx) => {
                if idx >= self.inner.len() {
                    return Err(DbError::Unexpected("an entry with an index that is out of range"));
                }
                self.inner.remove(idx);
                assert(self@ =~= old(self)@.remove(idx as int));
            },
            LogEntry::Push(el) => {
                self.inner.push(el);
                assert(self@ =~= old(self)@.push(el@));
            },
            LogEntry::Clear => {
                self.inner.clear();
                assert(self@ =~= Seq::<T::V>::empty());
            },
        }
        Ok(())
    }

    /// One push for each value, in order.
    fn compact_repr(&self) -> (r: DbResult<Vec<u8>>)
        ensures
            r matches Ok(repr) && repr@ == frames(
                records(self.table_id(), pushes::<T, C>(self@)),
            ),
    {
        let mut repr: Vec<u8> = Vec::new();
        let mut i: usize = 0;
        proof {
            assert(records(self.table_id, pushes::<T, C>(self@.take(0))) =~= Seq::<Record>::empty());
        }
        while i < self.inner.len()
            invariant
                i <= self.inner.len(),
                self.well_formed(),
                repr@ == frames(records(self.table_id, pushes::<T, C>(self@.take(i as int)))),
            decreases self.inner.len() - i,
        {
            let value = &self.inner[i];
            assert(value@ == self@[i as int]);
            let data = Self::encode(&LogEntry::Push(value))?;
            let mut entry = Logger::log_entry(self.table_id, data);
            proof {
                let before = records(self.table_id, pushes::<T, C>(self@.take(i as int)));
                let payload = entry_bytes::<T, C>(LogEntry::Push(value@));
                let record = Record { table_id: self.table_id, payload };
                lemma_frames_push(before, record);
                assert(self@.take(i + 1) =~= self@.take(i as int).push(value@));
                assert(records(self.table_id, pushes::<T, C>(self@.take(i + 1))) =~= before.push(
                    record,
                ));
            }
            repr.append(&mut entry);
            i += 1;
        }
        proof {
            assert(self@.take(i as int) =~= self@);
            lemma_replay_pushes::<T, C>(self@);
            let payloads = pushes::<T, C>(self@);
            assert(repr@ == frames(records(self.id(), payloads)));
            assert(replay::<Self>(Self::empty(), payloads) == Some(self.state()));
        }
        Ok(repr)
    }
}


/// What replaying the payload of one entry gives.
pub proof fn lemma_replayed<T: View, C: Codec<T>>(state: Seq<T::V>, entry: LogEntry<T::V>)
    requires
        entry_encodable::<T, C>(entry),
    ensures
        <List<T, C>>::replayed(state, entry_bytes::<T, C>(entry)) == apply(state, entry),
{
    let payload = entry_bytes::<T, C>(entry);
    assert(payload.is_prefix_of(payload));
    lemma_decoded::<T, C>(payload, entry);
}

/// The payloads of a run of entries.
pub open spec fn payloads<T: View, C: Codec<T>>(
    entries: Seq<LogEntry<T::V>>,
) -> Seq<Seq<u8>> {
    entries.map_values(|e: LogEntry<T::V>| entry_bytes::<T, C>(e))
}

/// Replay fidelity: where a run of entries is written to the log of a
/// table, each as one record, parsing the log gives back exactly those
/// records, and replaying them changes a table as applying the entries
/// does.
pub proof fn lemma_replay_fidelity<T: View, C: Codec<T>>(
    id: TableId,
    state: Seq<T::V>,
    entries: Seq<LogEntry<T::V>>,
)
    requires
        id != 0,
        forall|i: int|
            0 <= i < entries.len() ==> entry_encodable::<T, C>(#[trigger] entries[i]) && fits(
                entry_bytes::<T, C>(entries[i]),
            ),
    ensures
        parse(frames(records(id, payloads::<T, C>(entries)))) == (Parsed {
            records: records(id, payloads::<T, C>(entries)),
            incomplete: false,
        }),
        replay::<List<T, C>>(state, payloads::<T, C>(entries)) == apply_all(
            state,
            entries,
            |s: Seq<T::V>, e: LogEntry<T::V>| apply(s, e),
        ),
{
    let written = payloads::<T, C>(entries);
    assert forall|i: int| 0 <= i < written.len() implies fits(#[trigger] written[i]) by {
        assert(written[i] == entry_bytes::<T, C>(entries[i]));
    }
    lemma_records_framable(id, written);
    lemma_framing_round_trip(records(id, written));
    assert forall|s: Seq<T::V>, i: int| 0 <= i < entries.len() implies #[trigger] <List<T, C>>::replayed(
        s,
        entry_bytes::<T, C>(entries[i]),
    ) == (|s: Seq<T::V>, e: LogEntry<T::V>| apply(s, e))(s, entries[i]) by {
        let payload = entry_bytes::<T, C>(entries[i]);
        assert(payload.is_prefix_of(payload));
        lemma_decoded::<T, C>(payload, entries[i]);
    }
    lemma_replay_entries::<List<T, C>, LogEntry<T::V>>(
        state,
        entries,
        |e: LogEntry<T::V>| entry_bytes::<T, C>(e),
        |s: Seq<T::V>, e: LogEntry<T::V>| apply(s, e),
    );
}

} // verus!
