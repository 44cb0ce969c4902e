//! A table that holds at most one value.

use crate::errors::DbError;
use crate::errors::DbResult;
use crate::framing::frame;
use crate::framing::fits;
use crate::framing::lemma_framing_round_trip;
use crate::framing::parse;
use crate::framing::Parsed;
use crate::table::apply_all;
use crate::table::lemma_records_framable;
use crate::table::lemma_replay_entries;
use crate::framing::frames;
use crate::framing::Record;
use crate::logger::Logger;
use crate::serializer::Codec;
use crate::table::records;
use crate::table::replay;
use crate::table::Model;
use crate::table::Table;
use crate::TableId;
use core::marker::PhantomData;
use vstd::prelude::*;
use vstd::slice::slice_subrange;

verus! {

/// A table that holds at most one value of `T`.
///
/// Its log entry is the optional value itself: one byte that says whether a
/// value follows, then the value as the codec `C` writes it.
pub struct Single<T: View, C: Codec<T>> {
    table_id: TableId,
    inner: Option<T>,
    codec: PhantomData<C>,
}

/// The value that an optional value stands for.
pub open spec fn model<T: View>(value: Option<T>) -> Option<T::V> {
    match value {
        Some(t) => Some(t@),
        None => None,
    }
}

/// Whether an entry can be written: the value in it, if any, can be encoded.
pub open spec fn entry_encodable<T: View, C: Codec<T>>(entry: Option<T::V>) -> bool {
    match entry {
        None => true,
        Some(v) => C::encodable(v),
    }
}

/// The bytes of an entry.
pub open spec fn entry_bytes<T: View, C: Codec<T>>(entry: Option<T::V>) -> Seq<u8> {
    match entry {
        None => seq![0u8],
        Some(v) => seq![1u8] + C::encoding(v),
    }
}

/// Whether the payload starts with the bytes of the entry.
pub open spec fn starts<T: View, C: Codec<T>>(payload: Seq<u8>, entry: Option<T::V>) -> bool {
    entry_encodable::<T, C>(entry) && entry_bytes::<T, C>(entry).is_prefix_of(payload)
}

/// The entry that a payload starts with, if it starts with one.
pub open spec fn decoded<T: View, C: Codec<T>>(payload: Seq<u8>) -> Option<Option<T::V>> {
    if exists|entry: Option<T::V>| starts::<T, C>(payload, entry) {
        Some(choose|entry: Option<T::V>| starts::<T, C>(payload, entry))
    } else {
        None
    }
}

/// A payload starts with at most one entry. So what is decoded from the
/// bytes of an entry, whatever follows them, is that entry.
pub proof fn lemma_decoded<T: View, C: Codec<T>>(payload: Seq<u8>, entry: Option<T::V>)
    requires
        starts::<T, C>(payload, entry),
    ensures
        decoded::<T, C>(payload) == Some(entry),
{
    let found = choose|e: Option<T::V>| starts::<T, C>(payload, e);
    assert(starts::<T, C>(payload, found));
    assert(entry_bytes::<T, C>(entry)[0] == payload[0]);
    assert(entry_bytes::<T, C>(found)[0] == payload[0]);
    match (entry, found) {
        (Some(a), Some(b)) => {
            let rest = payload.skip(1);
            assert(C::encoding(a) =~= entry_bytes::<T, C>(entry).skip(1));
            assert(C::encoding(b) =~= entry_bytes::<T, C>(found).skip(1));
            assert(C::encoding(a).is_prefix_of(rest));
            assert(C::encoding(b).is_prefix_of(rest));
            C::lemma_self_delimiting(a, b, rest);
        },
        _ => {},
    }
}

impl<T: View, C: Codec<T>> View for Single<T, C> {
    type V = Option<T::V>;

    closed spec fn view(&self) -> Option<T::V> {
        model(self.inner)
    }
}

impl<T: View, C: Codec<T>> Single<T, C> {
    /// What every operation keeps: the id is that of a user table, and the
    /// value that the table holds can be encoded.
    pub closed spec fn well_formed(&self) -> bool {
        &&& 1 <= self.table_id <= 254
        &&& entry_encodable::<T, C>(self@)
    }

    /// The id under which the table's records stand in the log.
    pub closed spec fn table_id(&self) -> TableId {
        self.table_id
    }

    /// Encodes an entry.
    fn encode(entry: Option<&T>) -> (r: DbResult<Vec<u8>>)
        ensures
            r is Ok <==> entry_encodable::<T, C>(model(entry)),
            r matches Ok(data) ==> data@ == entry_bytes::<T, C>(model(entry)),
    {
        let mut data: Vec<u8> = Vec::new();
        match entry {
            None => {
                data.push(0u8);
                assert(data@ =~= entry_bytes::<T, C>(model(entry)));
            },
            Some(value) => {
                data.push(1u8);
                let mut encoded = C::serialize(value)?;
                data.append(&mut encoded);
                assert(data@ =~= entry_bytes::<T, C>(model(entry)));
            },
        }
        Ok(data)
    }

    /// Decodes the entry that a payload starts with.
    fn decode(bytes: &[u8]) -> (r: DbResult<Option<T>>)
        ensures
            match r {
                Ok(entry) => decoded::<T, C>(bytes@) == Some(model(entry)),
                Err(_) => decoded::<T, C>(bytes@) is None,
            },
    {
        if bytes.len() == 0 {
            assert forall|e: Option<T::V>| !starts::<T, C>(bytes@, e) by {
                assert(entry_bytes::<T, C>(e).len() >= 1);
            }
            return Err(DbError::Unexpected("a record without an entry"));
        }
        let tag = bytes[0];
        if tag == 0 {
            let entry: Option<T> = None;
            proof {
                lemma_decoded::<T, C>(bytes@, model(entry));
            }
            Ok(entry)
        } else if tag == 1 {
            let rest = slice_subrange(bytes, 1, bytes.len());
            match C::deserialize(rest) {
                Ok((value, n)) => {
                    let entry = Some(value);
                    proof {
                        assert(entry_bytes::<T, C>(model(entry)) =~= bytes@.subrange(0, 1 + n));
                        lemma_decoded::<T, C>(bytes@, model(entry));
                    }
                    Ok(entry)
                },
                Err(e) => {
                    assert forall|e: Option<T::V>| !starts::<T, C>(bytes@, e) by {
                        if starts::<T, C>(bytes@, e) {
                            assert(entry_bytes::<T, C>(e)[0] == bytes@[0]);
                            let v = e->Some_0;
                            assert(C::encoding(v) =~= entry_bytes::<T, C>(e).skip(1));
                            assert(C::encoding(v).is_prefix_of(rest@));
                        }
                    }
                    Err(e)
                },
            }
        } else {
            assert forall|e: Option<T::V>| !starts::<T, C>(bytes@, e) by {
                if starts::<T, C>(bytes@, e) {
                    assert(entry_bytes::<T, C>(e)[0] == bytes@[0]);
                }
            }
            Err(DbError::Unexpected("a record that does not say whether a value follows"))
        }
    }

    /// Puts a value in the table, in place of the one it holds, and writes
    /// the entry for it. Gives back the value that was replaced.
    ///
    /// Fails, and changes nothing, if and only if the value cannot be
    /// encoded or
    /// the log does not take the entry.
    pub fn insert(&mut self, logger: &mut Logger, value: T) -> (r: DbResult<Option<T>>)
        ensures
            final(self).table_id() == old(self).table_id(),
            old(self).well_formed() ==> final(self).well_formed(),
            match r {
                Ok(replaced) => {
                    &&& C::encodable(value@)
                    &&& model(replaced) == old(self)@
                    &&& final(self)@ == Some(value@)
                    &&& old(logger)@.accepts(entry_bytes::<T, C>(Some(value@)))
                    &&& Self::replayed(old(self)@, entry_bytes::<T, C>(Some(value@))) == Some(final(self)@)
                    &&& final(logger)@ == old(logger)@.write(
                        old(self).table_id(),
                        entry_bytes::<T, C>(Some(value@)),
                    )
                },
                Err(_) => {
                    &&& !(C::encodable(value@) && old(logger)@.accepts(entry_bytes::<T, C>(Some(value@))))
                    &&& final(self)@ == old(self)@
                    &&& final(logger)@ == old(logger)@
                },
            },
    {
        let data = Self::encode(Some(&value))?;
        logger.write(self.table_id, data)?;
        proof {
            lemma_replayed::<T, C>(old(self)@, Some(value@));
        }
        let ret = self.inner.take();
        self.inner = Some(value);
        Ok(ret)
    }

    /// The value that the table holds.
    pub fn data(&self) -> (r: Option<&T>)
        ensures
            model(r) == self@,
    {
        self.inner.as_ref()
    }

    /// Empties the table and writes the entry for it. Gives back the value
    /// that the table held.
    ///
    /// Fails, and changes nothing, if and only if the log does not take the
    /// entry.
    pub fn clear(&mut self, logger: &mut Logger) -> (r: DbResult<Option<T>>)
        ensures
            final(self).table_id() == old(self).table_id(),
            old(self).well_formed() ==> final(self).well_formed(),
            match r {
                Ok(removed) => {
                    &&& old(logger)@.accepts(entry_bytes::<T, C>(None))
                    &&& Self::replayed(old(self)@, entry_bytes::<T, C>(None)) == Some(final(self)@)
                    &&& model(removed) == old(self)@
                    &&& final(self)@ is None
                    &&& final(logger)@ == old(logger)@.write(
                        old(self).table_id(),
                        entry_bytes::<T, C>(None),
                    )
                },
                Err(e) => {
                    &&& !old(logger)@.accepts(entry_bytes::<T, C>(None))
                    &&& e matches DbError::Unexpected(_)
                    &&& final(self)@ == old(self)@
                    &&& final(logger)@ == old(logger)@
                },
            },
    {
        let data = Self::encode(None)?;
        logger.write(self.table_id, data)?;
        proof {
            lemma_replayed::<T, C>(old(self)@, None);
        }
        let ret = self.inner.take();
        Ok(ret)
    }
}

impl<T: View, C: Codec<T>> Model for Single<T, C> {
    type State = Option<T::V>;

    open spec fn empty() -> Option<T::V> {
        None
    }

    /// An entry replaces what the table holds.
    open spec fn replayed(state: Option<T::V>, payload: Seq<u8>) -> Option<Option<T::V>> {
        decoded::<T, C>(payload)
    }
}

impl<T: View, C: Codec<T>> Table for Single<T, C> {
    open spec fn state(&self) -> Option<T::V> {
        self@
    }

    open spec fn id(&self) -> TableId {
        self.table_id()
    }

    open spec fn supported() -> bool {
        true
    }

    open spec fn wf(&self) -> bool {
        self.well_formed()
    }

    /// A table that is well formed can always be written down.
    open spec fn compactable(&self) -> bool {
        true
    }

    fn init(table_id: TableId) -> (table: Self) {
        Self { table_id, inner: None, codec: PhantomData }
    }

    fn handle_event(&mut self, bytes: &[u8]) -> (r: DbResult<()>) {
        let entry = Self::decode(bytes)?;
        proof {
            if decoded::<T, C>(bytes@) is Some {
                let found = choose|e: Option<T::V>| starts::<T, C>(bytes@, e);
                assert(starts::<T, C>(bytes@, found));
            }
        }
        self.inner = entry;
        Ok(())
    }

    /// One entry that holds the value, or nothing where the table is empty.
    fn compact_repr(&self) -> (r: DbResult<Vec<u8>>)
        ensures
            r matches Ok(repr) && repr@ == match self@ {
                Some(v) => frame(self.table_id(), entry_bytes::<T, C>(Some(v))),
                None => Seq::empty(),
            },
    {
        match &self.inner {
            Some(v) => {
                let data = Self::encode(Some(v))?;
                let repr = Logger::log_entry(self.table_id, data);
                proof {
                    let payload = entry_bytes::<T, C>(Some(v@));
                    let payloads = seq![payload];
                    let recs = records(self.id(), payloads);
                    assert(recs =~= seq![Record { table_id: self.table_id, payload }]);
                    crate::framing::lemma_frames_push(Seq::empty(), recs[0]);
                    assert(Seq::<Record>::empty().push(recs[0]) =~= recs);
                    assert(frames(Seq::<Record>::empty()) =~= Seq::<u8>::empty());
                    assert(frames(recs) =~= repr@);
                    lemma_decoded::<T, C>(payload, Some(v@));
                    crate::table::lemma_replay_push::<Self>(Self::empty(), Seq::empty(), payload);
                    assert(Seq::<Seq<u8>>::empty().push(payload) =~= payloads);
                    assert(replay::<Self>(Self::empty(), payloads) == Some(self.state()));
                }
                Ok(repr)
            },
            None => {
                let repr: Vec<u8> = Vec::new();
                proof {
                    let payloads = Seq::<Seq<u8>>::empty();
                    assert(records(self.id(), payloads) =~= Seq::<Record>::empty());
                    assert(replay::<Self>(Self::empty(), payloads) == Some(self.state()));
                }
                Ok(repr)
            },
        }
    }
}


/// What replaying the payload of one entry gives.
pub proof fn lemma_replayed<T: View, C: Codec<T>>(state: Option<T::V>, entry: Option<T::V>)
    requires
        entry_encodable::<T, C>(entry),
    ensures
        <Single<T, C>>::replayed(state, entry_bytes::<T, C>(entry)) == Some(entry),
{
    let payload = entry_bytes::<T, C>(entry);
    assert(payload.is_prefix_of(payload));
    lemma_decoded::<T, C>(payload, entry);
}

/// The payloads of a run of entries.
pub open spec fn payloads<T: View, C: Codec<T>>(
    entries: Seq<Option<T::V>>,
) -> Seq<Seq<u8>> {
    entries.map_values(|e: Option<T::V>| entry_bytes::<T, C>(e))
}

/// Replay fidelity: where a run of entries is written to the log of a
/// table, each as one record, parsing the log gives back exactly those
/// records, and replaying them changes a table as applying the entries
/// does.
pub proof fn lemma_replay_fidelity<T: View, C: Codec<T>>(
    id: TableId,
    state: Option<T::V>,
    entries: Seq<Option<T::V>>,
)
    requires
        id != 0,
        forall|i: int|
            0 <= i < entries.len() ==> entry_encodable::<T, C>(#[trigger] entries[i]) && fits(
                entry_bytes::<T, C>(entries[i]),
            ),
    ensures
        parse(frames(records(id, payloads::<T, C>(entries)))) == (Parsed {
            records: records(id, payloads::<T, C>(entries)),
            incomplete: false,
        }),
        replay::<Single<T, C>>(state, payloads::<T, C>(entries)) == apply_all(
            state,
            entries,
            |s: Option<T::V>, e: Option<T::V>| Some(e),
        ),
{
    let written = payloads::<T, C>(entries);
    assert forall|i: int| 0 <= i < written.len() implies fits(#[trigger] written[i]) by {
        assert(written[i] == entry_bytes::<T, C>(entries[i]));
    }
    lemma_records_framable(id, written);
    lemma_framing_round_trip(records(id, written));
    assert forall|s: Option<T::V>, i: int| 0 <= i < entries.len() implies #[trigger] <Single<T, C>>::replayed(
        s,
        entry_bytes::<T, C>(entries[i]),
    ) == (|s: Option<T::V>, e: Option<T::V>| Some(e))(s, entries[i]) by {
        let payload = entry_bytes::<T, C>(entries[i]);
        assert(payload.is_prefix_of(payload));
        lemma_decoded::<T, C>(payload, entries[i]);
    }
    lemma_replay_entries::<Single<T, C>, Option<T::V>>(
        state,
        entries,
        |e: Option<T::V>| entry_bytes::<T, C>(e),
        |s: Option<T::V>, e: Option<T::V>| Some(e),
    );
}

} // verus!
