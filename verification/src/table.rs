//! What the database asks of every table.

use crate::errors::DbResult;
use crate::framing::Record;
use crate::TableId;
use vstd::prelude::*;

verus! {

/// The mathematical model of a table: what it holds, and how the payload of
/// one record changes that.
pub trait Model {
    /// What the table holds, as a mathematical value.
    type State;

    /// What a table holds that was just initialised.
    spec fn empty() -> Self::State;

    /// What the table holds after the payload of one record is applied to
    /// it, or `None` where the payload is not an entry of this table or the
    /// entry cannot be applied.
    spec fn replayed(state: Self::State, payload: Seq<u8>) -> Option<Self::State>;
}

/// A table: a structure in memory that is rebuilt from the payloads of its
/// records, and that can write itself down as such payloads.
pub trait Table: Model + Sized {
    /// What the table holds.
    spec fn state(&self) -> Self::State;

    /// The id under which the table's records stand in the log.
    spec fn id(&self) -> TableId;

    /// Whether the types of the table meet what it asks of them.
    spec fn supported() -> bool;

    /// What every operation of the table keeps.
    spec fn wf(&self) -> bool;

    /// Whether the table can be written down as records.
    spec fn compactable(&self) -> bool;

    /// An empty table with the given id. Ids of user tables are `1..=254`.
    fn init(table_id: TableId) -> (table: Self)
        requires
            1 <= table_id <= 254,
            Self::supported(),
        ensures
            table.state() == Self::empty(),
            table.id() == table_id,
            table.wf(),
    ;

    /// Applies the payload of one record. Fails, and changes nothing, if
    /// and only if the payload cannot be applied.
    fn handle_event(&mut self, bytes: &[u8]) -> (r: DbResult<()>)
        requires
            old(self).wf(),
        ensures
            final(self).id() == old(self).id(),
            final(self).wf(),
            match r {
                Ok(()) => Self::replayed(old(self).state(), bytes@) == Some(final(self).state()),
                Err(_) => Self::replayed(old(self).state(), bytes@) is None && final(self).state()
                    == old(self).state(),
            },
    ;

    /// The compact representation: framed records of this table that,
    /// replayed onto an empty table, rebuild what the table holds. Fails if
    /// and only if the table cannot be written down.
    fn compact_repr(&self) -> (r: DbResult<Vec<u8>>)
        requires
            self.wf(),
        ensures
            r is Ok <==> self.compactable(),
            r matches Ok(repr) ==> exists|payloads: Seq<Seq<u8>>|
                #![trigger records(self.id(), payloads)]
                {
                    &&& repr@ == crate::framing::frames(records(self.id(), payloads))
                    &&& replay::<Self>(Self::empty(), payloads) == Some(self.state())
                },
    ;
}

/// The records of one table with the given payloads.
pub open spec fn records(id: TableId, payloads: Seq<Seq<u8>>) -> Seq<Record> {
    payloads.map_values(|payload: Seq<u8>| Record { table_id: id, payload })
}

/// What a table holds after the payloads of a run of records are applied to
/// it in order, or `None` where one of them cannot be applied.
pub open spec fn replay<Tb: Model>(state: Tb::State, payloads: Seq<Seq<u8>>) -> Option<Tb::State>
    decreases payloads.len(),
{
    if payloads.len() == 0 {
        Some(state)
    } else {
        match Tb::replayed(state, payloads[0]) {
            None => None,
            Some(next) => replay::<Tb>(next, payloads.skip(1)),
        }
    }
}

/// Replaying one more payload applies it to what the earlier ones gave.
pub proof fn lemma_replay_push<Tb: Model>(
    state: Tb::State,
    payloads: Seq<Seq<u8>>,
    payload: Seq<u8>,
)
    ensures
        replay::<Tb>(state, payloads.push(payload)) == match replay::<Tb>(state, payloads) {
            None => None,
            Some(last) => Tb::replayed(last, payload),
        },
    decreases payloads.len(),
{
    if payloads.len() == 0 {
        let one = payloads.push(payload);
        assert(one[0] == payload);
        assert(one.skip(1) =~= Seq::<Seq<u8>>::empty());
        match Tb::replayed(state, payload) {
            None => {},
            Some(next) => {
                assert(replay::<Tb>(next, one.skip(1)) == Some(next));
            },
        }
    } else {
        let more = payloads.push(payload);
        assert(more[0] == payloads[0]);
        assert(more.skip(1) =~= payloads.skip(1).push(payload));
        match Tb::replayed(state, payloads[0]) {
            None => {},
            Some(next) => {
                lemma_replay_push::<Tb>(next, payloads.skip(1), payload);
            },
        }
    }
}

/// Replaying one run of payloads after another is replaying the first and
/// then, on what that gave, the second.
pub proof fn lemma_replay_append<Tb: Model>(
    state: Tb::State,
    first: Seq<Seq<u8>>,
    second: Seq<Seq<u8>>,
)
    ensures
        replay::<Tb>(state, first + second) == match replay::<Tb>(state, first) {
            None => None,
            Some(middle) => replay::<Tb>(middle, second),
        },
    decreases second.len(),
{
    if second.len() == 0 {
        assert(first + second =~= first);
    } else {
        let front = second.drop_last();
        let last = second.last();
        lemma_replay_append::<Tb>(state, first, front);
        assert(first + second =~= (first + front).push(last));
        assert(second =~= front.push(last));
        lemma_replay_push::<Tb>(state, first + front, last);
        match replay::<Tb>(state, first) {
            None => {},
            Some(middle) => {
                lemma_replay_push::<Tb>(middle, front, last);
            },
        }
    }
}

/// The records of a run of payloads and one more.
pub proof fn lemma_records_push(id: TableId, payloads: Seq<Seq<u8>>, payload: Seq<u8>)
    ensures
        records(id, payloads.push(payload)) == records(id, payloads).push(
            Record { table_id: id, payload },
        ),
{
    assert(records(id, payloads.push(payload)) =~= records(id, payloads).push(
        Record { table_id: id, payload },
    ));
}

/// What a state becomes when a run of entries is applied to it in order,
/// each by `step`, or `None` where one of them cannot be applied.
pub open spec fn apply_all<S, E>(state: S, entries: Seq<E>, step: spec_fn(S, E) -> Option<S>) -> Option<
    S,
>
    decreases entries.len(),
{
    if entries.len() == 0 {
        Some(state)
    } else {
        match step(state, entries[0]) {
            None => None,
            Some(next) => apply_all(next, entries.skip(1), step),
        }
    }
}

/// Where replaying the bytes of each entry of a run does what `step` does
/// with the entry, replaying the bytes of the run does what applying the
/// run does.
pub proof fn lemma_replay_entries<Tb: Model, E>(
    state: Tb::State,
    entries: Seq<E>,
    bytes: spec_fn(E) -> Seq<u8>,
    step: spec_fn(Tb::State, E) -> Option<Tb::State>,
)
    requires
        forall|s: Tb::State, i: int|
            0 <= i < entries.len() ==> #[trigger] Tb::replayed(s, bytes(entries[i])) == step(
                s,
                entries[i],
            ),
    ensures
        replay::<Tb>(state, entries.map_values(bytes)) == apply_all(state, entries, step),
    decreases entries.len(),
{
    if entries.len() > 0 {
        let payloads = entries.map_values(bytes);
        let rest = entries.skip(1);
        assert(payloads[0] == bytes(entries[0]));
        assert(payloads.skip(1) =~= rest.map_values(bytes));
        assert(Tb::replayed(state, bytes(entries[0])) == step(state, entries[0]));
        match step(state, entries[0]) {
            None => {},
            Some(next) => {
                assert forall|s: Tb::State, i: int| 0 <= i < rest.len() implies #[trigger] Tb::replayed(
                    s,
                    bytes(rest[i]),
                ) == step(s, rest[i]) by {
                    assert(rest[i] == entries[i + 1]);
                    assert(Tb::replayed(s, bytes(entries[i + 1])) == step(s, entries[i + 1]));
                }
                lemma_replay_entries::<Tb, E>(next, rest, bytes, step);
            },
        }
    }
}

/// The records of a table that is not the envelope's, with payloads that
/// fit, can be framed and found again.
pub proof fn lemma_records_framable(id: TableId, payloads: Seq<Seq<u8>>)
    requires
        id != 0,
        forall|i: int| 0 <= i < payloads.len() ==> crate::framing::fits(#[trigger] payloads[i]),
    ensures
        crate::framing::framable(records(id, payloads)),
{
    let run = records(id, payloads);
    assert forall|i: int| 0 <= i < run.len() implies (#[trigger] run[i]).table_id != 0
        && crate::framing::fits(run[i].payload) by {
        assert(run[i].payload == payloads[i]);
    }
}

} // verus!
