//! Schemas as lists of tables.
//!
//! A schema is written as a nested pair: `(A, (B, (C, ())))` is the schema
//! of the tables `A`, `B` and `C`. The tables get the ids `1`, `2`, `3`, in
//! the order in which they are written, and a record goes to the table
//! whose id it carries. [`Database`] puts such a list together with a
//! logger.

use crate::config::Config;
use crate::db::named;
use crate::db::no_envelopes;
use crate::framing::parse;
use crate::db::replay_records;
use crate::db::Db;
use crate::db::Schema;
use crate::errors::DbError;
use crate::errors::DbResult;
use crate::framing::frames;
use crate::framing::lemma_frames_append;
use crate::framing::Record;
use crate::logger::LogState;
use crate::logger::Logger;
use crate::table::records;
use crate::table::replay;
use crate::table::Table;
use crate::TableId;
use core::marker::PhantomData;
use vstd::prelude::*;

verus! {

/// Names a schema. The name of a schema names its log file.
pub trait SchemaName {
    /// The name of the schema.
    spec fn name() -> &'static str;

    /// The name of the schema, for use at run time.
    fn schema_name() -> (name: &'static str)
        ensures
            name@ == Self::name()@,
    ;
}

/// The mathematical model of a list of tables.
pub trait ListModel {
    /// What the tables hold, as a mathematical value.
    type State;

    /// Whether the types of the tables meet what the tables ask of them.
    spec fn supported() -> bool;

    /// The number of tables.
    spec fn len() -> nat;

    /// What tables hold that were just initialised.
    spec fn empty() -> Self::State;

    /// What the tables hold after one record is handed to the table that it
    /// names, where the first table of the list has the id `first`.
    spec fn routed(first: int, state: Self::State, record: Record) -> Option<Self::State>;
}

/// What the tables of a list hold after a run of records is handed to them
/// in order, or `None` where one of the records cannot be applied.
pub open spec fn replay_list<L: ListModel>(first: int, state: L::State, run: Seq<Record>) -> Option<
    L::State,
>
    decreases run.len(),
{
    if run.len() == 0 {
        Some(state)
    } else {
        match L::routed(first, state, run[0]) {
            None => None,
            Some(next) => replay_list::<L>(first, next, run.skip(1)),
        }
    }
}

/// Whether every record of a run has an id from `first` on.
pub open spec fn ids_from(run: Seq<Record>, first: int) -> bool {
    forall|i: int| 0 <= i < run.len() ==> (#[trigger] run[i]).table_id >= first
}

/// A list of tables.
pub trait TableList: ListModel + Sized {
    /// What the tables hold.
    spec fn state(&self) -> Self::State;

    /// What every operation keeps: every table is well formed, and the
    /// tables have the ids `first`, `first + 1` and so on, in order.
    spec fn wf(&self, first: int) -> bool;

    /// Whether every table can be written down as records.
    spec fn compactable(&self) -> bool;

    /// The number of tables, as far as it matters: lists of 255 tables and
    /// more all count as 255, which is more than there are ids.
    fn count() -> (n: u8)
        ensures
            n == if Self::len() < 255 {
                Self::len()
            } else {
                255
            },
    ;

    /// Empty tables with the ids `first`, `first + 1` and so on, in order.
    fn init_from(first: TableId) -> (tables: Self)
        requires
            Self::supported(),
            1 <= first,
            first + Self::len() <= 255,
        ensures
            tables.wf(first as int),
            tables.state() == Self::empty(),
    ;

    /// Hands the payload of one record to the table with the given id.
    /// Fails, and changes nothing, if and only if there is no such table or
    /// the table cannot apply the payload.
    fn handle_event(&mut self, first: TableId, table_id: TableId, data: &[u8]) -> (r: DbResult<()>)
        requires
            old(self).wf(first as int),
        ensures
            final(self).wf(first as int),
            match r {
                Ok(()) => Self::routed(
                    first as int,
                    old(self).state(),
                    Record { table_id, payload: data@ },
                ) == Some(final(self).state()),
                Err(_) => Self::routed(
                    first as int,
                    old(self).state(),
                    Record { table_id, payload: data@ },
                ) is None && final(self).state() == old(self).state(),
            },
    ;

    /// The compact representation of every table, one after the other.
    /// Fails if and only if one of the tables cannot be written down.
    fn compact_repr(&self, first: TableId) -> (r: DbResult<Vec<u8>>)
        requires
            self.wf(first as int),
        ensures
            r is Ok <==> self.compactable(),
            r matches Ok(repr) ==> exists|run: Seq<Record>|
                #![trigger frames(run)]
                {
                    &&& repr@ == frames(run)
                    &&& ids_from(run, first as int)
                    &&& replay_list::<Self>(first as int, Self::empty(), run) == Some(
                        self.state(),
                    )
                },
    ;
}

impl ListModel for () {
    type State = ();

    open spec fn supported() -> bool {
        true
    }

    open spec fn len() -> nat {
        0
    }

    open spec fn empty() -> () {
        ()
    }

    /// No table has the id of the record.
    open spec fn routed(first: int, state: (), record: Record) -> Option<()> {
        None
    }
}

impl TableList for () {
    open spec fn state(&self) -> () {
        ()
    }

    open spec fn wf(&self, first: int) -> bool {
        true
    }

    open spec fn compactable(&self) -> bool {
        true
    }

    fn count() -> (n: u8) {
        0
    }

    fn init_from(first: TableId) -> (tables: Self) {
        ()
    }

    fn handle_event(&mut self, first: TableId, table_id: TableId, data: &[u8]) -> (r: DbResult<()>) {
        Err(DbError::Unexpected("a record of a table that the schema does not have"))
    }

    fn compact_repr(&self, first: TableId) -> (r: DbResult<Vec<u8>>)
        ensures
            r matches Ok(repr) && repr@.len() == 0,
    {
        let repr: Vec<u8> = Vec::new();
        proof {
            let run = Seq::<Record>::empty();
            assert(repr@ =~= frames(run));
            assert(replay_list::<Self>(first as int, Self::empty(), run) == Some(self.state()));
        }
        Ok(repr)
    }
}

impl<H: Table, R: ListModel> ListModel for (H, R) {
    type State = (H::State, R::State);

    open spec fn supported() -> bool {
        H::supported() && R::supported()
    }

    open spec fn len() -> nat {
        1 + R::len()
    }

    open spec fn empty() -> (H::State, R::State) {
        (H::empty(), R::empty())
    }

    /// A record with the id `first` goes to the first table, every other
    /// record to the rest of the list.
    open spec fn routed(first: int, state: (H::State, R::State), record: Record) -> Option<
        (H::State, R::State),
    > {
        if record.table_id == first {
            match H::replayed(state.0, record.payload) {
                Some(head) => Some((head, state.1)),
                None => None,
            }
        } else {
            match R::routed(first + 1, state.1, record) {
                Some(rest) => Some((state.0, rest)),
                None => None,
            }
        }
    }
}

/// Replaying one run of records after another is replaying the first and
/// then, on what that gave, the second.
pub proof fn lemma_replay_list_append<L: ListModel>(
    first: int,
    state: L::State,
    front: Seq<Record>,
    back: Seq<Record>,
)
    ensures
        replay_list::<L>(first, state, front + back) == match replay_list::<L>(
            first,
            state,
            front,
        ) {
            None => None,
            Some(middle) => replay_list::<L>(first, middle, back),
        },
    decreases front.len(),
{
    if front.len() == 0 {
        assert(front + back =~= back);
    } else {
        assert((front + back)[0] == front[0]);
        assert((front + back).skip(1) =~= front.skip(1) + back);
        match L::routed(first, state, front[0]) {
            None => {},
            Some(next) => {
                lemma_replay_list_append::<L>(first, next, front.skip(1), back);
            },
        }
    }
}

/// Records of the first table change the first table alone.
pub proof fn lemma_replay_head<H: Table, R: ListModel>(
    first: int,
    state: (H::State, R::State),
    payloads: Seq<Seq<u8>>,
)
    requires
        0 <= first <= 255,
    ensures
        replay_list::<(H, R)>(first, state, records(first as u8, payloads)) == match replay::<H>(
            state.0,
            payloads,
        ) {
            Some(head) => Some((head, state.1)),
            None => None,
        },
    decreases payloads.len(),
{
    let run = records(first as u8, payloads);
    if payloads.len() > 0 {
        assert(run[0] == Record { table_id: first as u8, payload: payloads[0] });
        assert(run.skip(1) =~= records(first as u8, payloads.skip(1)));
        match H::replayed(state.0, payloads[0]) {
            None => {},
            Some(head) => {
                lemma_replay_head::<H, R>(first, (head, state.1), payloads.skip(1));
            },
        }
    }
}

/// Records of the later tables change the later tables alone.
pub proof fn lemma_replay_rest<H: Table, R: ListModel>(
    first: int,
    state: (H::State, R::State),
    run: Seq<Record>,
)
    requires
        ids_from(run, first + 1),
    ensures
        replay_list::<(H, R)>(first, state, run) == match replay_list::<R>(
            first + 1,
            state.1,
            run,
        ) {
            Some(rest) => Some((state.0, rest)),
            None => None,
        },
    decreases run.len(),
{
    if run.len() > 0 {
        assert(run[0].table_id >= first + 1);
        assert(ids_from(run.skip(1), first + 1)) by {
            assert forall|i: int| 0 <= i < run.skip(1).len() implies (#[trigger] run.skip(
                1,
            )[i]).table_id >= first + 1 by {
                assert(run.skip(1)[i] == run[i + 1]);
            }
        }
        match R::routed(first + 1, state.1, run[0]) {
            None => {},
            Some(rest) => {
                lemma_replay_rest::<H, R>(first, (state.0, rest), run.skip(1));
            },
        }
    }
}

impl<H: Table, R: TableList> TableList for (H, R) {
    open spec fn state(&self) -> (H::State, R::State) {
        (self.0.state(), self.1.state())
    }

    open spec fn wf(&self, first: int) -> bool {
        &&& self.0.wf()
        &&& self.0.id() == first
        &&& 1 <= first <= 254
        &&& self.1.wf(first + 1)
    }

    open spec fn compactable(&self) -> bool {
        self.0.compactable() && self.1.compactable()
    }

    fn count() -> (n: u8) {
        let rest = R::count();
        if rest < 255 {
            rest + 1
        } else {
            255
        }
    }

    fn init_from(first: TableId) -> (tables: Self) {
        (H::init(first), R::init_from(first + 1))
    }

    fn handle_event(&mut self, first: TableId, table_id: TableId, data: &[u8]) -> (r: DbResult<()>) {
        if table_id == first {
            self.0.handle_event(data)
        } else {
            self.1.handle_event(first + 1, table_id, data)
        }
    }

    fn compact_repr(&self, first: TableId) -> (r: DbResult<Vec<u8>>) {
        let mut repr = self.0.compact_repr()?;
        let mut rest = self.1.compact_repr(first + 1)?;
        proof {
            let payloads = choose|payloads: Seq<Seq<u8>>|
                #![trigger records(self.0.id(), payloads)]
                {
                    &&& repr@ == frames(records(self.0.id(), payloads))
                    &&& replay::<H>(H::empty(), payloads) == Some(self.0.state())
                };
            let later = choose|run: Seq<Record>|
                #![trigger frames(run)]
                {
                    &&& rest@ == frames(run)
                    &&& ids_from(run, first + 1)
                    &&& replay_list::<R>(first + 1, R::empty(), run) == Some(self.1.state())
                };
            let head = records(first, payloads);
            let run = head + later;
            lemma_frames_append(head, later);
            assert(ids_from(run, first as int));
            lemma_replay_list_append::<Self>(first as int, Self::empty(), head, later);
            lemma_replay_head::<H, R>(first as int, Self::empty(), payloads);
            lemma_replay_rest::<H, R>(first as int, (self.0.state(), R::empty()), later);
            assert(repr@ + rest@ == frames(run));
            assert(replay_list::<Self>(first as int, Self::empty(), run) == Some(self.state()));
        }
        repr.append(&mut rest);
        Ok(repr)
    }
}

/// A database of the tables `L`, in the order in which the list names them,
/// with the name that `N` gives.
pub struct Database<N: SchemaName, L: TableList> {
    /// The logger that the tables write to.
    pub logger: Logger,
    /// The tables.
    pub tables: L,
    /// The type that names the schema.
    pub name: PhantomData<N>,
}

/// Replaying records onto a database is replaying them onto its tables,
/// the first of which has the id 1.
pub proof fn lemma_replay_database<N: SchemaName, L: TableList>(state: L::State, run: Seq<Record>)
    ensures
        replay_records::<Database<N, L>>(state, run) == replay_list::<L>(1, state, run),
    decreases run.len(),
{
    if run.len() > 0 {
        match L::routed(1, state, run[0]) {
            None => {},
            Some(next) => {
                lemma_replay_database::<N, L>(next, run.skip(1));
            },
        }
    }
}

impl<N: SchemaName, L: TableList> Database<N, L> {
    /// Opens a database as [`Db::init`] does, after making sure that there
    /// are ids for all its tables.
    ///
    /// Fails if and only if the schema has more than 254 tables, the log
    /// cannot be opened, or one of its records cannot be applied.
    pub fn open(config: Config, head: &[u8], log_data: &[u8]) -> (r: DbResult<Self>)
        requires
            L::supported(),
        ensures
            match r {
                Ok(db) => {
                    &&& L::len() <= 254
                    &&& db.wf()
                    &&& db.log().wf()
                    &&& named(config, Self::name(), db.log().config)
                    &&& LogState::init(db.log().config, head@) == Some(
                        LogState { incomplete_write: false, ..db.log() },
                    )
                    &&& db.log().incomplete_write == parse(log_data@).incomplete
                    &&& replay_records::<Self>(Self::empty(), parse(log_data@).records) == Some(
                        db.state(),
                    )
                },
                Err(_) => {
                    ||| L::len() > 254
                    ||| LogState::init(config, head@) is None
                    ||| replay_records::<Self>(Self::empty(), parse(log_data@).records) is None
                },
            },
            L::len() > 254 ==> r matches Err(DbError::Unexpected(_)),
    {
        if L::count() > 254 {
            return Err(DbError::Unexpected("a schema with more tables than there are ids"));
        }
        Self::init(config, head, log_data)
    }
}

impl<N: SchemaName, L: TableList> Schema for Database<N, L> {
    type State = L::State;

    /// The name that `N` gives.
    open spec fn name() -> Seq<char> {
        N::name()@
    }

    open spec fn supported() -> bool {
        L::supported() && L::len() <= 254
    }

    open spec fn empty() -> L::State {
        L::empty()
    }

    open spec fn routed(state: L::State, record: Record) -> Option<L::State> {
        L::routed(1, state, record)
    }
}

impl<N: SchemaName, L: TableList> Db for Database<N, L> {
    open spec fn state(&self) -> L::State {
        self.tables.state()
    }

    open spec fn log(&self) -> LogState {
        self.logger@
    }

    open spec fn wf(&self) -> bool {
        self.tables.wf(1)
    }

    open spec fn compactable(&self) -> bool {
        self.tables.compactable()
    }

    fn schema_name() -> (name: &'static str) {
        N::schema_name()
    }

    fn init_tables(logger: Logger) -> (db: Self) {
        Database { logger, tables: L::init_from(1), name: PhantomData }
    }

    fn handle_event(&mut self, table_id: TableId, data: &[u8]) -> (r: DbResult<()>) {
        self.tables.handle_event(1, table_id, data)
    }

    fn compact_repr(&self) -> (r: DbResult<Vec<u8>>) {
        let repr = self.tables.compact_repr(1)?;
        proof {
            let run = choose|run: Seq<Record>|
                #![trigger frames(run)]
                {
                    &&& repr@ == frames(run)
                    &&& ids_from(run, 1)
                    &&& replay_list::<L>(1, L::empty(), run) == Some(self.tables.state())
                };
            lemma_replay_database::<N, L>(L::empty(), run);
            assert(no_envelopes(run));
            assert(repr@ == frames(run));
        }
        Ok(repr)
    }

    fn get_logger(&self) -> (logger: &Logger) {
        &self.logger
    }

    fn get_logger_mut(&mut self) -> (logger: &mut Logger) {
        &mut self.logger
    }
}

} // verus!
