//! The database: a logger and the tables of a schema, opened by replaying a
//! log and compacted by writing the tables down.

use crate::TableId;
use crate::config::Config;
use crate::errors::DbError;
use crate::errors::DbResult;
use crate::framing::HEADER_LEN;
use crate::framing::Parsed;
use crate::framing::Record;
use crate::framing::fits;
use crate::framing::framable;
use crate::framing::frames;
use crate::framing::parse;
use crate::logger::LogMetadata;
use crate::logger::LogState;
use crate::logger::Logger;
use crate::logger::TxHandle;
use crate::logger::records_of;
use vstd::prelude::*;

verus! {

/// The mathematical model of a schema: what its tables hold together, and
/// how one record changes that.
pub trait Schema {
    /// What the tables hold, as a mathematical value.
    type State;

    /// The name of the schema, which names the log file.
    spec fn name() -> Seq<char>;

    /// Whether the tables can be set up: their types meet what they ask of
    /// them, and there are ids for all of them.
    spec fn supported() -> bool;

    /// What tables hold that were just initialised.
    spec fn empty() -> Self::State;

    /// What the tables hold after one record is handed to the table that it
    /// names, or `None` where no table has that id or the table cannot
    /// apply the record.
    spec fn routed(state: Self::State, record: Record) -> Option<Self::State>;
}

/// What the tables hold after a run of records is handed to them in order,
/// or `None` where one of the records cannot be applied.
pub open spec fn replay_records<S: Schema>(state: S::State, run: Seq<Record>) -> Option<S::State>
    decreases run.len(),
{
    if run.len() == 0 {
        Some(state)
    } else {
        match S::routed(state, run[0]) {
            None => None,
            Some(next) => replay_records::<S>(next, run.skip(1)),
        }
    }
}

/// Replaying one more record applies it to what the earlier ones gave.
pub proof fn lemma_replay_records_push<S: Schema>(state: S::State, run: Seq<Record>, record: Record)
    ensures
        replay_records::<S>(state, run.push(record)) == match replay_records::<S>(state, run) {
            None => None,
            Some(last) => S::routed(last, record),
        },
    decreases run.len(),
{
    let more = run.push(record);
    if run.len() == 0 {
        assert(more[0] == record);
        assert(more.skip(1) =~= Seq::<Record>::empty());
        match S::routed(state, record) {
            None => {},
            Some(next) => {
                assert(replay_records::<S>(next, more.skip(1)) == Some(next));
            },
        }
    } else {
        assert(more[0] == run[0]);
        assert(more.skip(1) =~= run.skip(1).push(record));
        match S::routed(state, run[0]) {
            None => {},
            Some(next) => {
                lemma_replay_records_push::<S>(next, run.skip(1), record);
            },
        }
    }
}

/// Whether a configuration is another one with the given schema name
/// filled in.
pub open spec fn named(given: Config, name: Seq<char>, filled: Config) -> bool {
    &&& filled.schema_name matches Some(filled_in) && filled_in@ == name
    &&& filled.path == given.path
    &&& filled.create_path == given.create_path
    &&& filled.create_db == given.create_db
    &&& filled.read_only == given.read_only
    &&& filled.no_io == given.no_io
    &&& filled.fs_locks == given.fs_locks
    &&& filled.fs_locks_block == given.fs_locks_block
}

/// Whether none of the records uses the id that is reserved for envelopes.
pub open spec fn no_envelopes(run: Seq<Record>) -> bool {
    forall|i: int| 0 <= i < run.len() ==> (#[trigger] run[i]).table_id != 0
}

/// A database: the tables of a schema and the logger that they write to.
///
/// A schema provides the first six functions: it names itself, sets up its
/// tables, routes a record to the table that it names, writes all tables
/// down, and gives access to the logger. The rest is the same for every
/// schema and is provided here.
pub trait Db: Schema + Sized {
    /// What the tables hold.
    spec fn state(&self) -> Self::State;

    /// The state of the logger.
    spec fn log(&self) -> LogState;

    /// What every operation of the database keeps.
    spec fn wf(&self) -> bool;

    /// Whether every table can be written down as records.
    spec fn compactable(&self) -> bool;

    /// The name of the schema, which names the log file.
    fn schema_name() -> (name: &'static str)
        ensures
            name@ == Self::name(),
    ;

    /// Sets up the tables, empty, around a logger.
    fn init_tables(logger: Logger) -> (db: Self)
        requires
            Self::supported(),
        ensures
            db.wf(),
            db.state() == Self::empty(),
            db.log() == logger@,
    ;

    /// Hands the payload of one record to the table with the given id.
    /// Fails, and changes nothing, if and only if there is no such table or
    /// the table cannot apply the payload.
    fn handle_event(&mut self, table_id: TableId, data: &[u8]) -> (r: DbResult<()>)
        requires
            old(self).wf(),
        ensures
            final(self).wf(),
            final(self).log() == old(self).log(),
            match r {
                Ok(()) => Self::routed(old(self).state(), Record { table_id, payload: data@ })
                    == Some(final(self).state()),
                Err(_) => Self::routed(old(self).state(), Record { table_id, payload: data@ })
                    is None && final(self).state() == old(self).state(),
            },
    ;

    /// The compact representation of every table, one after the other:
    /// framed records that, replayed onto empty tables, rebuild what the
    /// tables hold. Fails if and only if one of the tables cannot be
    /// written down.
    fn compact_repr(&self) -> (r: DbResult<Vec<u8>>)
        requires
            self.wf(),
        ensures
            r is Ok <==> self.compactable(),
            r matches Ok(repr) ==> exists|run: Seq<Record>|
                #![trigger frames(run)]
                {
                    &&& repr@ == frames(run)
                    &&& no_envelopes(run)
                    &&& replay_records::<Self>(Self::empty(), run) == Some(self.state())
                },
    ;

    /// The logger that the tables write to.
    fn get_logger(&self) -> (logger: &Logger)
        ensures
            logger@ == self.log(),
    ;

    /// The logger that the tables write to, for writing.
    fn get_logger_mut(&mut self) -> (logger: &mut Logger)
        ensures
            logger@ == old(self).log(),
            final(self).log() == final(logger)@,
            final(self).state() == old(self).state(),
            final(self).wf() == old(self).wf(),
    ;

    /// Opens a database. `head` is what a read of at most two bytes from
    /// the start of the log file returned, and `log_data` is the rest of
    /// the file. The schema's name is filled into the configuration, the
    /// log is opened, and every record of the log is handed to its table,
    /// in order.
    ///
    /// Fails if and only if the log cannot be opened or one of its records
    /// cannot be applied.
    fn init(config: Config, head: &[u8], log_data: &[u8]) -> (r: DbResult<Self>)
        requires
            Self::supported(),
        ensures
            match r {
                Ok(db) => {
                    &&& db.wf()
                    &&& db.log().wf()
                    &&& named(config, Self::name(), db.log().config)
                    &&& LogState::init(db.log().config, head@) == Some(
                        LogState { incomplete_write: false, ..db.log() },
                    )
                    &&& db.log().incomplete_write == parse(log_data@).incomplete
                    &&& replay_records::<Self>(Self::empty(), parse(log_data@).records) == Some(
                        db.state(),
                    )
                },
                Err(_) => LogState::init(config, head@) is None || replay_records::<Self>(
                    Self::empty(),
                    parse(log_data@).records,
                ) is None,
            },
    {
        let mut config = config;
        let ghost given = config;
        config.schema_name = Some(Self::schema_name().to_owned());
        assert(named(given, Self::name(), config));
        let ghost filled = config;
        let logger = Logger::init(config, head)?;
        let mut db = Self::init_tables(logger);
        let entries = db.get_logger_mut().get_entries(log_data);
        let ghost run = parse(log_data@).records;
        assert(records_of(entries@) == run);
        let mut i: usize = 0;
        assert(run.take(0) =~= Seq::<Record>::empty());
        while i < entries.len()
            invariant
                i <= entries.len(),
                records_of(entries@) == run,
                run == parse(log_data@).records,
                db.wf(),
                db.log() == (LogState {
                    incomplete_write: parse(log_data@).incomplete,
                    ..LogState::init(filled, head@)->Some_0
                }),
                replay_records::<Self>(Self::empty(), run.take(i as int)) == Some(db.state()),
            decreases entries.len() - i,
        {
            let entry = &entries[i];
            proof {
                assert(run[i as int] == entry@);
                lemma_replay_records_push::<Self>(Self::empty(), run.take(i as int), run[i as int]);
                assert(run.take(i as int).push(run[i as int]) =~= run.take(i + 1));
            }
            match db.handle_event(entry.table_id, entry.bytes) {
                Ok(()) => {},
                Err(e) => {
                    proof {
                        lemma_replay_records_prefix::<Self>(Self::empty(), run, i + 1);
                    }
                    return Err(e);
                },
            }
            i += 1;
        }
        assert(run.take(i as int) =~= run);
        Ok(db)
    }

    /// Compacts the log: every table is written down, and the logger wraps
    /// the result into the file that is to replace the log. The database
    /// stays as it is; [`Db::finish_compaction`] is to be told when the
    /// file has replaced the log.
    ///
    /// The file holds the stamp with one more compaction counted and one
    /// envelope around a run of records that fit. Parsing what follows the
    /// stamp finds exactly those records, and replaying them onto empty
    /// tables rebuilds what the tables hold.
    ///
    /// Fails if a table cannot be written down, the log lives in memory,
    /// its count of compactions cannot grow, or the tables as they were
    /// written down do not fit into one envelope; and only then.
    fn compact_log(&self) -> (r: DbResult<Vec<u8>>)
        requires
            self.wf(),
        ensures
            match r {
                Ok(image) => {
                    &&& self.compactable()
                    &&& self.log().can_compact()
                    &&& exists|run: Seq<Record>|
                        #![trigger frames(run)]
                        {
                            &&& image@ == LogState::compacted_image(
                                self.log().stamp->Some_0,
                                frames(run),
                            )
                            &&& framable(run)
                            &&& fits(frames(run))
                            &&& parse(image@.skip(2)) == (Parsed { records: run, incomplete: false })
                            &&& replay_records::<Self>(Self::empty(), run) == Some(self.state())
                        }
                },
                Err(_) => {
                    ||| !self.compactable()
                    ||| !self.log().can_compact()
                    ||| exists|run: Seq<Record>|
                        #![trigger frames(run)]
                        {
                            &&& no_envelopes(run)
                            &&& replay_records::<Self>(Self::empty(), run) == Some(self.state())
                            &&& !fits(frames(run))
                        }
                },
            },
    {
        let data = self.compact_repr()?;
        let ghost run = choose|run: Seq<Record>|
            #![trigger frames(run)]
            {
                &&& data@ == frames(run)
                &&& no_envelopes(run)
                &&& replay_records::<Self>(Self::empty(), run) == Some(self.state())
            };
        let r = self.get_logger().compact_log(data);
        proof {
            if r is Ok {
                let image = r->Ok_0;
                crate::framing::lemma_frames_len(run);
                assert(framable(run));
                crate::framing::lemma_parse_envelope(run, Seq::empty());
                assert(image@.skip(2) =~= crate::framing::frame(0, frames(run)) + Seq::<u8>::empty());
                assert(run + Seq::<Record>::empty() =~= run);
                assert(parse(image@.skip(2)).records =~= run);
            } else {
                assert(!self.log().can_compact() || !fits(frames(run)));
            }
        }
        r
    }

    /// Takes note that the file of a compaction has replaced the log: one
    /// more compaction is counted, and what was still owed to the old file
    /// is owed to nobody. The tables stay as they are.
    fn finish_compaction(&mut self)
        ensures
            final(self).state() == old(self).state(),
            final(self).wf() == old(self).wf(),
            final(self).log() == old(self).log().finish_compaction(),
    {
        self.get_logger_mut().finish_compaction()
    }

    /// The configuration that the database was opened with.
    fn config(&self) -> (config: &Config)
        ensures
            *config == self.log().config,
    {
        self.get_logger().config()
    }

    /// Whether the log ended in a record that was cut short.
    fn incomplete_write(&self) -> (incomplete: bool)
        ensures
            incomplete == self.log().incomplete_write,
    {
        self.get_logger().incomplete_write()
    }

    /// Opens a transaction on the logger. Until the outermost transaction
    /// ends, the records that the tables write are buffered.
    ///
    /// Fails if and only if the count of open transactions cannot grow.
    fn begin_transaction(&mut self) -> (r: DbResult<TxHandle>)
        ensures
            final(self).state() == old(self).state(),
            final(self).wf() == old(self).wf(),
            match r {
                Ok(_) => old(self).log().current_txs < usize::MAX && final(self).log() == old(
                    self,
                ).log().begin_tx(),
                Err(e) => old(self).log().current_txs == usize::MAX && final(self).log() == old(
                    self,
                ).log() && e matches DbError::Unexpected(_),
            },
    {
        self.get_logger_mut().begin_tx()
    }
}

/// Where a prefix of a run of records cannot be replayed, the run cannot.
pub proof fn lemma_replay_records_prefix<S: Schema>(state: S::State, run: Seq<Record>, n: int)
    requires
        0 <= n <= run.len(),
        replay_records::<S>(state, run.take(n)) is None,
    ensures
        replay_records::<S>(state, run) is None,
    decreases run.len() - n,
{
    if n < run.len() {
        lemma_replay_records_push::<S>(state, run.take(n), run[n]);
        assert(run.take(n).push(run[n]) =~= run.take(n + 1));
        lemma_replay_records_prefix::<S>(state, run, n + 1);
    } else {
        assert(run.take(n) =~= run);
    }
}


/// Compaction equivalence: the file that a compaction writes holds the
/// stamp with one more compaction counted and one envelope around the
/// snapshot, and nothing else. Where the snapshot is a run of records that
/// rebuilds what the tables hold, opening a database on that file finds
/// exactly those records, and so rebuilds what the tables held.
pub proof fn lemma_compaction_equivalence<D: Schema>(
    stamp: LogMetadata,
    run: Seq<Record>,
    state: D::State,
)
    requires
        stamp.log_version == 1,
        stamp.compaction_count < u8::MAX,
        framable(run),
        fits(frames(run)),
        replay_records::<D>(D::empty(), run) == Some(state),
    ensures
        ({
            let image = LogState::compacted_image(stamp, frames(run));
            &&& image.len() == 2 + HEADER_LEN + frames(run).len()
            &&& LogMetadata::read(image.take(2)) == Some(
                LogMetadata {
                    log_version: 1,
                    compaction_count: (stamp.compaction_count + 1) as u8,
                },
            )
            &&& parse(image.skip(2)) == (Parsed { records: run, incomplete: false })
            &&& replay_records::<D>(D::empty(), parse(image.skip(2)).records) == Some(state)
        }),
{
    let image = LogState::compacted_image(stamp, frames(run));
    let envelope = crate::framing::frame(0, frames(run));
    assert(image.skip(2) =~= envelope + Seq::<u8>::empty());
    crate::framing::lemma_parse_envelope(run, Seq::empty());
    assert(run + Seq::<Record>::empty() =~= run);
    assert(parse(image.skip(2)).records =~= run);
}


/// Replaying one run of records after another is replaying the first and
/// then, on what that gave, the second.
pub proof fn lemma_replay_records_append<S: Schema>(
    state: S::State,
    front: Seq<Record>,
    back: Seq<Record>,
)
    ensures
        replay_records::<S>(state, front + back) == match replay_records::<S>(state, front) {
            None => None,
            Some(middle) => replay_records::<S>(middle, back),
        },
    decreases front.len(),
{
    if front.len() == 0 {
        assert(front + back =~= back);
    } else {
        assert((front + back)[0] == front[0]);
        assert((front + back).skip(1) =~= front.skip(1) + back);
        match S::routed(state, front[0]) {
            None => {},
            Some(next) => {
                lemma_replay_records_append::<S>(next, front.skip(1), back);
            },
        }
    }
}

/// Replay fidelity: take a database that was opened on a well-formed log,
/// and a run of records that the tables wrote since, each record changing
/// what the tables hold as replaying it does. Opening a database on the
/// log with those records appended finds the records of the log and then
/// those records, and rebuilds what the tables hold now.
pub proof fn lemma_replay_fidelity<D: Schema>(
    log: Seq<crate::framing::Item>,
    run: Seq<Record>,
    before: D::State,
    after: D::State,
)
    requires
        crate::framing::log_well_formed(log),
        framable(run),
        replay_records::<D>(D::empty(), crate::framing::log_records(log)) == Some(before),
        replay_records::<D>(before, run) == Some(after),
    ensures
        parse(crate::framing::log_bytes(log) + frames(run)) == (Parsed {
            records: crate::framing::log_records(log) + run,
            incomplete: false,
        }),
        replay_records::<D>(D::empty(), crate::framing::log_records(log) + run) == Some(after),
{
    crate::framing::lemma_parse_log_then(log, frames(run));
    crate::framing::lemma_framing_round_trip(run);
    lemma_replay_records_append::<D>(D::empty(), crate::framing::log_records(log), run);
    assert(parse(crate::framing::log_bytes(log) + frames(run)).records
        =~= crate::framing::log_records(log) + run);
}

} // verus!
