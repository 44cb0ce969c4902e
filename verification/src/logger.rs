//! The log writer and reader.
//!
//! A [`Logger`] holds everything about an open log but the file itself: the
//! stamp, the transaction buffer, and the bytes that are owed to the file.
//! Whoever owns the file takes those bytes with [`Logger::take_pending`] and
//! appends them. With that, every decision about what is written, and in
//! which order, is made here.

use crate::config::Config;
use crate::errors::DbError;
use crate::errors::DbResult;
use crate::framing::fits;
use crate::framing::frame;
use crate::framing::frames;
use crate::framing::header;
use crate::framing::parse;
use crate::framing::size_value;
use crate::framing::Parsed;
use crate::framing::Record;
use crate::framing::HEADER_LEN;
use crate::TableId;
use vstd::prelude::*;
use vstd::slice::slice_subrange;

verus! {

/// One record of a log: the table it belongs to and its payload, which
/// borrows from the buffer that was parsed.
pub struct LogFormat<'a> {
    pub table_id: TableId,
    pub bytes: &'a [u8],
}

impl<'a> View for LogFormat<'a> {
    type V = Record;

    open spec fn view(&self) -> Record {
        Record { table_id: self.table_id, payload: self.bytes@ }
    }
}

/// The records that a list of parsed entries stands for.
pub open spec fn records_of<'a>(entries: Seq<LogFormat<'a>>) -> Seq<Record> {
    entries.map_values(|e: LogFormat<'a>| e@)
}

/// The two bytes at the start of a log file.
#[derive(Debug, Copy, Clone)]
pub struct LogMetadata {
    /// The version of the log format. Only version 1 is read.
    pub log_version: u8,
    /// The number of compactions that the log has been through.
    pub compaction_count: u8,
}

impl Default for LogMetadata {
    fn default() -> (m: Self)
        ensures
            m == LogMetadata::fresh(),
    {
        Self { log_version: 1, compaction_count: 0 }
    }
}

impl LogMetadata {
    /// The stamp of a log that was just created.
    pub open spec fn fresh() -> LogMetadata {
        LogMetadata { log_version: 1, compaction_count: 0 }
    }

    /// The stamp as it stands in the file.
    pub open spec fn bytes(self) -> Seq<u8> {
        seq![self.log_version, self.compaction_count]
    }

    /// What a log is stamped with whose first read of at most two bytes
    /// returned `head`: a fresh stamp where the file is empty, the stamp
    /// read where it has version 1, and nothing in every other case.
    pub open spec fn read(head: Seq<u8>) -> Option<LogMetadata> {
        if head.len() == 0 {
            Some(LogMetadata::fresh())
        } else if head.len() == 2 && head[0] == 1 {
            Some(LogMetadata { log_version: head[0], compaction_count: head[1] })
        } else {
            None
        }
    }

    pub fn to_bytes(self) -> (b: [u8; 2])
        ensures
            b@ == self.bytes(),
    {
        let b = [self.log_version, self.compaction_count];
        assert(b@ =~= self.bytes());
        b
    }

    pub fn from_bytes(bytes: [u8; 2]) -> (m: Self)
        ensures
            m.log_version == bytes[0],
            m.compaction_count == bytes[1],
            m.bytes() == bytes@,
    {
        let m = Self { log_version: bytes[0], compaction_count: bytes[1] };
        assert(m.bytes() =~= bytes@);
        m
    }
}

/// How the log file is to be locked once it is open.
#[derive(Debug, Copy, Clone, PartialEq, Eq, Structural)]
pub enum LockMode {
    /// No lock is taken.
    Unlocked,
    /// An exclusive lock is taken; if another handle holds it, opening fails.
    Try,
    /// An exclusive lock is taken; if another handle holds it, opening waits.
    Wait,
}

/// How the log file is to be opened.
#[derive(Debug, Copy, Clone)]
pub struct OpenPlan {
    pub read: bool,
    pub create: bool,
    pub append: bool,
    pub lock: LockMode,
}

/// What has to happen to the files of a database before its log is opened.
#[derive(Debug, Copy, Clone)]
pub struct MigrationPlan {
    /// Remove the staging file that an interrupted migration left behind.
    pub remove_staging: bool,
    /// Write the stamped copy of the legacy log to the staging file, rename
    /// that to the live log, and remove the legacy log.
    pub migrate: bool,
}

/// The state of an open log, as far as the file's owner and the tables can
/// observe it.
pub struct LogState {
    pub config: Config,
    /// The stamp of the log file; a log that lives in memory has none.
    pub stamp: Option<LogMetadata>,
    /// Whether parsing has met a record that was cut short.
    pub incomplete_write: bool,
    /// The number of transactions that are open, one inside the other.
    pub current_txs: nat,
    /// The framed records of the open transactions.
    pub tx_data: Option<Seq<u8>>,
    /// The bytes that are owed to the log file, in the order in which they
    /// are to be appended.
    pub pending: Seq<u8>,
}

impl LogState {
    /// What every operation of the logger keeps: there is a transaction
    /// buffer exactly while a transaction is open, and a stamp exactly where
    /// there is a file, of version 1; what the buffer holds fits into one
    /// envelope, and it holds nothing where the log takes no records.
    pub open spec fn wf(self) -> bool {
        &&& self.tx_data is Some <==> self.current_txs > 0
        &&& self.stamp is Some <==> !self.config.no_io
        &&& self.stamp matches Some(stamp) ==> stamp.log_version == 1
        &&& self.tx_data matches Some(buffered) ==> {
            &&& fits(buffered)
            &&& self.config.no_io || self.config.read_only ==> buffered.len() == 0
        }
    }

    /// Whether the log takes a record with the given payload. A log in
    /// memory takes every record, and drops it. A log on disk takes none
    /// where it is read-only, and otherwise those that fit: the payload's
    /// length into the size field, and inside a transaction the record
    /// with what is buffered into one envelope.
    pub open spec fn accepts(self, data: Seq<u8>) -> bool {
        self.config.no_io || (!self.config.read_only && match self.tx_data {
            Some(buffered) => buffered.len() + HEADER_LEN + data.len() <= u32::MAX,
            None => fits(data),
        })
    }

    /// Whether ending a transaction now owes the file an envelope: it is
    /// the outermost one, the buffer holds records, and there is a file.
    pub open spec fn commits(self) -> bool {
        &&& self.current_txs == 1
        &&& !self.config.no_io
        &&& self.tx_data matches Some(buffered) && buffered.len() > 0
    }

    /// Whether the envelope that ending a transaction now owes the file is
    /// refused: the log is read-only, or what is buffered does not fit.
    pub open spec fn refuses_commit(self) -> bool {
        self.commits() && (self.config.read_only || !fits(self.tx_data->Some_0))
    }

    /// The state of a log that was just opened with the given stamp.
    pub open spec fn opened(config: Config, stamp: Option<LogMetadata>, pending: Seq<u8>) -> LogState {
        LogState {
            config,
            stamp,
            incomplete_write: false,
            current_txs: 0,
            tx_data: None,
            pending,
        }
    }

    /// Opening a log whose first read of at most two bytes returned `head`.
    /// A log in memory needs no file. A log on disk is refused unless it is
    /// empty or carries a stamp of version 1; where it is empty the fresh
    /// stamp is owed to the file, unless the log is read-only.
    pub open spec fn init(config: Config, head: Seq<u8>) -> Option<LogState> {
        if config.no_io {
            Some(LogState::opened(config, None, Seq::empty()))
        } else {
            match LogMetadata::read(head) {
                None => None,
                Some(stamp) => Some(
                    LogState::opened(
                        config,
                        Some(stamp),
                        if head.len() == 0 && !config.read_only {
                            stamp.bytes()
                        } else {
                            Seq::empty()
                        },
                    ),
                ),
            }
        }
    }

    /// Bytes handed to the file: they are owed to it where there is one.
    pub open spec fn append(self, bytes: Seq<u8>) -> LogState {
        if self.config.no_io {
            self
        } else {
            LogState { pending: self.pending + bytes, ..self }
        }
    }

    /// One more transaction is open. The outermost one starts the buffer.
    pub open spec fn begin_tx(self) -> LogState {
        LogState {
            current_txs: self.current_txs + 1,
            tx_data: if self.tx_data is None {
                Some(Seq::empty())
            } else {
                self.tx_data
            },
            ..self
        }
    }

    /// One transaction ends. When the outermost one ends, what the buffer
    /// holds is owed to the file as one envelope, unless it holds nothing
    /// or the envelope is refused.
    pub open spec fn end_tx(self) -> LogState {
        if self.current_txs == 0 {
            self
        } else if self.current_txs > 1 {
            LogState { current_txs: (self.current_txs - 1) as nat, ..self }
        } else {
            let closed = LogState { current_txs: 0, tx_data: None, ..self };
            if self.commits() && !self.refuses_commit() {
                closed.append(frame(0, self.tx_data->Some_0))
            } else {
                closed
            }
        }
    }

    /// One record is written: dropped by a log in memory, refused where
    /// the log does not take it, buffered while a transaction is open, and
    /// owed to the file otherwise.
    pub open spec fn write(self, id: u8, data: Seq<u8>) -> LogState {
        if self.config.no_io || !self.accepts(data) {
            self
        } else {
            match self.tx_data {
                Some(buffered) => LogState { tx_data: Some(buffered + frame(id, data)), ..self },
                None => LogState { pending: self.pending + frame(id, data), ..self },
            }
        }
    }

    /// The whole file that replaces the log in a compaction: the stamp with
    /// one more compaction counted, and one envelope around the snapshot.
    pub open spec fn compacted_image(stamp: LogMetadata, data: Seq<u8>) -> Seq<u8> {
        seq![stamp.log_version, (stamp.compaction_count + 1) as u8] + frame(0, data)
    }

    /// Whether a compaction is possible: the log has a file, and its count
    /// of compactions can still grow.
    pub open spec fn can_compact(self) -> bool {
        &&& !self.config.no_io
        &&& self.stamp matches Some(stamp) && stamp.compaction_count < u8::MAX
    }

    /// The state after the file of a compaction has replaced the log: one
    /// more compaction is counted, and what was still owed to the old file
    /// is owed to nobody, because the snapshot holds it. Where no
    /// compaction is possible nothing changes.
    pub open spec fn finish_compaction(self) -> LogState {
        if self.can_compact() {
            self.compact()
        } else {
            self
        }
    }

    /// One more compaction is counted and nothing is owed to the file.
    pub open spec fn compact(self) -> LogState {
        LogState {
            stamp: Some(
                LogMetadata {
                    log_version: self.stamp->Some_0.log_version,
                    compaction_count: (self.stamp->Some_0.compaction_count + 1) as u8,
                },
            ),
            pending: Seq::empty(),
            ..self
        }
    }
}

/// An open log without its file.
#[derive(Debug)]
pub struct Logger {
    config: Config,
    log_metadata: Option<LogMetadata>,
    incomplete_write: bool,
    current_txs: usize,
    tx_data: Option<Vec<u8>>,
    pending: Vec<u8>,
}

impl View for Logger {
    type V = LogState;

    closed spec fn view(&self) -> LogState {
        LogState {
            config: self.config,
            stamp: self.log_metadata,
            incomplete_write: self.incomplete_write,
            current_txs: self.current_txs as nat,
            tx_data: match self.tx_data {
                Some(data) => Some(data@),
                None => None,
            },
            pending: self.pending@,
        }
    }
}

/// A transaction that is open. While it lives the log buffers every record;
/// [`TxHandle::drop_safely`] ends it.
#[must_use]
#[derive(Debug)]
pub struct TxHandle {
    _private: (),
}

impl TxHandle {
    /// Ends the transaction on the log that began it.
    ///
    /// Fails if and only if the envelope that is owed to the file is
    /// refused; the transaction has ended all the same.
    pub fn drop_safely(self, logger: &mut Logger) -> (r: DbResult<()>)
        ensures
            final(logger)@ == old(logger)@.end_tx(),
            old(logger)@.wf() ==> final(logger)@.wf(),
            r is Err <==> old(logger)@.refuses_commit(),
            r matches Err(e) ==> e matches DbError::Unexpected(_),
    {
        logger.end_tx()
    }
}

impl Logger {
    /// Opens a log. `head` is what a read of at most two bytes from the
    /// start of the log file returned; a log in memory ignores it.
    ///
    /// Fails if and only if the log is on disk and `head` is neither empty
    /// nor a stamp of version 1.
    pub fn init(config: Config, head: &[u8]) -> (r: DbResult<Logger>)
        ensures
            match r {
                Ok(logger) => LogState::init(config, head@) == Some(logger@) && logger@.wf(),
                Err(e) => LogState::init(config, head@) is None && e matches DbError::Unexpected(_),
            },
    {
        let mut pending: Vec<u8> = Vec::new();
        let log_metadata = if config.no_io {
            None
        } else {
            let stamp = Self::read_or_stamp_metadata(head)?;
            if head.len() == 0 && !config.read_only {
                let bytes = stamp.to_bytes();
                pending.push(bytes[0]);
                pending.push(bytes[1]);
                assert(pending@ =~= stamp.bytes());
            }
            Some(stamp)
        };
        Ok(
            Logger {
                config,
                log_metadata,
                incomplete_write: false,
                current_txs: 0,
                tx_data: None,
                pending,
            },
        )
    }

    /// Reads the stamp of a log file from what a read of at most two bytes
    /// returned. An empty file gets the fresh stamp. Anything but no bytes
    /// or two bytes, and any version but 1, is refused.
    pub fn read_or_stamp_metadata(head: &[u8]) -> (r: DbResult<LogMetadata>)
        ensures
            match r {
                Ok(stamp) => LogMetadata::read(head@) == Some(stamp),
                Err(e) => LogMetadata::read(head@) is None && e matches DbError::Unexpected(_),
            },
    {
        if head.len() == 0 {
            Ok(LogMetadata::default())
        } else if head.len() == 2 {
            let meta = LogMetadata::from_bytes([head[0], head[1]]);
            if meta.log_version != 1 {
                Err(DbError::Unexpected("unexpected log format version found"))
            } else {
                Ok(meta)
            }
        } else {
            Err(DbError::Unexpected("Unexpected amount of bytes read from log stamp"))
        }
    }

    /// How the log file is to be opened and locked: always for reading, for
    /// appending unless the log is read-only, and created where the
    /// configuration allows it and the log is not read-only. A read-only log
    /// is opened as it is found.
    pub fn open_file(config: &Config) -> (plan: OpenPlan)
        ensures
            plan.read,
            plan.create == (config.create_db && !config.read_only),
            plan.append == !config.read_only,
            plan.lock == if !config.fs_locks {
                LockMode::Unlocked
            } else if config.fs_locks_block {
                LockMode::Wait
            } else {
                LockMode::Try
            },
    {
        OpenPlan {
            read: true,
            create: config.create_db && !config.read_only,
            append: !config.read_only,
            lock: if !config.fs_locks {
                LockMode::Unlocked
            } else if config.fs_locks_block {
                LockMode::Wait
            } else {
                LockMode::Try
            },
        }
    }

    /// What to do about a log in the legacy format, given which of the
    /// three files exist. Without a legacy log nothing happens. With one, a
    /// staging file left behind is removed, and the legacy log is migrated
    /// unless a live log exists already.
    pub fn handle_migration(v1_exists: bool, staging_exists: bool, v2_exists: bool) -> (plan:
        MigrationPlan)
        ensures
            plan.remove_staging == (v1_exists && staging_exists),
            plan.migrate == (v1_exists && !v2_exists),
    {
        MigrationPlan { remove_staging: v1_exists && staging_exists, migrate: v1_exists && !v2_exists }
    }

    /// The live log that a legacy log migrates to: the fresh stamp, then the
    /// legacy log as it is.
    pub fn migrated(v1_bytes: Vec<u8>) -> (v2_bytes: Vec<u8>)
        ensures
            v2_bytes@ == LogMetadata::fresh().bytes() + v1_bytes@,
    {
        let stamp = LogMetadata::default().to_bytes();
        let ghost legacy = v1_bytes@;
        let mut v1_bytes = v1_bytes;
        let mut v2_bytes: Vec<u8> = Vec::new();
        v2_bytes.push(stamp[0]);
        v2_bytes.push(stamp[1]);
        v2_bytes.append(&mut v1_bytes);
        assert(v2_bytes@ =~= LogMetadata::fresh().bytes() + legacy);
        v2_bytes
    }

    /// Parses what follows the stamp in a log file. The entries are the
    /// records that the format's parser finds, in order; if the buffer ends
    /// in a record that was cut short the log remembers an incomplete write.
    pub fn get_entries<'a>(&mut self, buffer: &'a [u8]) -> (entries: Vec<LogFormat<'a>>)
        ensures
            records_of(entries@) == parse(buffer@).records,
            final(self)@ == (LogState {
                incomplete_write: old(self)@.incomplete_write || parse(buffer@).incomplete,
                ..old(self)@
            }),
    {
        let mut index: usize = 0;
        let mut entries: Vec<LogFormat<'a>> = Vec::new();
        let mut incomplete = false;
        assert(buffer@.skip(0) =~= buffer@);
        assert(records_of(entries@) + parse(buffer@).records =~= parse(buffer@).records);

        while index < buffer.len() && !incomplete
            invariant
                index <= buffer.len(),
                incomplete ==> parse(buffer@) == (Parsed {
                    records: records_of(entries@),
                    incomplete: true,
                }),
                !incomplete ==> parse(buffer@).records == records_of(entries@) + parse(
                    buffer@.skip(index as int),
                ).records,
                !incomplete ==> parse(buffer@).incomplete == parse(
                    buffer@.skip(index as int),
                ).incomplete,
            decreases buffer.len() - index + if incomplete { 0int } else { 1int },
        {
            let ghost rest = buffer@.skip(index as int);
            if buffer.len() - index < HEADER_LEN {
                incomplete = true;
                assert(records_of(entries@) + Seq::<Record>::empty() =~= records_of(entries@));
            } else {
                let table_id = buffer[index];
                let b0: u32 = buffer[index + 1] as u32;
                let b1: u32 = buffer[index + 2] as u32;
                let b2: u32 = buffer[index + 3] as u32;
                let b3: u32 = buffer[index + 4] as u32;
                let size: usize = (b0 * 0x100_0000 + b1 * 0x1_0000 + b2 * 0x100 + b3) as usize;
                assert(rest.subrange(1, 5) =~= seq![
                    buffer@[index + 1],
                    buffer@[index + 2],
                    buffer@[index + 3],
                    buffer@[index + 4],
                ]);
                assert(size == size_value(rest.subrange(1, 5)));
                if buffer.len() - index - HEADER_LEN < size {
                    incomplete = true;
                    assert(records_of(entries@) + Seq::<Record>::empty() =~= records_of(entries@));
                } else if table_id == 0 {
                    index += HEADER_LEN;
                    assert(rest.skip(5) =~= buffer@.skip(index as int));
                } else {
                    let bytes = slice_subrange(buffer, index + HEADER_LEN, index + HEADER_LEN + size);
                    let entry = LogFormat { table_id, bytes };
                    let ghost before = records_of(entries@);
                    entries.push(entry);
                    index += HEADER_LEN + size;
                    proof {
                        assert(rest.subrange(5, 5 + size) =~= bytes@);
                        assert(rest.skip(5 + size) =~= buffer@.skip(index as int));
                        assert(records_of(entries@) =~= before.push(entry@));
                        let tail = parse(buffer@.skip(index as int)).records;
                        assert(before + (seq![entry@] + tail) =~= before.push(entry@) + tail);
                    }
                }
            }
        }
        if incomplete {
            self.incomplete_write = true;
        } else {
            assert(buffer@.skip(index as int) =~= Seq::<u8>::empty());
            assert(records_of(entries@) + Seq::<Record>::empty() =~= records_of(entries@));
        }
        entries
    }

    /// Opens a transaction. Until the outermost transaction ends, every
    /// record is buffered instead of written.
    ///
    /// Fails if and only if the count of open transactions cannot grow.
    pub fn begin_tx(&mut self) -> (r: DbResult<TxHandle>)
        ensures
            match r {
                Ok(_) => old(self)@.current_txs < usize::MAX && final(self)@ == old(
                    self,
                )@.begin_tx(),
                Err(e) => old(self)@.current_txs == usize::MAX && final(self)@ == old(self)@
                    && e matches DbError::Unexpected(_),
            },
            old(self)@.wf() ==> final(self)@.wf(),
    {
        if self.current_txs == usize::MAX {
            return Err(DbError::Unexpected("too many transactions are open"));
        }
        if self.tx_data.is_none() {
            self.tx_data = Some(Vec::new());
        }
        self.current_txs += 1;
        Ok(TxHandle { _private: () })
    }

    /// Ends a transaction. The outermost one commits: what was buffered is
    /// owed to the file as one envelope, so that it is later found whole or
    /// not at all. Without an open transaction nothing happens.
    ///
    /// Fails if and only if the envelope is refused, because the log is
    /// read-only or the envelope would not fit; the transaction has ended
    /// all the same, and nothing of it is owed to the file. A log that is
    /// well formed refuses no envelope.
    pub fn end_tx(&mut self) -> (r: DbResult<()>)
        ensures
            final(self)@ == old(self)@.end_tx(),
            old(self)@.wf() ==> final(self)@.wf(),
            r is Err <==> old(self)@.refuses_commit(),
            r matches Err(e) ==> e matches DbError::Unexpected(_),
            old(self)@.wf() ==> r is Ok,
    {
        if self.current_txs == 0 {
            return Ok(());
        }
        self.current_txs -= 1;
        if self.current_txs == 0 {
            let data = self.tx_data.take();
            if let Some(data) = data {
                if data.len() > 0 && !self.config.no_io {
                    if self.config.read_only {
                        return Err(DbError::Unexpected("the log is read-only"));
                    }
                    if data.len() > u32::MAX as usize {
                        return Err(
                            DbError::Unexpected("a transaction that is too large for the log"),
                        );
                    }
                    self.write_to_file(Self::log_entry(0, data));
                }
            }
        }
        Ok(())
    }

    /// Writes one record for the table `id`: dropped by a log in memory,
    /// buffered while a transaction is open, owed to the file otherwise.
    ///
    /// Fails, and changes nothing, if and only if the log does not take
    /// the record: it is read-only, or the record does not fit.
    pub fn write(&mut self, id: TableId, data: Vec<u8>) -> (r: DbResult<()>)
        ensures
            final(self)@ == old(self)@.write(id, data@),
            old(self)@.wf() ==> final(self)@.wf(),
            r is Ok <==> old(self)@.accepts(data@),
            r matches Err(e) ==> e matches DbError::Unexpected(_),
    {
        if self.config.no_io {
            return Ok(());
        }
        if self.config.read_only {
            return Err(DbError::Unexpected("the log is read-only"));
        }
        let limit: usize = u32::MAX as usize;
        let room: usize = match &self.tx_data {
            Some(buffered) => if buffered.len() > limit || limit - buffered.len() < HEADER_LEN {
                0
            } else {
                limit - buffered.len() - HEADER_LEN
            },
            None => limit,
        };
        let full = match &self.tx_data {
            Some(buffered) => buffered.len() > limit || limit - buffered.len() < HEADER_LEN,
            None => false,
        };
        if full || data.len() > room {
            return Err(DbError::Unexpected("a record that is too large for the log"));
        }
        let mut entry = Self::log_entry(id, data);
        let buffered = self.tx_data.take();
        match buffered {
            Some(mut tx_data) => {
                tx_data.append(&mut entry);
                self.tx_data = Some(tx_data);
            },
            None => {
                self.pending.append(&mut entry);
            },
        }
        Ok(())
    }

    /// Hands bytes to the file, where there is one.
    fn write_to_file(&mut self, data: Vec<u8>)
        ensures
            final(self)@ == old(self)@.append(data@),
    {
        if !self.config.no_io {
            let mut data = data;
            self.pending.append(&mut data);
        }
    }

    /// The header of a record: the table's id, then the payload's length in
    /// four bytes, most significant first.
    pub fn header(id: TableId, data: &[u8]) -> (h: [u8; 5])
        ensures
            h@ == header(id, data@.len()),
    {
        let n: usize = data.len();
        let h = [
            id,
            ((n / 0x100_0000) % 0x100) as u8,
            ((n / 0x1_0000) % 0x100) as u8,
            ((n / 0x100) % 0x100) as u8,
            (n % 0x100) as u8,
        ];
        assert(h@ =~= header(id, data@.len()));
        h
    }

    /// A whole record: the header, then the payload.
    pub fn log_entry(id: TableId, data: Vec<u8>) -> (entry: Vec<u8>)
        ensures
            entry@ == frame(id, data@),
    {
        let h = Self::header(id, data.as_slice());
        let ghost payload = data@;
        let mut data = data;
        let mut entry: Vec<u8> = Vec::new();
        entry.push(h[0]);
        entry.push(h[1]);
        entry.push(h[2]);
        entry.push(h[3]);
        entry.push(h[4]);
        entry.append(&mut data);
        assert(entry@ =~= frame(id, payload)) by {
            assert(entry@.subrange(0, 5) =~= h@);
        }
        entry
    }

    /// Compacts the log. `data` is the snapshot: the compact representation
    /// of every table, one after the other. The result is the whole file
    /// that is to replace the log. The log itself stays as it is until
    /// [`Logger::finish_compaction`] is told that the file has replaced it.
    ///
    /// Fails if and only if the log lives in memory, its count of
    /// compactions cannot grow, or the snapshot does not fit into one
    /// envelope.
    pub fn compact_log(&self, data: Vec<u8>) -> (r: DbResult<Vec<u8>>)
        ensures
            match r {
                Ok(image) => {
                    &&& self@.can_compact()
                    &&& fits(data@)
                    &&& image@ == LogState::compacted_image(self@.stamp->Some_0, data@)
                },
                Err(e) => {
                    &&& !(self@.can_compact() && fits(data@))
                    &&& e matches DbError::Unexpected(_)
                },
            },
    {
        if self.config.no_io {
            return Err(DbError::Unexpected("a log that lives in memory cannot be compacted"));
        }
        let mut log_meta = match self.log_metadata {
            Some(meta) => meta,
            None => {
                return Err(DbError::Unexpected("log meta missing -- no_io == false"));
            },
        };
        if log_meta.compaction_count == u8::MAX {
            return Err(DbError::Unexpected("the count of compactions cannot grow"));
        }
        if data.len() > u32::MAX as usize {
            return Err(DbError::Unexpected("a snapshot that is too large for the log"));
        }
        log_meta.compaction_count += 1;
        let stamp = log_meta.to_bytes();
        let mut compacted_data = Self::log_entry(0, data);
        let mut image: Vec<u8> = Vec::new();
        image.push(stamp[0]);
        image.push(stamp[1]);
        image.append(&mut compacted_data);
        assert(image@ =~= LogState::compacted_image(self@.stamp->Some_0, data@));
        Ok(image)
    }

    /// Takes note that the file of a compaction has replaced the log: one
    /// more compaction is counted, and what was still owed to the old file
    /// is owed to nobody. Where no compaction is possible nothing changes.
    pub fn finish_compaction(&mut self)
        ensures
            final(self)@ == old(self)@.finish_compaction(),
            old(self)@.wf() ==> final(self)@.wf(),
    {
        if self.config.no_io {
            return ;
        }
        match self.log_metadata {
            Some(meta) => {
                if meta.compaction_count < u8::MAX {
                    self.log_metadata = Some(
                        LogMetadata {
                            log_version: meta.log_version,
                            compaction_count: meta.compaction_count + 1,
                        },
                    );
                    self.pending.clear();
                }
            },
            None => {},
        }
    }

    /// Takes the bytes that are owed to the log file, in the order in which
    /// they are to be appended. The log then owes nothing.
    pub fn take_pending(&mut self) -> (bytes: Vec<u8>)
        ensures
            bytes@ == old(self)@.pending,
            final(self)@ == (LogState { pending: Seq::empty(), ..old(self)@ }),
    {
        let mut bytes: Vec<u8> = Vec::new();
        bytes.append(&mut self.pending);
        assert(bytes@ =~= old(self)@.pending);
        bytes
    }

    pub fn config(&self) -> (config: &Config)
        ensures
            *config == self@.config,
    {
        &self.config
    }

    pub fn incomplete_write(&self) -> (incomplete: bool)
        ensures
            incomplete == self@.incomplete_write,
    {
        self.incomplete_write
    }

    /// The stamp of the log file; a log in memory has none.
    pub fn log_metadata(&self) -> (stamp: Option<LogMetadata>)
        ensures
            stamp == self@.stamp,
    {
        self.log_metadata
    }
}

impl LogState {
    /// The state after a run of records is written, one after the other.
    pub open spec fn write_all(self, run: Seq<Record>) -> LogState
        decreases run.len(),
    {
        if run.len() == 0 {
            self
        } else {
            self.write_all(run.drop_last()).write(run.last().table_id, run.last().payload)
        }
    }
}

/// Transaction atomicity, while the transaction is open: the records that
/// are written reach the buffer, framed and in order, and nothing is owed to
/// the file.
pub proof fn lemma_transaction_buffers(state: LogState, run: Seq<Record>)
    requires
        !state.config.no_io,
        !state.config.read_only,
        state.tx_data is Some,
        fits(state.tx_data->Some_0 + frames(run)),
    ensures
        state.write_all(run) == (LogState {
            tx_data: Some(state.tx_data->Some_0 + frames(run)),
            ..state
        }),
    decreases run.len(),
{
    if run.len() == 0 {
        assert(state.tx_data->Some_0 + frames(run) =~= state.tx_data->Some_0);
    } else {
        let front = run.drop_last();
        crate::framing::lemma_frames_len(run);
        lemma_transaction_buffers(state, front);
        crate::framing::lemma_frames_push(front, run.last());
        assert(front.push(run.last()) =~= run);
        assert(state.tx_data->Some_0 + frames(front) + frame(run.last().table_id, run.last().payload)
            =~= state.tx_data->Some_0 + frames(run));
    }
}

/// Transaction atomicity, when the transaction ends: a transaction that is
/// begun on a log without one, writes a run of records and ends, owes the
/// file exactly one item, the envelope around those records. With
/// [`crate::framing::lemma_last_item_all_or_nothing`], a log that is opened
/// again holds all of those records or none.
pub proof fn lemma_transaction_commits(state: LogState, run: Seq<Record>)
    requires
        !state.config.no_io,
        !state.config.read_only,
        state.current_txs == 0,
        state.tx_data is None,
        run.len() > 0,
        fits(frames(run)),
    ensures
        state.begin_tx().write_all(run).end_tx() == (LogState {
            pending: state.pending + crate::framing::item_bytes(
                crate::framing::Item::Envelope(run),
            ),
            ..state
        }),
{
    let begun = state.begin_tx();
    assert(Seq::<u8>::empty() + frames(run) =~= frames(run));
    lemma_transaction_buffers(begun, run);
    assert(frames(run).len() > 0) by {
        assert(frames(run) == frame(run[0].table_id, run[0].payload) + frames(run.skip(1)));
    }
}

} // verus!
