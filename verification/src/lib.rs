//! An embedded, single-writer, typed database whose persistence model is an
//! append-only operation log.
//!
//! A schema is a fixed list of tables. Every mutating call on a table
//! updates the table in memory and hands the [`Logger`] one record that
//! describes the mutation. Replaying the records of a log onto freshly
//! initialised tables rebuilds the state that produced it, and a compaction
//! rewrites the log into a minimal equivalent form.
//!
//! This crate is the engine: the log format, the logger's transaction
//! buffering, the five kinds of table and the replay that ties them
//! together. It performs no input or output. The logger collects the bytes
//! that are owed to the log file, and whoever owns the file appends them.
//! Every function is verified against the contract it carries.
//!
//! ## Tables
//!
//! Each table has a representation in memory and a log entry format:
//! [`Single`] holds at most one value, [`List`] a sequence, [`LookupTable`]
//! a map, [`LookupList`] a map to sequences and [`LookupSet`] a map to
//! sets. A [`Codec`] turns the values of a table into bytes; [`Bincode`] is
//! the one that this crate brings.
//!
//! ## The log
//!
//! The log is a stamp of two bytes and a run of records. A record carries
//! the id of its table, the length of its payload and the payload. A record
//! with the id `0` is an envelope around the records of one transaction or
//! of one compaction. The module [`framing`] holds the format and what is
//! proved of it: records that are written are found again, and a log that
//! was cut short yields the records that are whole.

pub mod compacter;
pub mod config;
pub mod db;
pub mod errors;
pub mod framing;
pub mod list;
pub mod logger;
pub mod lookup;
pub mod lookup_list;
pub mod lookup_set;
pub mod schema;
pub mod serializer;
pub mod single;
pub mod table;
pub mod wire;

pub use crate::compacter::BackgroundCompacter;
pub use crate::compacter::CancelSig;
pub use crate::config::Config;
pub use crate::db::Db;
pub use crate::errors::DbError;
pub use crate::errors::DbResult;
pub use crate::list::List;
pub use crate::logger::Logger;
pub use crate::logger::TxHandle;
pub use crate::lookup::LookupTable;
pub use crate::lookup_list::LookupList;
pub use crate::lookup_set::LookupSet;
pub use crate::schema::Database;
pub use crate::schema::SchemaName;
pub use crate::serializer::Bincode;
pub use crate::serializer::Codec;
pub use crate::single::Single;
pub use crate::table::Table;

use vstd::prelude::*;

verus! {

/// Identifies a table inside a log. `0` is reserved for the engine's
/// envelope records; user tables occupy `1..=254`.
pub type TableId = u8;

/// The size of a record's payload as the log stores it.
pub type ByteCount = u32;

} // verus!
