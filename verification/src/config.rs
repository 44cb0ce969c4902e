//! Where the log of a database lives and how the database treats it.

use crate::errors::DbError;
use crate::errors::DbResult;
use vstd::prelude::*;
use vstd::string::*;

verus! {

/// Describes where the log file is and how the database should behave.
/// [`Config::in_folder`] is the usual starting point.
#[derive(Clone, Debug)]
pub struct Config {
    /// The folder that holds the log.
    pub path: String,
    /// Create parent folders that do not exist. Default: true.
    pub create_path: bool,
    /// Create a log if none exists. Default: true.
    pub create_db: bool,
    /// Only read, never write (for analysis tooling). Default: false.
    pub read_only: bool,
    /// Avoid all input and output (for tests). Default: false.
    pub no_io: bool,
    /// Guard the log file with an exclusive file lock. Default: true.
    pub fs_locks: bool,
    /// With `fs_locks`, wait for the lock instead of failing. Default: false.
    pub fs_locks_block: bool,
    /// The name of the schema, which names the log file. The database fills
    /// it in when it is opened.
    pub schema_name: Option<String>,
}

/// A file name inside a folder: the two joined by one `/`, or the bare name
/// where the folder is the empty string.
pub open spec fn join(dir: Seq<char>, name: Seq<char>) -> Seq<char> {
    if dir.len() == 0 {
        name
    } else {
        dir + "/"@ + name
    }
}

impl Config {
    /// Whether the flags are those of a database on disk with the defaults.
    pub open spec fn has_default_flags(&self) -> bool {
        &&& self.create_path
        &&& self.create_db
        &&& !self.read_only
        &&& !self.no_io
        &&& self.fs_locks
        &&& !self.fs_locks_block
    }

    /// The defaults, with an empty folder and no schema name.
    pub fn base() -> (c: Self)
        ensures
            c.path@.len() == 0,
            c.schema_name is None,
            c.has_default_flags(),
    {
        Self {
            path: String::new(),
            schema_name: None,
            create_path: true,
            create_db: true,
            read_only: false,
            no_io: false,
            fs_locks: true,
            fs_locks_block: false,
        }
    }

    /// A database that lives in memory only: nothing is created, locked,
    /// read or written.
    pub fn no_io() -> (c: Self)
        ensures
            c.path@.len() == 0,
            c.schema_name is None,
            !c.create_path,
            !c.create_db,
            c.read_only,
            c.no_io,
            !c.fs_locks,
            !c.fs_locks_block,
    {
        Self {
            path: String::new(),
            schema_name: None,
            create_path: false,
            create_db: false,
            read_only: true,
            no_io: true,
            fs_locks: false,
            fs_locks_block: false,
        }
    }

    /// The defaults, with the log in the given folder.
    pub fn in_folder(p: &str) -> (c: Self)
        ensures
            c.path@ == p@,
            c.schema_name is None,
            c.has_default_flags(),
    {
        Self {
            path: p.to_owned(),
            schema_name: None,
            create_path: true,
            create_db: true,
            read_only: false,
            no_io: false,
            fs_locks: true,
            fs_locks_block: false,
        }
    }

    /// The schema's name followed by `suffix`, inside the folder.
    fn located(&self, suffix: &str) -> (r: DbResult<String>)
        ensures
            match r {
                Ok(p) => self.schema_name matches Some(name) && p@ == join(
                    self.path@,
                    name@ + suffix@,
                ),
                Err(e) => self.schema_name is None && e matches DbError::Unexpected(_),
            },
    {
        match &self.schema_name {
            None => Err(
                DbError::Unexpected("Schema name not populated! The database should have done this"),
            ),
            Some(name) => {
                let mut location = self.path.clone();
                if !self.path.as_str().is_empty() {
                    location.append("/");
                }
                location.append(name.as_str());
                location.append(suffix);
                assert(location@ =~= join(self.path@, name@ + suffix@));
                Ok(location)
            },
        }
    }

    /// The live log: `<path>/<schema>.db`. Fails if and only if the schema
    /// name is missing.
    pub fn db_location_v2(&self) -> (r: DbResult<String>)
        ensures
            match r {
                Ok(p) => self.schema_name matches Some(name) && p@ == join(
                    self.path@,
                    name@ + ".db"@,
                ),
                Err(e) => self.schema_name is None && e matches DbError::Unexpected(_),
            },
    {
        self.located(".db")
    }

    /// The log in the legacy format, which has no stamp: `<path>/<schema>`.
    /// Fails if and only if the schema name is missing.
    pub fn db_location_v1(&self) -> (r: DbResult<String>)
        ensures
            match r {
                Ok(p) => self.schema_name matches Some(name) && p@ == join(self.path@, name@),
                Err(e) => self.schema_name is None && e matches DbError::Unexpected(_),
            },
    {
        let r = self.located("");
        proof {
            reveal_strlit("");
            if self.schema_name is Some {
                assert(self.schema_name->Some_0@ + ""@ =~= self.schema_name->Some_0@);
            }
        }
        r
    }

    /// The file that a compaction writes before it replaces the live log:
    /// `<path>/<schema>.db.tmp`. Fails if and only if the schema name is
    /// missing.
    pub fn compaction_location(&self) -> (r: DbResult<String>)
        ensures
            match r {
                Ok(p) => self.schema_name matches Some(name) && p@ == join(
                    self.path@,
                    name@ + ".db.tmp"@,
                ),
                Err(e) => self.schema_name is None && e matches DbError::Unexpected(_),
            },
    {
        self.located(".db.tmp")
    }

    /// The file in which a migration from the legacy format is staged:
    /// `<path>/<schema>.db.migration`. Fails if and only if the schema name
    /// is missing.
    pub fn migration_location(&self) -> (r: DbResult<String>)
        ensures
            match r {
                Ok(p) => self.schema_name matches Some(name) && p@ == join(
                    self.path@,
                    name@ + ".db.migration"@,
                ),
                Err(e) => self.schema_name is None && e matches DbError::Unexpected(_),
            },
    {
        self.located(".db.migration")
    }
}

} // verus!
