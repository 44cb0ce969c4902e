//! The error taxonomy of the engine.

use vstd::prelude::*;
use vstd::string::*;

verus! {

/// The kind of failure that `bincode` reports. Nothing is known of its
/// contents here; it is carried through to the caller.
#[verifier::external_type_specification]
#[verifier::external_body]
pub struct ExBincodeErrorKind(bincode::ErrorKind);

/// The reason an input or output operation failed. Nothing is known of its
/// contents here; the caller that owns the log file stores it.
#[verifier::external_type_specification]
#[verifier::external_body]
pub struct ExIoError(std::io::Error);

/// Every way in which an operation of the database can fail.
#[derive(Debug)]
pub enum DbError {
    /// A configuration that cannot be used, a log that is not in the expected
    /// format, or a record that cannot be applied to the table it names.
    Unexpected(&'static str),
    /// The file system refused an operation, lock contention included.
    Io(std::io::Error),
    /// A value could not be encoded, or bytes could not be decoded.
    Bincode(bincode::Error),
    /// The mutex that guards a shared handle was poisoned.
    MutexPoisoned,
}

pub type DbResult<T> = Result<T, DbError>;

impl From<bincode::Error> for DbError {
    fn from(err: bincode::Error) -> (e: DbError) {
        DbError::Bincode(err)
    }
}

impl vstd::std_specs::convert::FromSpecImpl<bincode::Error> for DbError {
    open spec fn obeys_from_spec() -> bool {
        true
    }

    open spec fn from_spec(err: bincode::Error) -> DbError {
        DbError::Bincode(err)
    }
}

impl From<std::io::Error> for DbError {
    fn from(err: std::io::Error) -> (e: DbError) {
        DbError::Io(err)
    }
}

impl vstd::std_specs::convert::FromSpecImpl<std::io::Error> for DbError {
    open spec fn obeys_from_spec() -> bool {
        true
    }

    open spec fn from_spec(err: std::io::Error) -> DbError {
        DbError::Io(err)
    }
}

/// Calls `to_string` on an input or output error, which gives the text that
/// the error displays. Nothing is claimed of the text.
#[verifier::external_body]
fn io_error_text(err: &std::io::Error) -> (text: String) {
    err.to_string()
}

/// Calls `to_string` on an error of `bincode`, which gives the text that
/// the error displays. Nothing is claimed of the text.
#[verifier::external_body]
fn bincode_error_text(err: &bincode::Error) -> (text: String) {
    err.to_string()
}

impl DbError {
    /// The error in words: the kind of the error, then what the error
    /// itself says.
    pub fn message(&self) -> (text: String)
        ensures
            match self {
                DbError::Unexpected(what) => text@ == "unexpected error: "@ + what@,
                DbError::Io(_) => "io error: "@.is_prefix_of(text@),
                DbError::Bincode(_) => "bincode error: "@.is_prefix_of(text@),
                DbError::MutexPoisoned => text@ == "mutex poisoned"@,
            },
    {
        match self {
            DbError::Unexpected(what) => {
                let mut text = "unexpected error: ".to_owned();
                text.append(what);
                text
            },
            DbError::Io(err) => {
                let mut text = "io error: ".to_owned();
                let said = io_error_text(err);
                text.append(said.as_str());
                assert("io error: "@ =~= text@.subrange(0, "io error: "@.len() as int));
                text
            },
            DbError::Bincode(err) => {
                let mut text = "bincode error: ".to_owned();
                let said = bincode_error_text(err);
                text.append(said.as_str());
                assert("bincode error: "@ =~= text@.subrange(0, "bincode error: "@.len() as int));
                text
            },
            DbError::MutexPoisoned => "mutex poisoned".to_owned(),
        }
    }
}

} // verus!
