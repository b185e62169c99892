//! The errors of the engine.

use vstd::prelude::*;
use vstd::string::*;

verus! {

/// What can go wrong in the engine.
#[derive(Debug, Clone, PartialEq)]
pub enum Error {
    /// The key is not in the store.
    NotFoundError { key: String },
    /// The data of the database is inconsistent; `data` says how, or holds
    /// what is needed to repair it.
    CorruptedDataError { data: Option<String> },
    /// A background task was started while it was already running.
    AlreadyRunningError,
    /// A background task was stopped while it was not running.
    NotRunningError,
}

/// The characters of an optional string.
pub open spec fn option_view(o: Option<String>) -> Option<Seq<char>> {
    match o {
        Some(s) => Some(s@),
        None => None,
    }
}

impl Error {
    /// The payload of the error: the key that was not found, or the
    /// description of the corruption.
    pub open spec fn data_view(&self) -> Option<Seq<char>> {
        match *self {
            Error::NotFoundError { key } => Some(key@),
            Error::CorruptedDataError { data } => option_view(data),
            Error::AlreadyRunningError => None,
            Error::NotRunningError => None,
        }
    }

    /// The text that describes the error.
    pub open spec fn message_view(&self) -> Seq<char> {
        match *self {
            Error::NotFoundError { key } => key@ + " not found"@,
            Error::CorruptedDataError { data } => match data {
                Some(d) => "corrupted: "@ + d@,
                None => "corrupted: "@,
            },
            Error::AlreadyRunningError => "already running"@,
            Error::NotRunningError => "not running"@,
        }
    }

    /// Returns the payload of the error, for ease of printing.
    pub fn get_data(&self) -> (data: Option<String>)
        ensures
            option_view(data) == self.data_view(),
    {
        match self {
            Error::NotFoundError { key } => Some(key.clone()),
            Error::CorruptedDataError { data } => match data {
                Some(d) => Some(d.clone()),
                None => None,
            },
            Error::AlreadyRunningError => None,
            Error::NotRunningError => None,
        }
    }

    /// Returns the text that describes the error.
    pub fn to_string(&self) -> (text: String)
        ensures
            text@ == self.message_view(),
    {
        match self {
            Error::NotFoundError { key } => key.clone().concat(" not found"),
            Error::CorruptedDataError { data } => match data {
                Some(d) => String::from_str("corrupted: ").concat(d.as_str()),
                None => String::from_str("corrupted: "),
            },
            Error::AlreadyRunningError => String::from_str("already running"),
            Error::NotRunningError => String::from_str("not running"),
        }
    }

    /// A corruption with the given description.
    pub fn corrupted(description: &str) -> (e: Error)
        ensures
            e.data_view() == Some(description@),
            e is CorruptedDataError,
    {
        Error::CorruptedDataError { data: Some(String::from_str(description)) }
    }

    /// The key that was looked for is not there.
    pub fn not_found(key: &str) -> (e: Error)
        ensures
            e.data_view() == Some(key@),
            e is NotFoundError,
    {
        Error::NotFoundError { key: String::from_str(key) }
    }
}

} // verus!
