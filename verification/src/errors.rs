//! The errors the server's services report, and how each endpoint answers
//! them.

use vstd::prelude::*;

verus! {

/// Text built from pieces.
pub(crate) fn concat(a: &str, b: &str) -> (r: String)
    ensures
        r@ == a@ + b@,
{
    let mut s = String::from_str(a);
    s.append(b);
    s
}

/// Text built from three pieces.
pub(crate) fn concat3(a: &str, b: &str, c: &str) -> (r: String)
    ensures
        r@ == a@ + b@ + c@,
{
    let mut s = String::from_str(a);
    s.append(b);
    s.append(c);
    s
}

/// The failures a service reports, each with a description.
#[derive(Debug)]
pub enum ErrorTypes {
    DatabaseNotFound(String),
    SourceNotFound(String),
    IndexNotFound(String),
    DatabaseAlreadyExists(String),
    SourceAlreadyExists(String),
    InvalidField(String),
}

/// How an error reads.
pub open spec fn error_text(e: ErrorTypes) -> Seq<char> {
    match e {
        ErrorTypes::DatabaseNotFound(m) => "Database not found: "@ + m@,
        ErrorTypes::SourceNotFound(m) => "Source not found: "@ + m@,
        ErrorTypes::IndexNotFound(m) => "Index not found: "@ + m@,
        ErrorTypes::DatabaseAlreadyExists(m) => "Database already exists: "@ + m@,
        ErrorTypes::SourceAlreadyExists(m) => "Source already exists: "@ + m@,
        ErrorTypes::InvalidField(m) => "Invalid field: "@ + m@,
    }
}

impl ErrorTypes {
    /// The error as text: its kind, then its description.
    pub fn to_string(&self) -> (s: String)
        ensures
            s@ == error_text(*self),
    {
        match self {
            ErrorTypes::DatabaseNotFound(m) => concat("Database not found: ", m.as_str()),
            ErrorTypes::SourceNotFound(m) => concat("Source not found: ", m.as_str()),
            ErrorTypes::IndexNotFound(m) => concat("Index not found: ", m.as_str()),
            ErrorTypes::DatabaseAlreadyExists(m) => concat("Database already exists: ", m.as_str()),
            ErrorTypes::SourceAlreadyExists(m) => concat("Source already exists: ", m.as_str()),
            ErrorTypes::InvalidField(m) => concat("Invalid field: ", m.as_str()),
        }
    }
}

/// The endpoints of the server.
#[derive(Debug)]
pub enum Endpoint {
    CreateDatabase,
    CreateSource,
    Embed,
    Insert,
    ListSources,
    Query,
    VectorQuery,
    CreateBackup,
    ListBackups,
    RestoreBackup,
    DeleteBackup,
}

/// How an endpoint's service call ended.
#[derive(Debug)]
pub enum Outcome {
    /// It succeeded.
    Done,
    /// It failed with one of the service errors.
    Failed(ErrorTypes),
    /// It failed some other way (storage, network, ...).
    Crashed,
    /// The service it needs is not running.
    Unavailable,
}

/// The HTTP status an endpoint answers an outcome with.
pub open spec fn status_spec(endpoint: Endpoint, outcome: Outcome) -> u16 {
    match outcome {
        Outcome::Unavailable => 503,
        Outcome::Done => match endpoint {
            Endpoint::CreateDatabase | Endpoint::CreateSource | Endpoint::CreateBackup => 201,
            _ => 200,
        },
        Outcome::Crashed => match endpoint {
            Endpoint::CreateBackup | Endpoint::RestoreBackup => 409,
            Endpoint::DeleteBackup => 404,
            _ => 500,
        },
        Outcome::Failed(e) => match endpoint {
            Endpoint::CreateDatabase => match e {
                ErrorTypes::SourceNotFound(_) => 204,
                ErrorTypes::DatabaseAlreadyExists(_) => 409,
                ErrorTypes::InvalidField(_) => 400,
                _ => 500,
            },
            Endpoint::CreateSource => match e {
                ErrorTypes::SourceAlreadyExists(_) => 409,
                _ => 500,
            },
            Endpoint::Embed | Endpoint::Insert => match e {
                ErrorTypes::DatabaseNotFound(_) | ErrorTypes::SourceNotFound(_) => 404,
                ErrorTypes::InvalidField(_) => 400,
                _ => 500,
            },
            Endpoint::Query => match e {
                ErrorTypes::DatabaseNotFound(_) | ErrorTypes::SourceNotFound(_) | ErrorTypes::IndexNotFound(_) => 204,
                _ => 500,
            },
            Endpoint::VectorQuery => match e {
                ErrorTypes::DatabaseNotFound(_) | ErrorTypes::SourceNotFound(_) | ErrorTypes::IndexNotFound(_) => 204,
                ErrorTypes::InvalidField(_) => 400,
                _ => 500,
            },
            Endpoint::CreateBackup | Endpoint::RestoreBackup => 409,
            Endpoint::DeleteBackup => 404,
            Endpoint::ListSources | Endpoint::ListBackups => 500,
        },
    }
}

/// The HTTP status an endpoint answers an outcome with: created or OK on
/// success, a client error for the failures the caller can mend, 503 when
/// the backup service is off, 500 otherwise.
pub fn status_code(endpoint: &Endpoint, outcome: &Outcome) -> (code: u16)
    ensures
        code == status_spec(*endpoint, *outcome),
{
    match outcome {
        Outcome::Unavailable => 503,
        Outcome::Done => match endpoint {
            Endpoint::CreateDatabase | Endpoint::CreateSource | Endpoint::CreateBackup => 201,
            _ => 200,
        },
        Outcome::Crashed => match endpoint {
            Endpoint::CreateBackup | Endpoint::RestoreBackup => 409,
            Endpoint::DeleteBackup => 404,
            _ => 500,
        },
        Outcome::Failed(e) => match endpoint {
            Endpoint::CreateDatabase => match e {
                ErrorTypes::SourceNotFound(_) => 204,
                ErrorTypes::DatabaseAlreadyExists(_) => 409,
                ErrorTypes::InvalidField(_) => 400,
                _ => 500,
            },
            Endpoint::CreateSource => match e {
                ErrorTypes::SourceAlreadyExists(_) => 409,
                _ => 500,
            },
            Endpoint::Embed | Endpoint::Insert => match e {
                ErrorTypes::DatabaseNotFound(_) | ErrorTypes::SourceNotFound(_) => 404,
                ErrorTypes::InvalidField(_) => 400,
                _ => 500,
            },
            Endpoint::Query => match e {
                ErrorTypes::DatabaseNotFound(_) | ErrorTypes::SourceNotFound(_) | ErrorTypes::IndexNotFound(_) => 204,
                _ => 500,
            },
            Endpoint::VectorQuery => match e {
                ErrorTypes::DatabaseNotFound(_) | ErrorTypes::SourceNotFound(_) | ErrorTypes::IndexNotFound(_) => 204,
                ErrorTypes::InvalidField(_) => 400,
                _ => 500,
            },
            Endpoint::CreateBackup | Endpoint::RestoreBackup => 409,
            Endpoint::DeleteBackup => 404,
            Endpoint::ListSources | Endpoint::ListBackups => 500,
        },
    }
}

/// The status of a request refused before its service is called.
pub const BAD_REQUEST: u16 = 400;

} // verus!
