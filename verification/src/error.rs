//! Errors of the storage layer and of the backend below it.

use vstd::prelude::*;
use vstd::string::*;

verus! {

/// Errors returned by an object backend.
#[derive(Clone, Debug, PartialEq, Eq)]
pub enum BackendError {
    /// The object does not exist.
    NotFound,
    /// A conditional operation's precondition failed.
    Precondition,
    /// A listing cursor was rejected.
    InvalidCursor,
    /// The outcome of the operation is unknown.
    Unavailable(String),
    /// Any other failure, with the text of its cause.
    Other { msg: String, source: Option<String> },
}

/// Errors returned by the storage layer.
#[derive(Clone, Debug, PartialEq, Eq)]
pub enum StorageError {
    /// The object does not exist.
    NotFound,
    /// A conditional operation's precondition failed.
    Precondition,
    /// A paginated listing cursor was rejected and that prefix must restart.
    InvalidCursor,
    /// The operation's outcome is unknown: it may or may not have been applied.
    Unavailable(String),
    /// A key was not found in a committed transaction log.
    KeyNotFound,
    /// Any other storage error, with the text of its cause.
    Other { msg: String, source: Option<String> },
}

impl StorageError {
    /// The error carries this message and no cause.
    pub open spec fn says(self, text: Seq<char>) -> bool {
        self matches StorageError::Other { msg, source } && msg@ == text && source is None
    }

    /// The error carries this message and some cause.
    pub open spec fn wraps(self, text: Seq<char>) -> bool {
        self matches StorageError::Other { msg, source } && msg@ == text && source is Some
    }

    /// Builds an error from a message, with no underlying cause.
    pub fn other(msg: &str) -> (r: Self)
        ensures
            r.says(msg@),
    {
        StorageError::Other { msg: String::from_str(msg), source: None }
    }

    /// Builds an error that wraps an underlying cause.
    pub fn with_source(msg: &str, source: String) -> (r: Self)
        ensures
            r matches StorageError::Other { msg: text, source: cause } && text@ == msg@ && cause
                == Some(source),
    {
        StorageError::Other { msg: String::from_str(msg), source: Some(source) }
    }

    /// Prepends context while preserving the error's classification and any
    /// underlying cause.
    pub fn context(self, ctx: &str) -> (r: Self)
        ensures
            match self {
                StorageError::Unavailable(text) => r matches StorageError::Unavailable(out)
                    && out@ == ctx@ + ": "@ + text@,
                StorageError::Other { msg, source } => r matches StorageError::Other {
                    msg: out,
                    source: cause,
                } && out@ == ctx@ + ": "@ + msg@ && cause == source,
                _ => r == self,
            },
    {
        match self {
            StorageError::Unavailable(text) => StorageError::Unavailable(prefixed(ctx, &text)),
            StorageError::Other { msg, source } => StorageError::Other {
                msg: prefixed(ctx, &msg),
                source,
            },
            classified => classified,
        }
    }

    /// Returns the text of the underlying cause.
    pub fn source(&self) -> (r: Option<&String>)
        ensures
            match self {
                StorageError::Other { msg, source: Some(cause) } => r == Some(cause),
                _ => r is None,
            },
    {
        match self {
            StorageError::Other { msg: _, source } => match source {
                Some(cause) => Some(cause),
                None => None,
            },
            _ => None,
        }
    }

    /// Describes the error.
    pub fn message(&self) -> (r: String)
        ensures
            r@ == match self {
                StorageError::NotFound => "object not found"@,
                StorageError::Precondition => "precondition failed"@,
                StorageError::InvalidCursor => "invalid listing cursor"@,
                StorageError::Unavailable(text) => "storage outcome unknown (in doubt): "@ + text@,
                StorageError::KeyNotFound => "key not found in committed transaction"@,
                StorageError::Other { msg, source } => msg@,
            },
    {
        match self {
            StorageError::NotFound => String::from_str("object not found"),
            StorageError::Precondition => String::from_str("precondition failed"),
            StorageError::InvalidCursor => String::from_str("invalid listing cursor"),
            StorageError::Unavailable(text) => {
                let mut r = String::from_str("storage outcome unknown (in doubt): ");
                r.append(text.as_str());
                r
            },
            StorageError::KeyNotFound => String::from_str("key not found in committed transaction"),
            StorageError::Other { msg, source: _ } => String::from_str(msg.as_str()),
        }
    }
}

/// Joins context and text with a colon.
fn prefixed(ctx: &str, text: &String) -> (r: String)
    ensures
        r@ == ctx@ + ": "@ + text@,
{
    let mut r = String::from_str(ctx);
    r.append(": ");
    r.append(text.as_str());
    r
}

/// What a backend error means to the storage layer.
pub open spec fn storage_error(e: BackendError) -> StorageError {
    match e {
        BackendError::NotFound => StorageError::NotFound,
        BackendError::Precondition => StorageError::Precondition,
        BackendError::InvalidCursor => StorageError::InvalidCursor,
        BackendError::Unavailable(text) => StorageError::Unavailable(text),
        BackendError::Other { msg, source } => StorageError::Other { msg, source },
    }
}

impl From<BackendError> for StorageError {
    fn from(e: BackendError) -> (r: Self) {
        match e {
            BackendError::NotFound => StorageError::NotFound,
            BackendError::Precondition => StorageError::Precondition,
            BackendError::InvalidCursor => StorageError::InvalidCursor,
            BackendError::Unavailable(text) => StorageError::Unavailable(text),
            BackendError::Other { msg, source } => StorageError::Other { msg, source },
        }
    }
}

impl vstd::std_specs::convert::FromSpecImpl<BackendError> for StorageError {
    open spec fn obeys_from_spec() -> bool {
        true
    }

    open spec fn from_spec(e: BackendError) -> Self {
        storage_error(e)
    }
}

/// Law: a backend's error stays what it is on its way up, with its words.
pub proof fn law_backend_errors_keep_their_kind(e: BackendError)
    ensures
        e is NotFound <==> storage_error(e) is NotFound,
        e is Precondition <==> storage_error(e) is Precondition,
        e is InvalidCursor <==> storage_error(e) is InvalidCursor,
        e matches BackendError::Unavailable(text) ==> storage_error(e)
            == StorageError::Unavailable(text),
        e matches BackendError::Other { msg, source } ==> storage_error(e) == (StorageError::Other {
            msg,
            source,
        }),
{
}

} // verus!
