//! The errors of the store and of its front-ends.
use vstd::prelude::*;

verus! {

/// The kinds of failure that the store and its front-ends report.
#[derive(Debug)]
pub enum KvsError {
    /// A file or network operation failed.
    Io { message: String },
    /// A record on disk or a message on the wire could not be decoded.
    Serde { message: String },
    /// The wall clock stands before the Unix epoch.
    SystemTime,
    /// `remove` was asked for a key that is not bound.
    KeyNotFound { key: String },
    /// A command line named an unknown verb or had the wrong arity.
    UnexpectedCommand { command: String },
    /// Any other failure.
    Other { message: String },
}

/// Result of the store's operations.
pub type Result<T> = std::result::Result<T, KvsError>;

/// The message that names each kind of failure.
pub open spec fn error_text(e: KvsError) -> Seq<char> {
    match e {
        KvsError::Io { .. } => "io error"@,
        KvsError::Serde { .. } => "json serde error"@,
        KvsError::SystemTime => "system time error"@,
        KvsError::KeyNotFound { .. } => "Key not found"@,
        KvsError::UnexpectedCommand { .. } => "unexpected command"@,
        KvsError::Other { message } => message@,
    }
}

impl KvsError {
    /// The message that names this failure.
    pub fn message(&self) -> (r: String)
        ensures
            r@ == error_text(*self),
    {
        match self {
            KvsError::Io { .. } => "io error".to_owned(),
            KvsError::Serde { .. } => "json serde error".to_owned(),
            KvsError::SystemTime => "system time error".to_owned(),
            KvsError::KeyNotFound { .. } => "Key not found".to_owned(),
            KvsError::UnexpectedCommand { .. } => "unexpected command".to_owned(),
            KvsError::Other { message } => message.clone(),
        }
    }
}

} // verus!
