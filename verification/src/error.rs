//! Typed error variants for bm-complete.
//!
//! Failures of storage backends, I/O and JSON handling are carried as their
//! messages, so that every layer of the library can hold and pass them on.
use vstd::prelude::*;
use crate::text::string_of;
use crate::text::chars_of;
use crate::text::join2;

verus! {

/// Typed error enum covering all failure modes in bm-complete.
#[derive(Debug, Clone, PartialEq, Eq)]
#[non_exhaustive]
pub enum BmError {
    /// A lock was poisoned (a thread panicked while holding it).
    MutexPoisoned { context: String, source: String },
    /// Storage backend failure, with the backend's message.
    Database(String),
    /// Filesystem I/O failure, with the system's message.
    Io(String),
    /// JSON serialization / deserialization failure, with its message.
    Json(String),
    /// Configuration loading / parsing failure.
    Config(String),
}

/// The text shown for an error: `"{context} mutex poisoned: {source}"`,
/// `"configuration error: {0}"`, and the carried message for the others.
pub open spec fn error_text(e: BmError) -> Seq<char> {
    match e {
        BmError::MutexPoisoned { context, source } => context@ + " mutex poisoned: "@ + source@,
        BmError::Database(m) => m@,
        BmError::Io(m) => m@,
        BmError::Json(m) => m@,
        BmError::Config(m) => "configuration error: "@ + m@,
    }
}

impl BmError {
    /// Construct a [`BmError::MutexPoisoned`] from the lock's context and the
    /// poison error's message.
    pub fn mutex_poisoned(context: &str, message: &str) -> (r: Self)
        ensures
            r matches BmError::MutexPoisoned { context: c, source: s } && c@ == context@ && s@
                == message@,
    {
        BmError::MutexPoisoned { context: context.to_owned(), source: message.to_owned() }
    }

    /// The error's message, as its `Display` shows it.
    pub fn message(&self) -> (r: String)
        ensures
            r@ == error_text(*self),
    {
        match self {
            BmError::MutexPoisoned { context, source } => {
                let a = chars_of(context.as_str());
                let b = chars_of(" mutex poisoned: ");
                let c = chars_of(source.as_str());
                let ab = join2(a.as_slice(), b.as_slice());
                let abc = join2(ab.as_slice(), c.as_slice());
                string_of(abc.as_slice())
            },
            BmError::Database(m) => m.clone(),
            BmError::Io(m) => m.clone(),
            BmError::Json(m) => m.clone(),
            BmError::Config(m) => {
                let a = chars_of("configuration error: ");
                let b = chars_of(m.as_str());
                let ab = join2(a.as_slice(), b.as_slice());
                string_of(ab.as_slice())
            },
        }
    }
}

} // verus!
