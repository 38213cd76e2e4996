use vstd::prelude::*;

verus! {

/// The errors of the store.
#[derive(Debug, Clone, PartialEq, Eq)]
pub enum GfmError {
    /// Storage failed at `path`.
    Io { path: String, message: String },
    /// An archive or input is malformed.
    Format(String),
    /// The operation was cancelled.
    Cancelled,
    /// The operation was paused.
    Paused,
}

/// The text of a format error.
pub open spec fn format_error_text(e: GfmError) -> Option<Seq<char>> {
    match e {
        GfmError::Format(m) => Some(m@),
        _ => None,
    }
}

/// The text of an error: the message of a format error, the path and
/// message of a storage error.
pub open spec fn error_text(e: GfmError) -> Seq<char> {
    match e {
        GfmError::Io { path, message } => path@ + ": "@ + message@,
        GfmError::Format(m) => m@,
        GfmError::Cancelled => "operation cancelled"@,
        GfmError::Paused => "operation paused"@,
    }
}

impl GfmError {
    /// The text of the error.
    pub fn message(&self) -> (s: String)
        ensures
            s@ == error_text(*self),
    {
        match self {
            GfmError::Io { path, message } => {
                let mut s = path.clone();
                s.append(": ");
                s.append(message.as_str());
                s
            },
            GfmError::Format(m) => m.clone(),
            GfmError::Cancelled => String::from_str("operation cancelled"),
            GfmError::Paused => String::from_str("operation paused"),
        }
    }
}

} // verus!
