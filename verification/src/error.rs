//! The failures this library reports.
use vstd::prelude::*;
use crate::text::concat;

verus! {

/// A typed failure. None of them is fatal: each names one note, file or
/// window that could not be handled while the rest goes on.
#[derive(Debug)]
pub enum BlinkError {
    /// A file could not be read or written.
    Io(String),
    /// A metadata block is malformed.
    Serialization(String),
    /// A note or window that was referred to does not exist.
    NotFound(String),
    /// A window is already open for the note, or a position is taken.
    Conflict(String),
    /// A call into the windowing system failed.
    HostRuntime(String),
    /// The storage directory or index could not be used.
    Storage(String),
}

impl BlinkError {
    /// The text that goes with the failure.
    pub open spec fn detail(self) -> Seq<char> {
        match self {
            BlinkError::Io(m) => m@,
            BlinkError::Serialization(m) => m@,
            BlinkError::NotFound(m) => m@,
            BlinkError::Conflict(m) => m@,
            BlinkError::HostRuntime(m) => m@,
            BlinkError::Storage(m) => m@,
        }
    }

    /// The words that introduce each kind of failure.
    pub open spec fn prefix(self) -> Seq<char> {
        match self {
            BlinkError::Io(_) => "IO error: "@,
            BlinkError::Serialization(_) => "Serialization error: "@,
            BlinkError::NotFound(_) => "Not found: "@,
            BlinkError::Conflict(_) => "Conflict: "@,
            BlinkError::HostRuntime(_) => "Window error: "@,
            BlinkError::Storage(_) => "Storage error: "@,
        }
    }

    /// The failure as one line of text: its kind, then its detail.
    pub fn message(&self) -> (text: String)
        ensures
            text@ == self.prefix() + self.detail(),
    {
        match self {
            BlinkError::Io(m) => concat("IO error: ", m.as_str()),
            BlinkError::Serialization(m) => concat("Serialization error: ", m.as_str()),
            BlinkError::NotFound(m) => concat("Not found: ", m.as_str()),
            BlinkError::Conflict(m) => concat("Conflict: ", m.as_str()),
            BlinkError::HostRuntime(m) => concat("Window error: ", m.as_str()),
            BlinkError::Storage(m) => concat("Storage error: ", m.as_str()),
        }
    }
}

} // verus!
