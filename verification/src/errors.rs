//! The error taxonomy of the core. Startup errors (tag table, keymap
//! resolution) are meant to abort before the event loop; per-event errors
//! are recovered locally by the caller.

use vstd::prelude::*;

verus! {

/// Everything a core operation can refuse to do.
#[derive(Clone, Copy, PartialEq, Eq, Structural, Debug)]
pub enum WmError {
    /// The window handle is already tracked.
    DuplicateWindow,
    /// The window handle is not tracked.
    UnknownWindow,
    /// No workspace carries the given tag name.
    InvalidTagName,
    /// A key-chord could not be parsed or its keysym resolved at startup.
    KeymapResolutionFailure,
    /// The transport layer failed; passed through opaquely by the shell.
    TransportError,
}

impl WmError {
    /// A short diagnostic name, for the shell's logging.
    pub fn describe(&self) -> (r: &'static str)
        ensures
            (*self is DuplicateWindow) ==> r@ == "duplicate window"@,
            (*self is UnknownWindow) ==> r@ == "unknown window"@,
            (*self is InvalidTagName) ==> r@ == "invalid tag name"@,
            (*self is KeymapResolutionFailure) ==> r@ == "keymap resolution failure"@,
            (*self is TransportError) ==> r@ == "transport error"@,
    {
        match self {
            WmError::DuplicateWindow => "duplicate window",
            WmError::UnknownWindow => "unknown window",
            WmError::InvalidTagName => "invalid tag name",
            WmError::KeymapResolutionFailure => "keymap resolution failure",
            WmError::TransportError => "transport error",
        }
    }
}

} // verus!
