//! What can go wrong.

use crate::component::copy_bytes;
use vstd::prelude::*;

verus! {

/// The ways in which a call can fail.
#[derive(Clone, Copy, Debug, PartialEq, Eq, Structural)]
pub enum ErrorKind {
    /// The path begins with a prefix that is neither a drive nor a verbatim
    /// drive.
    InvalidPath,
    /// The path is rooted but names no drive, and the current directory
    /// names none either.
    DriveResolution,
    /// The current directory was needed and could not be had.
    CurrentDirUnavailable,
    /// The path is not valid UTF-8.
    InvalidUnicode,
    /// The system clock stands before the start of the epoch.
    ClockBeforeEpoch,
}

/// A failure, with the path that was being worked on (empty where the call
/// had none).
#[derive(Debug, PartialEq, Eq)]
pub struct Error {
    pub kind: ErrorKind,
    pub path: Vec<u8>,
}

impl Clone for Error {
    fn clone(&self) -> (r: Self)
        ensures
            r.kind == self.kind,
            r.path@ == self.path@,
    {
        Error { kind: self.kind, path: copy_bytes(self.path.as_slice()) }
    }
}

} // verus!
