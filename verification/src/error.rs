//! Failures as plain values: a kind, the system's code where there is one, and a message.
use vstd::prelude::*;

verus! {

/// The kinds of failure that std tells apart.
#[derive(Clone, Copy, Debug, PartialEq, Eq, Structural)]
pub enum ErrorKind {
    NotFound,
    PermissionDenied,
    ConnectionRefused,
    ConnectionReset,
    HostUnreachable,
    NetworkUnreachable,
    ConnectionAborted,
    NotConnected,
    AddrInUse,
    AddrNotAvailable,
    NetworkDown,
    BrokenPipe,
    AlreadyExists,
    WouldBlock,
    NotADirectory,
    IsADirectory,
    DirectoryNotEmpty,
    ReadOnlyFilesystem,
    StaleNetworkFileHandle,
    InvalidInput,
    InvalidData,
    TimedOut,
    WriteZero,
    StorageFull,
    NotSeekable,
    QuotaExceeded,
    FileTooLarge,
    ResourceBusy,
    ExecutableFileBusy,
    Deadlock,
    CrossesDevices,
    TooManyLinks,
    InvalidFilename,
    ArgumentListTooLong,
    Interrupted,
    Unsupported,
    UnexpectedEof,
    OutOfMemory,
    Other,
    /// A kind that has no public name; the operating system's error code tells which it is.
    Unnamed(i32),
}

#[derive(Debug, PartialEq, Eq)]
pub struct Error {
    pub kind: ErrorKind,
    /// The operating system's error code, if it reported the failure.
    pub os_code: Option<i32>,
    pub message: String,
}

impl Clone for Error {
    fn clone(&self) -> (r: Error)
        ensures
            r == *self,
    {
        Error { kind: self.kind, os_code: self.os_code, message: self.message.clone() }
    }
}

impl Error {
    /// Whether this is a failure of this crate's making with the given kind and message.
    pub open spec fn says(self, kind: ErrorKind, message: Seq<char>) -> bool {
        self.kind == kind && self.os_code is None && self.message@ == message
    }

    pub fn new(kind: ErrorKind, message: String) -> (r: Error)
        ensures
            r.says(kind, message@),
    {
        Error { kind, os_code: None, message }
    }
}

} // verus!
