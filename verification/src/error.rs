//! The error that ends a stream.

use vstd::prelude::*;

verus! {

/// The category of an error, with the names that `std::io` gives them.
#[derive(Clone, Copy, Debug, PartialEq, Eq, Structural)]
pub enum ErrorKind {
    NotFound,
    PermissionDenied,
    ConnectionRefused,
    ConnectionReset,
    HostUnreachable,
    NetworkUnreachable,
    ConnectionAborted,
    NotConnected,
    AddrInUse,
    AddrNotAvailable,
    NetworkDown,
    BrokenPipe,
    AlreadyExists,
    WouldBlock,
    NotADirectory,
    IsADirectory,
    DirectoryNotEmpty,
    ReadOnlyFilesystem,
    StaleNetworkFileHandle,
    InvalidInput,
    InvalidData,
    TimedOut,
    WriteZero,
    StorageFull,
    NotSeekable,
    QuotaExceeded,
    FileTooLarge,
    ResourceBusy,
    ExecutableFileBusy,
    Deadlock,
    CrossesDevices,
    TooManyLinks,
    InvalidFilename,
    ArgumentListTooLong,
    Interrupted,
    Unsupported,
    UnexpectedEof,
    OutOfMemory,
    Other,
}

/// What a [`UdxError`] stands for: its category and its text.
pub struct ErrorModel {
    pub kind: ErrorKind,
    pub reason: Seq<char>,
}

impl ErrorModel {
    /// The error of a stream that was closed on this side.
    pub open spec fn close_graceful() -> ErrorModel {
        ErrorModel { kind: ErrorKind::ConnectionReset, reason: ""@ }
    }

    /// The error of a stream that the remote has closed.
    pub open spec fn closed_by_remote() -> ErrorModel {
        ErrorModel { kind: ErrorKind::UnexpectedEof, reason: ""@ }
    }

    /// The error of bytes that do not start with a packet header.
    pub open spec fn bad_header() -> ErrorModel {
        ErrorModel { kind: ErrorKind::InvalidData, reason: "Bad header"@ }
    }

    /// The error of a packet that stayed unacknowledged for too long.
    pub open spec fn retransmits_exhausted() -> ErrorModel {
        ErrorModel { kind: ErrorKind::TimedOut, reason: "Max retransmits reached without ack"@ }
    }

    /// The error of a stream whose socket is gone.
    pub open spec fn driver_dropped() -> ErrorModel {
        ErrorModel { kind: ErrorKind::BrokenPipe, reason: "Socket driver future was dropped"@ }
    }
}

/// Why a stream ended.
#[derive(Debug, PartialEq, Eq)]
pub struct UdxError {
    kind: ErrorKind,
    reason: String,
}

impl View for UdxError {
    type V = ErrorModel;

    closed spec fn view(&self) -> ErrorModel {
        ErrorModel { kind: self.kind, reason: self.reason@ }
    }
}

impl Clone for UdxError {
    fn clone(&self) -> (copy: Self)
        ensures
            copy@ == self@,
    {
        UdxError { kind: self.kind, reason: self.reason.clone() }
    }
}

impl UdxError {
    pub fn new(kind: ErrorKind, reason: &str) -> (error: Self)
        ensures
            error@ == (ErrorModel { kind, reason: reason@ }),
    {
        UdxError { kind, reason: reason.to_owned() }
    }

    /// The error that a stream reports after it was closed on this side.
    pub fn close_graceful() -> (error: Self)
        ensures
            error@ == ErrorModel::close_graceful(),
    {
        UdxError::new(ErrorKind::ConnectionReset, "")
    }

    /// The error that a stream reports after the remote has closed it.
    pub fn closed_by_remote() -> (error: Self)
        ensures
            error@ == ErrorModel::closed_by_remote(),
    {
        UdxError::new(ErrorKind::UnexpectedEof, "")
    }

    /// Whether this is the error of a stream that was closed on this side.
    pub fn is_close_graceful(&self) -> (graceful: bool)
        ensures
            graceful == (self@ == ErrorModel::close_graceful()),
    {
        proof {
            reveal_strlit("");
            assert(self.reason@.len() == 0 ==> self.reason@ =~= ""@);
        }
        self.kind == ErrorKind::ConnectionReset && self.reason.as_str().is_empty()
    }

    pub fn kind(&self) -> (kind: ErrorKind)
        ensures
            kind == self@.kind,
    {
        self.kind
    }

    pub fn reason(&self) -> (reason: &str)
        ensures
            reason@ == self@.reason,
    {
        self.reason.as_str()
    }
}

} // verus!
