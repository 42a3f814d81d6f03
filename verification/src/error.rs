//! Error types shared by the command layer and the storage backends.

use vstd::prelude::*;

verus! {

/// The flavour of an I/O failure, as the command layer distinguishes them.
///
/// The surrounding program maps the platform's error condition onto one of
/// these plain variants before handing it to the library.
#[derive(Debug, Clone, Copy, PartialEq, Eq, Structural)]
pub enum IoKind {
    NotFound,
    BrokenPipe,
    ConnectionRefused,
    ConnectionAborted,
    NotConnected,
    AddrInUse,
    AddrNotAvailable,
    Other,
}

/// What went wrong while running a command.
#[derive(Debug, Clone)]
pub enum ErrorKind {
    IO(IoKind),
    InvalidArg(String),
    InvalidCommand(String),
    JSON,
}

/// Mathematical model of an [`ErrorKind`].
pub enum ErrorKindModel {
    IO(IoKind),
    InvalidArg(Seq<char>),
    InvalidCommand(Seq<char>),
    JSON,
}

impl View for ErrorKind {
    type V = ErrorKindModel;

    open spec fn view(&self) -> ErrorKindModel {
        match self {
            ErrorKind::IO(k) => ErrorKindModel::IO(*k),
            ErrorKind::InvalidArg(s) => ErrorKindModel::InvalidArg(s@),
            ErrorKind::InvalidCommand(s) => ErrorKindModel::InvalidCommand(s@),
            ErrorKind::JSON => ErrorKindModel::JSON,
        }
    }
}

/// A command-layer error: a kind plus a human-readable message.
#[derive(Debug, Clone)]
pub struct Error {
    kind: ErrorKind,
    message: String,
}

/// Mathematical model of an [`Error`].
pub struct ErrorModel {
    pub kind: ErrorKindModel,
    pub message: Seq<char>,
}

impl View for Error {
    type V = ErrorModel;

    closed spec fn view(&self) -> ErrorModel {
        ErrorModel { kind: self.kind@, message: self.message@ }
    }
}

impl Error {
    /// Build an error from a kind and a message.
    pub fn new(kind: ErrorKind, msg: &str) -> (r: Error)
        ensures
            r@.kind == kind@,
            r@.message == msg@,
    {
        Error { kind, message: msg.to_owned() }
    }

    /// The kind of this error.
    pub fn kind(&self) -> (r: ErrorKind)
        ensures
            r@ == self@.kind,
    {
        match &self.kind {
            ErrorKind::IO(k) => ErrorKind::IO(*k),
            ErrorKind::InvalidArg(s) => ErrorKind::InvalidArg(s.clone()),
            ErrorKind::InvalidCommand(s) => ErrorKind::InvalidCommand(s.clone()),
            ErrorKind::JSON => ErrorKind::JSON,
        }
    }

    /// Whether the error may be silently ignored: only a broken pipe is.
    pub fn ignoreable(&self) -> (r: bool)
        ensures
            r == (self@.kind == ErrorKindModel::IO(IoKind::BrokenPipe)),
    {
        match &self.kind {
            ErrorKind::IO(IoKind::BrokenPipe) => true,
            _ => false,
        }
    }

    /// The process exit code that this error calls for.
    pub fn code(&self) -> (r: i32)
        ensures
            r == spec_code(self@.kind),
    {
        match &self.kind {
            ErrorKind::IO(_) => 126,
            ErrorKind::InvalidArg(_) => 128,
            ErrorKind::InvalidCommand(_) => 127,
            ErrorKind::JSON => 1,
        }
    }

    /// The message this error carries.
    pub fn message(&self) -> (r: &str)
        ensures
            r@ == self@.message,
    {
        self.message.as_str()
    }
}

/// The exit code assigned to each error kind.
pub open spec fn spec_code(kind: ErrorKindModel) -> i32 {
    match kind {
        ErrorKindModel::IO(_) => 126,
        ErrorKindModel::InvalidArg(_) => 128,
        ErrorKindModel::InvalidCommand(_) => 127,
        ErrorKindModel::JSON => 1,
    }
}

/// What went wrong in a storage backend.
#[derive(Debug, Clone)]
pub enum BackendError {
    NotFound,
    Serialization(String),
    Network(String),
    IO(String),
    Other(String),
}

/// Mathematical model of a [`BackendError`].
pub enum BackendErrorModel {
    NotFound,
    Serialization(Seq<char>),
    Network(Seq<char>),
    IO(Seq<char>),
    Other(Seq<char>),
}

impl View for BackendError {
    type V = BackendErrorModel;

    open spec fn view(&self) -> BackendErrorModel {
        match self {
            BackendError::NotFound => BackendErrorModel::NotFound,
            BackendError::Serialization(s) => BackendErrorModel::Serialization(s@),
            BackendError::Network(s) => BackendErrorModel::Network(s@),
            BackendError::IO(s) => BackendErrorModel::IO(s@),
            BackendError::Other(s) => BackendErrorModel::Other(s@),
        }
    }
}

/// Whether an I/O failure of this kind counts as a network failure.
pub open spec fn spec_is_network(kind: IoKind) -> bool {
    match kind {
        IoKind::ConnectionRefused => true,
        IoKind::ConnectionAborted => true,
        IoKind::NotConnected => true,
        IoKind::AddrInUse => true,
        IoKind::AddrNotAvailable => true,
        _ => false,
    }
}

impl BackendError {
    /// Classify an I/O failure: connection-level failures become `Network`,
    /// everything else stays `IO`.
    pub fn from_io(kind: IoKind, msg: String) -> (r: BackendError)
        ensures
            spec_is_network(kind) ==> r@ == BackendErrorModel::Network(msg@),
            !spec_is_network(kind) ==> r@ == BackendErrorModel::IO(msg@),
    {
        match kind {
            IoKind::ConnectionRefused => BackendError::Network(msg),
            IoKind::ConnectionAborted => BackendError::Network(msg),
            IoKind::NotConnected => BackendError::Network(msg),
            IoKind::AddrInUse => BackendError::Network(msg),
            IoKind::AddrNotAvailable => BackendError::Network(msg),
            _ => BackendError::IO(msg),
        }
    }

    /// Wrap a free-form message.
    pub fn other(msg: &str) -> (r: BackendError)
        ensures
            r@ == BackendErrorModel::Other(msg@),
    {
        BackendError::Other(msg.to_owned())
    }
}

} // verus!
