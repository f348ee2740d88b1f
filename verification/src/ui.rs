//! The errors that the library reports.
use vstd::prelude::*;

verus! {

/// The kind of a file-system error.
#[derive(Debug, Clone, Copy, PartialEq, Eq, Structural)]
pub enum IoKind {
    NotFound,
    AlreadyExists,
    InvalidInput,
    UnexpectedEof,
}

/// Errors of the version-control operations.
#[derive(Debug)]
pub enum Errors {
    /// A stored record could not be decoded.
    ErrSerde(String),
    /// A file-system operation failed.
    ErrIo(IoKind, String),
    /// A command-line error.
    ErrSys(String),
    /// An error with a composed message.
    ErrStr(String),
    /// An error with a fixed message.
    Errstatic(&'static str),
    ErrUnknown,
}

} // verus!

verus! {

/// What a contract tells of an error: its kind, and the message of a fixed
/// or composed message.
pub enum ErrV {
    Serde,
    Io(IoKind),
    Sys,
    Str(Seq<char>),
    Static(Seq<char>),
    Unknown,
}

/// The view of an error.
pub open spec fn err_v(e: Errors) -> ErrV {
    match e {
        Errors::ErrSerde(_) => ErrV::Serde,
        Errors::ErrIo(k, _) => ErrV::Io(k),
        Errors::ErrSys(_) => ErrV::Sys,
        Errors::ErrStr(s) => ErrV::Str(s@),
        Errors::Errstatic(s) => ErrV::Static(s@),
        Errors::ErrUnknown => ErrV::Unknown,
    }
}

/// The view of a result without a value.
pub open spec fn unit_v(r: Result<(), Errors>) -> Result<(), ErrV> {
    match r {
        Ok(_) => Ok(()),
        Err(e) => Err(err_v(e)),
    }
}

/// The view of a result with a string.
pub open spec fn str_v(r: Result<String, Errors>) -> Result<Seq<char>, ErrV> {
    match r {
        Ok(s) => Ok(s@),
        Err(e) => Err(err_v(e)),
    }
}

/// A file-system error as a contract sees it.
pub open spec fn io_e<T>(k: IoKind) -> Result<T, ErrV> {
    Err(ErrV::Io(k))
}

/// A fixed-message error as a contract sees it.
pub open spec fn static_e<T>(s: &'static str) -> Result<T, ErrV> {
    Err(ErrV::Static(s@))
}

} // verus!
