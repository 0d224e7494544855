//! What can go wrong while an archive is written or read.

use vstd::prelude::*;

verus! {

/// `std::io::Error`, carried through without being looked into.
#[verifier::external_type_specification]
#[verifier::external_body]
pub struct ExIoError(std::io::Error);

/// `std::string::FromUtf8Error`, carried through without being looked into.
#[verifier::external_type_specification]
#[verifier::external_body]
pub struct ExFromUtf8Error(std::string::FromUtf8Error);

/// A failure of the byte stream below the archive.
#[derive(Debug)]
pub enum IoFault {
    /// The bytes ended before the structure that was being read.
    UnexpectedEof,
    /// The stream would outgrow the 64-bit offsets of the format.
    TooLarge,
    /// The compressor, or the medium, reported this.
    Source(std::io::Error),
}

#[derive(Debug)]
pub enum Error {
    Io(IoFault),
    BadMagic,
    UnsupportedVersion { major: u16, minor: u16 },
    Corrupt(&'static str),
    IndexChecksum,
    ContentChecksum { path: String },
    InvalidPath(String),
    Utf8(std::string::FromUtf8Error),
    PasswordRequired,
    WrongPasswordOrTampered,
    Crypto(String),
}

pub type Result<T> = core::result::Result<T, Error>;

/// An [`IoFault`] without the value that the medium attached to it.
pub enum IoFaultView {
    UnexpectedEof,
    TooLarge,
    Source,
}

/// An [`Error`] as contracts speak of it: its kind and its text.
pub enum ErrorView {
    Io(IoFaultView),
    BadMagic,
    UnsupportedVersion { major: u16, minor: u16 },
    Corrupt(Seq<char>),
    IndexChecksum,
    ContentChecksum { path: Seq<char> },
    InvalidPath(Seq<char>),
    Utf8,
    PasswordRequired,
    WrongPasswordOrTampered,
    Crypto(Seq<char>),
}

impl View for IoFault {
    type V = IoFaultView;

    open spec fn view(&self) -> IoFaultView {
        match self {
            IoFault::UnexpectedEof => IoFaultView::UnexpectedEof,
            IoFault::TooLarge => IoFaultView::TooLarge,
            IoFault::Source(_) => IoFaultView::Source,
        }
    }
}

impl View for Error {
    type V = ErrorView;

    open spec fn view(&self) -> ErrorView {
        match self {
            Error::Io(fault) => ErrorView::Io(fault@),
            Error::BadMagic => ErrorView::BadMagic,
            Error::UnsupportedVersion { major, minor } => ErrorView::UnsupportedVersion {
                major: *major,
                minor: *minor,
            },
            Error::Corrupt(what) => ErrorView::Corrupt(what@),
            Error::IndexChecksum => ErrorView::IndexChecksum,
            Error::ContentChecksum { path } => ErrorView::ContentChecksum { path: path@ },
            Error::InvalidPath(what) => ErrorView::InvalidPath(what@),
            Error::Utf8(_) => ErrorView::Utf8,
            Error::PasswordRequired => ErrorView::PasswordRequired,
            Error::WrongPasswordOrTampered => ErrorView::WrongPasswordOrTampered,
            Error::Crypto(what) => ErrorView::Crypto(what@),
        }
    }
}

/// The view of an unexpected end of the bytes.
pub open spec fn eof() -> ErrorView {
    ErrorView::Io(IoFaultView::UnexpectedEof)
}

/// The view of a fault that the compressor or the medium reported.
pub open spec fn source_fault() -> ErrorView {
    ErrorView::Io(IoFaultView::Source)
}

/// The view of a stream that outgrew its offsets.
pub open spec fn too_large() -> ErrorView {
    ErrorView::Io(IoFaultView::TooLarge)
}

/// The key under which a user interface looks up the text for an error.
pub open spec fn code_of(error: ErrorView) -> Seq<char> {
    match error {
        ErrorView::Io(_) => "errIo"@,
        ErrorView::BadMagic => "errBadMagic"@,
        ErrorView::UnsupportedVersion { .. } => "errUnsupportedVersion"@,
        ErrorView::Corrupt(_) => "errCorrupt"@,
        ErrorView::IndexChecksum => "errIndexChecksum"@,
        ErrorView::ContentChecksum { .. } => "errContentChecksum"@,
        ErrorView::InvalidPath(_) => "errInvalidPath"@,
        ErrorView::Utf8 => "errUtf8"@,
        ErrorView::PasswordRequired => "errPasswordRequired"@,
        ErrorView::WrongPasswordOrTampered => "errWrongPassword"@,
        ErrorView::Crypto(_) => "errCrypto"@,
    }
}

/// The key under which a user interface looks up the text for `e`.
pub fn err_code(e: &Error) -> (code: &'static str)
    ensures
        code@ == code_of(e@),
{
    match e {
        Error::Io(_) => "errIo",
        Error::BadMagic => "errBadMagic",
        Error::UnsupportedVersion { .. } => "errUnsupportedVersion",
        Error::Corrupt(_) => "errCorrupt",
        Error::IndexChecksum => "errIndexChecksum",
        Error::ContentChecksum { .. } => "errContentChecksum",
        Error::InvalidPath(_) => "errInvalidPath",
        Error::Utf8(_) => "errUtf8",
        Error::PasswordRequired => "errPasswordRequired",
        Error::WrongPasswordOrTampered => "errWrongPassword",
        Error::Crypto(_) => "errCrypto",
    }
}

/// Each error has a code of its own, whatever it carries.
pub proof fn law_codes(e: Error, code: &'static str)
    requires
        call_ensures(err_code, (&e,), code),
    ensures
        e is Io ==> code@ == "errIo"@,
        e is BadMagic ==> code@ == "errBadMagic"@,
        e is UnsupportedVersion ==> code@ == "errUnsupportedVersion"@,
        e is Corrupt ==> code@ == "errCorrupt"@,
        e is IndexChecksum ==> code@ == "errIndexChecksum"@,
        e is ContentChecksum ==> code@ == "errContentChecksum"@,
        e is InvalidPath ==> code@ == "errInvalidPath"@,
        e is Utf8 ==> code@ == "errUtf8"@,
        e is PasswordRequired ==> code@ == "errPasswordRequired"@,
        e is WrongPasswordOrTampered ==> code@ == "errWrongPassword"@,
        e is Crypto ==> code@ == "errCrypto"@,
{
}

/// The three faults that contracts name are three different ones.
pub proof fn law_named_faults()
    ensures
        eof() == ErrorView::Io(IoFaultView::UnexpectedEof),
        source_fault() == ErrorView::Io(IoFaultView::Source),
        too_large() == ErrorView::Io(IoFaultView::TooLarge),
        eof() != source_fault() && eof() != too_large() && source_fault() != too_large(),
{
}

/// An error is told as what it is, with the text or the numbers that it carries.
pub proof fn law_error_is_told_as_it_is(e: Error)
    ensures
        match e {
            Error::Io(IoFault::UnexpectedEof) => e@ == ErrorView::Io(IoFaultView::UnexpectedEof),
            Error::Io(IoFault::TooLarge) => e@ == ErrorView::Io(IoFaultView::TooLarge),
            Error::Io(IoFault::Source(_)) => e@ == ErrorView::Io(IoFaultView::Source),
            Error::BadMagic => e@ is BadMagic,
            Error::UnsupportedVersion { major, minor } => e@ == (ErrorView::UnsupportedVersion {
                major,
                minor,
            }),
            Error::Corrupt(what) => e@ == ErrorView::Corrupt(what@),
            Error::IndexChecksum => e@ is IndexChecksum,
            Error::ContentChecksum { path } => e@ == (ErrorView::ContentChecksum { path: path@ }),
            Error::InvalidPath(what) => e@ == ErrorView::InvalidPath(what@),
            Error::Utf8(_) => e@ is Utf8,
            Error::PasswordRequired => e@ is PasswordRequired,
            Error::WrongPasswordOrTampered => e@ is WrongPasswordOrTampered,
            Error::Crypto(what) => e@ == ErrorView::Crypto(what@),
        },
{
}

} // verus!
