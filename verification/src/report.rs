//! What a user is told when something goes wrong.

use crate::error;
use crate::error::{err_code, Error, ErrorView, IoFault, IoFaultView};
use crate::text::{decimal, joined};
use crate::text;
use vstd::prelude::*;

verus! {

/// The text of an error; none is fixed for one that the compressor or the
/// medium reported.
pub open spec fn message_of(e: ErrorView) -> Option<Seq<char>> {
    match e {
        ErrorView::Io(IoFaultView::UnexpectedEof) => Some(
            "io error: "@ + "failed to fill whole buffer"@,
        ),
        ErrorView::Io(IoFaultView::TooLarge) => Some(
            "io error: "@ + "archive exceeds 64-bit offsets"@,
        ),
        ErrorView::Io(IoFaultView::Source) => None,
        ErrorView::BadMagic => Some("not a hangar archive (bad magic)"@),
        ErrorView::UnsupportedVersion { major, minor } => Some(
            "unsupported archive version "@ + text::decimal_text(major as nat) + "."@
                + text::decimal_text(minor as nat) + " (this build supports 1.x)"@,
        ),
        ErrorView::Corrupt(what) => Some("archive is truncated or corrupted: "@ + what),
        ErrorView::IndexChecksum => Some("index checksum mismatch"@),
        ErrorView::ContentChecksum { path } => Some(
            "entry content checksum mismatch for "@ + path,
        ),
        ErrorView::InvalidPath(what) => Some("invalid path: "@ + what),
        ErrorView::Utf8 => Some("invalid utf-8 in archive metadata"@),
        ErrorView::PasswordRequired => Some("archive is encrypted; a password is required"@),
        ErrorView::WrongPasswordOrTampered => Some(
            "wrong password, or the archive has been tampered with"@,
        ),
        ErrorView::Crypto(what) => Some("crypto error: "@ + what),
    }
}

/// The text of an error.
pub fn message(e: &Error) -> (res: String)
    ensures
        message_of(e@) matches Some(fixed) ==> res@ == fixed,
        e@ is Io ==> "io error: "@.is_prefix_of(res@),
{
    match e {
        Error::Io(IoFault::UnexpectedEof) => joined("io error: ", "failed to fill whole buffer"),
        Error::Io(IoFault::TooLarge) => joined("io error: ", "archive exceeds 64-bit offsets"),
        Error::Io(IoFault::Source(source)) => joined("io error: ", source.to_string().as_str()),
        Error::BadMagic => String::from_str("not a hangar archive (bad magic)"),
        Error::UnsupportedVersion { major, minor } => {
            let mut res = joined("unsupported archive version ", decimal(*major as u64).as_str());
            res.append(".");
            res.append(decimal(*minor as u64).as_str());
            res.append(" (this build supports 1.x)");
            res
        },
        Error::Corrupt(what) => joined("archive is truncated or corrupted: ", what),
        Error::IndexChecksum => String::from_str("index checksum mismatch"),
        Error::ContentChecksum { path } => joined(
            "entry content checksum mismatch for ",
            path.as_str(),
        ),
        Error::InvalidPath(what) => joined("invalid path: ", what.as_str()),
        Error::Utf8(_) => String::from_str("invalid utf-8 in archive metadata"),
        Error::PasswordRequired => String::from_str(
            "archive is encrypted; a password is required",
        ),
        Error::WrongPasswordOrTampered => String::from_str(
            "wrong password, or the archive has been tampered with",
        ),
        Error::Crypto(what) => joined("crypto error: ", what.as_str()),
    }
}

/// An error as a user interface gets it: `code` is looked up in its table of
/// texts, `message` is what it falls back on.
#[derive(Debug)]
pub struct ErrorPayload {
    pub code: String,
    pub message: String,
}

impl ErrorPayload {
    /// An error that the table of texts does not know.
    pub fn generic(msg: String) -> (p: Self)
        ensures
            p.code@ == "errGeneric"@,
            p.message == msg,
    {
        ErrorPayload { code: String::from_str("errGeneric"), message: msg }
    }

    /// An error with a code of its own.
    pub fn coded(code: &str, msg: String) -> (p: Self)
        ensures
            p.code@ == code@,
            p.message == msg,
    {
        ErrorPayload { code: String::from_str(code), message: msg }
    }

    /// What is reported of an error of this library.
    pub fn of(e: &Error) -> (p: Self)
        ensures
            p.code@ == error::code_of(e@),
            message_of(e@) matches Some(fixed) ==> p.message@ == fixed,
            e@ is Io ==> "io error: "@.is_prefix_of(p.message@),
    {
        ErrorPayload { code: String::from_str(err_code(e)), message: message(e) }
    }

    /// What is reported of an operation that the user cancelled.
    pub fn cancelled() -> (p: Self)
        ensures
            p.is_cancelled(),
    {
        ErrorPayload::coded("errCancelled", String::from_str("operation cancelled"))
    }

    /// Whether this is what is reported of a cancelled operation.
    pub open spec fn is_cancelled(self) -> bool {
        self.code@ == "errCancelled"@ && self.message@ == "operation cancelled"@
    }

    /// What is reported where an archive is to be made and `shown` is there
    /// already.
    pub fn already_exists(shown: &str) -> (p: Self)
        ensures
            p.code@ == "errAlreadyExists"@,
            p.message@ == shown@ + " already exists"@,
    {
        ErrorPayload::coded("errAlreadyExists", joined(shown, " already exists"))
    }
}

/// What is reported of making an archive: a failure while a cancel was asked
/// for counts as cancelled, a success stays one.
pub fn compress_outcome<T>(
    result: core::result::Result<T, ErrorPayload>,
    cancelled: bool,
) -> (res: core::result::Result<T, ErrorPayload>)
    ensures
        if cancelled && result is Err {
            res matches Err(p) && p.is_cancelled()
        } else {
            res == result
        },
{
    match result {
        Ok(value) => Ok(value),
        Err(payload) => if cancelled {
            Err(ErrorPayload::cancelled())
        } else {
            Err(payload)
        },
    }
}

/// What is reported of extracting an archive: once a cancel was asked for it
/// counts as cancelled, however it ended.
pub fn extract_outcome<T>(
    result: core::result::Result<T, ErrorPayload>,
    cancelled: bool,
) -> (res: core::result::Result<T, ErrorPayload>)
    ensures
        if cancelled {
            res matches Err(p) && p.is_cancelled()
        } else {
            res == result
        },
{
    if cancelled {
        Err(ErrorPayload::cancelled())
    } else {
        result
    }
}

/// Whether what was written is to be removed: a half-written archive is of no
/// use.
pub fn must_remove(failed: bool, exists: bool) -> (res: bool)
    ensures
        res == (failed && exists),
{
    failed && exists
}

/// An error is told in its own words, with all that it carries: the path, the
/// version, or what went wrong.
pub proof fn law_messages(e: Error, res: String)
    requires
        call_ensures(message, (&e,), res),
    ensures
        match e {
            Error::Io(IoFault::UnexpectedEof) => res@ == "io error: "@
                + "failed to fill whole buffer"@,
            Error::Io(IoFault::TooLarge) => res@ == "io error: "@
                + "archive exceeds 64-bit offsets"@,
            Error::Io(IoFault::Source(_)) => res@.len() >= "io error: "@.len() && res@.take(
                "io error: "@.len() as int,
            ) == "io error: "@,
            Error::BadMagic => res@ == "not a hangar archive (bad magic)"@,
            Error::UnsupportedVersion { .. } => true,
            Error::Corrupt(what) => res@ == "archive is truncated or corrupted: "@ + what@,
            Error::IndexChecksum => res@ == "index checksum mismatch"@,
            Error::ContentChecksum { path } => res@ == "entry content checksum mismatch for "@
                + path@,
            Error::InvalidPath(what) => res@ == "invalid path: "@ + what@,
            Error::Utf8(_) => res@ == "invalid utf-8 in archive metadata"@,
            Error::PasswordRequired => res@ == "archive is encrypted; a password is required"@,
            Error::WrongPasswordOrTampered => res@
                == "wrong password, or the archive has been tampered with"@,
            Error::Crypto(what) => res@ == "crypto error: "@ + what@,
        },
{
    if e is Io {
        assert(res@.take("io error: "@.len() as int) =~= "io error: "@);
    }
}

/// A version that is not supported is told with both of its numbers.
pub proof fn law_version_message(
    major: u16,
    minor: u16,
    res: String,
    major_text: String,
    minor_text: String,
)
    requires
        call_ensures(message, (&Error::UnsupportedVersion { major, minor },), res),
        call_ensures(decimal, (major as u64,), major_text),
        call_ensures(decimal, (minor as u64,), minor_text),
    ensures
        res@ == "unsupported archive version "@ + major_text@ + "."@ + minor_text@
            + " (this build supports 1.x)"@,
{
}

/// What is reported of an error has the code and the message of that error.
pub proof fn law_payload_of_error(e: Error, p: ErrorPayload, code: &'static str, text: String)
    requires
        call_ensures(ErrorPayload::of, (&e,), p),
        call_ensures(err_code, (&e,), code),
        call_ensures(message, (&e,), text),
    ensures
        p.code@ == code@,
        !(e matches Error::Io(IoFault::Source(_))) ==> p.message@ == text@,
{
}

/// What is reported by code and text is reported as given.
pub proof fn law_payloads_are_as_given(
    code: &str,
    msg: String,
    shown: &str,
    coded: ErrorPayload,
    generic: ErrorPayload,
    exists_already: ErrorPayload,
    cancelled: ErrorPayload,
)
    requires
        call_ensures(ErrorPayload::coded, (code, msg), coded),
        call_ensures(ErrorPayload::generic, (msg,), generic),
        call_ensures(ErrorPayload::already_exists, (shown,), exists_already),
        call_ensures(ErrorPayload::cancelled, (), cancelled),
    ensures
        coded.code@ == code@ && coded.message@ == msg@,
        generic.code@ == "errGeneric"@ && generic.message@ == msg@,
        exists_already.code@ == "errAlreadyExists"@,
        exists_already.message@ == shown@ + " already exists"@,
        cancelled.code@ == "errCancelled"@ && cancelled.message@ == "operation cancelled"@,
{
}

/// A cancelled operation that failed is reported as cancelled, and so is an
/// extraction that was cancelled, however it ended; everything else is reported
/// as it ended. What was made is removed exactly where it is there and making it
/// failed.
pub proof fn law_outcomes<T>(
    result: core::result::Result<T, ErrorPayload>,
    cancelled: bool,
    made: core::result::Result<T, ErrorPayload>,
    extracted: core::result::Result<T, ErrorPayload>,
    failed: bool,
    there: bool,
    removed: bool,
)
    requires
        call_ensures(compress_outcome::<T>, (result, cancelled), made),
        call_ensures(extract_outcome::<T>, (result, cancelled), extracted),
        call_ensures(must_remove, (failed, there), removed),
    ensures
        !cancelled ==> made == result && extracted == result,
        result is Ok ==> made == result,
        cancelled && result is Err ==> (made matches Err(p) && p.code@ == "errCancelled"@
            && p.message@ == "operation cancelled"@),
        cancelled ==> (extracted matches Err(p) && p.code@ == "errCancelled"@ && p.message@
            == "operation cancelled"@),
        removed <==> failed && there,
{
}

} // verus!
