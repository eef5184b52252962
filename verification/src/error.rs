//! Errors of the stream.

use vstd::prelude::*;

use crate::decode::InvalidUtf8;

verus! {

/// What can go wrong besides the transport itself.
#[derive(Debug)]
pub enum Error {
    /// The body holds bytes that are not UTF-8.
    InvalidUtf8(InvalidUtf8),
    /// The server answered with a status that is no success.
    HttpError {
        /// The status code.
        status: u16,
        /// The usual phrase for the status code.
        canonical_reason: String,
        /// The body of the answer.
        body: String,
    },
}

/// `Error` over character sequences.
pub enum ErrorView {
    InvalidUtf8(InvalidUtf8),
    HttpError { status: u16, canonical_reason: Seq<char>, body: Seq<char> },
}

impl View for Error {
    type V = ErrorView;

    open spec fn view(&self) -> ErrorView {
        match *self {
            Error::InvalidUtf8(fault) => ErrorView::InvalidUtf8(fault),
            Error::HttpError { status, canonical_reason, body } => ErrorView::HttpError {
                status,
                canonical_reason: canonical_reason@,
                body: body@,
            },
        }
    }
}

/// The phrase that `reqwest::StatusCode::canonical_reason` gives for a status code.
pub uninterp spec fn canonical_phrase(status: u16) -> Option<Seq<char>>;

/// The body of a refused request: its text, or why the text could not be read.
pub open spec fn body_text(body: Result<Seq<char>, Seq<char>>) -> Seq<char> {
    match body {
        Ok(text) => text,
        Err(reason) => "Failed to read error body: "@ + reason,
    }
}

/// The view of what reading a body gave.
pub open spec fn body_view(body: Result<String, String>) -> Result<Seq<char>, Seq<char>> {
    match body {
        Ok(text) => Ok(text@),
        Err(reason) => Err(reason@),
    }
}

/// The error for a refused request whose status has the phrase `phrase`.
pub open spec fn refused(
    status: u16,
    phrase: Option<Seq<char>>,
    body: Result<Seq<char>, Seq<char>>,
) -> ErrorView {
    ErrorView::HttpError {
        status,
        canonical_reason: match phrase {
            Some(phrase) => phrase,
            None => "Unknown"@,
        },
        body: body_text(body),
    }
}

/// The error for a refused request holds the status as it came. Its phrase is the one given,
/// or `Unknown` where there is none. Its body is the text that was read, or says why none
/// could be.
pub proof fn law_refused(
    status: u16,
    phrase: Option<Seq<char>>,
    body: Result<Seq<char>, Seq<char>>,
)
    ensures
        refused(status, phrase, body) matches ErrorView::HttpError {
            status: s,
            canonical_reason: r,
            body: b,
        } && {
            &&& s == status
            &&& phrase matches Some(p) ==> r == p
            &&& phrase is None ==> r == "Unknown"@
            &&& body matches Ok(t) ==> b == t
            &&& body matches Err(e) ==> b == "Failed to read error body: "@ + e
        },
{
}

/// Errors for two refused requests are the same only where status and text are: what came is
/// not mixed up.
pub proof fn law_refused_tells_apart(
    phrase: Option<Seq<char>>,
    one: (u16, Seq<char>),
    other: (u16, Seq<char>),
)
    requires
        refused(one.0, phrase, Ok(one.1)) == refused(other.0, phrase, Ok(other.1)),
    ensures
        one == other,
{
}

/// The status codes of success are those from 200 to 299.
pub proof fn law_success(status: u16)
    ensures
        success(status) <==> 200 <= status <= 299,
{
}

/// The view of an error holds what the error holds.
pub proof fn law_error_view(error: Error)
    ensures
        error matches Error::InvalidUtf8(fault) ==> error@ == ErrorView::InvalidUtf8(fault),
        error matches Error::HttpError { status: s, canonical_reason: r, body: b } ==> error@ == (
        ErrorView::HttpError { status: s, canonical_reason: r@, body: b@ }),
{
}

/// The status codes of success.
pub open spec fn success(status: u16) -> bool {
    200 <= status < 300
}

/// Whether the status code is one of success.
pub fn is_success(status: u16) -> (res: bool)
    ensures
        res == success(status),
        res <==> 200 <= status <= 299,
{
    200 <= status && status < 300
}

/// Calls `reqwest::StatusCode::from_u16` and, on the code it makes,
/// `StatusCode::canonical_reason`. A number outside of 100 to 999 is no status code and
/// has no phrase. Which phrase a status code has is left to the name.
#[verifier::external_body]
fn canonical_reason(status: u16) -> (res: Option<&'static str>)
    ensures
        res matches Some(phrase) ==> canonical_phrase(status) == Some(phrase@),
        res is None ==> canonical_phrase(status) is None,
        !(100 <= status <= 999) ==> res is None,
{
    match reqwest::StatusCode::from_u16(status) {
        Ok(code) => code.canonical_reason(),
        Err(_) => None,
    }
}

/// The error for a refused request, given the usual phrase for its status and what
/// reading its body gave.
pub fn http_error_with(
    status: u16,
    phrase: Option<&str>,
    body: Result<String, String>,
) -> (res: Error)
    ensures
        res@ == refused(
            status,
            match phrase {
                Some(phrase) => Some(phrase@),
                None => None,
            },
            body_view(body),
        ),
        res matches Error::HttpError { status: s, canonical_reason: r, body: b } && {
            &&& s == status
            &&& phrase matches Some(p) ==> r@ == p@
            &&& phrase is None ==> r@ == "Unknown"@
            &&& body matches Ok(t) ==> b@ == t@
            &&& body matches Err(e) ==> b@ == "Failed to read error body: "@ + e@
        },
{
    let canonical_reason = match phrase {
        Some(phrase) => phrase.to_string(),
        None => "Unknown".to_string(),
    };
    let body = match body {
        Ok(text) => text,
        Err(reason) => {
            let mut text = "Failed to read error body: ".to_string();
            text.append(reason.as_str());
            text
        },
    };
    Error::HttpError { status, canonical_reason, body }
}

/// The error for a refused request, given what reading its body gave.
pub fn http_error(status: u16, body: Result<String, String>) -> (res: Error)
    ensures
        res@ == refused(status, canonical_phrase(status), body_view(body)),
        res matches Error::HttpError { status: s, canonical_reason: r, body: b } && {
            &&& s == status
            &&& canonical_phrase(status) matches Some(p) ==> r@ == p
            &&& canonical_phrase(status) is None ==> r@ == "Unknown"@
            &&& body matches Ok(t) ==> b@ == t@
            &&& body matches Err(e) ==> b@ == "Failed to read error body: "@ + e@
        },
{
    http_error_with(status, canonical_reason(status), body)
}

} // verus!
