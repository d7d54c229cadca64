//! Errors that the library's own logic reports.

use vstd::prelude::*;
use vstd::string::StringExecFns;

verus! {

/// An error found while validating options, parsing times or choosing
/// how to read the source; each carries the detail that its message shows.
#[derive(Debug, Clone, PartialEq, Eq)]
pub enum AppError {
    /// A language code that is not two bytes long.
    InvalidLanguage(String),
    /// A failed or impossible request.
    ApiError(String),
    /// A time that does not follow `[number]s` or `hh:mm:ss,ms`.
    InvalidTimeFormat(String),
    /// A time range was asked for on a file whose format cannot be cut.
    UnsupportedSegmentFormat(String),
}

impl AppError {
    /// The detail that the error carries.
    pub open spec fn detail(&self) -> Seq<char> {
        match self {
            AppError::InvalidLanguage(m) => m@,
            AppError::ApiError(m) => m@,
            AppError::InvalidTimeFormat(m) => m@,
            AppError::UnsupportedSegmentFormat(m) => m@,
        }
    }

    /// The text that the error shows to the user.
    pub open spec fn text(&self) -> Seq<char> {
        match self {
            AppError::InvalidLanguage(m) => "Invalid language code: "@ + m@,
            AppError::ApiError(m) => "API error: "@ + m@,
            AppError::InvalidTimeFormat(m) => "Invalid time format: "@ + m@,
            AppError::UnsupportedSegmentFormat(m) => "Segment extraction is supported only for formats: mp3, wav, m4a, flac, ogg, mp4, mov, mkv, webm (got: "@
                + m@ + ")"@,
        }
    }

    /// The text that the error shows to the user.
    pub fn message(&self) -> (r: String)
        ensures
            r@ == self.text(),
    {
        match self {
            AppError::InvalidLanguage(m) => {
                let mut r = String::from_str("Invalid language code: ");
                r.append(m.as_str());
                r
            },
            AppError::ApiError(m) => {
                let mut r = String::from_str("API error: ");
                r.append(m.as_str());
                r
            },
            AppError::InvalidTimeFormat(m) => {
                let mut r = String::from_str("Invalid time format: ");
                r.append(m.as_str());
                r
            },
            AppError::UnsupportedSegmentFormat(m) => {
                let mut r = String::from_str(
                    "Segment extraction is supported only for formats: mp3, wav, m4a, flac, ogg, mp4, mov, mkv, webm (got: ",
                );
                r.append(m.as_str());
                r.append(")");
                r
            },
        }
    }
}

} // verus!
