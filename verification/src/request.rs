//! Checking the options of a run, and the messages of a translation request.

use vstd::prelude::*;
use vstd::string::StringExecFns;
use crate::error::AppError;
use crate::time::{parse_time, time_reading};

verus! {

/// The part of the source to transcribe, in milliseconds; an absent bound
/// means the beginning or the end of the file.
#[derive(Debug, Clone, Copy, PartialEq, Eq)]
pub struct TimeRange {
    pub start_ms: Option<u64>,
    pub end_ms: Option<u64>,
}

/// Why the options of a run are refused.
pub enum OptionsError {
    /// The language code is not two bytes long (the detail of `InvalidLanguage`).
    Language(Seq<char>),
    /// A time is malformed or the range is empty (the detail of `InvalidTimeFormat`).
    Time(Seq<char>),
}

/// Reading an optional time: absent, its milliseconds, or the detail of the
/// error, which names the bound (`which`) and repeats the error's text.
pub open spec fn time_option(t: Option<Seq<char>>, which: Seq<char>) -> Result<
    Option<nat>,
    Seq<char>,
> {
    match t {
        None => Ok(None),
        Some(s) => match time_reading(s) {
            Ok(ms) => Ok(Some(ms)),
            Err(d) => Err(which + "Invalid time format: "@ + d),
        },
    }
}

/// The checks of a run, in order: the language code must take two bytes
/// (ISO 639-1); the start and end times must read; the end must come after
/// the start.
pub open spec fn options_reading(
    language: Option<Seq<char>>,
    start: Option<Seq<char>>,
    end: Option<Seq<char>>,
) -> Result<(Option<nat>, Option<nat>), OptionsError> {
    if language is Some && vstd::utf8::encode_utf8(language->0).len() != 2 {
        Err(
            OptionsError::Language(
                "Language code must be 2 characters (ISO 639-1), got: "@ + language->0,
            ),
        )
    } else {
        match time_option(start, "Invalid start time: "@) {
            Err(d) => Err(OptionsError::Time(d)),
            Ok(s) => match time_option(end, "Invalid end time: "@) {
                Err(d) => Err(OptionsError::Time(d)),
                Ok(e) => if s is Some && e is Some && e->0 <= s->0 {
                    Err(OptionsError::Time("End time must be greater than start time"@))
                } else {
                    Ok((s, e))
                },
            },
        }
    }
}

/// The view of an optional string.
pub open spec fn opt_view(s: Option<&str>) -> Option<Seq<char>> {
    match s {
        Some(x) => Some(x@),
        None => None,
    }
}

/// The view of an optional number of milliseconds.
pub open spec fn opt_nat(x: Option<u64>) -> Option<nat> {
    match x {
        Some(v) => Some(v as nat),
        None => None,
    }
}

/// Reads one optional time, wrapping an error as `which` followed by its text.
fn read_time_option(t: Option<&str>, which: &str) -> (r: Result<Option<u64>, AppError>)
    ensures
        r matches Ok(x) ==> time_option(opt_view(t), which@) == Ok::<Option<nat>, Seq<char>>(
            opt_nat(x),
        ),
        r matches Err(e) ==> (e matches AppError::InvalidTimeFormat(m) && time_option(
            opt_view(t),
            which@,
        ) == Err::<Option<nat>, Seq<char>>(m@)),
{
    match t {
        None => Ok(None),
        Some(s) => match parse_time(s) {
            Ok(ms) => Ok(Some(ms)),
            Err(e) => {
                let mut m = String::from_str(which);
                let text = e.message();
                m.append(text.as_str());
                proof {
                    let d = e->InvalidTimeFormat_0@;
                    assert(text@ == "Invalid time format: "@ + d);
                    assert(m@ =~= which@ + "Invalid time format: "@ + d);
                }
                Err(AppError::InvalidTimeFormat(m))
            },
        },
    }
}

/// Checks the options of a run before any work is done: the language code
/// must take two bytes (ISO 639-1); the start and end times must read as
/// `[number]s` or `hh:mm:ss,ms`; the end must come after the start.
pub fn validate_run_options(language: Option<&str>, start: Option<&str>, end: Option<&str>) -> (r:
    Result<TimeRange, AppError>)
    ensures
        r matches Ok(range) ==> options_reading(opt_view(language), opt_view(start), opt_view(end))
            == Ok::<(Option<nat>, Option<nat>), OptionsError>(
            (opt_nat(range.start_ms), opt_nat(range.end_ms)),
        ),
        r matches Err(e) ==> match options_reading(
            opt_view(language),
            opt_view(start),
            opt_view(end),
        ) {
            Ok(_) => false,
            Err(OptionsError::Language(d)) => e matches AppError::InvalidLanguage(m) && m@ == d,
            Err(OptionsError::Time(d)) => e matches AppError::InvalidTimeFormat(m) && m@ == d,
        },
{
    if let Some(lang) = language {
        if lang.as_bytes().len() != 2 {
            let mut m = String::from_str("Language code must be 2 characters (ISO 639-1), got: ");
            m.append(lang);
            return Err(AppError::InvalidLanguage(m));
        }
    }
    let start_ms = match read_time_option(start, "Invalid start time: ") {
        Ok(x) => x,
        Err(e) => {
            return Err(e);
        },
    };
    let end_ms = match read_time_option(end, "Invalid end time: ") {
        Ok(x) => x,
        Err(e) => {
            return Err(e);
        },
    };
    if let (Some(s), Some(e)) = (start_ms, end_ms) {
        if e <= s {
            return Err(
                AppError::InvalidTimeFormat(
                    String::from_str("End time must be greater than start time"),
                ),
            );
        }
    }
    Ok(TimeRange { start_ms, end_ms })
}

// ------------------------------------------------------------------
// Translation request
// ------------------------------------------------------------------

/// A chat message: who speaks, and what is said.
#[derive(Debug, Clone, PartialEq, Eq)]
pub struct Message {
    /// Role (user or assistant)
    pub role: String,
    /// Content of the message
    pub content: String,
}

/// The instruction given to the translation model.
pub open spec fn system_prompt(target_language: Seq<char>) -> Seq<char> {
    "You are a professional translator. Translate the following text to "@ + target_language
        + ". If the text contains '|||SEG|||' markers, preserve them exactly as-is in your output, translating only the text between them:"@
}

/// The instruction that asks for a translation into `target_language` and
/// for the segment markers to be kept.
pub fn translation_system_prompt(target_language: &str) -> (r: String)
    ensures
        r@ == system_prompt(target_language@),
{
    let mut r = String::from_str(
        "You are a professional translator. Translate the following text to ",
    );
    r.append(target_language);
    r.append(
        ". If the text contains '|||SEG|||' markers, preserve them exactly as-is in your output, translating only the text between them:",
    );
    r
}

/// The messages of a translation request: the system instruction, then the
/// user's text.
pub fn translation_messages(text: &str, target_language: &str) -> (r: Vec<Message>)
    ensures
        r@.len() == 2,
        r@[0].role@ == "system"@,
        r@[0].content@ == system_prompt(target_language@),
        r@[1].role@ == "user"@,
        r@[1].content@ == text@,
{
    let mut r: Vec<Message> = Vec::new();
    r.push(
        Message {
            role: String::from_str("system"),
            content: translation_system_prompt(target_language),
        },
    );
    r.push(Message { role: String::from_str("user"), content: String::from_str(text) });
    r
}

// ------------------------------------------------------------------
// Replies
// ------------------------------------------------------------------

/// The API that a request went to.
#[derive(Debug, Clone, Copy, PartialEq, Eq)]
pub enum RequestKind {
    Transcription,
    Translation,
}

/// What the error of a failed request of `kind` starts with.
pub open spec fn failure_prefix(kind: RequestKind) -> Seq<char> {
    match kind {
        RequestKind::Transcription => "API request failed: "@,
        RequestKind::Translation => "Translation API request failed: "@,
    }
}

/// The error for a request that the API answered with a status other than
/// success: `API request failed: <status> - <body>` (with `Translation `
/// in front for a translation request).
pub fn request_failure(kind: RequestKind, status: &str, body: &str) -> (e: AppError)
    ensures
        e matches AppError::ApiError(m) && m@ == failure_prefix(kind) + status@ + " - "@ + body@,
{
    let mut m = match kind {
        RequestKind::Transcription => String::from_str("API request failed: "),
        RequestKind::Translation => String::from_str("Translation API request failed: "),
    };
    m.append(status);
    m.append(" - ");
    m.append(body);
    AppError::ApiError(m)
}

/// The translated text of a reply: the content of its first choice, or an
/// error when the reply holds no choice.
pub fn first_choice_text(choices: &Vec<Message>) -> (r: Result<String, AppError>)
    ensures
        choices@.len() > 0 ==> (r matches Ok(t) && t@ == choices@[0].content@),
        choices@.len() == 0 ==> (r matches Err(AppError::ApiError(m)) && m@
            == "Translation API returned no choices"@),
{
    if choices.len() == 0 {
        Err(AppError::ApiError(String::from_str("Translation API returned no choices")))
    } else {
        Ok(choices[0].content.clone())
    }
}

} // verus!
