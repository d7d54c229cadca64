use mistral_srt_ai_gen::{
    first_choice_text, request_failure, Message, RequestKind,
    translation_messages, translation_system_prompt, validate_run_options, AppError, TimeRange,
};

#[test]
fn valid_options_give_the_range() {
    assert_eq!(
        validate_run_options(Some("fr"), Some("30s"), Some("00:01:30,500")),
        Ok(TimeRange { start_ms: Some(30_000), end_ms: Some(90_500) })
    );
    assert_eq!(
        validate_run_options(None, None, None),
        Ok(TimeRange { start_ms: None, end_ms: None })
    );
}

#[test]
fn language_must_take_two_bytes() {
    assert_eq!(
        validate_run_options(Some("french"), None, None),
        Err(AppError::InvalidLanguage(
            "Language code must be 2 characters (ISO 639-1), got: french".to_string()
        ))
    );
    // One character of two bytes passes, as the byte length is what counts.
    assert!(validate_run_options(Some("é"), None, None).is_ok());
    let e = validate_run_options(Some("fra"), None, None).unwrap_err();
    assert!(e.message().contains("Language code must be 2 characters"));
}

#[test]
fn invalid_times_name_their_bound() {
    let e = validate_run_options(None, Some("invalid"), None).unwrap_err();
    assert_eq!(
        e,
        AppError::InvalidTimeFormat(
            "Invalid start time: Invalid time format: Invalid time format: invalid. Expected [number]s or hh:mm:ss,ms"
                .to_string()
        )
    );
    assert!(e.message().contains("Invalid start time"));
    let e = validate_run_options(None, None, Some("invalid")).unwrap_err();
    assert!(e.message().contains("Invalid end time"));
}

#[test]
fn end_must_follow_start() {
    let e = validate_run_options(None, Some("30s"), Some("10s")).unwrap_err();
    assert_eq!(
        e,
        AppError::InvalidTimeFormat("End time must be greater than start time".to_string())
    );
    assert!(e.message().contains("End time must be greater than start time"));
    assert!(validate_run_options(None, Some("10s"), Some("10s")).is_err());
}

#[test]
fn error_messages() {
    assert_eq!(
        AppError::InvalidLanguage("xx".to_string()).message(),
        "Invalid language code: xx"
    );
    assert_eq!(AppError::ApiError("API failed".to_string()).message(), "API error: API failed");
    assert_eq!(
        AppError::InvalidTimeFormat("Invalid time".to_string()).message(),
        "Invalid time format: Invalid time"
    );
}

#[test]
fn translation_request_messages() {
    let prompt = translation_system_prompt("english");
    assert_eq!(
        prompt,
        "You are a professional translator. Translate the following text to english. If the text contains '|||SEG|||' markers, preserve them exactly as-is in your output, translating only the text between them:"
    );
    let messages = translation_messages("Bonjour", "english");
    assert_eq!(messages.len(), 2);
    assert_eq!(messages[0].role, "system");
    assert_eq!(messages[0].content, prompt);
    assert_eq!(messages[1].role, "user");
    assert_eq!(messages[1].content, "Bonjour");
}

#[test]
fn failed_requests_name_status_and_body() {
    assert_eq!(
        request_failure(RequestKind::Transcription, "500 Internal Server Error", "boom"),
        AppError::ApiError("API request failed: 500 Internal Server Error - boom".to_string())
    );
    assert_eq!(
        request_failure(RequestKind::Translation, "401 Unauthorized", "").message(),
        "API error: Translation API request failed: 401 Unauthorized - "
    );
}

#[test]
fn first_choice_or_error() {
    let choices = vec![
        Message { role: "assistant".to_string(), content: "Hello".to_string() },
        Message { role: "assistant".to_string(), content: "Other".to_string() },
    ];
    assert_eq!(first_choice_text(&choices), Ok("Hello".to_string()));
    assert_eq!(
        first_choice_text(&vec![]),
        Err(AppError::ApiError("Translation API returned no choices".to_string()))
    );
}
