use mistral_srt_ai_gen::{millis_to_srt_time, parse_time, AppError};

fn time_error(detail: &str) -> Result<u64, AppError> {
    Err(AppError::InvalidTimeFormat(detail.to_string()))
}

#[test]
fn test_parse_time() {
    // Test [number]s format
    assert_eq!(parse_time("30s").unwrap(), 30_000);
    assert_eq!(parse_time("120s").unwrap(), 120_000);
    assert_eq!(parse_time("0.5s").unwrap(), 500);

    // Test hh:mm:ss,ms format
    assert_eq!(parse_time("00:00:30,500").unwrap(), 30_500);
    assert_eq!(parse_time("00:01:30,000").unwrap(), 90_000);
    assert_eq!(parse_time("01:00:00,000").unwrap(), 3_600_000);
    assert_eq!(parse_time("01:01:01,100").unwrap(), 3_661_100);

    // Test invalid formats
    assert!(parse_time("30").is_err());
    assert!(parse_time("30x").is_err());
    assert!(parse_time("00:30").is_err());
    assert!(parse_time("00:30:00").is_err());
    assert!(parse_time("00:61:00,000").is_err());
    assert!(parse_time("00:30:61,000").is_err());
    assert!(parse_time("00:30:59,1000").is_err());
    assert!(parse_time("abc").is_err());
}

#[test]
fn seconds_form_details() {
    assert_eq!(
        parse_time("5ss"),
        time_error("Invalid time format: 5ss. Expected [number]s or hh:mm:ss,ms")
    );
    assert_eq!(parse_time("+2s"), Ok(2_000));
    assert_eq!(parse_time("1.s"), Ok(1_000));
    assert_eq!(parse_time(".25s"), Ok(250));
    assert_eq!(parse_time("1.2349s"), Ok(1_234));
    assert_eq!(parse_time("-0s"), Ok(0));
    assert_eq!(parse_time("-0.000s"), Ok(0));
    assert_eq!(parse_time("-5s"), time_error("Time cannot be negative: -5s"));
    assert_eq!(parse_time("-0.001s"), time_error("Time cannot be negative: -0.001s"));
    assert_eq!(
        parse_time("s"),
        time_error("Invalid time format: s. Expected [number]s or hh:mm:ss,ms")
    );
    assert_eq!(
        parse_time(".s"),
        time_error("Invalid time format: .s. Expected [number]s or hh:mm:ss,ms")
    );
}

#[test]
fn clock_form_error_details() {
    assert_eq!(
        parse_time("30"),
        time_error("Invalid time format: 30. Expected [number]s or hh:mm:ss,ms")
    );
    assert_eq!(parse_time("x:00:00,000"), time_error("Invalid hours format: x"));
    assert_eq!(parse_time("00:-1:00,000"), time_error("Invalid minutes format: -1"));
    assert_eq!(
        parse_time("00:30:00"),
        time_error("Invalid seconds/milliseconds format: 00")
    );
    assert_eq!(parse_time("00:30:a,000"), time_error("Invalid seconds format: a"));
    assert_eq!(parse_time("00:30:00,"), time_error("Invalid milliseconds format: "));
    assert_eq!(
        parse_time("00:61:00,000"),
        time_error("Invalid hh:mm:ss,ms value: 00:61:00,000")
    );
    assert_eq!(parse_time("4294967296:00:00,000"), time_error("Invalid hours format: 4294967296"));
}

#[test]
fn clock_form_accepts_what_u32_parsing_accepts() {
    assert_eq!(parse_time("+1:+2:+3,+4"), Ok(3_600_000 + 120_000 + 3_000 + 4));
    assert_eq!(parse_time("100:00:00,5"), Ok(360_000_005));
    assert_eq!(parse_time("4294967295:59:59,999"), Ok(4_294_967_295 * 3_600_000 + 3_599_999));
}

#[test]
fn srt_time_reads_back() {
    for ms in [0u64, 1, 999, 1_000, 59_999, 61_250, 3_661_000, 86_399_999, 360_000_005] {
        assert_eq!(parse_time(&millis_to_srt_time(ms)), Ok(ms));
    }
}
