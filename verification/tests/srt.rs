use mistral_srt_ai_gen::{
    filter_segments, generate_srt_content, millis_to_srt_time, TranscriptionResponse,
    TranscriptionSegment,
};

fn seg(start_ms: u64, end_ms: u64, text: &str) -> TranscriptionSegment {
    TranscriptionSegment { start_ms, end_ms, text: text.to_string() }
}

#[test]
fn test_seconds_to_srt_time() {
    assert_eq!(millis_to_srt_time(0), "00:00:00,000");
    assert_eq!(millis_to_srt_time(1500), "00:00:01,500");
    assert_eq!(millis_to_srt_time(61250), "00:01:01,250");
    assert_eq!(millis_to_srt_time(3661000), "01:01:01,000");
}

#[test]
fn srt_time_with_many_hours_takes_more_digits() {
    assert_eq!(millis_to_srt_time(123 * 3_600_000 + 4 * 60_000 + 5_006), "123:04:05,006");
    assert_eq!(millis_to_srt_time(u64::MAX), "5124095576030:25:51,615");
}

#[test]
fn test_generate_srt_content() {
    let segments = vec![
        TranscriptionSegment { start_ms: 0, end_ms: 1500, text: "Hello world".to_string() },
        TranscriptionSegment { start_ms: 1500, end_ms: 3000, text: "This is a test".to_string() },
    ];

    let srt = generate_srt_content(segments);
    assert!(srt.contains("00:00:00,000 --> 00:00:01,500"));
    assert!(srt.contains("Hello world"));
    assert!(srt.contains("00:00:01,500 --> 00:00:03,000"));
    assert!(srt.contains("This is a test"));
}

#[test]
fn generated_srt_is_exact() {
    let srt = generate_srt_content(vec![seg(0, 1500, "Hello world"), seg(1500, 3000, "This is a test")]);
    assert_eq!(
        srt,
        "1\n00:00:00,000 --> 00:00:01,500\nHello world\n\n2\n00:00:01,500 --> 00:00:03,000\nThis is a test\n\n"
    );
}

#[test]
fn srt_entries_for_transcription_segments() {
    let segments = vec![seg(5000, 12800, "First segment"), seg(13300, 18400, "Second segment")];
    let srt_content = generate_srt_content(segments);
    assert!(srt_content.contains("1\n00:00:05,000 --> 00:00:12,800\nFirst segment"));
    assert!(srt_content.contains("2\n00:00:13,300 --> 00:00:18,400\nSecond segment"));
}

#[test]
fn test_empty_segments_handling() {
    let response = TranscriptionResponse {
        segments: vec![],
        text: "Empty transcription".to_string(),
    };

    let srt_content = generate_srt_content(response.segments);
    assert_eq!(srt_content, "");
}

#[test]
fn test_single_segment_handling() {
    let segments = vec![TranscriptionSegment {
        start_ms: 0,
        end_ms: 1000,
        text: "Single segment".to_string(),
    }];

    let srt_content = generate_srt_content(segments);
    assert!(srt_content.contains("1\n00:00:00,000 --> 00:00:01,000"));
    assert!(srt_content.contains("Single segment"));
}

#[test]
fn entries_are_numbered_past_nine() {
    let segments: Vec<TranscriptionSegment> = (0..11).map(|i| seg(i * 1000, i * 1000 + 500, "x")).collect();
    let srt = generate_srt_content(segments);
    assert!(srt.contains("\n\n10\n00:00:09,000 --> 00:00:09,500\nx\n\n11\n00:00:10,000 --> 00:00:10,500\nx\n\n"));
}

#[test]
fn test_segment_filtering() {
    // Create test segments
    let segments = vec![
        seg(0, 10000, "Segment 1"),
        seg(10000, 20000, "Segment 2"),
        seg(20000, 30000, "Segment 3"),
        seg(30000, 40000, "Segment 4"),
    ];

    // Test no filtering
    let filtered = filter_segments(&segments, None, None);
    assert_eq!(filtered.len(), 4);
    assert_eq!(filtered[0].text, "Segment 1");
    assert_eq!(filtered[1].text, "Segment 2");
    assert_eq!(filtered[2].text, "Segment 3");
    assert_eq!(filtered[3].text, "Segment 4");

    // Test start time filtering
    let filtered = filter_segments(&segments, Some(15000), None);
    assert_eq!(filtered.len(), 3);
    assert_eq!(filtered[0].text, "Segment 2");
    assert_eq!(filtered[0].start_ms, 0); // Adjusted timestamp
    assert_eq!(filtered[0].end_ms, 5000); // Adjusted timestamp
    assert_eq!(filtered[1].text, "Segment 3");
    assert_eq!(filtered[2].text, "Segment 4");

    // Test end time filtering
    let filtered = filter_segments(&segments, None, Some(25000));
    assert_eq!(filtered.len(), 3);
    assert_eq!(filtered[0].text, "Segment 1");
    assert_eq!(filtered[1].text, "Segment 2");
    assert_eq!(filtered[2].text, "Segment 3");

    // Test both start and end time filtering
    let filtered = filter_segments(&segments, Some(5000), Some(25000));
    assert_eq!(filtered.len(), 3);
    assert_eq!(filtered[0].text, "Segment 1");
    assert_eq!(filtered[0].start_ms, 0);
    assert_eq!(filtered[0].end_ms, 5000);
    assert_eq!(filtered[1].text, "Segment 2");
    assert_eq!(filtered[2].text, "Segment 3");

    // Test filtering with no results
    let filtered = filter_segments(&segments, Some(50000), None);
    assert_eq!(filtered.len(), 0);
}

#[test]
fn time_range_keeps_overlapping_segments_and_shifts_them() {
    let segments = vec![
        seg(0, 10000, "Segment 1"),
        seg(10000, 20000, "Segment 2"),
        seg(20000, 30000, "Segment 3"),
        seg(30000, 40000, "Segment 4"),
    ];
    let filtered = filter_segments(&segments, Some(15000), Some(35000));
    assert_eq!(
        filtered,
        vec![seg(0, 5000, "Segment 2"), seg(5000, 15000, "Segment 3"), seg(15000, 25000, "Segment 4")]
    );
    let srt = generate_srt_content(filtered);
    assert!(srt.contains("00:00:00,000 -->"));
    assert!(!srt.contains("Segment 1"));
}

#[test]
fn segment_touching_a_bound_is_dropped() {
    let segments = vec![seg(0, 10000, "a"), seg(10000, 20000, "b")];
    assert_eq!(filter_segments(&segments, Some(10000), None), vec![seg(0, 10000, "b")]);
    assert_eq!(filter_segments(&segments, None, Some(10000)), vec![seg(0, 10000, "a")]);
}
