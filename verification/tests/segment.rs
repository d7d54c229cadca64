use mistral_srt_ai_gen::{
    is_supported_extension, map_streams, millis_to_micros, plan_for_extension, plan_source_segment,
    retime_packet, supports_segment_extraction, translated_output_path, AppError, MediaKind, PacketStep, SourcePlan,
};

#[test]
fn test_supports_segment_extraction() {
    for supported in [
        "sample.mp3",
        "sample.wav",
        "sample.m4a",
        "sample.flac",
        "sample.ogg",
        "sample.mp4",
        "sample.mov",
        "sample.mkv",
        "sample.webm",
    ] {
        assert!(supports_segment_extraction(supported));
    }

    assert!(!supports_segment_extraction("sample.jpeg"));
}

#[test]
fn extension_check_ignores_ascii_case_only() {
    assert!(is_supported_extension("MP3"));
    assert!(is_supported_extension("WebM"));
    assert!(!is_supported_extension("mp"));
    assert!(!is_supported_extension("mp33"));
    assert!(!is_supported_extension(""));
    assert!(supports_segment_extraction("dir/Movie.MKV"));
    assert!(!supports_segment_extraction("noextension"));
    assert!(!supports_segment_extraction(".mp3"));
    assert!(supports_segment_extraction("SAMPLE.MP3"));
    assert!(supports_segment_extraction("a.WebM"));
    assert!(!supports_segment_extraction("a.mp3.zip"));
    assert!(!supports_segment_extraction("mp3"));
    assert!(supports_segment_extraction("/tmp/x.y/clip.ogg"));
    assert!(supports_segment_extraction("clip.mp3/"));
}

#[test]
fn plan_keeps_source_without_range() {
    assert_eq!(plan_for_extension(None, None, Some("jpeg")), Ok(SourcePlan::Original));
    assert_eq!(
        plan_source_segment("clip.jpeg", None, None),
        Ok(SourcePlan::Original)
    );
}

#[test]
fn plan_extracts_supported_formats_and_refuses_others() {
    assert_eq!(
        plan_for_extension(Some(0), None, Some("Flac")),
        Ok(SourcePlan::Extract("Flac".to_string()))
    );
    assert_eq!(
        plan_for_extension(None, Some(30_000), Some("jpeg")),
        Err(AppError::UnsupportedSegmentFormat("jpeg".to_string()))
    );
    assert_eq!(
        plan_for_extension(Some(1), Some(2), None),
        Err(AppError::UnsupportedSegmentFormat("unknown".to_string()))
    );
    assert_eq!(
        plan_source_segment("a/b/sample.mp4", Some(0), Some(30_000)),
        Ok(SourcePlan::Extract("mp4".to_string()))
    );
    assert_eq!(
        plan_source_segment("sample", Some(0), None),
        Err(AppError::UnsupportedSegmentFormat("unknown".to_string()))
    );
}

#[test]
fn unsupported_format_message() {
    let e = AppError::UnsupportedSegmentFormat("jpeg".to_string());
    assert_eq!(
        e.message(),
        "Segment extraction is supported only for formats: mp3, wav, m4a, flac, ogg, mp4, mov, mkv, webm (got: jpeg)"
    );
}

#[test]
fn streams_are_numbered_in_order() {
    let kinds = vec![MediaKind::Video, MediaKind::Other, MediaKind::Audio, MediaKind::Subtitle, MediaKind::Other];
    assert_eq!(map_streams(&kinds), vec![0, -1, 1, 2, -1]);
    assert_eq!(map_streams(&vec![]), Vec::<i32>::new());
}

#[test]
fn packets_outside_the_window_are_skipped() {
    assert_eq!(retime_packet(Some(5), Some(10), None, Some(5), Some(5), None), PacketStep::Skip);
    assert_eq!(retime_packet(Some(20), None, Some(20), Some(5), Some(5), None), PacketStep::Skip);
    assert_eq!(
        retime_packet(None, Some(10), Some(20), None, None, Some(3)),
        PacketStep::Write { pts: None, dts: None, first_ts: Some(3) }
    );
}

#[test]
fn packets_are_taken_relative_to_the_first() {
    assert_eq!(
        retime_packet(Some(10), Some(10), Some(20), Some(105), Some(100), None),
        PacketStep::Write { pts: Some(5), dts: Some(0), first_ts: Some(100) }
    );
    assert_eq!(
        retime_packet(Some(15), Some(10), Some(20), Some(150), None, Some(100)),
        PacketStep::Write { pts: Some(50), dts: None, first_ts: Some(100) }
    );
    assert_eq!(
        retime_packet(Some(15), None, None, Some(i64::MIN), None, Some(1)),
        PacketStep::Write { pts: Some(i64::MIN), dts: None, first_ts: Some(1) }
    );
}

#[test]
fn micros_saturate() {
    assert_eq!(millis_to_micros(1500), 1_500_000);
    assert_eq!(millis_to_micros(u64::MAX), i64::MAX);
}

#[test]
fn translated_files_are_named_after_the_output() {
    assert_eq!(translated_output_path("out.srt", "english"), "out-english.srt");
    assert_eq!(translated_output_path("dir/sub.titles.srt", "fr"), "dir/sub.titles-fr.srt");
    assert_eq!(translated_output_path("plain", "de"), "plain-de.srt");
    assert_eq!(translated_output_path(".hidden", "es"), ".hidden-es.srt");
}

#[test]
fn file_names_skip_dot_components() {
    assert!(supports_segment_extraction("a/b.mp3/."));
    assert!(supports_segment_extraction("./clip.wav"));
    assert!(!supports_segment_extraction("x/.."));
    assert!(!supports_segment_extraction("clip.mp3/.."));
}
