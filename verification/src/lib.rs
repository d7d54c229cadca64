//! Core of a subtitle generator that transcribes audio or video into SRT files
//! and translates them: reading the time range to work on, choosing how the
//! source is cut, rotating API keys, writing SRT entries, and joining and
//! splitting segment texts around a single translation request.
//!
//! Times are whole milliseconds. Each function is proved against a spec over
//! character sequences; the laws that tie functions together are proof
//! functions beside them.


pub mod digits;
pub mod error;
pub mod key_rotator;
pub mod request;
pub mod segment;
pub mod split;
pub mod srt;
pub mod text;
pub mod time;
pub mod translation;

pub use error::AppError;
pub use key_rotator::{parse_api_keys, KeyRotator};
pub use request::{
    first_choice_text, request_failure, translation_messages, translation_system_prompt,
    validate_run_options, Message, RequestKind, TimeRange,
};
pub use segment::{
    is_supported_extension, map_streams, millis_to_micros, plan_for_extension, plan_source_segment,
    retime_packet, supports_segment_extraction, translated_output_path, MediaKind, PacketStep, SourcePlan,
    SEGMENT_EXTRACT_SUPPORTED_EXTENSIONS,
};
pub use srt::{filter_segments, generate_srt_content, TranscriptionResponse, TranscriptionSegment};
pub use time::{millis_to_srt_time, parse_time};
pub use translation::{apply_translation, combine_segment_texts};
