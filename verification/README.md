# mistral_srt_ai_gen

Generates SRT subtitle files from audio or video with the Mistral AI
transcription API, and optionally translates them into other languages.

- `src/` is the verified library (Verus). Times are whole milliseconds.
  - `time.rs`: reading `[number]s` and `hh:mm:ss,ms`; writing SRT timestamps;
    the law that a written timestamp reads back unchanged.
  - `srt.rs`: SRT entries from transcription segments; keeping the segments of
    a time range.
  - `translation.rs`: joining segment texts around the `|||SEG|||` marker and
    splitting the translated reply back; the law that an unchanged reply gives
    every segment its own trimmed text.
  - `key_rotator.rs`: round-robin API key rotation and its cycle laws.
  - `request.rs`: checking the run options; the messages of a translation request.
  - `segment.rs`: which formats can be cut, stream selection and packet retiming.
  - `text.rs`, `split.rs`, `digits.rs`, `error.rs`: trimming, splitting,
    decimal digits, errors.
- `app/main.rs` is the command-line program: argument parsing, FFmpeg,
  HTTP requests, JSON and files.
- `tests/` runs the library on concrete inputs.
