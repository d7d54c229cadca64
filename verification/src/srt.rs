//! Transcription segments and the SRT subtitles written from them.

use vstd::prelude::*;
use vstd::string::StringExecFns;
use crate::digits::{decimal, push_decimal};
use crate::text::push_char;
use crate::time::{millis_to_srt_time, srt_time};

verus! {

/// A transcribed stretch of speech: start and end in milliseconds, and its text.
#[derive(Debug, Clone, PartialEq, Eq)]
pub struct TranscriptionSegment {
    /// Start time in milliseconds
    pub start_ms: u64,
    /// End time in milliseconds
    pub end_ms: u64,
    /// Transcribed text
    pub text: String,
}

/// A transcription: its segments and the full text.
#[derive(Debug, Clone, PartialEq, Eq)]
pub struct TranscriptionResponse {
    /// List of transcription segments
    pub segments: Vec<TranscriptionSegment>,
    /// Full transcribed text
    pub text: String,
}

impl View for TranscriptionSegment {
    type V = (u64, u64, Seq<char>);

    open spec fn view(&self) -> (u64, u64, Seq<char>) {
        (self.start_ms, self.end_ms, self.text@)
    }
}

/// The views of a list of segments.
pub open spec fn segment_views(segs: Seq<TranscriptionSegment>) -> Seq<(u64, u64, Seq<char>)> {
    segs.map_values(|s: TranscriptionSegment| s@)
}

// ------------------------------------------------------------------
// SRT content
// ------------------------------------------------------------------

/// One SRT entry: its number, `start --> end`, the text, and a blank line.
pub open spec fn srt_block(number: nat, start: nat, end: nat, text: Seq<char>) -> Seq<char> {
    decimal(number) + seq!['\n'] + srt_time(start) + " --> "@ + srt_time(end) + seq!['\n'] + text
        + seq!['\n', '\n']
}

/// The SRT entries of `segs`, numbered from 1 in order.
pub open spec fn srt_content(segs: Seq<(u64, u64, Seq<char>)>) -> Seq<char>
    decreases segs.len(),
{
    if segs.len() == 0 {
        seq![]
    } else {
        let last = segs.last();
        srt_content(segs.drop_last()) + srt_block(
            segs.len(),
            last.0 as nat,
            last.1 as nat,
            last.2,
        )
    }
}

/// The SRT entry numbered `number` for `segment`.
fn srt_entry(number: u64, segment: &TranscriptionSegment) -> (r: String)
    ensures
        r@ == srt_block(number as nat, segment.start_ms as nat, segment.end_ms as nat, segment.text@),
{
    let start_time = millis_to_srt_time(segment.start_ms);
    let end_time = millis_to_srt_time(segment.end_ms);
    let mut out = String::new();
    push_decimal(&mut out, number);
    push_char(&mut out, '\n');
    out.append(start_time.as_str());
    out.append(" --> ");
    out.append(end_time.as_str());
    push_char(&mut out, '\n');
    out.append(segment.text.as_str());
    push_char(&mut out, '\n');
    push_char(&mut out, '\n');
    assert(out@ =~= srt_block(
        number as nat,
        segment.start_ms as nat,
        segment.end_ms as nat,
        segment.text@,
    ));
    out
}

/// Generate SRT content from transcription segments: one entry per segment,
/// numbered from 1, each `number`, `HH:MM:SS,mmm --> HH:MM:SS,mmm`, the text
/// and a blank line.
pub fn generate_srt_content(segments: Vec<TranscriptionSegment>) -> (r: String)
    ensures
        r@ == srt_content(segment_views(segments@)),
{
    let ghost views = segment_views(segments@);
    let mut out = String::new();
    let mut i: usize = 0;
    while i < segments.len()
        invariant
            i <= segments.len(),
            views == segment_views(segments@),
            out@ == srt_content(views.take(i as int)),
        decreases segments.len() - i,
    {
        let entry = srt_entry((i + 1) as u64, &segments[i]);
        let ghost before = out@;
        out.append(entry.as_str());
        assert(views.take(i + 1).drop_last() =~= views.take(i as int));
        assert(views.take(i + 1).last() == views[i as int]);
        i = i + 1;
    }
    assert(views.take(i as int) =~= views);
    out
}

// ------------------------------------------------------------------
// Keeping the segments of a time range
// ------------------------------------------------------------------

/// The segment overlaps the range: it ends after `start` and begins before `end`.
pub open spec fn overlaps(seg: (u64, u64, Seq<char>), start: Option<u64>, end: Option<u64>) -> bool {
    &&& (start matches Some(s) ==> seg.1 > s)
    &&& (end matches Some(e) ==> seg.0 < e)
}

/// `a - b`, or 0 when `b` exceeds `a`.
pub open spec fn saturating_sub(a: u64, b: u64) -> u64 {
    if a >= b {
        (a - b) as u64
    } else {
        0
    }
}

/// The segment with its times taken relative to `start` (never below 0).
pub open spec fn shifted(seg: (u64, u64, Seq<char>), start: Option<u64>) -> (u64, u64, Seq<char>) {
    match start {
        Some(s) => (saturating_sub(seg.0, s), saturating_sub(seg.1, s), seg.2),
        None => seg,
    }
}

/// The segments that overlap the range, in order, with times relative to its start.
pub open spec fn segments_in_range(
    segs: Seq<(u64, u64, Seq<char>)>,
    start: Option<u64>,
    end: Option<u64>,
) -> Seq<(u64, u64, Seq<char>)>
    decreases segs.len(),
{
    if segs.len() == 0 {
        seq![]
    } else {
        let rest = segments_in_range(segs.drop_last(), start, end);
        if overlaps(segs.last(), start, end) {
            rest.push(shifted(segs.last(), start))
        } else {
            rest
        }
    }
}

/// A copy of a segment with the given times.
fn segment_at(seg: &TranscriptionSegment, start_ms: u64, end_ms: u64) -> (r: TranscriptionSegment)
    ensures
        r@ == (start_ms, end_ms, seg.text@),
{
    TranscriptionSegment { start_ms, end_ms, text: seg.text.clone() }
}

/// Keeps the segments that overlap the range from `start_time` to `end_time`
/// (either bound may be absent), and makes their times relative to
/// `start_time`, never below 0.
pub fn filter_segments(
    segments: &Vec<TranscriptionSegment>,
    start_time: Option<u64>,
    end_time: Option<u64>,
) -> (r: Vec<TranscriptionSegment>)
    ensures
        segment_views(r@) == segments_in_range(segment_views(segments@), start_time, end_time),
{
    let ghost views = segment_views(segments@);
    let mut out: Vec<TranscriptionSegment> = Vec::new();
    let mut i: usize = 0;
    while i < segments.len()
        invariant
            i <= segments.len(),
            views == segment_views(segments@),
            segment_views(out@) == segments_in_range(views.take(i as int), start_time, end_time),
        decreases segments.len() - i,
    {
        let seg = &segments[i];
        let after_start = match start_time {
            Some(s) => seg.end_ms > s,
            None => true,
        };
        let before_end = match end_time {
            Some(e) => seg.start_ms < e,
            None => true,
        };
        assert(views.take(i + 1).drop_last() =~= views.take(i as int));
        assert(views.take(i + 1).last() == views[i as int]);
        if after_start && before_end {
            let kept = match start_time {
                Some(s) => segment_at(seg, seg.start_ms.saturating_sub(s), seg.end_ms.saturating_sub(s)),
                None => segment_at(seg, seg.start_ms, seg.end_ms),
            };
            let ghost before = out@;
            out.push(kept);
            assert(segment_views(out@) =~= segment_views(before).push(kept@));
        }
        i = i + 1;
    }
    assert(views.take(i as int) =~= views);
    out
}

/// Law: with neither bound given, every segment is kept as it is.
pub proof fn lemma_unbounded_range_keeps_all(segs: Seq<(u64, u64, Seq<char>)>)
    ensures
        segments_in_range(segs, None, None) == segs,
    decreases segs.len(),
{
    if segs.len() > 0 {
        lemma_unbounded_range_keeps_all(segs.drop_last());
        assert(segs.drop_last().push(segs.last()) =~= segs);
    }
}

/// The position among `segs` of the segment kept at position `i`.
pub open spec fn kept_source(
    segs: Seq<(u64, u64, Seq<char>)>,
    start: Option<u64>,
    end: Option<u64>,
    i: int,
) -> int
    decreases segs.len(),
{
    if segs.len() == 0 {
        0
    } else if i < segments_in_range(segs.drop_last(), start, end).len() {
        kept_source(segs.drop_last(), start, end, i)
    } else {
        segs.len() - 1
    }
}

/// Law: no more segments are kept than given, and every kept segment is a
/// given segment that overlaps the range, with its times made relative to
/// the range's start; kept segments keep their order.
pub proof fn lemma_kept_segments_in_range(
    segs: Seq<(u64, u64, Seq<char>)>,
    start: Option<u64>,
    end: Option<u64>,
)
    ensures
        segments_in_range(segs, start, end).len() <= segs.len(),
        forall|i: int|
            0 <= i < segments_in_range(segs, start, end).len() ==> {
                let k = #[trigger] kept_source(segs, start, end, i);
                &&& 0 <= k < segs.len()
                &&& overlaps(segs[k], start, end)
                &&& segments_in_range(segs, start, end)[i] == shifted(segs[k], start)
            },
        forall|i: int, j: int|
            0 <= i < j < segments_in_range(segs, start, end).len() ==> #[trigger] kept_source(
                segs,
                start,
                end,
                i,
            ) < #[trigger] kept_source(segs, start, end, j),
    decreases segs.len(),
{
    if segs.len() > 0 {
        let init = segs.drop_last();
        lemma_kept_segments_in_range(init, start, end);
        let rest = segments_in_range(init, start, end);
        let all = segments_in_range(segs, start, end);
        assert forall|i: int| 0 <= i < all.len() implies {
            let k = #[trigger] kept_source(segs, start, end, i);
            &&& 0 <= k < segs.len()
            &&& overlaps(segs[k], start, end)
            &&& all[i] == shifted(segs[k], start)
        } by {
            if i < rest.len() {
                let k = kept_source(init, start, end, i);
                assert(all[i] == rest[i]);
                assert(segs[k] == init[k]);
            } else {
                assert(segs[segs.len() - 1] == segs.last());
            }
        }
        assert forall|i: int, j: int| 0 <= i < j < all.len() implies #[trigger] kept_source(
            segs,
            start,
            end,
            i,
        ) < #[trigger] kept_source(segs, start, end, j) by {
            if j < rest.len() {
                assert(kept_source(init, start, end, i) < kept_source(init, start, end, j));
            } else {
                assert(kept_source(init, start, end, i) < init.len());
            }
        }
    }
}

/// Law: every given segment that overlaps the range (ends after its start and
/// begins before its end) is kept, with its times made relative to the start
/// and never below 0, and its text unchanged.
pub proof fn lemma_overlapping_segments_kept(
    segs: Seq<(u64, u64, Seq<char>)>,
    start: Option<u64>,
    end: Option<u64>,
)
    ensures
        forall|k: int|
            0 <= k < segs.len() && (start matches Some(s) ==> segs[k].1 > s) && (end matches Some(
                e,
            ) ==> segs[k].0 < e) ==> segments_in_range(segs, start, end).contains(
                match start {
                    Some(s) => (
                        if segs[k].0 >= s {
                            (segs[k].0 - s) as u64
                        } else {
                            0u64
                        },
                        if segs[k].1 >= s {
                            (segs[k].1 - s) as u64
                        } else {
                            0u64
                        },
                        segs[k].2,
                    ),
                    None => #[trigger] segs[k],
                },
            ),
    decreases segs.len(),
{
    if segs.len() > 0 {
        let init = segs.drop_last();
        lemma_overlapping_segments_kept(init, start, end);
        let rest = segments_in_range(init, start, end);
        let all = segments_in_range(segs, start, end);
        assert forall|k: int|
            0 <= k < segs.len() && (start matches Some(s) ==> segs[k].1 > s) && (end matches Some(
                e,
            ) ==> segs[k].0 < e) implies all.contains(
            match start {
                Some(s) => (
                    if segs[k].0 >= s {
                        (segs[k].0 - s) as u64
                    } else {
                        0u64
                    },
                    if segs[k].1 >= s {
                        (segs[k].1 - s) as u64
                    } else {
                        0u64
                    },
                    segs[k].2,
                ),
                None => #[trigger] segs[k],
            },
        ) by {
            let want = shifted(segs[k], start);
            if k < init.len() {
                assert(init[k] == segs[k]);
                assert(rest.contains(want));
                let w = choose|w: int| 0 <= w < rest.len() && rest[w] == want;
                if overlaps(segs.last(), start, end) {
                    assert(all[w] == rest[w]);
                } else {
                    assert(all == rest);
                }
            } else {
                assert(segs[k] == segs.last());
                assert(all[all.len() - 1] == want);
            }
        }
    }
}

/// Law: the SRT content of the first `k` segments is a prefix of the content
/// of all of them, and the entry added by segment `k` is numbered `k + 1`
/// (in decimal, without wrapping), then holds `start --> end` and the text.
#[verifier::rlimit(40)]
pub proof fn lemma_srt_entries_numbered(segs: Seq<(u64, u64, Seq<char>)>, k: int)
    requires
        0 <= k < segs.len(),
    ensures
        srt_content(segs.take(k + 1)) == srt_content(segs.take(k)) + decimal((k + 1) as nat)
            + seq!['\n'] + srt_time(segs[k].0 as nat) + " --> "@ + srt_time(segs[k].1 as nat)
            + seq!['\n'] + segs[k].2 + seq!['\n', '\n'],
        srt_content(segs.take(k + 1)).len() <= srt_content(segs).len(),
        srt_content(segs).subrange(0, srt_content(segs.take(k + 1)).len() as int) == srt_content(
            segs.take(k + 1),
        ),
{
    let t = segs.take(k + 1);
    assert(t.drop_last() =~= segs.take(k));
    assert(t.last() == segs[k]);
    assert(t.len() == k + 1);
    assert(srt_content(t) == srt_content(segs.take(k)) + srt_block(
        (k + 1) as nat,
        segs[k].0 as nat,
        segs[k].1 as nat,
        segs[k].2,
    ));
    lemma_srt_prefix(segs, k + 1);
}

/// The content of the first `m` segments is a prefix of the content of all.
proof fn lemma_srt_prefix(segs: Seq<(u64, u64, Seq<char>)>, m: int)
    requires
        0 <= m <= segs.len(),
    ensures
        srt_content(segs.take(m)).len() <= srt_content(segs).len(),
        srt_content(segs).subrange(0, srt_content(segs.take(m)).len() as int) == srt_content(
            segs.take(m),
        ),
    decreases segs.len(),
{
    if m == segs.len() {
        assert(segs.take(m) =~= segs);
        assert(srt_content(segs).subrange(0, srt_content(segs).len() as int) =~= srt_content(segs));
    } else {
        let init = segs.drop_last();
        lemma_srt_prefix(init, m);
        assert(init.take(m) =~= segs.take(m));
        let p = srt_content(segs.take(m));
        let whole = srt_content(segs);
        assert(whole.subrange(0, p.len() as int) =~= srt_content(init).subrange(0, p.len() as int));
    }
}

} // verus!
