//! Cutting a time range out of the source before it is sent: which formats
//! can be cut, which streams are copied, and how each packet is kept and retimed.

use vstd::prelude::*;
use vstd::string::StringExecFns;
use crate::error::AppError;
use crate::split::split_on;
use crate::text::chars_of;

verus! {

/// Extensions of the formats whose segments can be extracted.
pub const SEGMENT_EXTRACT_SUPPORTED_EXTENSIONS: [&'static str; 9] = [
    "mp3",
    "wav",
    "m4a",
    "flac",
    "ogg",
    "mp4",
    "mov",
    "mkv",
    "webm",
];

/// `c` with an ASCII capital letter made small.
pub open spec fn ascii_lower(c: char) -> char {
    if 'A' <= c && c <= 'Z' {
        (c as int + 32) as char
    } else {
        c
    }
}

/// `a` and `b` are equal when ASCII letters are compared without case
/// (what `str::eq_ignore_ascii_case` tests).
pub open spec fn eq_ignore_ascii_case(a: Seq<char>, b: Seq<char>) -> bool {
    a.len() == b.len() && forall|i: int| 0 <= i < a.len() ==> ascii_lower(a[i]) == ascii_lower(b[i])
}

/// `ext` names one of the supported formats, ignoring ASCII case.
pub open spec fn supported_extension(ext: Seq<char>) -> bool {
    exists|k: int|
        0 <= k < 9 && eq_ignore_ascii_case(#[trigger] SEGMENT_EXTRACT_SUPPORTED_EXTENSIONS@[k]@, ext)
}

/// The small form of one character.
fn lower_char(c: char) -> (r: char)
    ensures
        r == ascii_lower(c),
{
    if 'A' <= c && c <= 'Z' {
        let b: u32 = c as u32 + 32;
        let byte: u8 = b as u8;
        byte as char
    } else {
        c
    }
}

/// Whether `a` and `b` are equal when ASCII letters are compared without case.
pub fn equal_ignoring_ascii_case(a: &str, b: &str) -> (r: bool)
    ensures
        r == eq_ignore_ascii_case(a@, b@),
{
    let x = chars_of(a);
    let y = chars_of(b);
    if x.len() != y.len() {
        return false;
    }
    let mut i: usize = 0;
    while i < x.len()
        invariant
            x@ == a@,
            y@ == b@,
            x.len() == y.len(),
            i <= x.len(),
            forall|k: int| 0 <= k < i ==> ascii_lower(x@[k]) == ascii_lower(y@[k]),
        decreases x.len() - i,
    {
        if lower_char(x[i]) != lower_char(y[i]) {
            return false;
        }
        i = i + 1;
    }
    true
}

/// Whether `extension` names a format whose segments can be extracted
/// (mp3, wav, m4a, flac, ogg, mp4, mov, mkv or webm, in any ASCII case).
pub fn is_supported_extension(extension: &str) -> (r: bool)
    ensures
        r == supported_extension(extension@),
{
    let mut k: usize = 0;
    while k < 9
        invariant
            k <= 9,
            forall|j: int|
                0 <= j < k ==> !eq_ignore_ascii_case(
                    #[trigger] SEGMENT_EXTRACT_SUPPORTED_EXTENSIONS@[j]@,
                    extension@,
                ),
        decreases 9 - k,
    {
        if equal_ignoring_ascii_case(SEGMENT_EXTRACT_SUPPORTED_EXTENSIONS[k], extension) {
            return true;
        }
        k = k + 1;
    }
    false
}

/// The position of the last `c` in `t`.
pub open spec fn last_index_of(t: Seq<char>, c: char) -> Option<int>
    decreases t.len(),
{
    if t.len() == 0 {
        None
    } else if t.last() == c {
        Some(t.len() - 1)
    } else {
        last_index_of(t.drop_last(), c)
    }
}

/// The last component of `/`-separated `segs` as std's path parser sees
/// them: empty segments and `.` segments are skipped.
pub open spec fn last_component(segs: Seq<Seq<char>>) -> Option<Seq<char>>
    decreases segs.len(),
{
    if segs.len() == 0 {
        None
    } else if segs.last().len() == 0 || segs.last() == seq!['.'] {
        last_component(segs.drop_last())
    } else {
        Some(segs.last())
    }
}

/// The file name of a `/`-separated path (what `Path::file_name` documents):
/// its last component, or none when there is none or it is `..`.
pub open spec fn path_file_name(t: Seq<char>) -> Option<Seq<char>> {
    match last_component(split_on(t, seq!['/'])) {
        Some(c) => if c == seq!['.', '.'] {
            None
        } else {
            Some(c)
        },
        None => None,
    }
}

/// A path that every platform splits the same way: no `\` and no `:`
/// anywhere, and not starting with `//` (which Windows reads as a network or
/// device prefix). Its components are its `/`-separated segments.
pub open spec fn is_plain_path(t: Seq<char>) -> bool {
    &&& !t.contains('\\')
    &&& !t.contains(':')
    &&& !(t.len() >= 2 && t[0] == '/' && t[1] == '/')
}

/// The extension of a file name as std documents `Path::extension`: the text
/// after the last `.`, or none when there is no `.` or the only one opens the name.
pub open spec fn file_name_extension(name: Seq<char>) -> Option<Seq<char>> {
    match last_index_of(name, '.') {
        Some(i) => if i == 0 {
            None
        } else {
            Some(name.subrange(i + 1, name.len() as int))
        },
        None => None,
    }
}

/// The extension of a plain path: that of its file name.
pub open spec fn plain_path_extension(t: Seq<char>) -> Option<Seq<char>> {
    match path_file_name(t) {
        Some(name) => file_name_extension(name),
        None => None,
    }
}

/// The extension of `path` as text (std's `Path::extension` on `Path::new(path)`,
/// then `OsStr::to_str`): the part of the file name after its last `.`. It never
/// holds a `.`; on a plain path (see `is_plain_path`) it is what std documents
/// for its file name. On other paths the file name follows the platform's
/// path rules, which is left unsaid.
#[verifier::external_body]
fn path_extension(path: &str) -> (r: Option<String>)
    ensures
        r matches Some(e) ==> !e@.contains('.'),
        is_plain_path(path@) ==> match r {
            Some(e) => plain_path_extension(path@) == Some(e@),
            None => plain_path_extension(path@) is None,
        },
{
    match std::path::Path::new(path).extension() {
        Some(ext) => match ext.to_str() {
            Some(s) => Some(s.to_string()),
            None => None,
        },
        None => None,
    }
}

/// Whether the file at `file_path` is of a format whose segments can be
/// extracted, judged by its extension (`is_supported_extension` of what
/// `Path::extension` gives). On a plain path that is the extension of its
/// file name; on other paths it follows the platform's path rules.
pub fn supports_segment_extraction(file_path: &str) -> (r: bool)
    ensures
        is_plain_path(file_path@) ==> r == (plain_path_extension(file_path@) matches Some(e)
            && supported_extension(e)),
        r ==> exists|e: Seq<char>| !e.contains('.') && #[trigger] supported_extension(e),
{
    match path_extension(file_path) {
        Some(ext) => {
            let r = is_supported_extension(ext.as_str());
            assert(r ==> !ext@.contains('.') && supported_extension(ext@));
            r
        },
        None => false,
    }
}

/// How the source is read: as it is, or through a temporary file holding the
/// extracted segment, which keeps the source's extension.
#[derive(Debug, PartialEq, Eq)]
pub enum SourcePlan {
    Original,
    Extract(String),
}

/// The plan `r` is the one for the range bounds `start_ms`, `end_ms` and the
/// source's extension `extension`: the source as it is when no bound is
/// given; otherwise an extracted segment keeping a supported extension, or an
/// `UnsupportedSegmentFormat` error naming the extension (`unknown` when there
/// is none).
pub open spec fn is_plan_for(
    r: Result<SourcePlan, AppError>,
    start_ms: Option<u64>,
    end_ms: Option<u64>,
    extension: Option<Seq<char>>,
) -> bool {
    if start_ms is None && end_ms is None {
        r == Ok::<SourcePlan, AppError>(SourcePlan::Original)
    } else {
        match extension {
            Some(e) => if supported_extension(e) {
                r matches Ok(SourcePlan::Extract(x)) && x@ == e
            } else {
                r matches Err(AppError::UnsupportedSegmentFormat(m)) && m@ == e
            },
            None => r matches Err(AppError::UnsupportedSegmentFormat(m)) && m@ == "unknown"@,
        }
    }
}

/// The view of an optional extension.
pub open spec fn extension_view(extension: Option<&str>) -> Option<Seq<char>> {
    match extension {
        Some(e) => Some(e@),
        None => None,
    }
}

/// An extension as `Path::extension` can give it: text after the last `.`,
/// so without a `.` of its own.
pub open spec fn is_extension_text(extension: Option<Seq<char>>) -> bool {
    extension matches Some(e) ==> !e.contains('.')
}

/// Decides how the source is read, given the bounds of the range and the
/// source's extension: as it is when no bound is given; otherwise through an
/// extracted segment, which needs a supported extension.
pub fn plan_for_extension(start_ms: Option<u64>, end_ms: Option<u64>, extension: Option<&str>) -> (r:
    Result<SourcePlan, AppError>)
    ensures
        is_plan_for(r, start_ms, end_ms, extension_view(extension)),
{
    if start_ms.is_none() && end_ms.is_none() {
        return Ok(SourcePlan::Original);
    }
    match extension {
        Some(e) => {
            if is_supported_extension(e) {
                Ok(SourcePlan::Extract(String::from_str(e)))
            } else {
                Err(AppError::UnsupportedSegmentFormat(String::from_str(e)))
            }
        },
        None => Err(AppError::UnsupportedSegmentFormat(String::from_str("unknown"))),
    }
}

/// Decides how the source at `input_file` is read for the range from
/// `start_ms` to `end_ms`: the plan that `plan_for_extension` gives for the
/// extension that `Path::extension` finds in `input_file`. On a plain path
/// that is the extension of its file name; on other paths it follows the
/// platform's path rules and is stated only to be an extension text.
pub fn plan_source_segment(input_file: &str, start_ms: Option<u64>, end_ms: Option<u64>) -> (r:
    Result<SourcePlan, AppError>)
    ensures
        is_plain_path(input_file@) ==> is_plan_for(
            r,
            start_ms,
            end_ms,
            plain_path_extension(input_file@),
        ),
        exists|x: Option<Seq<char>>| is_extension_text(x) && #[trigger] is_plan_for(r, start_ms, end_ms, x),
{
    if start_ms.is_none() && end_ms.is_none() {
        let r = Ok(SourcePlan::Original);
        assert(is_extension_text(None) && is_plan_for(r, start_ms, end_ms, None));
        return r;
    }
    let ext = path_extension(input_file);
    match ext {
        Some(e) => {
            let r = plan_for_extension(start_ms, end_ms, Some(e.as_str()));
            assert(is_extension_text(Some(e@)) && is_plan_for(r, start_ms, end_ms, Some(e@)));
            r
        },
        None => {
            let r = plan_for_extension(start_ms, end_ms, None);
            assert(is_extension_text(None) && is_plan_for(r, start_ms, end_ms, None));
            r
        },
    }
}

// ------------------------------------------------------------------
// Streams and packets
// ------------------------------------------------------------------

/// The kind of media a stream carries.
#[derive(Debug, Clone, Copy, PartialEq, Eq)]
pub enum MediaKind {
    Audio,
    Video,
    Subtitle,
    Other,
}

/// Audio, video and subtitle streams are copied; others are dropped.
pub open spec fn is_copied(kind: MediaKind) -> bool {
    kind is Audio || kind is Video || kind is Subtitle
}

/// How many of `kinds` are copied.
pub open spec fn copied_count(kinds: Seq<MediaKind>) -> nat
    decreases kinds.len(),
{
    if kinds.len() == 0 {
        0
    } else {
        copied_count(kinds.drop_last()) + if is_copied(kinds.last()) {
            1nat
        } else {
            0nat
        }
    }
}

/// The output stream of each input stream: copied streams are numbered from
/// 0 in input order; dropped ones map to -1.
pub open spec fn stream_mapping(kinds: Seq<MediaKind>) -> Seq<int> {
    Seq::new(
        kinds.len(),
        |i: int|
            if is_copied(kinds[i]) {
                copied_count(kinds.take(i)) as int
            } else {
                -1
            },
    )
}

/// A count never exceeds the number of streams counted.
proof fn lemma_copied_count_bound(kinds: Seq<MediaKind>)
    ensures
        copied_count(kinds) <= kinds.len(),
    decreases kinds.len(),
{
    if kinds.len() > 0 {
        lemma_copied_count_bound(kinds.drop_last());
    }
}

/// Maps each input stream to its output stream: audio, video and subtitle
/// streams get consecutive output indices from 0, others get -1.
pub fn map_streams(kinds: &Vec<MediaKind>) -> (r: Vec<i32>)
    requires
        kinds.len() <= i32::MAX,
    ensures
        r@.len() == kinds@.len(),
        forall|i: int| 0 <= i < r@.len() ==> r@[i] as int == #[trigger] stream_mapping(kinds@)[i],
{
    let mut out: Vec<i32> = Vec::new();
    let mut next: i32 = 0;
    let mut i: usize = 0;
    while i < kinds.len()
        invariant
            i <= kinds.len() <= i32::MAX,
            out@.len() == i,
            0 <= next <= i,
            next as int == copied_count(kinds@.take(i as int)),
            forall|k: int| 0 <= k < i ==> out@[k] as int == #[trigger] stream_mapping(kinds@)[k],
        decreases kinds.len() - i,
    {
        assert(kinds@.take(i + 1).drop_last() =~= kinds@.take(i as int));
        assert(kinds@.take(i + 1).last() == kinds@[i as int]);
        let copied = match kinds[i] {
            MediaKind::Audio | MediaKind::Video | MediaKind::Subtitle => true,
            MediaKind::Other => false,
        };
        assert(copied == is_copied(kinds@[i as int]));
        proof {
            lemma_copied_count_bound(kinds@.take(i as int));
        }
        let ghost old_out = out@;
        if copied {
            out.push(next);
            next = next + 1;
        } else {
            out.push(-1);
        }
        assert(out@[i as int] as int == stream_mapping(kinds@)[i as int]);
        assert forall|k: int| 0 <= k < i + 1 implies out@[k] as int == #[trigger] stream_mapping(
            kinds@,
        )[k] by {
            if k < i {
                assert(out@[k] == old_out[k]);
            }
        }
        i = i + 1;
    }
    out
}

/// What happens to one packet.
#[derive(Debug, Clone, Copy, PartialEq, Eq)]
pub enum PacketStep {
    /// The packet lies outside the range and is not written.
    Skip,
    /// The packet is written with these timestamps; `first_ts` is the stream's
    /// first timestamp, which later packets are taken relative to.
    Write { pts: Option<i64>, dts: Option<i64>, first_ts: Option<i64> },
}

/// `a - b`, held within the range of `i64`.
pub open spec fn saturating_sub_i64(a: i64, b: i64) -> i64 {
    if a - b > i64::MAX {
        i64::MAX
    } else if a - b < i64::MIN {
        i64::MIN
    } else {
        (a - b) as i64
    }
}

/// The fate of a packet whose time is `ts_us` microseconds (when known):
/// skipped before `start_us` or from `end_us` on; otherwise written with its
/// timestamps taken relative to the stream's first timestamp, which is the
/// packet's own decoding (else presentation) timestamp when none was seen.
pub open spec fn packet_step(
    ts_us: Option<i64>,
    start_us: Option<i64>,
    end_us: Option<i64>,
    pts: Option<i64>,
    dts: Option<i64>,
    first_ts: Option<i64>,
) -> PacketStep {
    if (ts_us is Some && start_us is Some && ts_us->0 < start_us->0) || (ts_us is Some && end_us
        is Some && ts_us->0 >= end_us->0) {
        PacketStep::Skip
    } else if pts is None && dts is None {
        PacketStep::Write { pts, dts, first_ts }
    } else {
        let first = match first_ts {
            Some(f) => f,
            None => match dts {
                Some(d) => d,
                None => pts->0,
            },
        };
        PacketStep::Write {
            pts: match pts {
                Some(p) => Some(saturating_sub_i64(p, first)),
                None => None,
            },
            dts: match dts {
                Some(d) => Some(saturating_sub_i64(d, first)),
                None => None,
            },
            first_ts: Some(first),
        }
    }
}

/// `a - b`, held within the range of `i64` (what `i64::saturating_sub` returns).
fn sub_saturating(a: i64, b: i64) -> (r: i64)
    ensures
        r == saturating_sub_i64(a, b),
{
    let d: i128 = a as i128 - b as i128;
    if d > i64::MAX as i128 {
        i64::MAX
    } else if d < i64::MIN as i128 {
        i64::MIN
    } else {
        d as i64
    }
}

/// Decides whether a packet is written and with which timestamps (see `packet_step`).
pub fn retime_packet(
    ts_us: Option<i64>,
    start_us: Option<i64>,
    end_us: Option<i64>,
    pts: Option<i64>,
    dts: Option<i64>,
    first_ts: Option<i64>,
) -> (r: PacketStep)
    ensures
        r == packet_step(ts_us, start_us, end_us, pts, dts, first_ts),
{
    if let (Some(start), Some(ts)) = (start_us, ts_us) {
        if ts < start {
            return PacketStep::Skip;
        }
    }
    if let (Some(end), Some(ts)) = (end_us, ts_us) {
        if ts >= end {
            return PacketStep::Skip;
        }
    }
    if pts.is_none() && dts.is_none() {
        return PacketStep::Write { pts, dts, first_ts };
    }
    let first = match first_ts {
        Some(f) => f,
        None => match dts {
            Some(d) => d,
            None => match pts {
                Some(p) => p,
                None => 0,
            },
        },
    };
    let new_pts = match pts {
        Some(p) => Some(sub_saturating(p, first)),
        None => None,
    };
    let new_dts = match dts {
        Some(d) => Some(sub_saturating(d, first)),
        None => None,
    };
    PacketStep::Write { pts: new_pts, dts: new_dts, first_ts: Some(first) }
}

/// Milliseconds as microseconds, held at `i64::MAX` when they do not fit.
pub fn millis_to_micros(ms: u64) -> (r: i64)
    ensures
        ms * 1000 <= i64::MAX ==> r == ms * 1000,
        ms * 1000 > i64::MAX ==> r == i64::MAX,
{
    if ms <= 9_223_372_036_854_775 {
        (ms * 1000) as i64
    } else {
        i64::MAX
    }
}

/// Law: the first packet written from a stream that carries a decoding
/// timestamp is written at decoding time 0.
pub proof fn lemma_first_packet_at_zero(
    ts_us: Option<i64>,
    start_us: Option<i64>,
    end_us: Option<i64>,
    pts: Option<i64>,
    dts: i64,
)
    ensures
        packet_step(ts_us, start_us, end_us, pts, Some(dts), None) matches PacketStep::Write {
            dts: d,
            first_ts: f,
            ..
        } ==> d == Some(0i64) && f == Some(dts),
{
}

// ------------------------------------------------------------------
// Output file names
// ------------------------------------------------------------------

/// A plain path whose file name is its text after the last `/`: that text is
/// neither empty nor `.` nor `..`.
pub open spec fn name_ends_path(t: Seq<char>) -> bool {
    let name = match last_index_of(t, '/') {
        Some(i) => t.subrange(i + 1, t.len() as int),
        None => t,
    };
    &&& is_plain_path(t)
    &&& name.len() > 0
    &&& name != seq!['.']
    &&& name != seq!['.', '.']
}

/// `t` without its file name's extension and the `.` before it.
pub open spec fn without_extension(t: Seq<char>) -> Seq<char> {
    match plain_path_extension(t) {
        Some(e) => t.subrange(0, t.len() - e.len() - 1),
        None => t,
    }
}

/// The text of `Path::new(path).with_extension("")` (its file name's
/// extension and the `.` before it removed). On a path whose file name ends
/// it (see `name_ends_path`) that is `without_extension`; on other paths the
/// file name follows the platform's path rules, which is left unsaid.
#[verifier::external_body]
fn path_without_extension(path: &str) -> (r: String)
    ensures
        name_ends_path(path@) ==> r@ == without_extension(path@),
{
    std::path::Path::new(path).with_extension("").to_string_lossy().into_owned()
}

/// The file a translation into `target_language` is written to: the output
/// path without its extension, then `-`, the language and `.srt`.
pub fn translated_output_path(output_file: &str, target_language: &str) -> (r: String)
    ensures
        name_ends_path(output_file@) ==> r@ == without_extension(output_file@) + "-"@
            + target_language@ + ".srt"@,
        exists|x: Seq<char>| r@ == x + "-"@ + target_language@ + ".srt"@,
{
    let mut r = path_without_extension(output_file);
    let ghost stem = r@;
    r.append("-");
    r.append(target_language);
    r.append(".srt");
    assert(r@ == stem + "-"@ + target_language@ + ".srt"@);
    r
}

/// Law: a packet is skipped exactly when its time is known and lies before
/// the range's start or at or after its end. A written packet is taken
/// relative to the stream's first timestamp `f` (the one seen before, else
/// its own decoding timestamp, else its presentation one): each of its
/// timestamps `x` becomes `x - f`, held within the range of `i64`, which is
/// exact and never below 0 when `0 <= f <= x`.
pub proof fn lemma_packet_retiming(
    ts_us: Option<i64>,
    start_us: Option<i64>,
    end_us: Option<i64>,
    pts: Option<i64>,
    dts: Option<i64>,
    first_ts: Option<i64>,
)
    ensures
        (packet_step(ts_us, start_us, end_us, pts, dts, first_ts) is Skip) <==> (ts_us is Some && ((
        start_us is Some && ts_us->0 < start_us->0) || (end_us is Some && ts_us->0 >= end_us->0))),
        packet_step(ts_us, start_us, end_us, pts, dts, first_ts) matches PacketStep::Write {
            pts: p,
            dts: d,
            first_ts: f,
        } ==> {
            &&& (pts is None && dts is None) ==> (p is None && d is None && f == first_ts)
            &&& (pts is Some || dts is Some) ==> {
                let first: i64 = if first_ts is Some {
                    first_ts->0
                } else if dts is Some {
                    dts->0
                } else {
                    pts->0
                };
                &&& f == Some(first)
                &&& p is Some <==> pts is Some
                &&& d is Some <==> dts is Some
                &&& pts is Some ==> clamps_to(p->0, pts->0 - first)
                &&& dts is Some ==> clamps_to(d->0, dts->0 - first)
                &&& pts is Some && 0 <= first <= pts->0 ==> p->0 == pts->0 - first && p->0 >= 0
                &&& dts is Some && 0 <= first <= dts->0 ==> d->0 == dts->0 - first && d->0 >= 0
            }
        },
{
    let step = packet_step(ts_us, start_us, end_us, pts, dts, first_ts);
    if !(step is Skip) && (pts is Some || dts is Some) {
        let first: i64 = if first_ts is Some {
            first_ts->0
        } else if dts is Some {
            dts->0
        } else {
            pts->0
        };
        if pts is Some {
            lemma_saturating_sub_clamps(pts->0, first);
        }
        if dts is Some {
            lemma_saturating_sub_clamps(dts->0, first);
        }
    }
}

/// `saturating_sub_i64(a, b)` is `a - b` held within the range of `i64`.
proof fn lemma_saturating_sub_clamps(a: i64, b: i64)
    ensures
        clamps_to(saturating_sub_i64(a, b), a - b),
        0 <= b <= a ==> saturating_sub_i64(a, b) == a - b,
{
}

/// `x` is `v` held within the range of `i64`.
pub open spec fn clamps_to(x: i64, v: int) -> bool {
    if v > i64::MAX {
        x == i64::MAX
    } else if v < i64::MIN {
        x == i64::MIN
    } else {
        x == v
    }
}

/// Law: later timestamps of a stream are written in the same order: for two
/// packets retimed against the same first timestamp, a larger decoding (or
/// presentation) timestamp never gives a smaller written one.
pub proof fn lemma_packet_retiming_monotonic(
    ts_us: Option<i64>,
    start_us: Option<i64>,
    end_us: Option<i64>,
    a: i64,
    b: i64,
    first: i64,
)
    requires
        a <= b,
    ensures
        packet_step(ts_us, start_us, end_us, None, Some(a), Some(first)) matches PacketStep::Write {
            dts: Some(x),
            ..
        } ==> packet_step(ts_us, start_us, end_us, None, Some(b), Some(first)) matches PacketStep::Write {
            dts: Some(y),
            ..
        } ==> x <= y,
        packet_step(ts_us, start_us, end_us, Some(a), None, Some(first)) matches PacketStep::Write {
            pts: Some(x),
            ..
        } ==> packet_step(ts_us, start_us, end_us, Some(b), None, Some(first)) matches PacketStep::Write {
            pts: Some(y),
            ..
        } ==> x <= y,
{
    lemma_saturating_sub_clamps(a, first);
    lemma_saturating_sub_clamps(b, first);
}

} // verus!
