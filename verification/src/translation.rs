//! Translating all segment texts in one request: the texts are joined with a
//! marker between them, and the translated reply is split back on that marker.

use vstd::prelude::*;
use vstd::string::StringExecFns;
use crate::split::{
    free_of, join, lemma_free_concat, lemma_free_foreign, lemma_join_cons, lemma_occurs_concat,
    lemma_split_at_first, lemma_split_without_match, occurs_at, pieces_of, split_on, split_ranges,
};
use crate::srt::{segment_views, TranscriptionSegment};
use crate::text::{
    all_white_space, chars_of, lemma_trim_idempotent, lemma_trim_padded, push_char,
    string_of_range, trim, trim_range, trimmed,
};

verus! {

/// The marker put between segment texts: `|||SEG|||`.
pub open spec fn segment_marker() -> Seq<char> {
    seq!['|', '|', '|', 'S', 'E', 'G', '|', '|', '|']
}

/// What goes between two segment texts: the marker on a line of its own.
pub open spec fn marker_joint() -> Seq<char> {
    seq!['\n'] + segment_marker() + seq!['\n']
}

/// The trimmed texts of the segments.
pub open spec fn trimmed_texts(segs: Seq<(u64, u64, Seq<char>)>) -> Seq<Seq<char>> {
    segs.map_values(|s: (u64, u64, Seq<char>)| trim(s.2))
}

/// The text sent for translation: the trimmed segment texts joined by the marker line.
pub open spec fn combined_text(segs: Seq<(u64, u64, Seq<char>)>) -> Seq<char> {
    join(trimmed_texts(segs), marker_joint())
}

/// The segments with their texts replaced by the pieces of `translated` between
/// markers, trimmed; a segment past the last piece keeps its own text.
pub open spec fn translated_segments(segs: Seq<(u64, u64, Seq<char>)>, translated: Seq<char>) -> Seq<
    (u64, u64, Seq<char>),
> {
    let parts = split_on(translated, segment_marker());
    Seq::new(
        segs.len(),
        |i: int|
            (segs[i].0, segs[i].1, if i < parts.len() {
                trim(parts[i])
            } else {
                segs[i].2
            }),
    )
}

/// The marker as characters.
fn marker_chars() -> (v: Vec<char>)
    ensures
        v@ == segment_marker(),
{
    let v = vec!['|', '|', '|', 'S', 'E', 'G', '|', '|', '|'];
    assert(v@ =~= segment_marker());
    v
}

/// Joins the trimmed segment texts with the marker `|||SEG|||` on a line of
/// its own between each two, for a single translation request.
pub fn combine_segment_texts(segments: &Vec<TranscriptionSegment>) -> (r: String)
    ensures
        r@ == combined_text(segment_views(segments@)),
{
    let ghost texts = trimmed_texts(segment_views(segments@));
    let mut out = String::new();
    let mut i: usize = 0;
    while i < segments.len()
        invariant
            i <= segments.len(),
            texts == trimmed_texts(segment_views(segments@)),
            out@ == join(texts.take(i as int), marker_joint()),
        decreases segments.len() - i,
    {
        let ghost before = out@;
        if i > 0 {
            push_char(&mut out, '\n');
            out.append("|||SEG|||");
            proof {
                reveal_strlit("|||SEG|||");
            }
            push_char(&mut out, '\n');
        }
        let t = trimmed(segments[i].text.as_str());
        out.append(t.as_str());
        assert(texts[i as int] == t@);
        assert(texts.take(i + 1).drop_last() =~= texts.take(i as int));
        assert(texts.take(i + 1).last() == texts[i as int]);
        if i > 0 {
            assert(out@ =~= before + marker_joint() + t@);
        } else {
            assert(out@ =~= t@);
        }
        i = i + 1;
    }
    assert(texts.take(i as int) =~= texts);
    out
}

/// Gives each segment its piece of the translated text: `translated` is split
/// on the marker `|||SEG|||`, each piece trimmed; a segment past the last
/// piece keeps its own text. Times are kept.
pub fn apply_translation(segments: &Vec<TranscriptionSegment>, translated: &str) -> (r: Vec<
    TranscriptionSegment,
>)
    ensures
        segment_views(r@) == translated_segments(segment_views(segments@), translated@),
{
    let ghost views = segment_views(segments@);
    let ghost goal = translated_segments(views, translated@);
    let v = chars_of(translated);
    let marker = marker_chars();
    let parts = split_ranges(&v, &marker);
    let ghost sp = split_on(v@, segment_marker());
    let mut out: Vec<TranscriptionSegment> = Vec::new();
    let mut i: usize = 0;
    while i < segments.len()
        invariant
            i <= segments.len(),
            views == segment_views(segments@),
            goal == translated_segments(views, translated@),
            sp == split_on(v@, segment_marker()),
            v@ == translated@,
            pieces_of(v@, parts@) == sp,
            forall|k: int| 0 <= k < parts.len() ==> (#[trigger] parts@[k]).0 <= parts@[k].1 <= v.len(),
            segment_views(out@) == goal.take(i as int),
        decreases segments.len() - i,
    {
        let seg = &segments[i];
        let text = if i < parts.len() {
            let (lo, hi) = parts[i];
            let (a, b) = trim_range(&v, lo, hi);
            assert(sp[i as int] == v@.subrange(lo as int, hi as int));
            string_of_range(&v, a, b)
        } else {
            seg.text.clone()
        };
        let piece = TranscriptionSegment { start_ms: seg.start_ms, end_ms: seg.end_ms, text };
        assert(views[i as int] == seg@);
        assert(sp.len() == parts@.len());
        assert(piece@ == goal[i as int]);
        let ghost before = out@;
        out.push(piece);
        assert(segment_views(out@) =~= segment_views(before).push(piece@));
        assert(goal.take(i + 1) =~= goal.take(i as int).push(goal[i as int]));
        i = i + 1;
    }
    assert(goal.take(i as int) =~= goal);
    out
}

// ------------------------------------------------------------------
// Laws
// ------------------------------------------------------------------

/// The marker holds neither a line break nor whitespace.
proof fn lemma_marker_chars()
    ensures
        segment_marker().len() == 9,
        forall|k: int| 0 <= k < 9 ==> segment_marker()[k] != '\n',
        forall|k: int| 0 <= k < 9 ==> segment_marker()[k] == '|' || segment_marker()[k] == 'S'
            || segment_marker()[k] == 'E' || segment_marker()[k] == 'G',
{
}

/// Line breaks alone hold no marker.
proof fn lemma_newlines_free(pre: Seq<char>)
    requires
        forall|i: int| 0 <= i < pre.len() ==> pre[i] == '\n',
    ensures
        free_of(pre, segment_marker()),
        all_white_space(pre),
{
    lemma_marker_chars();
    lemma_free_foreign(pre, segment_marker());
}

/// Splitting `pre + joined texts` on the marker gives one piece per text,
/// each trimming to that text, when `pre` is line breaks and every text is
/// trimmed and free of the marker.
proof fn lemma_split_joined(pre: Seq<char>, ts: Seq<Seq<char>>)
    requires
        ts.len() >= 1,
        forall|i: int| 0 <= i < pre.len() ==> pre[i] == '\n',
        forall|i: int|
            0 <= i < ts.len() ==> free_of(#[trigger] ts[i], segment_marker()) && trim(ts[i])
                == ts[i],
    ensures
        split_on(pre + join(ts, marker_joint()), segment_marker()).len() == ts.len(),
        forall|i: int|
            0 <= i < ts.len() ==> trim(
                #[trigger] split_on(pre + join(ts, marker_joint()), segment_marker())[i],
            ) == ts[i],
    decreases ts.len(),
{
    let m = segment_marker();
    let nl = seq!['\n'];
    lemma_marker_chars();
    lemma_newlines_free(pre);
    lemma_newlines_free(nl);
    assert(free_of(ts[0], m));
    assert(trim(ts[0]) == ts[0]);
    assert(all_white_space(Seq::<char>::empty()));
    // `pre + ts[0]` holds no marker.
    lemma_free_concat(pre, ts[0], m);
    if ts.len() == 1 {
        let s = pre + join(ts, marker_joint());
        assert(s == pre + ts[0]);
        lemma_split_without_match(s, m);
        assert(pre + ts[0] + Seq::<char>::empty() =~= s);
        lemma_trim_padded(pre, ts[0], Seq::<char>::empty());
    } else {
        let rest = ts.drop_first();
        lemma_join_cons(ts, marker_joint());
        let a = pre + ts[0] + nl;
        let tail = nl + join(rest, marker_joint());
        let s = pre + join(ts, marker_joint());
        assert(s =~= a + m + tail);
        // `a` holds no marker and ends with a line break.
        lemma_free_concat(pre + ts[0], nl, m);
        assert(a.last() == '\n');
        assert forall|j: int| 0 <= j < a.len() implies !occurs_at(a + m + tail, m, j) by {
            assert(a + m + tail =~= a + (m + tail));
            if occurs_at(a + (m + tail), m, j) {
                lemma_occurs_concat(a, m + tail, m, j);
            }
        }
        lemma_split_at_first(a, m, tail);
        lemma_trim_padded(pre, ts[0], nl);
        assert forall|i: int| 0 <= i < rest.len() implies free_of(#[trigger] rest[i], m) && trim(
            rest[i],
        ) == rest[i] by {
            assert(rest[i] == ts[i + 1]);
        }
        lemma_split_joined(nl, rest);
        let sp = split_on(s, m);
        let sr = split_on(tail, m);
        assert(sp == seq![a] + sr);
        assert forall|i: int| 0 <= i < ts.len() implies trim(#[trigger] sp[i]) == ts[i] by {
            if i > 0 {
                assert(sp[i] == sr[i - 1]);
                assert(rest[i - 1] == ts[i]);
            }
        }
    }
}

/// Law: when the translation hands the combined text back unchanged, every
/// segment gets back its own trimmed text and keeps its times, provided no
/// trimmed text holds the marker `|||SEG|||`.
pub proof fn lemma_unchanged_translation(segs: Seq<(u64, u64, Seq<char>)>)
    requires
        forall|i: int| 0 <= i < segs.len() ==> free_of(trim(#[trigger] segs[i].2), segment_marker()),
    ensures
        translated_segments(segs, combined_text(segs)) == segs.map_values(
            |s: (u64, u64, Seq<char>)| (s.0, s.1, trim(s.2)),
        ),
{
    let ts = trimmed_texts(segs);
    let goal = segs.map_values(|s: (u64, u64, Seq<char>)| (s.0, s.1, trim(s.2)));
    if segs.len() > 0 {
        assert forall|i: int| 0 <= i < ts.len() implies free_of(#[trigger] ts[i], segment_marker())
            && trim(ts[i]) == ts[i] by {
            assert(ts[i] == trim(segs[i].2));
            lemma_trim_idempotent(segs[i].2);
        }
        assert(Seq::<char>::empty() + join(ts, marker_joint()) =~= combined_text(segs));
        lemma_split_joined(Seq::<char>::empty(), ts);
    }
    assert(translated_segments(segs, combined_text(segs)) =~= goal);
}

/// Splitting pieces joined by the marker gives the pieces back, when no piece
/// holds the marker and no piece before the last ends with one of its characters.
proof fn lemma_split_join_marker(ps: Seq<Seq<char>>)
    requires
        ps.len() >= 1,
        forall|i: int| 0 <= i < ps.len() ==> free_of(#[trigger] ps[i], segment_marker()),
        forall|i: int|
            0 <= i < ps.len() - 1 && (#[trigger] ps[i]).len() > 0 ==> !segment_marker().contains(
                ps[i].last(),
            ),
    ensures
        split_on(join(ps, segment_marker()), segment_marker()) == ps,
    decreases ps.len(),
{
    let m = segment_marker();
    lemma_marker_chars();
    assert(free_of(ps[0], m));
    if ps.len() == 1 {
        lemma_split_without_match(ps[0], m);
        assert(seq![ps[0]] =~= ps);
    } else {
        let rest = ps.drop_first();
        let a = ps[0];
        lemma_join_cons(ps, m);
        let tail = join(rest, m);
        assert forall|j: int| 0 <= j < a.len() implies !occurs_at(a + m + tail, m, j) by {
            assert(a + m + tail =~= a + (m + tail));
            if occurs_at(a + (m + tail), m, j) {
                lemma_occurs_concat(a, m + tail, m, j);
                if !(j + m.len() <= a.len()) && j < a.len() {
                    assert(m[a.len() - 1 - j] == a.last());
                    assert(m.contains(a.last()));
                }
            }
        }
        lemma_split_at_first(a, m, tail);
        assert forall|i: int| 0 <= i < rest.len() implies free_of(#[trigger] rest[i], m) by {
            assert(rest[i] == ps[i + 1]);
        }
        assert forall|i: int|
            0 <= i < rest.len() - 1 && (#[trigger] rest[i]).len() > 0 implies !m.contains(
                rest[i].last(),
            ) by {
            assert(rest[i] == ps[i + 1]);
        }
        lemma_split_join_marker(rest);
        assert(seq![a] + rest =~= ps);
    }
}

/// Law: for any reply made of pieces joined by the marker `|||SEG|||` (no
/// piece holding the marker, and no piece before the last ending with one of
/// its characters, such as the whitespace around a marker), segment `i` gets
/// piece `i` trimmed and keeps its times, for every `i` below both counts;
/// segments past the last piece keep their own texts.
pub proof fn lemma_reply_pieces_go_to_segments(
    segs: Seq<(u64, u64, Seq<char>)>,
    ps: Seq<Seq<char>>,
)
    requires
        ps.len() >= 1,
        forall|i: int| 0 <= i < ps.len() ==> free_of(#[trigger] ps[i], segment_marker()),
        forall|i: int|
            0 <= i < ps.len() - 1 && (#[trigger] ps[i]).len() > 0 ==> !segment_marker().contains(
                ps[i].last(),
            ),
    ensures
        translated_segments(segs, join(ps, segment_marker())).len() == segs.len(),
        forall|i: int|
            0 <= i < segs.len() && i < ps.len() ==> #[trigger] translated_segments(
                segs,
                join(ps, segment_marker()),
            )[i] == (segs[i].0, segs[i].1, trim(ps[i])),
        forall|i: int|
            ps.len() <= i < segs.len() ==> #[trigger] translated_segments(
                segs,
                join(ps, segment_marker()),
            )[i] == segs[i],
{
    lemma_split_join_marker(ps);
}

} // verus!
