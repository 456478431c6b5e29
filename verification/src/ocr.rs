//! Screen text: cleaning of OCR output, removal of lines already on the
//! previous frame, the frame-by-frame timeline and the tool check.
use vstd::prelude::*;

use crate::clock::{chrono_now, jst_datetime_text};
use crate::similarity::{law_similar_reflexive, similar, similar_chars};
use crate::text::{
    char_views, chars_of, collapse_whitespace, collapse_ws, copy_string, decode_utf8_lossy,
    extend_chars, join, join_strings, lines, push_signed_padded, push_str, signed_padded,
    split_lines, string_of, trim, trim_chars, utf8_lossy, views,
};
use crate::transcript::{Segment, SegmentView, ocr_source, segment_views};

verus! {

/// One OCR snapshot of the screen, taken once per frame interval.
pub struct OcrSnapshot {
    pub start_ms: i64,
    pub text: String,
    pub is_new_slide: bool,
}

pub struct SnapshotView {
    pub start_ms: int,
    pub text: Seq<char>,
    pub is_new_slide: bool,
}

impl View for OcrSnapshot {
    type V = SnapshotView;

    open spec fn view(&self) -> SnapshotView {
        SnapshotView { start_ms: self.start_ms as int, text: self.text@, is_new_slide: self.is_new_slide }
    }
}

pub open spec fn snapshot_views(v: Seq<OcrSnapshot>) -> Seq<SnapshotView> {
    v.map_values(|s: OcrSnapshot| s@)
}

// ---------------------------------------------------------------------------
// Cleaning one frame's text
// ---------------------------------------------------------------------------

/// Whether some line of `others` is similar to `line` (others first).
pub open spec fn any_similar_to(others: Seq<Seq<char>>, line: Seq<char>) -> bool {
    exists|k: int| 0 <= k < others.len() && similar(others[k], line)
}

/// Whether `line` is similar to some line of `others` (line first).
pub open spec fn similar_to_any(line: Seq<char>, others: Seq<Seq<char>>) -> bool {
    exists|k: int| 0 <= k < others.len() && similar(line, others[k])
}

/// The lines kept from raw lines: each is collapsed to single spaces and
/// kept when it has at least two characters and is not similar to a line
/// already kept.
pub open spec fn kept_lines(ls: Seq<Seq<char>>) -> Seq<Seq<char>>
    decreases ls.len(),
{
    if ls.len() == 0 {
        Seq::empty()
    } else {
        let r = kept_lines(ls.drop_last());
        let c = collapse_ws(ls.last());
        if c.len() < 2 || any_similar_to(r, c) {
            r
        } else {
            r.push(c)
        }
    }
}

/// The cleaned lines of an OCR text.
pub open spec fn cleaned(text: Seq<char>) -> Seq<Seq<char>> {
    kept_lines(lines(text))
}

/// Whether a line of `existing` is similar to `line`.
fn any_similar_in(existing: &Vec<Vec<char>>, line: &[char]) -> (r: bool)
    ensures
        r == any_similar_to(char_views(existing@), line@),
{
    let mut j: usize = 0;
    while j < existing.len()
        invariant
            j <= existing@.len(),
            forall|k: int| 0 <= k < j ==> !similar(#[trigger] existing@[k]@, line@),
        decreases existing@.len() - j,
    {
        if similar_chars(existing[j].as_slice(), line) {
            proof {
                assert(char_views(existing@)[j as int] == existing@[j as int]@);
            }
            return true;
        }
        j = j + 1;
    }
    proof {
        if any_similar_to(char_views(existing@), line@) {
            let k = choose|k: int|
                0 <= k < char_views(existing@).len() && similar(char_views(existing@)[k], line@);
            assert(char_views(existing@)[k] == existing@[k]@);
        }
    }
    false
}

/// The lines of an OCR text, each with its white space collapsed to single
/// spaces, without lines shorter than two characters and without lines
/// similar to an earlier kept line.
pub fn clean_lines(text: &str) -> (r: Vec<String>)
    ensures
        views(r@) == cleaned(text@),
{
    let cs = chars_of(text);
    let ls = split_lines(cs.as_slice());
    let ghost all = lines(text@);
    let mut result: Vec<Vec<char>> = Vec::new();
    let mut i: usize = 0;
    proof {
        assert(all.take(0) =~= Seq::<Seq<char>>::empty());
    }
    while i < ls.len()
        invariant
            i <= ls@.len(),
            char_views(ls@) == all,
            char_views(result@) == kept_lines(all.take(i as int)),
        decreases ls@.len() - i,
    {
        let clean = collapse_whitespace(ls[i].as_slice());
        proof {
            assert(all.take(i + 1).drop_last() =~= all.take(i as int));
            assert(all.take(i + 1).last() == ls@[i as int]@);
        }
        if clean.len() >= 2 {
            if !any_similar_in(&result, clean.as_slice()) {
                result.push(clean);
                proof {
                    assert(char_views(result@) =~= kept_lines(all.take(i as int)).push(
                        collapse_ws(all[i as int]),
                    ));
                }
            }
        }
        i = i + 1;
    }
    proof {
        assert(all.take(ls@.len() as int) =~= all);
    }
    let mut out: Vec<String> = Vec::new();
    let mut k: usize = 0;
    while k < result.len()
        invariant
            k <= result@.len(),
            out@.len() == k,
            forall|t: int| 0 <= t < k ==> #[trigger] out@[t]@ == result@[t]@,
        decreases result@.len() - k,
    {
        out.push(string_of(result[k].as_slice()));
        k = k + 1;
    }
    proof {
        assert(views(out@) =~= char_views(result@));
    }
    out
}

/// Every cleaned line has at least two characters, holds no white space but
/// single spaces between words, comes from one line of the text, and no two
/// cleaned lines are similar.
pub proof fn law_cleaned_lines(text: Seq<char>)
    ensures
        forall|i: int| 0 <= i < cleaned(text).len() ==> #[trigger] cleaned(text)[i].len() >= 2,
        forall|i: int|
            0 <= i < cleaned(text).len() ==> exists|j: int|
                0 <= j < lines(text).len() && #[trigger] cleaned(text)[i] == collapse_ws(
                    lines(text)[j],
                ),
        forall|i: int, j: int|
            0 <= i < j < cleaned(text).len() ==> !similar(cleaned(text)[i], cleaned(text)[j]),
{
    lemma_kept_lines(lines(text));
}

proof fn lemma_kept_lines(ls: Seq<Seq<char>>)
    ensures
        forall|i: int| 0 <= i < kept_lines(ls).len() ==> #[trigger] kept_lines(ls)[i].len() >= 2,
        forall|i: int|
            0 <= i < kept_lines(ls).len() ==> exists|j: int|
                0 <= j < ls.len() && #[trigger] kept_lines(ls)[i] == collapse_ws(ls[j]),
        forall|i: int, j: int|
            0 <= i < j < kept_lines(ls).len() ==> !similar(kept_lines(ls)[i], kept_lines(ls)[j]),
    decreases ls.len(),
{
    if ls.len() > 0 {
        let init = ls.drop_last();
        lemma_kept_lines(init);
        let r = kept_lines(init);
        let c = collapse_ws(ls.last());
        assert forall|i: int| 0 <= i < kept_lines(ls).len() implies exists|j: int|
            0 <= j < ls.len() && #[trigger] kept_lines(ls)[i] == collapse_ws(ls[j]) by {
            if i < r.len() {
                let j = choose|j: int| 0 <= j < init.len() && r[i] == collapse_ws(init[j]);
                assert(ls[j] == init[j]);
            } else {
                assert(kept_lines(ls)[i] == collapse_ws(ls[ls.len() - 1]));
            }
        }
        if !(c.len() < 2 || any_similar_to(r, c)) {
            assert forall|i: int, j: int|
                0 <= i < j < kept_lines(ls).len() implies !similar(
                kept_lines(ls)[i],
                kept_lines(ls)[j],
            ) by {
                if j == r.len() {
                    assert(!similar(r[i], c));
                }
            }
        }
    }
}

// ---------------------------------------------------------------------------
// Lines new on a frame
// ---------------------------------------------------------------------------

/// How many lines of `current` are similar to some line of `previous`.
pub open spec fn count_seen(current: Seq<Seq<char>>, previous: Seq<Seq<char>>) -> nat
    decreases current.len(),
{
    if current.len() == 0 {
        0
    } else {
        count_seen(current.drop_last(), previous) + if similar_to_any(current.last(), previous) {
            1nat
        } else {
            0nat
        }
    }
}

/// The lines of `current` not similar to any line of `previous`, in order.
pub open spec fn unseen(current: Seq<Seq<char>>, previous: Seq<Seq<char>>) -> Seq<Seq<char>>
    decreases current.len(),
{
    if current.len() == 0 {
        Seq::empty()
    } else {
        let r = unseen(current.drop_last(), previous);
        if similar_to_any(current.last(), previous) {
            r
        } else {
            r.push(current.last())
        }
    }
}

/// The lines of a frame worth recording: the whole frame when fewer than
/// half of its lines were already on the previous frame (a new screen keeps
/// its context), otherwise only the lines not on the previous frame.
pub open spec fn novel_lines(current: Seq<Seq<char>>, previous: Seq<Seq<char>>) -> Seq<
    Seq<char>,
> {
    if current.len() > 0 && count_seen(current, previous) * 2 < current.len() {
        current
    } else {
        unseen(current, previous)
    }
}

/// Whether `line` is similar to some line of `previous`.
fn seen_in(line: &String, previous: &[String]) -> (r: bool)
    ensures
        r == similar_to_any(line@, views(previous@)),
{
    let lc = chars_of(line.as_str());
    let mut j: usize = 0;
    while j < previous.len()
        invariant
            j <= previous@.len(),
            lc@ == line@,
            forall|k: int| 0 <= k < j ==> !similar(line@, #[trigger] previous@[k]@),
        decreases previous@.len() - j,
    {
        let pc = chars_of(previous[j].as_str());
        if similar_chars(lc.as_slice(), pc.as_slice()) {
            proof {
                assert(views(previous@)[j as int] == previous@[j as int]@);
            }
            return true;
        }
        j = j + 1;
    }
    proof {
        if similar_to_any(line@, views(previous@)) {
            let k = choose|k: int|
                0 <= k < views(previous@).len() && similar(line@, views(previous@)[k]);
            assert(views(previous@)[k] == previous@[k]@);
        }
    }
    false
}

/// The lines of the current frame to record, given the previous frame's
/// lines (see `novel_lines`).
pub fn remove_repeated_lines(current: &[String], previous: &[String]) -> (r: Vec<String>)
    ensures
        views(r@) == novel_lines(views(current@), views(previous@)),
        (forall|i: int|
            #![trigger current@[i]]
            0 <= i < current@.len() ==> exists|k: int|
                #![trigger previous@[k]]
                0 <= k < previous@.len() && similar(current@[i]@, previous@[k]@)) ==> r@.len() == 0,
        forall|i: int|
            0 <= i < r@.len() ==> exists|j: int|
                0 <= j < current@.len() && #[trigger] r@[i]@ == current@[j]@,
{
    let r = novel_strings(current, previous);
    proof {
        lemma_repeated_strings(current@, previous@);
        lemma_recorded_strings(current@, previous@, r@);
    }
    r
}

/// The computation behind `remove_repeated_lines`.
fn novel_strings(current: &[String], previous: &[String]) -> (r: Vec<String>)
    ensures
        views(r@) == novel_lines(views(current@), views(previous@)),
{
    let ghost cur = views(current@);
    let ghost prev = views(previous@);
    let mut repeated: usize = 0;
    let mut i: usize = 0;
    proof {
        assert(cur.take(0) =~= Seq::<Seq<char>>::empty());
    }
    while i < current.len()
        invariant
            i <= current@.len(),
            cur == views(current@),
            prev == views(previous@),
            repeated == count_seen(cur.take(i as int), prev),
            repeated <= i,
        decreases current@.len() - i,
    {
        proof {
            assert(cur.take(i + 1).drop_last() =~= cur.take(i as int));
            assert(cur.take(i + 1).last() == current@[i as int]@);
        }
        if seen_in(&current[i], previous) {
            repeated = repeated + 1;
        }
        i = i + 1;
    }
    proof {
        assert(cur.take(current@.len() as int) =~= cur);
    }
    if current.len() > 0 && repeated < current.len() - repeated {
        return crate::text::copy_strings(current);
    }
    let mut out: Vec<String> = Vec::new();
    let mut k: usize = 0;
    while k < current.len()
        invariant
            k <= current@.len(),
            cur == views(current@),
            prev == views(previous@),
            views(out@) == unseen(cur.take(k as int), prev),
        decreases current@.len() - k,
    {
        proof {
            assert(cur.take(k + 1).drop_last() =~= cur.take(k as int));
            assert(cur.take(k + 1).last() == current@[k as int]@);
        }
        if !seen_in(&current[k], previous) {
            out.push(copy_string(&current[k]));
            proof {
                assert(views(out@) =~= unseen(cur.take(k as int), prev).push(current@[k as int]@));
            }
        }
        k = k + 1;
    }
    out
}

proof fn lemma_recorded_strings(current: Seq<String>, previous: Seq<String>, r: Seq<String>)
    requires
        views(r) == novel_lines(views(current), views(previous)),
    ensures
        forall|i: int|
            0 <= i < r.len() ==> exists|j: int| 0 <= j < current.len() && #[trigger] r[i]@ == current[j]@,
{
    let cur = views(current);
    let prev = views(previous);
    law_novel_lines_come_from_the_frame(cur, prev);
    assert forall|i: int| 0 <= i < r.len() implies exists|j: int|
        0 <= j < current.len() && #[trigger] r[i]@ == current[j]@ by {
        assert(views(r)[i] == r[i]@);
        let j = choose|j: int| 0 <= j < cur.len() && novel_lines(cur, prev)[i] == cur[j];
        assert(cur[j] == current[j]@);
    }
}

proof fn lemma_repeated_strings(current: Seq<String>, previous: Seq<String>)
    ensures
        (forall|i: int|
            #![trigger current[i]]
            0 <= i < current.len() ==> exists|k: int|
                #![trigger previous[k]]
                0 <= k < previous.len() && similar(current[i]@, previous[k]@)) ==> novel_lines(
            views(current),
            views(previous),
        ).len() == 0,
{
    let cur = views(current);
    let prev = views(previous);
    if forall|i: int|
        #![trigger current[i]]
        0 <= i < current.len() ==> exists|k: int|
            #![trigger previous[k]]
            0 <= k < previous.len() && similar(current[i]@, previous[k]@) {
        assert forall|i: int| 0 <= i < cur.len() implies similar_to_any(#[trigger] cur[i], prev) by {
            assert(cur[i] == current[i]@);
            let k = choose|k: int| 0 <= k < previous.len() && similar(current[i]@, previous[k]@);
            assert(prev[k] == previous[k]@);
        }
        lemma_all_seen(cur, prev);
    }
}

proof fn lemma_unseen(current: Seq<Seq<char>>, previous: Seq<Seq<char>>)
    ensures
        unseen(current, previous).len() + count_seen(current, previous) == current.len(),
        forall|i: int|
            0 <= i < unseen(current, previous).len() ==> exists|j: int|
                0 <= j < current.len() && #[trigger] unseen(current, previous)[i] == current[j]
                    && !similar_to_any(current[j], previous),
    decreases current.len(),
{
    if current.len() > 0 {
        let init = current.drop_last();
        lemma_unseen(init, previous);
        let r = unseen(init, previous);
        assert forall|i: int| 0 <= i < unseen(current, previous).len() implies exists|j: int|
            0 <= j < current.len() && #[trigger] unseen(current, previous)[i] == current[j]
                && !similar_to_any(current[j], previous) by {
            if i < r.len() {
                let j = choose|j: int|
                    0 <= j < init.len() && r[i] == init[j] && !similar_to_any(init[j], previous);
                assert(current[j] == init[j]);
            } else {
                assert(unseen(current, previous)[i] == current[current.len() - 1]);
            }
        }
    }
}

/// Every recorded line is a line of the current frame, and no more lines
/// than the frame has are recorded.
pub proof fn law_novel_lines_come_from_the_frame(
    current: Seq<Seq<char>>,
    previous: Seq<Seq<char>>,
)
    ensures
        novel_lines(current, previous).len() <= current.len(),
        forall|i: int|
            0 <= i < novel_lines(current, previous).len() ==> exists|j: int|
                0 <= j < current.len() && #[trigger] novel_lines(current, previous)[i]
                    == current[j],
{
    lemma_unseen(current, previous);
    if current.len() > 0 && count_seen(current, previous) * 2 < current.len() {
        assert forall|i: int| 0 <= i < novel_lines(current, previous).len() implies exists|j: int|
            0 <= j < current.len() && #[trigger] novel_lines(current, previous)[i]
                == current[j] by {
            assert(novel_lines(current, previous)[i] == current[i]);
        }
    }
}

/// A frame whose every line was already on the previous frame records
/// nothing.
pub proof fn law_repeated_frame_records_nothing(
    current: Seq<Seq<char>>,
    previous: Seq<Seq<char>>,
)
    requires
        forall|i: int|
            #![trigger current[i]]
            0 <= i < current.len() ==> exists|k: int|
                #![trigger previous[k]]
                0 <= k < previous.len() && similar(current[i], previous[k]),
    ensures
        novel_lines(current, previous).len() == 0,
{
    assert forall|i: int| 0 <= i < current.len() implies similar_to_any(#[trigger] current[i], previous) by {
        let k = choose|k: int| 0 <= k < previous.len() && similar(current[i], previous[k]);
    }
    lemma_all_seen(current, previous);
}

/// Unless the whole frame is recorded, no recorded line is similar to any
/// line of the previous frame: a line similar to a previous one (normalised,
/// edit distance at most a tenth) counts as already seen.
pub proof fn law_recorded_lines_are_new(current: Seq<Seq<char>>, previous: Seq<Seq<char>>)
    ensures
        novel_lines(current, previous) == current || forall|i: int, k: int|
            0 <= i < novel_lines(current, previous).len() && 0 <= k < previous.len() ==> !similar(
                #[trigger] novel_lines(current, previous)[i],
                #[trigger] previous[k],
            ),
{
    lemma_unseen(current, previous);
    if novel_lines(current, previous) != current {
        assert forall|i: int, k: int|
            0 <= i < novel_lines(current, previous).len() && 0 <= k < previous.len() implies !similar(
            #[trigger] novel_lines(current, previous)[i],
            #[trigger] previous[k],
        ) by {
            let u = unseen(current, previous);
            let j = choose|j: int|
                0 <= j < current.len() && #[trigger] u[i] == current[j] && !similar_to_any(
                    current[j],
                    previous,
                );
            assert(u[i] == current[j]);
        }
    }
}

proof fn lemma_all_seen(current: Seq<Seq<char>>, previous: Seq<Seq<char>>)
    requires
        forall|i: int| 0 <= i < current.len() ==> similar_to_any(#[trigger] current[i], previous),
    ensures
        count_seen(current, previous) == current.len(),
        unseen(current, previous).len() == 0,
    decreases current.len(),
{
    if current.len() > 0 {
        let init = current.drop_last();
        assert forall|i: int| 0 <= i < init.len() implies similar_to_any(
            #[trigger] init[i],
            previous,
        ) by {
            assert(init[i] == current[i]);
        }
        lemma_all_seen(init, previous);
        assert(similar_to_any(current[current.len() - 1], previous));
    }
}

/// The same frame twice records nothing the second time.
pub proof fn law_same_frame_records_nothing(lines: Seq<Seq<char>>)
    ensures
        novel_lines(lines, lines).len() == 0,
{
    assert forall|i: int| 0 <= i < lines.len() implies similar_to_any(#[trigger] lines[i], lines) by {
        law_similar_reflexive(lines[i]);
    }
    lemma_all_seen(lines, lines);
}

/// When fewer than half of a frame's lines were on the previous frame, the
/// whole frame is recorded; otherwise exactly its unseen lines are.
pub proof fn law_new_screen_keeps_context(current: Seq<Seq<char>>, previous: Seq<Seq<char>>)
    ensures
        current.len() > 0 && count_seen(current, previous) * 2 < current.len() ==> novel_lines(
            current,
            previous,
        ) == current,
        !(current.len() > 0 && count_seen(current, previous) * 2 < current.len())
            ==> novel_lines(current, previous) == unseen(current, previous),
{
}

// ---------------------------------------------------------------------------
// Frame-by-frame timeline
// ---------------------------------------------------------------------------

/// The frame interval actually used: the requested one within 1..=60 s.
pub open spec fn clamped_interval(secs: u32) -> u32 {
    if secs < 1 {
        1
    } else if secs > 60 {
        60
    } else {
        secs
    }
}

/// `secs` limited to 1..=60.
pub fn clamp_interval(secs: u32) -> (r: u32)
    ensures
        r == clamped_interval(secs),
{
    if secs < 1 {
        1
    } else if secs > 60 {
        60
    } else {
        secs
    }
}

/// Whether a frame counts as a new slide: all its lines, or more than half
/// of them, are new.
pub open spec fn new_slide(novel_count: int, line_count: int) -> bool {
    novel_count == line_count || novel_count * 2 > line_count
}

/// A frame that records anything is a new slide exactly when all of its
/// lines are recorded: more than half of them are new, and then none of
/// them counts as a repeat. When at least half were on the previous frame,
/// only an addition to the slide is recorded.
pub proof fn law_new_slide_exactly_when_whole_frame(
    current: Seq<Seq<char>>,
    previous: Seq<Seq<char>>,
)
    ensures
        novel_lines(current, previous).len() > 0 ==> (new_slide(
            novel_lines(current, previous).len() as int,
            current.len() as int,
        ) <==> novel_lines(current, previous).len() == current.len()),
        novel_lines(current, previous).len() > 0 ==> (novel_lines(current, previous).len() * 2
            > current.len() <==> novel_lines(current, previous).len() == current.len()),
{
    lemma_unseen(current, previous);
}

/// Every screen segment has a matching snapshot at the same start, spans
/// exactly one interval and is marked as screen text.
pub open spec fn timeline_consistent(
    segments: Seq<SegmentView>,
    snapshots: Seq<SnapshotView>,
    interval: int,
) -> bool {
    &&& segments.len() == snapshots.len()
    &&& forall|k: int|
        0 <= k < segments.len() ==> {
            &&& #[trigger] segments[k].start_ms == snapshots[k].start_ms
            &&& segments[k].end_ms == segments[k].start_ms + interval * 1000
            &&& segments[k].source == ocr_source()
        }
}

/// The screen text gathered from a video, frame after frame: the lines of
/// the previous frame, and the segments and snapshots recorded so far.
pub struct OcrTimeline {
    pub interval_secs: u32,
    pub previous_lines: Vec<String>,
    pub segments: Vec<Segment>,
    pub snapshots: Vec<OcrSnapshot>,
}

impl OcrTimeline {
    /// An empty timeline for frames taken every `interval_secs` seconds
    /// (limited to 1..=60).
    pub fn new(interval_secs: u32) -> (r: OcrTimeline)
        ensures
            r.interval_secs == clamped_interval(interval_secs),
            r.previous_lines@.len() == 0,
            r.segments@.len() == 0,
            r.snapshots@.len() == 0,
    {
        OcrTimeline {
            interval_secs: clamp_interval(interval_secs),
            previous_lines: Vec::new(),
            segments: Vec::new(),
            snapshots: Vec::new(),
        }
    }

    /// Records frame `index` from the recogniser's raw output: the frame's
    /// cleaned lines replace the previous ones, and when the frame has lines
    /// worth recording, a screen segment with those lines and a snapshot (the
    /// whole frame on a new slide, the new lines otherwise) are appended.
    pub fn record_frame(&mut self, index: usize, stdout: &[u8])
        requires
            1 <= old(self).interval_secs <= 60,
            (index as int + 1) * old(self).interval_secs * 1000 <= i64::MAX,
        ensures
            ({
                let current = cleaned(utf8_lossy(stdout@));
                let novel = novel_lines(current, views(old(self).previous_lines@));
                let interval = old(self).interval_secs as int;
                let start = index as int * interval * 1000;
                let slide = new_slide(novel.len() as int, current.len() as int);
                &&& final(self).interval_secs == old(self).interval_secs
                &&& novel.len() > 0 ==> final(self).snapshots@.len() == old(self).snapshots@.len() + 1
                    && final(self).snapshots@.last().is_new_slide == (novel.len() == current.len())
                &&& views(final(self).previous_lines@) == current
                &&& novel.len() == 0 ==> segment_views(final(self).segments@) == segment_views(
                    old(self).segments@,
                ) && snapshot_views(final(self).snapshots@) == snapshot_views(
                    old(self).snapshots@,
                )
                &&& novel.len() > 0 ==> segment_views(final(self).segments@) == segment_views(
                    old(self).segments@,
                ).push(
                    SegmentView {
                        start_ms: start,
                        end_ms: start + interval * 1000,
                        text: join(novel, "\n"@),
                        source: ocr_source(),
                    },
                ) && snapshot_views(final(self).snapshots@) == snapshot_views(
                    old(self).snapshots@,
                ).push(
                    SnapshotView {
                        start_ms: start,
                        text: if slide {
                            join(current, "\n"@)
                        } else {
                            join(novel, "\n"@)
                        },
                        is_new_slide: slide,
                    },
                )
            }),
            timeline_consistent(
                segment_views(old(self).segments@),
                snapshot_views(old(self).snapshots@),
                old(self).interval_secs as int,
            ) ==> timeline_consistent(
                segment_views(final(self).segments@),
                snapshot_views(final(self).snapshots@),
                final(self).interval_secs as int,
            ),
    {
        let raw = decode_utf8_lossy(stdout);
        let current_lines = clean_lines(raw.as_str());
        let novel = remove_repeated_lines(current_lines.as_slice(), self.previous_lines.as_slice());
        let interval = self.interval_secs;
        let ghost old_segments = segment_views(self.segments@);
        let ghost old_snapshots = snapshot_views(self.snapshots@);
        if novel.len() > 0 {
            proof {
                assert(index as int * interval * 1000 + interval * 1000 <= i64::MAX)
                    by (nonlinear_arith)
                    requires
                        (index as int + 1) * interval * 1000 <= i64::MAX,
                ;
                assert(index as int * interval * 1000 >= 0) by (nonlinear_arith)
                    requires
                        index >= 0,
                        interval >= 1,
                ;
            }
            let step: i64 = (interval as i64) * 1000;
            proof {
                assert(index * step <= i64::MAX && index <= i64::MAX) by (nonlinear_arith)
                    requires
                        (index as int + 1) * interval * 1000 <= i64::MAX,
                        step == interval * 1000,
                        interval >= 1,
                ;
                lemma_novel_len(views(current_lines@), views(old(self).previous_lines@));
            }
            let start_ms: i64 = (index as i64) * step;
            proof {
                assert(start_ms == index as int * interval * 1000) by (nonlinear_arith)
                    requires
                        step == interval * 1000,
                        start_ms == index * step,
                ;
            }
            let is_new_slide = novel.len() == current_lines.len() || novel.len()
                > current_lines.len() - novel.len();
            let newline = string_of(chars_of("\n").as_slice());
            let text = join_strings(novel.as_slice(), newline.as_str());
            let ocr = string_of(chars_of("ocr").as_slice());
            self.segments.push(
                Segment { start_ms, end_ms: start_ms + step, text, source: ocr },
            );
            let snapshot_text = if is_new_slide {
                join_strings(current_lines.as_slice(), newline.as_str())
            } else {
                join_strings(novel.as_slice(), newline.as_str())
            };
            self.snapshots.push(OcrSnapshot { start_ms, text: snapshot_text, is_new_slide });
            proof {
                lemma_novel_len(views(current_lines@), views(old(self).previous_lines@));
                law_new_slide_exactly_when_whole_frame(
                    views(current_lines@),
                    views(old(self).previous_lines@),
                );
                assert(segment_views(self.segments@) =~= old_segments.push(
                    self.segments@.last()@,
                ));
                assert(snapshot_views(self.snapshots@) =~= old_snapshots.push(
                    self.snapshots@.last()@,
                ));
            }
        } else {
            proof {
                assert(segment_views(self.segments@) =~= old_segments);
            }
        }
        self.previous_lines = current_lines;
    }

    /// The screen segments and snapshots recorded.
    pub fn finish(self) -> (r: (Vec<Segment>, Vec<OcrSnapshot>))
        ensures
            segment_views(r.0@) == segment_views(self.segments@),
            snapshot_views(r.1@) == snapshot_views(self.snapshots@),
    {
        (self.segments, self.snapshots)
    }
}

proof fn lemma_novel_len(current: Seq<Seq<char>>, previous: Seq<Seq<char>>)
    ensures
        novel_lines(current, previous).len() <= current.len(),
{
    law_novel_lines_come_from_the_frame(current, previous);
}

/// The progress in percent after frame `index` of `total` frames.
pub fn frame_progress(index: usize, total: usize) -> (r: i32)
    requires
        index < total,
        (index + 1) * 100 <= usize::MAX,
    ensures
        r == (index + 1) * 100 / total as int,
        0 <= r <= 100,
{
    let p: usize = (index + 1) * 100 / total;
    proof {
        assert((index + 1) * 100 / total as int <= 100) by (nonlinear_arith)
            requires
                index < total,
        ;
    }
    p as i32
}

/// The message for a failed recogniser run, with its trimmed error output
/// when there is any.
pub fn ocr_failure_message(stderr: &[u8]) -> (r: String)
    ensures
        r@ == if trim(utf8_lossy(stderr@)).len() == 0 {
            "Tesseract OCR に失敗しました"@
        } else {
            "Tesseract OCR に失敗しました: "@ + trim(utf8_lossy(stderr@))
        },
{
    let raw = decode_utf8_lossy(stderr);
    let cs = chars_of(raw.as_str());
    let detail = trim_chars(cs.as_slice());
    if detail.len() == 0 {
        string_of(chars_of("Tesseract OCR に失敗しました").as_slice())
    } else {
        let mut out: Vec<char> = Vec::new();
        push_str(&mut out, "Tesseract OCR に失敗しました: ");
        extend_chars(&mut out, detail.as_slice());
        string_of(out.as_slice())
    }
}

// ---------------------------------------------------------------------------
// Cumulative slide text
// ---------------------------------------------------------------------------

/// Integer division rounding toward zero (Rust's `/`).
pub open spec fn trunc_div(a: int, b: int) -> int {
    if a >= 0 {
        a / b
    } else {
        -((-a) / b)
    }
}

/// The remainder of `trunc_div` (Rust's `%`).
pub open spec fn trunc_rem(a: int, b: int) -> int {
    a - b * trunc_div(a, b)
}

/// `hh:mm:ss` of a start time in milliseconds.
pub open spec fn timestamp_text(start_ms: int) -> Seq<char> {
    let secs = trunc_div(start_ms, 1000);
    signed_padded(trunc_div(secs, 3600), 2) + ":"@ + signed_padded(
        trunc_div(trunc_rem(secs, 3600), 60),
        2,
    ) + ":"@ + signed_padded(trunc_rem(secs, 60), 2)
}

/// Each line preceded by `prefix` and followed by a line feed.
pub open spec fn prefixed_lines(ls: Seq<Seq<char>>, prefix: Seq<char>) -> Seq<char>
    decreases ls.len(),
{
    if ls.len() == 0 {
        Seq::empty()
    } else {
        prefixed_lines(ls.drop_last(), prefix) + prefix + ls.last() + "\n"@
    }
}

/// The length of `ls` written as by `prefixed_lines` with a prefix of
/// `prefix_len` characters: each line with its prefix and its line feed.
pub open spec fn blocks_len(ls: Seq<Seq<char>>, prefix_len: int) -> int
    decreases ls.len(),
{
    if ls.len() == 0 {
        0
    } else {
        blocks_len(ls.drop_last(), prefix_len) + prefix_len + ls.last().len() + 1
    }
}

proof fn lemma_concat_parts(a: Seq<char>, b: Seq<char>, s: int, e: int)
    requires
        0 <= s <= e <= a.len(),
    ensures
        (a + b).subrange(s, e) == a.subrange(s, e),
        (a + b).subrange(a.len() as int, (a.len() + b.len()) as int) == b,
{
    assert((a + b).subrange(s, e) =~= a.subrange(s, e));
    assert((a + b).subrange(a.len() as int, (a.len() + b.len()) as int) =~= b);
}

/// Whether line `i` of `ls` stands in `whole` as the prefix, the line and a
/// line feed, right after the blocks of the lines before it.
#[verifier::opaque]
spec fn block_placed(ls: Seq<Seq<char>>, prefix: Seq<char>, whole: Seq<char>, i: int) -> bool {
    &&& 0 <= blocks_len(ls.take(i), prefix.len() as int)
    &&& blocks_len(ls.take(i), prefix.len() as int) + prefix.len() + ls[i].len() + 1 <= whole.len()
    &&& whole.subrange(
        blocks_len(ls.take(i), prefix.len() as int),
        blocks_len(ls.take(i), prefix.len() as int) + prefix.len() + ls[i].len() + 1,
    ) =~= prefix + ls[i] + "\n"@
}

proof fn lemma_block_placed_step(ls: Seq<Seq<char>>, prefix: Seq<char>, i: int)
    requires
        ls.len() > 0,
        0 <= i < ls.len(),
        prefixed_lines(ls.drop_last(), prefix).len() == blocks_len(ls.drop_last(), prefix.len() as int),
        i < ls.len() - 1 ==> block_placed(ls.drop_last(), prefix, prefixed_lines(ls.drop_last(), prefix), i),
    ensures
        block_placed(ls, prefix, prefixed_lines(ls, prefix), i),
{
    reveal(block_placed);
    reveal_strlit("\n");
    let init = ls.drop_last();
    let a = prefixed_lines(init, prefix);
    let block = prefix + ls.last() + "\n"@;
    assert(prefixed_lines(ls, prefix) == a + block);
    if i < init.len() {
        assert(ls.take(i) =~= init.take(i));
        assert(ls[i] == init[i]);
        let start = blocks_len(init.take(i), prefix.len() as int);
        lemma_concat_parts(a, block, start, start + prefix.len() + init[i].len() + 1);
    } else {
        assert(ls.take(i) =~= init);
        lemma_concat_parts(a, block, 0, 0);
    }
}

/// Every line is written with the prefix: the text is the lines one after
/// another, line `i` as the prefix, the line and a line feed, starting right
/// after the blocks of the lines before it; nothing else is written.
pub proof fn law_prefixed_lines_layout(ls: Seq<Seq<char>>, prefix: Seq<char>)
    ensures
        prefixed_lines(ls, prefix).len() == blocks_len(ls, prefix.len() as int),
        forall|i: int|
            #![trigger ls.take(i)]
            0 <= i && i < ls.len() ==> 0 <= blocks_len(ls.take(i), prefix.len() as int)
                && blocks_len(ls.take(i), prefix.len() as int) + prefix.len() + ls[i].len() + 1
                <= prefixed_lines(ls, prefix).len() && prefixed_lines(ls, prefix).subrange(
                blocks_len(ls.take(i), prefix.len() as int),
                blocks_len(ls.take(i), prefix.len() as int) + prefix.len() + ls[i].len() + 1,
            ) == prefix + ls[i] + "\n"@,
{
    lemma_layout(ls, prefix);
    assert forall|i: int|
        #![trigger ls.take(i)]
        0 <= i && i < ls.len() implies 0 <= blocks_len(ls.take(i), prefix.len() as int)
            && blocks_len(ls.take(i), prefix.len() as int) + prefix.len() + ls[i].len() + 1
            <= prefixed_lines(ls, prefix).len() && prefixed_lines(ls, prefix).subrange(
            blocks_len(ls.take(i), prefix.len() as int),
            blocks_len(ls.take(i), prefix.len() as int) + prefix.len() + ls[i].len() + 1,
        ) == prefix + ls[i] + "\n"@ by {
        lemma_block_placed_unfold(ls, prefix, prefixed_lines(ls, prefix), i);
    }
}

proof fn lemma_block_placed_unfold(ls: Seq<Seq<char>>, prefix: Seq<char>, whole: Seq<char>, i: int)
    requires
        block_placed(ls, prefix, whole, i),
    ensures
        0 <= blocks_len(ls.take(i), prefix.len() as int),
        blocks_len(ls.take(i), prefix.len() as int) + prefix.len() + ls[i].len() + 1 <= whole.len(),
        whole.subrange(
            blocks_len(ls.take(i), prefix.len() as int),
            blocks_len(ls.take(i), prefix.len() as int) + prefix.len() + ls[i].len() + 1,
        ) == prefix + ls[i] + "\n"@,
{
    reveal(block_placed);
}

proof fn lemma_layout(ls: Seq<Seq<char>>, prefix: Seq<char>)
    ensures
        prefixed_lines(ls, prefix).len() == blocks_len(ls, prefix.len() as int),
        forall|i: int|
            0 <= i < ls.len() ==> #[trigger] block_placed(ls, prefix, prefixed_lines(ls, prefix), i),
    decreases ls.len(),
{
    if ls.len() > 0 {
        let init = ls.drop_last();
        lemma_layout(init, prefix);
        reveal_strlit("\n");
        assert(prefixed_lines(ls, prefix).len() == prefixed_lines(init, prefix).len() + prefix.len()
            + ls.last().len() + 1);
        assert forall|i: int| 0 <= i < ls.len() implies #[trigger] block_placed(
            ls,
            prefix,
            prefixed_lines(ls, prefix),
            i,
        ) by {
            if i < init.len() {
                assert(block_placed(init, prefix, prefixed_lines(init, prefix), i));
            }
            lemma_block_placed_step(ls, prefix, i);
        }
    }
}

/// The section of one snapshot: a new slide with its full text, or the
/// added lines marked with `+`.
pub open spec fn snapshot_section(s: SnapshotView) -> Seq<char> {
    if s.is_new_slide {
        "## ["@ + timestamp_text(s.start_ms) + "] ← Slide\n"@ + prefixed_lines(lines(s.text), ""@)
            + "\n---\n\n"@
    } else {
        "## ["@ + timestamp_text(s.start_ms) + "] +\n"@ + prefixed_lines(lines(s.text), "+ "@)
            + "\n---\n\n"@
    }
}

pub open spec fn sections(snaps: Seq<SnapshotView>) -> Seq<char>
    decreases snaps.len(),
{
    if snaps.len() == 0 {
        Seq::empty()
    } else {
        sections(snaps.drop_last()) + snapshot_section(snaps.last())
    }
}

/// The whole export: a title with the source name, the generation stamp,
/// and one section per snapshot.
pub open spec fn cumulative_text(
    snaps: Seq<SnapshotView>,
    source_name: Seq<char>,
    generated_at: Seq<char>,
) -> Seq<char> {
    "# OCR Slide Text: "@ + source_name + "\n"@ + "# Generated: "@ + generated_at + "\n"@
        + "\n---\n\n"@ + sections(snaps)
}

fn push_timestamp(out: &mut Vec<char>, start_ms: i64)
    ensures
        final(out)@ == old(out)@ + timestamp_text(start_ms as int),
{
    let neg = start_ms < 0;
    let mag: u64 = if neg {
        ((-(start_ms + 1)) as u64) + 1
    } else {
        start_ms as u64
    };
    let secs: u64 = mag / 1000;
    let h: u64 = secs / 3600;
    let m: u64 = (secs % 3600) / 60;
    let s: u64 = secs % 60;
    let hs: i64 = if neg {
        -(h as i64)
    } else {
        h as i64
    };
    let ms: i64 = if neg {
        -(m as i64)
    } else {
        m as i64
    };
    let ss: i64 = if neg {
        -(s as i64)
    } else {
        s as i64
    };
    proof {
        let sg = trunc_div(start_ms as int, 1000);
        assert(mag == if neg { -(start_ms as int) } else { start_ms as int });
        assert(sg == if neg { -(secs as int) } else { secs as int });
        assert(secs as int - 3600 * (secs as int / 3600) == secs as int % 3600) by (nonlinear_arith);
        assert(secs as int - 60 * (secs as int / 60) == secs as int % 60) by (nonlinear_arith);
        assert(trunc_div(sg, 3600) == hs);
        assert(trunc_rem(sg, 3600) == if neg { -(secs as int % 3600) } else { secs as int % 3600 });
        assert(trunc_div(trunc_rem(sg, 3600), 60) == ms);
        assert(trunc_rem(sg, 60) == ss);
    }
    let ghost before = out@;
    push_signed_padded(out, hs, 2);
    out.push(':');
    push_signed_padded(out, ms, 2);
    out.push(':');
    push_signed_padded(out, ss, 2);
    proof {
        reveal_strlit(":");
        assert(out@ =~= before + timestamp_text(start_ms as int));
    }
}

fn push_prefixed_lines(out: &mut Vec<char>, text: &str, prefix: &str)
    ensures
        final(out)@ == old(out)@ + prefixed_lines(lines(text@), prefix@),
{
    let cs = chars_of(text);
    let ls = split_lines(cs.as_slice());
    let ghost all = lines(text@);
    let ghost start = out@;
    let mut i: usize = 0;
    proof {
        assert(all.take(0) =~= Seq::<Seq<char>>::empty());
        assert(out@ =~= start + prefixed_lines(all.take(0), prefix@));
    }
    while i < ls.len()
        invariant
            i <= ls@.len(),
            char_views(ls@) == all,
            out@ == start + prefixed_lines(all.take(i as int), prefix@),
        decreases ls@.len() - i,
    {
        proof {
            assert(all.take(i + 1).drop_last() =~= all.take(i as int));
            assert(all.take(i + 1).last() == ls@[i as int]@);
        }
        push_str(out, prefix);
        extend_chars(out, ls[i].as_slice());
        push_str(out, "\n");
        i = i + 1;
        proof {
            assert(out@ =~= start + prefixed_lines(all.take(i as int), prefix@));
        }
    }
    proof {
        assert(all.take(ls@.len() as int) =~= all);
    }
}

/// The cumulative slide text of the snapshots, for a source file name and a
/// generation stamp.
pub fn render_cumulative_ocr_text(
    snapshots: &[OcrSnapshot],
    source_name: &str,
    generated_at: &str,
) -> (r: String)
    ensures
        r@ == cumulative_text(snapshot_views(snapshots@), source_name@, generated_at@),
{
    let mut out: Vec<char> = Vec::new();
    push_str(&mut out, "# OCR Slide Text: ");
    push_str(&mut out, source_name);
    push_str(&mut out, "\n");
    push_str(&mut out, "# Generated: ");
    push_str(&mut out, generated_at);
    push_str(&mut out, "\n");
    push_str(&mut out, "\n---\n\n");
    let ghost header = out@;
    let ghost snaps = snapshot_views(snapshots@);
    let mut i: usize = 0;
    proof {
        assert(snaps.take(0) =~= Seq::<SnapshotView>::empty());
        assert(out@ =~= header + sections(snaps.take(0)));
    }
    while i < snapshots.len()
        invariant
            i <= snapshots@.len(),
            snaps == snapshot_views(snapshots@),
            out@ == header + sections(snaps.take(i as int)),
        decreases snapshots@.len() - i,
    {
        let snap = &snapshots[i];
        proof {
            assert(snaps.take(i + 1).drop_last() =~= snaps.take(i as int));
            assert(snaps.take(i + 1).last() == snap@);
        }
        let ghost mid = out@;
        push_str(&mut out, "## [");
        push_timestamp(&mut out, snap.start_ms);
        if snap.is_new_slide {
            push_str(&mut out, "] ← Slide\n");
            push_prefixed_lines(&mut out, snap.text.as_str(), "");
        } else {
            push_str(&mut out, "] +\n");
            push_prefixed_lines(&mut out, snap.text.as_str(), "+ ");
        }
        push_str(&mut out, "\n---\n\n");
        proof {
            assert(out@ =~= mid + snapshot_section(snap@));
        }
        i = i + 1;
    }
    proof {
        assert(snaps.take(snapshots@.len() as int) =~= snaps);
        assert(out@ =~= cumulative_text(snaps, source_name@, generated_at@));
    }
    string_of(out.as_slice())
}

/// The cumulative slide text of the snapshots, stamped with the current
/// time in Japan Standard Time.
pub fn format_cumulative_ocr_text(snapshots: &[OcrSnapshot], source_name: &str) -> (r: String)
    ensures
        exists|secs: nat|
            r@ == cumulative_text(
                snapshot_views(snapshots@),
                source_name@,
                #[trigger] jst_datetime_text(secs),
            ),
{
    let generated_at = chrono_now();
    render_cumulative_ocr_text(snapshots, source_name, generated_at.as_str())
}

/// The answer to a request for the last cumulative slide text.
pub struct CumulativeOcrResult {
    pub text: String,
    pub available: bool,
}

/// The cumulative slide text of the last run: available exactly when that
/// run recorded snapshots, empty otherwise.
pub fn cumulative_ocr_result(snapshots: &[OcrSnapshot], source_name: &str) -> (r:
    CumulativeOcrResult)
    ensures
        r.available == (snapshots@.len() > 0),
        !r.available ==> r.text@.len() == 0,
        r.available ==> exists|secs: nat|
            r.text@ == cumulative_text(
                snapshot_views(snapshots@),
                source_name@,
                #[trigger] jst_datetime_text(secs),
            ),
{
    if snapshots.len() > 0 {
        CumulativeOcrResult {
            text: format_cumulative_ocr_text(snapshots, source_name),
            available: true,
        }
    } else {
        CumulativeOcrResult { text: String::new(), available: false }
    }
}

// ---------------------------------------------------------------------------
// Tool check
// ---------------------------------------------------------------------------

/// Whether screen OCR can run, and what is missing when it cannot.
pub struct OcrSupport {
    pub available: bool,
    pub ffmpeg_found: bool,
    pub tesseract_found: bool,
    pub japanese_found: bool,
    pub english_found: bool,
    pub message: String,
}

/// Whether `code` is one of the (trimmed) lines of the language listing.
pub open spec fn language_listed(stdout: Seq<char>, stderr: Seq<char>, code: Seq<char>) -> bool {
    let ls = lines(stdout) + lines(stderr);
    exists|i: int| 0 <= i < ls.len() && #[trigger] trim(ls[i]) == code
}

/// The names of what is missing, in the order the message lists them.
pub open spec fn missing_parts(
    ffmpeg_found: bool,
    tesseract_found: bool,
    japanese_found: bool,
    english_found: bool,
) -> Seq<Seq<char>> {
    (if ffmpeg_found {
        Seq::empty()
    } else {
        seq!["ffmpeg"@]
    }) + if !tesseract_found {
        seq!["Tesseract"@]
    } else {
        (if japanese_found {
            Seq::empty()
        } else {
            seq!["Tesseract日本語データ(jpn)"@]
        }) + (if english_found {
            Seq::empty()
        } else {
            seq!["Tesseract英語データ(eng)"@]
        })
    }
}

/// The support report for the tools found and the language listing of the
/// recogniser (`None` when it is missing or could not be run).
pub open spec fn support_report(
    ffmpeg_found: bool,
    tesseract_found: bool,
    listing: Option<(Seq<char>, Seq<char>)>,
) -> (bool, bool, bool, Seq<char>) {
    let jpn = match listing {
        Some((o, e)) => language_listed(o, e, "jpn"@),
        None => false,
    };
    let eng = match listing {
        Some((o, e)) => language_listed(o, e, "eng"@),
        None => false,
    };
    let available = ffmpeg_found && tesseract_found && jpn && eng;
    let message = if available {
        "画面OCRを利用できます(Tesseract: 日本語 + 英語)"@
    } else {
        "画面OCRには "@ + join(missing_parts(ffmpeg_found, tesseract_found, jpn, eng), " / "@)
            + " が必要です。インストール後にアプリを再起動してください。"@
    };
    (available, jpn, eng, message)
}

/// Whether one of the lines of `ls` trims to `code`.
fn listed_in(ls: &Vec<Vec<char>>, code: &str) -> (r: bool)
    ensures
        r == exists|i: int| 0 <= i < ls@.len() && #[trigger] trim(ls@[i]@) == code@,
{
    let cc = chars_of(code);
    let mut i: usize = 0;
    while i < ls.len()
        invariant
            i <= ls@.len(),
            cc@ == code@,
            forall|k: int| 0 <= k < i ==> #[trigger] trim(ls@[k]@) != code@,
        decreases ls@.len() - i,
    {
        let t = trim_chars(ls[i].as_slice());
        if crate::text::chars_eq(t.as_slice(), cc.as_slice()) {
            return true;
        }
        i = i + 1;
    }
    false
}

fn language_in_listing(out_lines: &Vec<Vec<char>>, err_lines: &Vec<Vec<char>>, code: &str) -> (r:
    bool)
    ensures
        r == ({
            let ls = char_views(out_lines@) + char_views(err_lines@);
            exists|i: int| 0 <= i < ls.len() && #[trigger] trim(ls[i]) == code@
        }),
{
    let a = listed_in(out_lines, code);
    let b = listed_in(err_lines, code);
    proof {
        let ls = char_views(out_lines@) + char_views(err_lines@);
        let n = out_lines@.len() as int;
        if a {
            let i = choose|i: int| 0 <= i < out_lines@.len() && #[trigger] trim(out_lines@[i]@) == code@;
            assert(ls[i] == out_lines@[i]@);
        }
        if b {
            let i = choose|i: int| 0 <= i < err_lines@.len() && #[trigger] trim(err_lines@[i]@) == code@;
            assert(ls[n + i] == err_lines@[i]@);
        }
        if exists|i: int| 0 <= i < ls.len() && #[trigger] trim(ls[i]) == code@ {
            let i = choose|i: int| 0 <= i < ls.len() && #[trigger] trim(ls[i]) == code@;
            if i < n {
                assert(ls[i] == out_lines@[i]@);
            } else {
                assert(ls[i] == err_lines@[i - n]@);
            }
        }
    }
    a || b
}

/// The support report from what was found: whether ffmpeg and Tesseract
/// were found, and the raw output of Tesseract's language listing
/// (`None` when Tesseract is missing or could not be run).
pub fn ocr_support_from(
    ffmpeg_found: bool,
    tesseract_found: bool,
    listing: Option<(Vec<u8>, Vec<u8>)>,
) -> (r: OcrSupport)
    ensures
        ({
            let texts = match listing {
                Some((o, e)) => Some((utf8_lossy(o@), utf8_lossy(e@))),
                None => None,
            };
            let (available, jpn, eng, message) = support_report(
                ffmpeg_found,
                tesseract_found,
                texts,
            );
            &&& r.available == available
            &&& r.ffmpeg_found == ffmpeg_found
            &&& r.tesseract_found == tesseract_found
            &&& r.japanese_found == jpn
            &&& r.english_found == eng
            &&& r.message@ == message
        }),
{
    let (japanese_found, english_found) = match listing {
        Some((out, err)) => {
            let out_text = decode_utf8_lossy(out.as_slice());
            let err_text = decode_utf8_lossy(err.as_slice());
            let out_lines = split_lines(chars_of(out_text.as_str()).as_slice());
            let err_lines = split_lines(chars_of(err_text.as_str()).as_slice());
            (
                language_in_listing(&out_lines, &err_lines, "jpn"),
                language_in_listing(&out_lines, &err_lines, "eng"),
            )
        },
        None => (false, false),
    };
    let available = ffmpeg_found && tesseract_found && japanese_found && english_found;
    let message = if available {
        string_of(chars_of("画面OCRを利用できます(Tesseract: 日本語 + 英語)").as_slice())
    } else {
        let mut missing: Vec<String> = Vec::new();
        if !ffmpeg_found {
            missing.push(string_of(chars_of("ffmpeg").as_slice()));
        }
        if !tesseract_found {
            missing.push(string_of(chars_of("Tesseract").as_slice()));
        } else {
            if !japanese_found {
                missing.push(string_of(chars_of("Tesseract日本語データ(jpn)").as_slice()));
            }
            if !english_found {
                missing.push(string_of(chars_of("Tesseract英語データ(eng)").as_slice()));
            }
        }
        proof {
            assert(views(missing@) =~= missing_parts(
                ffmpeg_found,
                tesseract_found,
                japanese_found,
                english_found,
            ));
        }
        let sep = string_of(chars_of(" / ").as_slice());
        let listed = join_strings(missing.as_slice(), sep.as_str());
        let mut out: Vec<char> = Vec::new();
        push_str(&mut out, "画面OCRには ");
        push_str(&mut out, listed.as_str());
        push_str(&mut out, " が必要です。インストール後にアプリを再起動してください。");
        string_of(out.as_slice())
    };
    OcrSupport {
        available,
        ffmpeg_found,
        tesseract_found,
        japanese_found,
        english_found,
        message,
    }
}

/// `Ok` when screen OCR can run, otherwise the report's message.
pub fn ensure_ocr_support(support: &OcrSupport) -> (r: Result<(), String>)
    ensures
        r is Ok == support.available,
        r matches Err(m) ==> m@ == support.message@,
{
    if support.available {
        Ok(())
    } else {
        Err(copy_string(&support.message))
    }
}

} // verus!
