//! Timeline segments: speech and screen text with their time spans, and the
//! ordering in which the two sources are merged into one note.
use vstd::prelude::*;

use crate::text::{chars_of, copy_string, str_eq, string_of, trim, trim_chars};

verus! {

/// One piece of the timeline.
pub struct Segment {
    pub start_ms: i64,
    pub end_ms: i64,
    pub text: String,
    /// `"speech"` or `"ocr"`.
    pub source: String,
}

/// A segment with every string taken by its view.
pub struct SegmentView {
    pub start_ms: int,
    pub end_ms: int,
    pub text: Seq<char>,
    pub source: Seq<char>,
}

impl View for Segment {
    type V = SegmentView;

    open spec fn view(&self) -> SegmentView {
        SegmentView {
            start_ms: self.start_ms as int,
            end_ms: self.end_ms as int,
            text: self.text@,
            source: self.source@,
        }
    }
}

pub open spec fn segment_views(v: Seq<Segment>) -> Seq<SegmentView> {
    v.map_values(|s: Segment| s@)
}

pub open spec fn speech_source() -> Seq<char> {
    "speech"@
}

pub open spec fn ocr_source() -> Seq<char> {
    "ocr"@
}

/// The source a stored segment gets when its record names none.
pub fn default_segment_source() -> (r: String)
    ensures
        r@ == speech_source(),
{
    let cs = chars_of("speech");
    string_of(cs.as_slice())
}

/// A copy of a segment.
pub fn copy_segment(s: &Segment) -> (r: Segment)
    ensures
        r@ == s@,
{
    Segment {
        start_ms: s.start_ms,
        end_ms: s.end_ms,
        text: copy_string(&s.text),
        source: copy_string(&s.source),
    }
}

/// A copy of a list of segments.
pub fn copy_segments(v: &[Segment]) -> (r: Vec<Segment>)
    ensures
        segment_views(r@) == segment_views(v@),
{
    let mut out: Vec<Segment> = Vec::new();
    let mut i: usize = 0;
    while i < v.len()
        invariant
            i <= v@.len(),
            out@.len() == i,
            forall|k: int| 0 <= k < i ==> #[trigger] out@[k]@ == v@[k]@,
        decreases v@.len() - i,
    {
        out.push(copy_segment(&v[i]));
        i = i + 1;
    }
    assert(segment_views(out@) =~= segment_views(v@));
    out
}

// ---------------------------------------------------------------------------
// Merging speech and screen text
// ---------------------------------------------------------------------------

/// Timeline order: by start time, speech before screen text at equal times.
pub open spec fn order_key_le(a: SegmentView, b: SegmentView) -> bool {
    a.start_ms < b.start_ms || (a.start_ms == b.start_ms && (!(a.source == ocr_source())
        || b.source == ocr_source()))
}

/// `x` placed after every element of `sorted` that does not come after it.
pub open spec fn insert_sorted(sorted: Seq<SegmentView>, x: SegmentView) -> Seq<SegmentView>
    decreases sorted.len(),
{
    if sorted.len() == 0 {
        seq![x]
    } else if order_key_le(sorted.last(), x) {
        sorted.push(x)
    } else {
        insert_sorted(sorted.drop_last(), x).push(sorted.last())
    }
}

/// The stable sort of `s` in timeline order (what `sort_by` yields).
pub open spec fn stable_sort(s: Seq<SegmentView>) -> Seq<SegmentView>
    decreases s.len(),
{
    if s.len() == 0 {
        Seq::empty()
    } else {
        insert_sorted(stable_sort(s.drop_last()), s.last())
    }
}

pub open spec fn timeline_sorted(s: Seq<SegmentView>) -> bool {
    forall|i: int, j: int| 0 <= i < j < s.len() ==> order_key_le(s[i], s[j])
}

proof fn lemma_key_total(a: SegmentView, b: SegmentView)
    ensures
        order_key_le(a, b) || order_key_le(b, a),
        order_key_le(a, a),
{
}

proof fn lemma_key_trans(a: SegmentView, b: SegmentView, c: SegmentView)
    requires
        order_key_le(a, b),
        order_key_le(b, c),
    ensures
        order_key_le(a, c),
{
}

proof fn lemma_insert_sorted(sorted: Seq<SegmentView>, x: SegmentView)
    requires
        timeline_sorted(sorted),
    ensures
        timeline_sorted(insert_sorted(sorted, x)),
        insert_sorted(sorted, x).to_multiset() == sorted.to_multiset().insert(x),
        insert_sorted(sorted, x).len() == sorted.len() + 1,
    decreases sorted.len(),
{
    broadcast use vstd::seq_lib::group_seq_properties;

    if sorted.len() == 0 {
        assert(seq![x] =~= Seq::<SegmentView>::empty().push(x));
    } else if order_key_le(sorted.last(), x) {
        assert forall|i: int, j: int|
            0 <= i < j < sorted.push(x).len() implies order_key_le(
            sorted.push(x)[i],
            sorted.push(x)[j],
        ) by {
            if j == sorted.len() {
                if i < sorted.len() - 1 {
                    lemma_key_trans(sorted[i], sorted.last(), x);
                }
            }
        }
    } else {
        let init = sorted.drop_last();
        let last = sorted.last();
        assert(timeline_sorted(init));
        lemma_insert_sorted(init, x);
        let r = insert_sorted(init, x);
        assert(sorted =~= init.push(last));
        lemma_key_total(last, x);
        // every element of r comes no later than `last`
        assert forall|k: int| 0 <= k < r.len() implies order_key_le(#[trigger] r[k], last) by {
            assert(r.to_multiset().count(r[k]) > 0);
            assert(r.to_multiset() == init.to_multiset().insert(x));
            if r[k] != x {
                assert(init.to_multiset().count(r[k]) > 0);
                assert(init.contains(r[k]));
                let t = choose|t: int| 0 <= t < init.len() && init[t] == r[k];
                assert(sorted[t] == init[t]);
                assert(sorted[sorted.len() - 1] == last);
            }
        }
        assert forall|i: int, j: int|
            0 <= i < j < r.push(last).len() implies order_key_le(
            r.push(last)[i],
            r.push(last)[j],
        ) by {
            if j == r.len() {
                assert(r.push(last)[i] == r[i]);
            }
        }
    }
}

/// The stable sort is ordered and keeps every segment.
pub proof fn law_stable_sort_sorted_permutation(s: Seq<SegmentView>)
    ensures
        timeline_sorted(stable_sort(s)),
        stable_sort(s).to_multiset() == s.to_multiset(),
        stable_sort(s).len() == s.len(),
    decreases s.len(),
{
    broadcast use vstd::seq_lib::group_seq_properties;

    if s.len() > 0 {
        law_stable_sort_sorted_permutation(s.drop_last());
        lemma_insert_sorted(stable_sort(s.drop_last()), s.last());
        assert(s =~= s.drop_last().push(s.last()));
    }
}

/// The merged timeline is ordered by start time alone, with speech before
/// screen text at the same start: whatever their end times, a segment that
/// starts earlier comes first, and at equal starts a speech segment comes
/// before a screen segment.
pub proof fn law_timeline_order(s: Seq<SegmentView>)
    ensures
        forall|i: int, j: int|
            0 <= i < stable_sort(s).len() && 0 <= j < stable_sort(s).len() && (
            #[trigger] stable_sort(s)[i]).start_ms < (#[trigger] stable_sort(s)[j]).start_ms
                ==> i < j,
        forall|i: int, j: int|
            0 <= i < stable_sort(s).len() && 0 <= j < stable_sort(s).len() && (
            #[trigger] stable_sort(s)[i]).start_ms == (#[trigger] stable_sort(s)[j]).start_ms
                && stable_sort(s)[i].source != ocr_source() && stable_sort(s)[j].source
                == ocr_source() ==> i < j,
{
    law_stable_sort_sorted_permutation(s);
    let r = stable_sort(s);
    assert forall|i: int, j: int|
        0 <= i < r.len() && 0 <= j < r.len() && (#[trigger] r[i]).start_ms < (
        #[trigger] r[j]).start_ms implies i < j by {
        if j < i {
            assert(order_key_le(r[j], r[i]));
        }
    }
    assert forall|i: int, j: int|
        0 <= i < r.len() && 0 <= j < r.len() && (#[trigger] r[i]).start_ms == (
        #[trigger] r[j]).start_ms && r[i].source != ocr_source() && r[j].source
            == ocr_source() implies i < j by {
        if j < i {
            assert(order_key_le(r[j], r[i]));
        }
    }
}

/// Whether `a` comes no later than `b` on the timeline.
pub fn timeline_le(a: &Segment, b: &Segment) -> (r: bool)
    ensures
        r == order_key_le(a@, b@),
{
    if a.start_ms < b.start_ms {
        return true;
    }
    if a.start_ms > b.start_ms {
        return false;
    }
    let ocr = chars_of("ocr");
    let ocr = string_of(ocr.as_slice());
    let a_ocr = str_eq(a.source.as_str(), ocr.as_str());
    let b_ocr = str_eq(b.source.as_str(), ocr.as_str());
    !a_ocr || b_ocr
}

/// Speech and screen segments in one list, stably sorted by start time with
/// speech before screen text at the same time.
pub fn merge_segments(speech: Vec<Segment>, screen: Vec<Segment>) -> (r: Vec<Segment>)
    ensures
        segment_views(r@) == stable_sort(segment_views(speech@) + segment_views(screen@)),
        r@.len() == speech@.len() + screen@.len(),
        forall|i: int, j: int|
            0 <= i < r@.len() && 0 <= j < r@.len() && (#[trigger] r@[i]).start_ms < (
            #[trigger] r@[j]).start_ms ==> i < j,
        forall|i: int, j: int|
            0 <= i < r@.len() && 0 <= j < r@.len() && (#[trigger] r@[i]).start_ms == (
            #[trigger] r@[j]).start_ms && r@[i]@.source != ocr_source() && r@[j]@.source
                == ocr_source() ==> i < j,
{
    let r = sort_segments(speech, screen);
    proof {
        let input = segment_views(speech@) + segment_views(screen@);
        law_stable_sort_sorted_permutation(input);
        law_timeline_order(input);
        let v = segment_views(r@);
        assert forall|i: int, j: int|
            0 <= i < r@.len() && 0 <= j < r@.len() && (#[trigger] r@[i]).start_ms < (
            #[trigger] r@[j]).start_ms implies i < j by {
            assert(v[i] == r@[i]@ && v[j] == r@[j]@);
        }
        assert forall|i: int, j: int|
            0 <= i < r@.len() && 0 <= j < r@.len() && (#[trigger] r@[i]).start_ms == (
            #[trigger] r@[j]).start_ms && r@[i]@.source != ocr_source() && r@[j]@.source
                == ocr_source() implies i < j by {
            assert(v[i] == r@[i]@ && v[j] == r@[j]@);
        }
    }
    r
}

/// The computation behind `merge_segments`.
fn sort_segments(speech: Vec<Segment>, screen: Vec<Segment>) -> (r: Vec<Segment>)
    ensures
        segment_views(r@) == stable_sort(segment_views(speech@) + segment_views(screen@)),
{
    let mut all = speech;
    let mut more = screen;
    let ghost input = segment_views(all@) + segment_views(more@);
    all.append(&mut more);
    proof {
        assert(segment_views(all@) =~= input);
    }
    let mut sorted: Vec<Segment> = Vec::new();
    let mut i: usize = 0;
    proof {
        assert(input.take(0) =~= Seq::<SegmentView>::empty());
    }
    while i < all.len()
        invariant
            i <= all@.len(),
            segment_views(all@) == input,
            segment_views(sorted@) == stable_sort(input.take(i as int)),
        decreases all@.len() - i,
    {
        let x = copy_segment(&all[i]);
        proof {
            assert(input.take(i + 1).drop_last() =~= input.take(i as int));
            assert(input.take(i + 1).last() == x@);
        }
        insert_into_sorted(&mut sorted, x);
        i = i + 1;
    }
    proof {
        assert(input.take(all@.len() as int) =~= input);
    }
    sorted
}

/// Inserts `x` after every element that does not come after it.
fn insert_into_sorted(sorted: &mut Vec<Segment>, x: Segment)
    ensures
        segment_views(final(sorted)@) == insert_sorted(segment_views(old(sorted)@), x@),
{
    let ghost s0 = segment_views(sorted@);
    // position: first index from the end whose element does not come after x
    let mut pos: usize = sorted.len();
    proof {
        assert(s0.take(pos as int) =~= s0);
        assert(s0.skip(pos as int) =~= Seq::<SegmentView>::empty());
        assert(insert_sorted(s0, x@) =~= insert_sorted(s0.take(pos as int), x@) + s0.skip(pos as int));
    }
    while pos > 0 && !timeline_le(&sorted[pos - 1], &x)
        invariant
            pos <= sorted@.len(),
            segment_views(sorted@) == s0,
            insert_sorted(s0, x@) == insert_sorted(s0.take(pos as int), x@) + s0.skip(
                pos as int,
            ),
        decreases pos,
    {
        proof {
            let t = s0.take(pos as int);
            assert(t.drop_last() =~= s0.take(pos - 1));
            assert(t.last() == s0[pos - 1]);
            assert(s0.skip(pos - 1) =~= seq![s0[pos - 1]] + s0.skip(pos as int));
            assert(insert_sorted(t, x@) == insert_sorted(t.drop_last(), x@).push(t.last()));
            assert(insert_sorted(t.drop_last(), x@).push(t.last()) + s0.skip(pos as int)
                =~= insert_sorted(t.drop_last(), x@) + s0.skip(pos - 1));
        }
        pos = pos - 1;
    }
    proof {
        let t = s0.take(pos as int);
        if pos > 0 {
            assert(t.last() == s0[pos - 1]);
            assert(insert_sorted(t, x@) == t.push(x@));
        } else {
            assert(insert_sorted(t, x@) == seq![x@]);
            assert(t =~= Seq::<SegmentView>::empty());
        }
        assert(insert_sorted(t, x@) =~= t.push(x@));
    }
    sorted.insert(pos, x);
    proof {
        assert(segment_views(sorted@) =~= insert_sorted(s0, x@));
    }
}

// ---------------------------------------------------------------------------
// Speech segments from a recogniser
// ---------------------------------------------------------------------------

/// The speech segment for recognised text between two offsets, or nothing
/// when the text is blank.
pub open spec fn speech_segment_view(start_ms: int, end_ms: int, text: Seq<char>) -> Option<
    SegmentView,
> {
    if trim(text).len() == 0 {
        None
    } else {
        Some(
            SegmentView {
                start_ms: start_ms,
                end_ms: end_ms,
                text: trim(text),
                source: speech_source(),
            },
        )
    }
}

/// A speech segment from recognised text: the text trimmed, `None` when
/// nothing remains.
pub fn speech_segment(start_ms: i64, end_ms: i64, text: &str) -> (r: Option<Segment>)
    ensures
        r matches Some(s) ==> speech_segment_view(start_ms as int, end_ms as int, text@) == Some(
            s@,
        ),
        r is None ==> speech_segment_view(start_ms as int, end_ms as int, text@) is None,
{
    let cs = chars_of(text);
    let t = trim_chars(cs.as_slice());
    if t.len() == 0 {
        return None;
    }
    Some(Segment { start_ms, end_ms, text: string_of(t.as_slice()), source: default_segment_source() })
}

/// Samples per second the recogniser expects.
pub const SAMPLE_RATE: usize = 16000;

/// Length in samples of one language-detection window (10 s).
pub const DETECT_WINDOW: usize = 160000;

/// The language handed to the recogniser: automatic detection for the
/// mixed mode, the chosen language otherwise.
pub fn whisper_language(language: &str) -> (r: String)
    ensures
        r@ == if language@ == "mixed"@ {
            "auto"@
        } else {
            language@
        },
{
    if str_eq(language, "mixed") {
        string_of(chars_of("auto").as_slice())
    } else {
        string_of(chars_of(language).as_slice())
    }
}

/// Whether a file is transcribed window by window with detected languages:
/// the mixed mode on at least two seconds of audio.
pub fn uses_mixed_mode(language: &str, audio_len: usize) -> (r: bool)
    ensures
        r == (language@ == "mixed"@ && audio_len >= 2 * SAMPLE_RATE),
{
    str_eq(language, "mixed") && audio_len >= 2 * SAMPLE_RATE
}

/// Number of detection windows covering `audio_len` samples.
pub fn detection_window_count(audio_len: usize) -> (r: usize)
    ensures
        r == (audio_len + DETECT_WINDOW - 1) / DETECT_WINDOW as int,
{
    let q = audio_len / DETECT_WINDOW;
    if audio_len % DETECT_WINDOW == 0 {
        q
    } else {
        q + 1
    }
}

/// Samples `[start, end)` of window `w`.
pub open spec fn window_bounds(w: int, audio_len: int) -> (int, int) {
    let start = w * DETECT_WINDOW;
    let end = if start + DETECT_WINDOW <= audio_len {
        start + DETECT_WINDOW
    } else {
        audio_len
    };
    (start, end)
}

/// What to do for one detection window.
pub enum DetectionStep {
    /// Reuse the language of the previous window.
    Inherit(i32),
    /// Detect the language of samples `[start, end)`.
    Detect(usize, usize),
}

/// The step for window `w`: a window shorter than one second inherits the
/// previous window's language when there is one; any other is detected.
pub fn detection_step(w: usize, audio_len: usize, detected: &Vec<i32>) -> (r: DetectionStep)
    requires
        w * DETECT_WINDOW < audio_len,
    ensures
        ({
            let (start, end) = window_bounds(w as int, audio_len as int);
            if end - start < SAMPLE_RATE && detected@.len() > 0 {
                r == DetectionStep::Inherit(detected@.last())
            } else {
                r == DetectionStep::Detect(start as usize, end as usize)
            }
        }),
{
    let start = w * DETECT_WINDOW;
    let end = if audio_len - start >= DETECT_WINDOW {
        start + DETECT_WINDOW
    } else {
        audio_len
    };
    if end - start < SAMPLE_RATE && detected.len() > 0 {
        DetectionStep::Inherit(detected[detected.len() - 1])
    } else {
        DetectionStep::Detect(start, end)
    }
}

/// A run of consecutive windows with one language: samples `[start, end)`.
pub struct LanguageGroup {
    pub start: usize,
    pub end: usize,
    pub lang: i32,
}

/// Consecutive windows with the same language merged into one group.
pub open spec fn language_groups(langs: Seq<i32>, audio_len: int) -> Seq<(int, int, i32)>
    decreases langs.len(),
{
    if langs.len() == 0 {
        Seq::empty()
    } else {
        let g = language_groups(langs.drop_last(), audio_len);
        let w = langs.len() - 1;
        let (start, end) = window_bounds(w, audio_len);
        if g.len() > 0 && g.last().2 == langs.last() {
            g.update(g.len() - 1, (g.last().0, end, g.last().2))
        } else {
            g.push((start, end, langs.last()))
        }
    }
}

pub open spec fn group_views(v: Seq<LanguageGroup>) -> Seq<(int, int, i32)> {
    v.map_values(|g: LanguageGroup| (g.start as int, g.end as int, g.lang))
}

/// The windows' languages grouped into runs of one language.
pub fn group_languages(langs: &Vec<i32>, audio_len: usize) -> (r: Vec<LanguageGroup>)
    requires
        langs@.len() * DETECT_WINDOW < audio_len + DETECT_WINDOW,
    ensures
        group_views(r@) == language_groups(langs@, audio_len as int),
{
    let mut groups: Vec<LanguageGroup> = Vec::new();
    let mut w: usize = 0;
    proof {
        assert(langs@.take(0) =~= Seq::<i32>::empty());
    }
    while w < langs.len()
        invariant
            w <= langs@.len(),
            langs@.len() * DETECT_WINDOW < audio_len + DETECT_WINDOW,
            group_views(groups@) == language_groups(langs@.take(w as int), audio_len as int),
        decreases langs@.len() - w,
    {
        proof {
            assert(langs@.take(w + 1).drop_last() =~= langs@.take(w as int));
            assert(langs@.take(w + 1).last() == langs@[w as int]);
            assert(w * DETECT_WINDOW < audio_len) by (nonlinear_arith)
                requires
                    w < langs@.len(),
                    langs@.len() * DETECT_WINDOW < audio_len + DETECT_WINDOW,
            ;
        }
        let lang = langs[w];
        let start = w * DETECT_WINDOW;
        let end = if audio_len - start >= DETECT_WINDOW {
            start + DETECT_WINDOW
        } else {
            audio_len
        };
        let n = groups.len();
        if n > 0 && groups[n - 1].lang == lang {
            let first = groups[n - 1].start;
            groups.set(n - 1, LanguageGroup { start: first, end, lang });
        } else {
            groups.push(LanguageGroup { start, end, lang });
        }
        proof {
            assert(group_views(groups@) =~= language_groups(
                langs@.take(w + 1),
                audio_len as int,
            ));
        }
        w = w + 1;
    }
    proof {
        assert(langs@.take(langs@.len() as int) =~= langs@);
    }
    groups
}

/// The groups cover the audio from the first sample on without gaps:
/// the first starts at zero, each starts where the previous one ends, each
/// ends where the last of its windows ends, and neighbouring groups have
/// different languages.
pub proof fn law_language_groups_tile(langs: Seq<i32>, audio_len: int)
    requires
        langs.len() > 0,
        (langs.len() - 1) * DETECT_WINDOW < audio_len,
    ensures
        ({
            let g = language_groups(langs, audio_len);
            &&& g.len() > 0
            &&& g[0].0 == 0
            &&& g.last().1 == window_bounds(langs.len() - 1, audio_len).1
            &&& forall|k: int| 0 <= k < g.len() - 1 ==> #[trigger] g[k].1 == g[k + 1].0
            &&& forall|k: int| 0 <= k < g.len() - 1 ==> #[trigger] g[k].2 != g[k + 1].2
            &&& forall|k: int| 0 <= k < g.len() ==> #[trigger] g[k].0 < g[k].1
        }),
    decreases langs.len(),
{
    let init = langs.drop_last();
    let w = langs.len() - 1;
    let (start, end) = window_bounds(w, audio_len);
    assert(start < end);
    let g = language_groups(langs, audio_len);
    if init.len() > 0 {
        assert((init.len() - 1) * DETECT_WINDOW < audio_len) by (nonlinear_arith)
            requires
                (langs.len() - 1) * DETECT_WINDOW < audio_len,
                init.len() == langs.len() - 1,
        ;
        law_language_groups_tile(init, audio_len);
        assert(window_bounds(w - 1, audio_len).1 == w * DETECT_WINDOW) by (nonlinear_arith)
            requires
                w * DETECT_WINDOW < audio_len,
                w >= 1,
        ;
        let g0 = language_groups(init, audio_len);
        assert(init.len() - 1 == w - 1);
        assert(g0.last().1 == start);
        if g0.last().2 == langs.last() {
            assert(g == g0.update(g0.len() - 1, (g0.last().0, end, g0.last().2)));
            assert forall|k: int| 0 <= k < g.len() - 1 implies #[trigger] g[k].1 == g[k + 1].0 by {
                assert(g[k] == g0[k]);
                if k + 1 < g.len() - 1 {
                    assert(g[k + 1] == g0[k + 1]);
                }
            }
            assert forall|k: int| 0 <= k < g.len() - 1 implies #[trigger] g[k].2 != g[k + 1].2 by {
                assert(g[k] == g0[k]);
                if k + 1 < g.len() - 1 {
                    assert(g[k + 1] == g0[k + 1]);
                }
            }
            assert forall|k: int| 0 <= k < g.len() implies #[trigger] g[k].0 < g[k].1 by {
                if k < g.len() - 1 {
                    assert(g[k] == g0[k]);
                }
            }
        } else {
            assert(g == g0.push((start, end, langs.last())));
            assert forall|k: int| 0 <= k < g.len() - 1 implies #[trigger] g[k].1 == g[k + 1].0 by {
                assert(g[k] == g0[k]);
                if k + 1 < g.len() - 1 {
                    assert(g[k + 1] == g0[k + 1]);
                }
            }
            assert forall|k: int| 0 <= k < g.len() - 1 implies #[trigger] g[k].2 != g[k + 1].2 by {
                assert(g[k] == g0[k]);
                if k + 1 < g.len() - 1 {
                    assert(g[k + 1] == g0[k + 1]);
                }
            }
            assert forall|k: int| 0 <= k < g.len() implies #[trigger] g[k].0 < g[k].1 by {
                if k < g.len() - 1 {
                    assert(g[k] == g0[k]);
                }
            }
        }
    } else {
        assert(w == 0);
        assert(language_groups(init, audio_len).len() == 0);
        assert(g =~= seq![(start, end, langs.last())]);
    }
}

/// The centisecond offset of a range starting at sample `start`.
pub fn centisecond_offset(start: usize) -> (r: i64)
    requires
        start <= i64::MAX / 100,
    ensures
        r == start as int * 100 / SAMPLE_RATE as int,
{
    ((start as i64) * 100) / 16000
}

/// A recognised speech segment placed on the timeline: recogniser
/// timestamps are in centiseconds from the range start; the text is
/// trimmed and a blank one yields nothing.
pub fn whisper_segment(start_cs: i64, end_cs: i64, offset_cs: i64, text: &str) -> (r: Option<
    Segment,
>)
    requires
        i64::MIN <= (start_cs + offset_cs) * 10 <= i64::MAX,
        i64::MIN <= (end_cs + offset_cs) * 10 <= i64::MAX,
        i64::MIN <= start_cs + offset_cs <= i64::MAX,
        i64::MIN <= end_cs + offset_cs <= i64::MAX,
    ensures
        r matches Some(s) ==> speech_segment_view(
            (start_cs + offset_cs) * 10,
            (end_cs + offset_cs) * 10,
            text@,
        ) == Some(s@),
        r is None ==> speech_segment_view(
            (start_cs + offset_cs) * 10,
            (end_cs + offset_cs) * 10,
            text@,
        ) is None,
{
    speech_segment((start_cs + offset_cs) * 10, (end_cs + offset_cs) * 10, text)
}

/// One transcription item of the GPU recogniser's JSON output.
pub struct TranscriptionItem {
    pub text: String,
    pub from_ms: i64,
    pub to_ms: i64,
}

/// The speech segments of the items, blank ones skipped.
pub open spec fn item_segments(items: Seq<(int, int, Seq<char>)>) -> Seq<SegmentView>
    decreases items.len(),
{
    if items.len() == 0 {
        Seq::empty()
    } else {
        let r = item_segments(items.drop_last());
        let (f, t, x) = items.last();
        match speech_segment_view(f, t, x) {
            Some(s) => r.push(s),
            None => r,
        }
    }
}

pub open spec fn item_views(v: Seq<TranscriptionItem>) -> Seq<(int, int, Seq<char>)> {
    v.map_values(|i: TranscriptionItem| (i.from_ms as int, i.to_ms as int, i.text@))
}

/// The speech segments of the GPU recogniser's items; an error when no item
/// holds text.
pub fn segments_from_items(items: &[TranscriptionItem]) -> (r: Result<Vec<Segment>, String>)
    ensures
        item_segments(item_views(items@)).len() == 0 ==> (r matches Err(m) && m@
            == "文字起こし結果が空です"@),
        item_segments(item_views(items@)).len() > 0 ==> (r matches Ok(v) && segment_views(v@)
            == item_segments(item_views(items@))),
{
    let ghost all = item_views(items@);
    let mut out: Vec<Segment> = Vec::new();
    let mut i: usize = 0;
    proof {
        assert(all.take(0) =~= Seq::<(int, int, Seq<char>)>::empty());
    }
    while i < items.len()
        invariant
            i <= items@.len(),
            all == item_views(items@),
            segment_views(out@) == item_segments(all.take(i as int)),
        decreases items@.len() - i,
    {
        proof {
            assert(all.take(i + 1).drop_last() =~= all.take(i as int));
            assert(all.take(i + 1).last() == all[i as int]);
        }
        let item = &items[i];
        match speech_segment(item.from_ms, item.to_ms, item.text.as_str()) {
            Some(seg) => {
                out.push(seg);
                proof {
                    assert(segment_views(out@) =~= item_segments(all.take(i as int)).push(
                        out@.last()@,
                    ));
                }
            },
            None => {},
        }
        i = i + 1;
    }
    proof {
        assert(all.take(items@.len() as int) =~= all);
    }
    if out.len() == 0 {
        Err(string_of(chars_of("文字起こし結果が空です").as_slice()))
    } else {
        Ok(out)
    }
}

} // verus!
