//! Transcription history: record identifiers and file names, new records,
//! and the newest-first list of record summaries.
use vstd::prelude::*;

use crate::gpu::{all_digits, digit_value, digits_value, lemma_digits_value_monotone};
use crate::text::{chars_of, copy_string, decimal, decimal_string, digit_char, push_str, str_eq, string_of};
use crate::transcript::{Segment, SegmentView, copy_segments, segment_views};

verus! {

/// One saved transcription with its segments.
pub struct HistoryEntry {
    pub id: String,
    pub file_name: String,
    pub model_id: String,
    pub language: String,
    pub created_at_ms: u64,
    pub segments: Vec<Segment>,
}

/// What the history list shows of a saved transcription.
pub struct HistorySummary {
    pub id: String,
    pub file_name: String,
    pub model_id: String,
    pub language: String,
    pub created_at_ms: u64,
    pub segment_count: usize,
    pub duration_ms: i64,
}

pub struct SummaryView {
    pub id: Seq<char>,
    pub file_name: Seq<char>,
    pub model_id: Seq<char>,
    pub language: Seq<char>,
    pub created_at_ms: int,
    pub segment_count: int,
    pub duration_ms: int,
}

impl View for HistorySummary {
    type V = SummaryView;

    open spec fn view(&self) -> SummaryView {
        SummaryView {
            id: self.id@,
            file_name: self.file_name@,
            model_id: self.model_id@,
            language: self.language@,
            created_at_ms: self.created_at_ms as int,
            segment_count: self.segment_count as int,
            duration_ms: self.duration_ms as int,
        }
    }
}

pub open spec fn summary_views(v: Seq<HistorySummary>) -> Seq<SummaryView> {
    v.map_values(|s: HistorySummary| s@)
}

// ---------------------------------------------------------------------------
// Identifiers
// ---------------------------------------------------------------------------

/// A record identifier: one or more ASCII digits (nothing that could name
/// another directory).
pub open spec fn is_history_id(id: Seq<char>) -> bool {
    id.len() > 0 && forall|i: int| 0 <= i < id.len() ==> '0' <= #[trigger] id[i] <= '9'
}

/// The file name of the record with this identifier, or an error for an
/// identifier that is not all digits.
pub fn history_file_name(id: &str) -> (r: Result<String, String>)
    ensures
        is_history_id(id@) ==> (r matches Ok(f) && f@ == id@ + ".json"@),
        !is_history_id(id@) ==> (r matches Err(m) && m@ == "不正な履歴IDです"@),
{
    let cs = chars_of(id);
    let mut ok = cs.len() > 0;
    let mut i: usize = 0;
    while i < cs.len()
        invariant
            i <= cs@.len(),
            cs@ == id@,
            ok == (cs@.len() > 0 && forall|k: int| 0 <= k < i ==> '0' <= #[trigger] cs@[k] <= '9'),
        decreases cs@.len() - i,
    {
        if cs[i] < '0' || cs[i] > '9' {
            ok = false;
        }
        i = i + 1;
    }
    if !ok {
        return Err(string_of(chars_of("不正な履歴IDです").as_slice()));
    }
    let mut out: Vec<char> = Vec::new();
    push_str(&mut out, id);
    push_str(&mut out, ".json");
    Ok(string_of(out.as_slice()))
}

/// The file name a record is saved under: its number and `.json`.
pub fn history_entry_file_name(id: u64) -> (r: String)
    ensures
        r@ == decimal(id as nat) + ".json"@,
{
    let digits = decimal_string(id);
    let mut out: Vec<char> = Vec::new();
    push_str(&mut out, digits.as_str());
    push_str(&mut out, ".json");
    string_of(out.as_slice())
}

proof fn lemma_decimal_digits(n: nat)
    ensures
        is_history_id(decimal(n)),
    decreases n,
{
    if n >= 10 {
        lemma_decimal_digits(n / 10);
        let d = decimal(n / 10);
        assert forall|i: int| 0 <= i < decimal(n).len() implies '0' <= #[trigger] decimal(n)[i]
            <= '9' by {
            if i < d.len() {
                assert(decimal(n)[i] == d[i]);
            }
        }
    }
}

/// A record saved under a number can be read back: its identifier is
/// accepted, and names the very file it was saved to.
pub proof fn law_saved_record_is_loadable(id: u64)
    ensures
        is_history_id(decimal(id as nat)),
{
    lemma_decimal_digits(id as nat);
}

/// An accepted identifier names a file inside the history folder: it holds
/// no path separator and no dot.
pub proof fn law_history_ids_stay_in_folder(id: Seq<char>)
    requires
        is_history_id(id),
    ensures
        forall|i: int|
            0 <= i < id.len() ==> #[trigger] id[i] != '/' && id[i] != '\\' && id[i] != '.',
{
}

proof fn lemma_decimal_value(n: nat)
    ensures
        decimal(n).len() >= 1,
        all_digits(decimal(n)),
        digits_value(decimal(n)) == n,
    decreases n,
{
    if n >= 10 {
        lemma_decimal_value(n / 10);
        let d = decimal(n / 10);
        assert(decimal(n).drop_last() =~= d);
        assert(decimal(n).last() == digit_char(n % 10));
        assert(digit_value(digit_char(n % 10)) == n % 10);
        assert((n / 10) * 10 + n % 10 == n) by (nonlinear_arith);
        assert(digits_value(decimal(n)) == digits_value(d) * 10 + digit_value(digit_char(n % 10)));
        assert forall|i: int| 0 <= i < decimal(n).len() implies '0' <= #[trigger] decimal(n)[i]
            <= '9' by {
            if i < d.len() {
                assert(decimal(n)[i] == d[i]);
            }
        }
    } else {
        assert(decimal(n).drop_last() =~= Seq::<char>::empty());
        assert(digit_value(digit_char(n)) == n);
        assert(digits_value(decimal(n)) == digits_value(Seq::<char>::empty()) * 10 + digit_value(
            digit_char(n),
        ));
    }
}

/// The record number a history file name stands for: `Some(id)` exactly
/// when the name is the number in decimal (no leading zeros) and `.json`.
pub fn history_id_of_file_name(name: &str) -> (r: Option<u64>)
    ensures
        r matches Some(id) ==> name@ == decimal(id as nat) + ".json"@,
        r is None ==> forall|id: u64| name@ != #[trigger] decimal(id as nat) + ".json"@,
{
    proof {
        reveal_strlit(".json");
    }
    let cs = chars_of(name);
    let n = cs.len();
    if n < 5 {
        proof {
            assert forall|id: u64| name@ != #[trigger] decimal(id as nat) + ".json"@ by {
                lemma_decimal_value(id as nat);
            }
        }
        return None;
    }
    let body_len: usize = n - 5;
    let ghost body = cs@.take(body_len as int);
    let mut value: u64 = 0;
    let mut k: usize = 0;
    proof {
        assert(body.take(0) =~= Seq::<char>::empty());
    }
    while k < body_len
        invariant
            k <= body_len == n - 5,
            n == cs@.len(),
            cs@ == name@,
            body == cs@.take(body_len as int),
            all_digits(body.take(k as int)),
            value == digits_value(body.take(k as int)),
        decreases body_len - k,
    {
        let c = cs[k];
        proof {
            assert(body[k as int] == c);
            assert(body.take(k + 1).drop_last() =~= body.take(k as int));
            assert(body.take(k + 1).last() == c);
        }
        if c < '0' || c > '9' {
            proof {
                assert forall|id: u64| name@ != #[trigger] decimal(id as nat) + ".json"@ by {
                    lemma_decimal_value(id as nat);
                    reveal_strlit(".json");
                    if name@ == decimal(id as nat) + ".json"@ {
                        assert(decimal(id as nat).len() == body_len);
                        assert(body =~= decimal(id as nat));
                        assert('0' <= body[k as int] <= '9');
                    }
                }
            }
            return None;
        }
        let d: u64 = (c as u32 - 48) as u64;
        proof {
            assert(all_digits(body.take(k + 1))) by {
                assert forall|i: int| 0 <= i < body.take(k + 1).len() implies '0' <= #[trigger] body.take(k + 1)[i] <= '9' by {
                    if i < k {
                        assert(body.take(k + 1)[i] == body.take(k as int)[i]);
                    }
                }
            }
            assert(digits_value(body.take(k + 1)) == value * 10 + d);
        }
        if value > (u64::MAX - d) / 10 {
            proof {
                assert(value * 10 + d > u64::MAX) by (nonlinear_arith)
                    requires
                        value > (u64::MAX - d) / 10,
                        d <= 9,
                ;
                assert forall|id: u64| name@ != #[trigger] decimal(id as nat) + ".json"@ by {
                    lemma_decimal_value(id as nat);
                    reveal_strlit(".json");
                    if name@ == decimal(id as nat) + ".json"@ {
                        assert(decimal(id as nat).len() == body_len);
                        assert(body =~= decimal(id as nat));
                        lemma_digits_value_monotone(body, k + 1);
                    }
                }
            }
            return None;
        }
        value = value * 10 + d;
        k = k + 1;
    }
    proof {
        assert(body.take(body_len as int) =~= body);
    }
    let expected = history_entry_file_name(value);
    if str_eq(expected.as_str(), name) {
        Some(value)
    } else {
        proof {
            assert forall|id: u64| name@ != #[trigger] decimal(id as nat) + ".json"@ by {
                lemma_decimal_value(id as nat);
                if name@ == decimal(id as nat) + ".json"@ {
                    assert(body =~= decimal(id as nat));
                }
            }
        }
        None
    }
}

/// The first record number from `start` on that no existing record uses,
/// or `None` when every number up to the largest is taken.
pub fn first_free_id(start: u64, taken: &Vec<u64>) -> (r: Option<u64>)
    ensures
        r matches Some(id) ==> start <= id && !taken@.contains(id) && forall|k: u64|
            start <= k < id ==> #[trigger] taken@.contains(k),
        r is None ==> forall|k: u64| start <= k ==> #[trigger] taken@.contains(k),
{
    let mut id: u64 = start;
    loop
        invariant
            start <= id,
            forall|k: u64| start <= k < id ==> #[trigger] taken@.contains(k),
        decreases u64::MAX - id,
    {
        let mut used = false;
        let mut j: usize = 0;
        while j < taken.len()
            invariant
                j <= taken@.len(),
                used == exists|t: int| 0 <= t < j && taken@[t] == id,
            decreases taken@.len() - j,
        {
            if taken[j] == id {
                used = true;
            }
            j = j + 1;
        }
        if !used {
            proof {
                if taken@.contains(id) {
                    let t = choose|t: int| 0 <= t < taken@.len() && taken@[t] == id;
                }
            }
            return Some(id);
        }
        proof {
            let t = choose|t: int| 0 <= t < taken@.len() && taken@[t] == id;
            assert(taken@.contains(id));
        }
        if id == u64::MAX {
            return None;
        }
        id = id + 1;
    }
}

// ---------------------------------------------------------------------------
// Records and summaries
// ---------------------------------------------------------------------------

/// A new record numbered `id` (also its creation time in milliseconds).
pub fn new_history_entry(
    id: u64,
    file_name: &str,
    model_id: &str,
    language: &str,
    segments: &[Segment],
) -> (r: HistoryEntry)
    ensures
        r.id@ == decimal(id as nat),
        r.file_name@ == file_name@,
        r.model_id@ == model_id@,
        r.language@ == language@,
        r.created_at_ms == id,
        segment_views(r.segments@) == segment_views(segments@),
{
    HistoryEntry {
        id: decimal_string(id),
        file_name: string_of(chars_of(file_name).as_slice()),
        model_id: string_of(chars_of(model_id).as_slice()),
        language: string_of(chars_of(language).as_slice()),
        created_at_ms: id,
        segments: copy_segments(segments),
    }
}

/// The largest segment end, or 0 without segments.
pub open spec fn max_end(segs: Seq<SegmentView>) -> int
    decreases segs.len(),
{
    if segs.len() == 0 {
        0
    } else if segs.len() == 1 {
        segs[0].end_ms
    } else if max_end(segs.drop_last()) >= segs.last().end_ms {
        max_end(segs.drop_last())
    } else {
        segs.last().end_ms
    }
}

/// The duration is the largest segment end: no segment ends after it, it is
/// the end of one of the segments when there are any, and 0 when there are
/// none.
pub proof fn law_duration_is_largest_end(segs: Seq<SegmentView>)
    ensures
        forall|i: int| 0 <= i < segs.len() ==> (#[trigger] segs[i]).end_ms <= max_end(segs),
        segs.len() > 0 ==> exists|i: int|
            0 <= i < segs.len() && (#[trigger] segs[i]).end_ms == max_end(segs),
        segs.len() == 0 ==> max_end(segs) == 0,
    decreases segs.len(),
{
    if segs.len() > 1 {
        let init = segs.drop_last();
        law_duration_is_largest_end(init);
        assert forall|i: int| 0 <= i < segs.len() implies (#[trigger] segs[i]).end_ms <= max_end(
            segs,
        ) by {
            if i < init.len() {
                assert(init[i] == segs[i]);
            }
        }
        if max_end(init) >= segs.last().end_ms {
            let k = choose|k: int| 0 <= k < init.len() && (#[trigger] init[k]).end_ms == max_end(init);
            assert(segs[k] == init[k]);
        } else {
            assert(segs[segs.len() - 1] == segs.last());
        }
    } else if segs.len() == 1 {
        assert(segs[0].end_ms == max_end(segs));
    }
}

/// The duration of a transcription: the largest segment end, 0 without
/// segments.
pub fn duration_ms(segments: &[Segment]) -> (r: i64)
    ensures
        r == max_end(segment_views(segments@)),
        forall|i: int| 0 <= i < segments@.len() ==> (#[trigger] segments@[i]).end_ms <= r,
        segments@.len() > 0 ==> exists|i: int|
            0 <= i < segments@.len() && (#[trigger] segments@[i]).end_ms == r,
        segments@.len() == 0 ==> r == 0,
{
    let r = largest_end(segments);
    proof {
        let all = segment_views(segments@);
        law_duration_is_largest_end(all);
        assert forall|i: int| 0 <= i < segments@.len() implies (#[trigger] segments@[i]).end_ms
            <= r by {
            assert(all[i] == segments@[i]@);
        }
        if segments@.len() > 0 {
            let k = choose|k: int| 0 <= k < all.len() && (#[trigger] all[k]).end_ms == max_end(all);
            assert(all[k] == segments@[k]@);
        }
    }
    r
}

/// The computation behind `duration_ms`.
fn largest_end(segments: &[Segment]) -> (r: i64)
    ensures
        r == max_end(segment_views(segments@)),
{
    let ghost all = segment_views(segments@);
    let mut best: i64 = 0;
    let mut i: usize = 0;
    proof {
        assert(all.take(0) =~= Seq::<SegmentView>::empty());
    }
    while i < segments.len()
        invariant
            i <= segments@.len(),
            all == segment_views(segments@),
            best == max_end(all.take(i as int)),
        decreases segments@.len() - i,
    {
        proof {
            assert(all.take(i + 1).drop_last() =~= all.take(i as int));
            assert(all.take(i + 1).last() == segments@[i as int]@);
            if i == 0 {
                assert(all.take(1)[0] == segments@[0]@);
            }
        }
        let e = segments[i].end_ms;
        if i == 0 || e > best {
            best = e;
        }
        i = i + 1;
    }
    proof {
        assert(all.take(segments@.len() as int) =~= all);
    }
    best
}

/// The summary of one record.
pub open spec fn summary_of(
    e_id: Seq<char>,
    e_file: Seq<char>,
    e_model: Seq<char>,
    e_lang: Seq<char>,
    created: int,
    segs: Seq<SegmentView>,
) -> SummaryView {
    SummaryView {
        id: e_id,
        file_name: e_file,
        model_id: e_model,
        language: e_lang,
        created_at_ms: created,
        segment_count: segs.len() as int,
        duration_ms: max_end(segs),
    }
}

pub open spec fn entry_summary(e: HistoryEntry) -> SummaryView {
    summary_of(
        e.id@,
        e.file_name@,
        e.model_id@,
        e.language@,
        e.created_at_ms as int,
        segment_views(e.segments@),
    )
}

/// The summary of a record: its fields, the number of segments and the
/// duration.
pub fn summarize_entry(entry: &HistoryEntry) -> (r: HistorySummary)
    ensures
        r@ == entry_summary(*entry),
{
    HistorySummary {
        id: copy_string(&entry.id),
        file_name: copy_string(&entry.file_name),
        model_id: copy_string(&entry.model_id),
        language: copy_string(&entry.language),
        created_at_ms: entry.created_at_ms,
        segment_count: entry.segments.len(),
        duration_ms: duration_ms(entry.segments.as_slice()),
    }
}

/// `x` placed after every summary that is not older than it.
pub open spec fn insert_newest_first(sorted: Seq<SummaryView>, x: SummaryView) -> Seq<SummaryView>
    decreases sorted.len(),
{
    if sorted.len() == 0 {
        seq![x]
    } else if sorted.last().created_at_ms >= x.created_at_ms {
        sorted.push(x)
    } else {
        insert_newest_first(sorted.drop_last(), x).push(sorted.last())
    }
}

/// The stable sort of `s` by creation time, newest first.
pub open spec fn newest_first(s: Seq<SummaryView>) -> Seq<SummaryView>
    decreases s.len(),
{
    if s.len() == 0 {
        Seq::empty()
    } else {
        insert_newest_first(newest_first(s.drop_last()), s.last())
    }
}

pub open spec fn is_newest_first(s: Seq<SummaryView>) -> bool {
    forall|i: int, j: int| 0 <= i < j < s.len() ==> s[i].created_at_ms >= s[j].created_at_ms
}

proof fn lemma_insert_newest_first(sorted: Seq<SummaryView>, x: SummaryView)
    requires
        is_newest_first(sorted),
    ensures
        is_newest_first(insert_newest_first(sorted, x)),
        insert_newest_first(sorted, x).to_multiset() == sorted.to_multiset().insert(x),
        insert_newest_first(sorted, x).len() == sorted.len() + 1,
    decreases sorted.len(),
{
    broadcast use vstd::seq_lib::group_seq_properties;

    if sorted.len() == 0 {
        assert(seq![x] =~= Seq::<SummaryView>::empty().push(x));
    } else if sorted.last().created_at_ms >= x.created_at_ms {
    } else {
        let init = sorted.drop_last();
        let last = sorted.last();
        lemma_insert_newest_first(init, x);
        let r = insert_newest_first(init, x);
        assert(sorted =~= init.push(last));
        assert forall|k: int| 0 <= k < r.len() implies (#[trigger] r[k]).created_at_ms
            >= last.created_at_ms by {
            assert(r.to_multiset().count(r[k]) > 0);
            if r[k] != x {
                assert(init.to_multiset().count(r[k]) > 0);
                assert(init.contains(r[k]));
                let t = choose|t: int| 0 <= t < init.len() && init[t] == r[k];
                assert(sorted[t] == init[t]);
                assert(sorted[sorted.len() - 1] == last);
            }
        }
        assert forall|i: int, j: int|
            0 <= i < j < r.push(last).len() implies r.push(last)[i].created_at_ms >= r.push(
            last,
        )[j].created_at_ms by {
            if j == r.len() {
                assert(r.push(last)[i] == r[i]);
            }
        }
    }
}

/// The history list is ordered newest first and holds every summary.
pub proof fn law_history_newest_first(s: Seq<SummaryView>)
    ensures
        is_newest_first(newest_first(s)),
        newest_first(s).to_multiset() == s.to_multiset(),
        newest_first(s).len() == s.len(),
    decreases s.len(),
{
    broadcast use vstd::seq_lib::group_seq_properties;

    if s.len() > 0 {
        law_history_newest_first(s.drop_last());
        lemma_insert_newest_first(newest_first(s.drop_last()), s.last());
        assert(s =~= s.drop_last().push(s.last()));
    }
}

fn insert_summary(sorted: &mut Vec<HistorySummary>, x: HistorySummary)
    ensures
        summary_views(final(sorted)@) == insert_newest_first(summary_views(old(sorted)@), x@),
{
    let ghost s0 = summary_views(sorted@);
    let mut pos: usize = sorted.len();
    proof {
        assert(s0.take(pos as int) =~= s0);
        assert(s0.skip(pos as int) =~= Seq::<SummaryView>::empty());
        assert(insert_newest_first(s0, x@) =~= insert_newest_first(s0.take(pos as int), x@)
            + s0.skip(pos as int));
    }
    while pos > 0 && sorted[pos - 1].created_at_ms < x.created_at_ms
        invariant
            pos <= sorted@.len(),
            summary_views(sorted@) == s0,
            insert_newest_first(s0, x@) == insert_newest_first(s0.take(pos as int), x@)
                + s0.skip(pos as int),
        decreases pos,
    {
        proof {
            let t = s0.take(pos as int);
            assert(t.drop_last() =~= s0.take(pos - 1));
            assert(t.last() == s0[pos - 1]);
            assert(s0.skip(pos - 1) =~= seq![s0[pos - 1]] + s0.skip(pos as int));
            assert(insert_newest_first(t, x@) == insert_newest_first(t.drop_last(), x@).push(
                t.last(),
            ));
            assert(insert_newest_first(t.drop_last(), x@).push(t.last()) + s0.skip(pos as int)
                =~= insert_newest_first(t.drop_last(), x@) + s0.skip(pos - 1));
        }
        pos = pos - 1;
    }
    proof {
        let t = s0.take(pos as int);
        if pos > 0 {
            assert(t.last() == s0[pos - 1]);
        } else {
            assert(t =~= Seq::<SummaryView>::empty());
        }
        assert(insert_newest_first(t, x@) =~= t.push(x@));
    }
    sorted.insert(pos, x);
    proof {
        assert(summary_views(sorted@) =~= insert_newest_first(s0, x@));
    }
}

/// The summaries of the records, newest first; records created at the same
/// time keep their order.
pub fn summarize_history(entries: &[HistoryEntry]) -> (r: Vec<HistorySummary>)
    ensures
        summary_views(r@) == newest_first(entries@.map_values(|e: HistoryEntry| entry_summary(e))),
{
    let ghost all = entries@.map_values(|e: HistoryEntry| entry_summary(e));
    let mut sorted: Vec<HistorySummary> = Vec::new();
    let mut i: usize = 0;
    proof {
        assert(all.take(0) =~= Seq::<SummaryView>::empty());
    }
    while i < entries.len()
        invariant
            i <= entries@.len(),
            all == entries@.map_values(|e: HistoryEntry| entry_summary(e)),
            summary_views(sorted@) == newest_first(all.take(i as int)),
        decreases entries@.len() - i,
    {
        let s = summarize_entry(&entries[i]);
        proof {
            assert(all.take(i + 1).drop_last() =~= all.take(i as int));
            assert(all.take(i + 1).last() == s@);
        }
        insert_summary(&mut sorted, s);
        i = i + 1;
    }
    proof {
        assert(all.take(entries@.len() as int) =~= all);
    }
    sorted
}

} // verus!
