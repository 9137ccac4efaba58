//! Spans anchored to buffer offsets, and the disjoint, sorted,
//! generation-tagged collection of them.

use vstd::prelude::*;
use crate::findings::{LTMatch, LTSuggestion, FindingModel, finding_model, findings_model};

verus! {

/// One checker finding anchored to the half-open character range
/// `[start, end)` of the buffer.  `choices` holds the candidate
/// replacement strings, in the checker's order; it may be empty, in
/// which case the finding is informational only.
pub struct Span {
    pub id: u64,
    pub start: usize,
    pub end: usize,
    pub message: String,
    pub choices: Vec<String>,
}

/// Mathematical image of a `Span`: offsets as unbounded integers,
/// texts as character sequences.
pub ghost struct SpanModel {
    pub id: int,
    pub start: int,
    pub end: int,
    pub message: Seq<char>,
    pub choices: Seq<Seq<char>>,
}

/// The model of one span.
pub open spec fn span_model(s: Span) -> SpanModel {
    SpanModel {
        id: s.id as int,
        start: s.start as int,
        end: s.end as int,
        message: s.message@,
        choices: s.choices@.map_values(|c: String| c@),
    }
}

/// The model of a whole span list.
pub open spec fn spans_model(v: Seq<Span>) -> Seq<SpanModel> {
    v.map_values(|s: Span| span_model(s))
}

/// Well-formedness of a span list: every range is ordered, the ranges
/// are pairwise disjoint and sorted ascending by start, and the ids
/// ascend strictly (so every id occurs at most once).
pub open spec fn sorted_disjoint(s: Seq<SpanModel>) -> bool {
    &&& forall|i: int| 0 <= i < s.len() ==> (#[trigger] s[i]).start <= s[i].end
    &&& forall|i: int, j: int|
        #![trigger s[i], s[j]]
        0 <= i < j < s.len() ==> s[i].end <= s[j].start && s[i].id < s[j].id
}

/// Every span of the list fits a buffer of length `len`.
pub open spec fn valid_for(s: Seq<SpanModel>, len: int) -> bool {
    forall|i: int| 0 <= i < s.len() ==> 0 <= (#[trigger] s[i]).start && s[i].end <= len
}

/// Law: two distinct spans of a well-formed span list never overlap;
/// one ends at or before the other starts.
pub proof fn lemma_non_overlap(s: Seq<SpanModel>, i: int, j: int)
    requires
        sorted_disjoint(s),
        0 <= i < s.len(),
        0 <= j < s.len(),
        i != j,
    ensures
        s[i].end <= s[j].start || s[j].end <= s[i].start,
{
}

/// The generation-tagged collection of current findings.  The engine
/// keeps `spans` well formed (`sorted_disjoint`) and valid for the
/// buffer it belongs to; the generation counter tells a response built
/// against an older state apart from the current one.
pub struct AnnotationSet {
    pub generation: u64,
    pub spans: Vec<Span>,
}

impl AnnotationSet {
    /// The model of the spans held.
    pub open spec fn model(&self) -> Seq<SpanModel> {
        spans_model(self.spans@)
    }

    /// The set with no spans, at generation zero.
    pub fn empty() -> (s: AnnotationSet)
        ensures
            s.generation == 0,
            s.model() == Seq::<SpanModel>::empty(),
    {
        let s = AnnotationSet { generation: 0, spans: Vec::new() };
        proof {
            assert(s.model() =~= Seq::<SpanModel>::empty());
        }
        s
    }

    /// How many spans the set holds.
    pub fn len(&self) -> (n: usize)
        ensures
            n == self.model().len(),
    {
        self.spans.len()
    }
}

/// Which spans survive a checker response, given the buffer length at
/// the time the response is read.  Walking the findings in order: one
/// whose range does not fit the buffer is dropped, one that starts
/// before the end of the previously kept finding is dropped, and each
/// kept finding becomes a span with the next ascending id.
pub open spec fn select_spans(
    fs: Seq<FindingModel>,
    buf_len: int,
    min_start: int,
    next_id: int,
) -> Seq<SpanModel>
    decreases fs.len(),
{
    if fs.len() == 0 {
        Seq::<SpanModel>::empty()
    } else {
        let f = fs[0];
        if f.offset + f.length <= buf_len && f.offset >= min_start {
            seq![
                SpanModel {
                    id: next_id,
                    start: f.offset,
                    end: f.offset + f.length,
                    message: f.message,
                    choices: f.choices,
                },
            ] + select_spans(fs.drop_first(), buf_len, f.offset + f.length, next_id + 1)
        } else {
            select_spans(fs.drop_first(), buf_len, min_start, next_id)
        }
    }
}

/// Copies the `value` strings out of a list of suggestions.
fn clone_suggestion_values(rs: &Vec<LTSuggestion>) -> (r: Vec<String>)
    ensures
        r@.map_values(|c: String| c@) == rs@.map_values(|g: LTSuggestion| g.value@),
{
    let mut r: Vec<String> = Vec::new();
    let mut i: usize = 0;
    while i < rs.len()
        invariant
            i <= rs@.len(),
            r@.len() == i,
            forall|t: int| 0 <= t < i ==> (#[trigger] r@[t])@ == rs@[t].value@,
        decreases rs@.len() - i,
    {
        let sug: &LTSuggestion = &rs[i];
        r.push(sug.value.clone());
        i = i + 1;
    }
    proof {
        assert(r@.map_values(|c: String| c@) =~= rs@.map_values(|g: LTSuggestion| g.value@));
    }
    r
}

/// Copies a list of strings.
fn clone_strings(rs: &Vec<String>) -> (r: Vec<String>)
    ensures
        r@.map_values(|c: String| c@) == rs@.map_values(|c: String| c@),
{
    let mut r: Vec<String> = Vec::new();
    let mut i: usize = 0;
    while i < rs.len()
        invariant
            i <= rs@.len(),
            r@.len() == i,
            forall|t: int| 0 <= t < i ==> (#[trigger] r@[t])@ == rs@[t]@,
        decreases rs@.len() - i,
    {
        let s: &String = &rs[i];
        r.push(s.clone());
        i = i + 1;
    }
    proof {
        assert(r@.map_values(|c: String| c@) =~= rs@.map_values(|c: String| c@));
    }
    r
}

/// Copies one span; the model is unchanged.
fn clone_span(s: &Span) -> (r: Span)
    ensures
        span_model(r) == span_model(*s),
{
    let r = Span {
        id: s.id,
        start: s.start,
        end: s.end,
        message: s.message.clone(),
        choices: clone_strings(&s.choices),
    };
    r
}

/// Builds the span list for a checker response: validates every raw
/// finding against the buffer length `buf_len`, resolves overlaps by
/// keeping the earlier finding, and numbers the kept spans upward from
/// zero.  The result is always well formed and valid for `buf_len`.
pub fn select_findings(ms: &Vec<LTMatch>, buf_len: usize) -> (out: Vec<Span>)
    ensures
        spans_model(out@) == select_spans(findings_model(ms@), buf_len as int, 0, 0),
        sorted_disjoint(spans_model(out@)),
        valid_for(spans_model(out@), buf_len as int),
{
    let ghost fm = findings_model(ms@);
    let mut out: Vec<Span> = Vec::new();
    let mut last_end: usize = 0;
    let mut i: usize = 0;
    proof {
        assert(fm.skip(0) =~= fm);
        assert(spans_model(out@) =~= Seq::<SpanModel>::empty());
    }
    while i < ms.len()
        invariant
            i <= ms@.len(),
            fm == findings_model(ms@),
            fm.len() == ms@.len(),
            spans_model(out@).len() == out@.len(),
            spans_model(out@) + select_spans(
                fm.skip(i as int),
                buf_len as int,
                last_end as int,
                out@.len() as int,
            ) == select_spans(fm, buf_len as int, 0, 0),
            sorted_disjoint(spans_model(out@)),
            valid_for(spans_model(out@), buf_len as int),
            forall|t: int| 0 <= t < out@.len() ==> (#[trigger] spans_model(out@)[t]).id == t,
            forall|t: int|
                0 <= t < out@.len() ==> (#[trigger] spans_model(out@)[t]).end <= last_end as int,
        decreases ms@.len() - i,
    {
        let m: &LTMatch = &ms[i];
        proof {
            assert(fm.skip(i as int)[0] == fm[i as int]);
            assert(fm[i as int] == finding_model(ms@[i as int]));
            assert(fm.skip(i as int).drop_first() =~= fm.skip(i + 1));
        }
        if m.length <= buf_len && m.offset <= buf_len - m.length && m.offset >= last_end {
            let ghost old_out = spans_model(out@);
            let sp = Span {
                id: out.len() as u64,
                start: m.offset,
                end: m.offset + m.length,
                message: m.message.clone(),
                choices: clone_suggestion_values(&m.replacements),
            };
            let ghost snew = span_model(sp);
            let new_last_end = m.offset + m.length;
            out.push(sp);
            proof {
                assert(snew == SpanModel {
                    id: old_out.len() as int,
                    start: fm[i as int].offset,
                    end: fm[i as int].offset + fm[i as int].length,
                    message: fm[i as int].message,
                    choices: fm[i as int].choices,
                });
                assert(spans_model(out@) =~= old_out.push(snew));
                assert(select_spans(
                    fm.skip(i as int),
                    buf_len as int,
                    last_end as int,
                    old_out.len() as int,
                ) == seq![snew] + select_spans(
                    fm.skip(i + 1),
                    buf_len as int,
                    new_last_end as int,
                    old_out.len() as int + 1,
                ));
                assert(old_out + (seq![snew] + select_spans(
                    fm.skip(i + 1),
                    buf_len as int,
                    new_last_end as int,
                    old_out.len() as int + 1,
                )) =~= old_out.push(snew) + select_spans(
                    fm.skip(i + 1),
                    buf_len as int,
                    new_last_end as int,
                    old_out.len() as int + 1,
                ));
                assert forall|t: int, u: int|
                    #![trigger spans_model(out@)[t], spans_model(out@)[u]]
                    0 <= t < u < spans_model(out@).len() implies spans_model(out@)[t].end
                    <= spans_model(out@)[u].start && spans_model(out@)[t].id < spans_model(
                    out@,
                )[u].id by {
                    if u < old_out.len() {
                        assert(spans_model(out@)[t] == old_out[t]);
                        assert(spans_model(out@)[u] == old_out[u]);
                    } else {
                        assert(spans_model(out@)[u] == snew);
                        assert(spans_model(out@)[t] == old_out[t]);
                        assert(old_out[t].end <= last_end as int);
                    }
                }
            }
            last_end = new_last_end;
        } else {
            proof {
                assert(select_spans(
                    fm.skip(i as int),
                    buf_len as int,
                    last_end as int,
                    out@.len() as int,
                ) == select_spans(
                    fm.skip(i + 1),
                    buf_len as int,
                    last_end as int,
                    out@.len() as int,
                ));
            }
        }
        i = i + 1;
    }
    proof {
        assert(fm.skip(ms@.len() as int) =~= Seq::<FindingModel>::empty());
        assert(select_spans(
            Seq::<FindingModel>::empty(),
            buf_len as int,
            last_end as int,
            out@.len() as int,
        ) =~= Seq::<SpanModel>::empty());
        assert(spans_model(out@) + Seq::<SpanModel>::empty() =~= spans_model(out@));
    }
    out
}

/// A span moved by `delta` characters; id, message and choices unchanged.
pub open spec fn shift_span(s: SpanModel, delta: int) -> SpanModel {
    SpanModel {
        id: s.id,
        start: s.start + delta,
        end: s.end + delta,
        message: s.message,
        choices: s.choices,
    }
}

/// How an edit that replaced the range `[edit_start, edit_end)` with
/// `inserted` characters re-anchors a span list: a span that starts at or
/// after the edited range is shifted by the edit's length delta, a span
/// entirely before the edit is untouched, and a span that intersects the
/// edited range is dropped — its offsets no longer describe the text the
/// user sees.
pub open spec fn retarget_spans(
    spans: Seq<SpanModel>,
    edit_start: int,
    edit_end: int,
    inserted: int,
) -> Seq<SpanModel>
    decreases spans.len(),
{
    if spans.len() == 0 {
        Seq::<SpanModel>::empty()
    } else {
        let s = spans[0];
        let rest = retarget_spans(spans.drop_first(), edit_start, edit_end, inserted);
        if s.start >= edit_end {
            seq![shift_span(s, inserted - (edit_end - edit_start))] + rest
        } else if s.end <= edit_start {
            seq![s] + rest
        } else {
            rest
        }
    }
}

/// How one surviving span of a retarget relates to the original it came from.
spec fn retarget_pick(y: SpanModel, x: SpanModel, edit_start: int, edit_end: int, inserted: int) -> bool {
    (x.start >= edit_end && y == shift_span(x, inserted - (edit_end - edit_start))) || (x.start
        < edit_end && x.end <= edit_start && y == x)
}

/// `y` is what retargeting made of one of the first `upto` original spans.
spec fn retarget_source(
    y: SpanModel,
    sm: Seq<SpanModel>,
    upto: int,
    edit_start: int,
    edit_end: int,
    inserted: int,
) -> bool {
    exists|j: int|
        0 <= j < upto && #[trigger] retarget_pick(y, sm[j], edit_start, edit_end, inserted)
}

/// Removing a span keeps a span list well formed and valid.
pub proof fn lemma_remove_sorted(sm: Seq<SpanModel>, k: int, len: int)
    requires
        sorted_disjoint(sm),
        valid_for(sm, len),
        0 <= k < sm.len(),
    ensures
        sorted_disjoint(sm.remove(k)),
        valid_for(sm.remove(k), len),
{
    let r = sm.remove(k);
    assert forall|i: int| 0 <= i < r.len() implies (#[trigger] r[i]).start <= r[i].end && 0
        <= r[i].start && r[i].end <= len by {
        if i < k {
            assert(r[i] == sm[i]);
        } else {
            assert(r[i] == sm[i + 1]);
        }
    }
    assert forall|i: int, j: int|
        #![trigger r[i], r[j]]
        0 <= i < j < r.len() implies r[i].end <= r[j].start && r[i].id < r[j].id by {
        let i0: int = if i < k { i } else { i + 1 };
        let j0: int = if j < k { j } else { j + 1 };
        assert(r[i] == sm[i0]);
        assert(r[j] == sm[j0]);
        assert(0 <= i0 < j0 < sm.len());
    }
}

/// Copies a span list leaving out the span at index `k`.
pub fn remove_index(spans: &Vec<Span>, k: usize) -> (r: Vec<Span>)
    requires
        k < spans@.len(),
    ensures
        spans_model(r@) == spans_model(spans@).remove(k as int),
{
    let ghost sm = spans_model(spans@);
    let mut r: Vec<Span> = Vec::new();
    let mut i: usize = 0;
    while i < spans.len()
        invariant
            i <= spans@.len(),
            k < spans@.len(),
            sm == spans_model(spans@),
            sm.len() == spans@.len(),
            r@.len() == if i <= k { i as int } else { i - 1 },
            forall|t: int|
                0 <= t < r@.len() ==> span_model(#[trigger] r@[t]) == (if t < k {
                    sm[t]
                } else {
                    sm[t + 1]
                }),
        decreases spans@.len() - i,
    {
        if i != k {
            r.push(clone_span(&spans[i]));
        }
        i = i + 1;
    }
    proof {
        assert(spans_model(r@) =~= sm.remove(k as int));
    }
    r
}

/// Re-anchors a span list after an edit of the buffer: the range
/// `[edit_start, edit_end)` of a buffer of length `old_len` was replaced
/// by `inserted` characters, leaving a buffer of length `new_len`.  Spans
/// before the edit are kept, spans at or after it are shifted by the
/// length delta, spans that intersect it are dropped.  The result is well
/// formed and valid for the new buffer length.
pub fn retarget_vec(
    spans: &Vec<Span>,
    edit_start: usize,
    edit_end: usize,
    inserted: usize,
    old_len: usize,
    new_len: usize,
) -> (out: Vec<Span>)
    requires
        sorted_disjoint(spans_model(spans@)),
        valid_for(spans_model(spans@), old_len as int),
        edit_start <= edit_end <= old_len,
        new_len as int == old_len - (edit_end - edit_start) + inserted,
    ensures
        spans_model(out@) == retarget_spans(
            spans_model(spans@),
            edit_start as int,
            edit_end as int,
            inserted as int,
        ),
        sorted_disjoint(spans_model(out@)),
        valid_for(spans_model(out@), new_len as int),
{
    let ghost sm = spans_model(spans@);
    let ghost delta = inserted as int - (edit_end as int - edit_start as int);
    let removed = edit_end - edit_start;
    let mut out: Vec<Span> = Vec::new();
    let mut i: usize = 0;
    proof {
        assert(sm.skip(0) =~= sm);
        assert(spans_model(out@) =~= Seq::<SpanModel>::empty());
    }
    while i < spans.len()
        invariant
            i <= spans@.len(),
            sm == spans_model(spans@),
            sm.len() == spans@.len(),
            sorted_disjoint(sm),
            valid_for(sm, old_len as int),
            edit_start <= edit_end <= old_len,
            removed == edit_end - edit_start,
            new_len as int == old_len - (edit_end - edit_start) + inserted,
            delta == inserted as int - (edit_end as int - edit_start as int),
            spans_model(out@).len() == out@.len(),
            spans_model(out@) + retarget_spans(
                sm.skip(i as int),
                edit_start as int,
                edit_end as int,
                inserted as int,
            ) == retarget_spans(sm, edit_start as int, edit_end as int, inserted as int),
            sorted_disjoint(spans_model(out@)),
            valid_for(spans_model(out@), new_len as int),
            forall|t: int|
                0 <= t < out@.len() ==> retarget_source(
                    #[trigger] spans_model(out@)[t],
                    sm,
                    i as int,
                    edit_start as int,
                    edit_end as int,
                    inserted as int,
                ),
        decreases spans@.len() - i,
    {
        let s: &Span = &spans[i];
        proof {
            assert(sm.skip(i as int)[0] == sm[i as int]);
            assert(sm[i as int] == span_model(spans@[i as int]));
            assert(sm.skip(i as int).drop_first() =~= sm.skip(i + 1));
        }
        let ghost old_out = spans_model(out@);
        if s.start >= edit_end {
            proof {
                assert(sm[i as int].start <= sm[i as int].end <= old_len as int);
            }
            let ns = s.start - removed + inserted;
            let ne = s.end - removed + inserted;
            let sp = Span {
                id: s.id,
                start: ns,
                end: ne,
                message: s.message.clone(),
                choices: clone_strings(&s.choices),
            };
            let ghost snew = span_model(sp);
            out.push(sp);
            proof {
                assert(snew == shift_span(sm[i as int], delta));
                assert(retarget_pick(
                    snew,
                    sm[i as int],
                    edit_start as int,
                    edit_end as int,
                    inserted as int,
                ));
                assert(spans_model(out@) =~= old_out.push(snew));
                let rest = retarget_spans(
                    sm.skip(i + 1),
                    edit_start as int,
                    edit_end as int,
                    inserted as int,
                );
                assert(retarget_spans(
                    sm.skip(i as int),
                    edit_start as int,
                    edit_end as int,
                    inserted as int,
                ) == seq![snew] + rest);
                assert(old_out + (seq![snew] + rest) =~= old_out.push(snew) + rest);
                assert forall|t: int, u: int|
                    #![trigger spans_model(out@)[t], spans_model(out@)[u]]
                    0 <= t < u < spans_model(out@).len() implies spans_model(out@)[t].end
                    <= spans_model(out@)[u].start && spans_model(out@)[t].id < spans_model(
                    out@,
                )[u].id by {
                    if u < old_out.len() {
                        assert(spans_model(out@)[t] == old_out[t]);
                        assert(spans_model(out@)[u] == old_out[u]);
                    } else {
                        assert(spans_model(out@)[u] == snew);
                        assert(spans_model(out@)[t] == old_out[t]);
                        let j = choose|j: int|
                            0 <= j < i as int && #[trigger] retarget_pick(
                                old_out[t],
                                sm[j],
                                edit_start as int,
                                edit_end as int,
                                inserted as int,
                            );
                        assert(sm[j].end <= sm[i as int].start && sm[j].id < sm[i as int].id);
                    }
                }
            }
        } else if s.end <= edit_start {
            let sp = clone_span(s);
            let ghost snew = span_model(sp);
            out.push(sp);
            proof {
                assert(snew == sm[i as int]);
                assert(retarget_pick(
                    snew,
                    sm[i as int],
                    edit_start as int,
                    edit_end as int,
                    inserted as int,
                ));
                assert(spans_model(out@) =~= old_out.push(snew));
                let rest = retarget_spans(
                    sm.skip(i + 1),
                    edit_start as int,
                    edit_end as int,
                    inserted as int,
                );
                assert(retarget_spans(
                    sm.skip(i as int),
                    edit_start as int,
                    edit_end as int,
                    inserted as int,
                ) == seq![snew] + rest);
                assert(old_out + (seq![snew] + rest) =~= old_out.push(snew) + rest);
                assert(snew.end <= edit_start as int <= new_len as int);
                assert forall|t: int, u: int|
                    #![trigger spans_model(out@)[t], spans_model(out@)[u]]
                    0 <= t < u < spans_model(out@).len() implies spans_model(out@)[t].end
                    <= spans_model(out@)[u].start && spans_model(out@)[t].id < spans_model(
                    out@,
                )[u].id by {
                    if u < old_out.len() {
                        assert(spans_model(out@)[t] == old_out[t]);
                        assert(spans_model(out@)[u] == old_out[u]);
                    } else {
                        assert(spans_model(out@)[u] == snew);
                        assert(spans_model(out@)[t] == old_out[t]);
                        let j = choose|j: int|
                            0 <= j < i as int && #[trigger] retarget_pick(
                                old_out[t],
                                sm[j],
                                edit_start as int,
                                edit_end as int,
                                inserted as int,
                            );
                        assert(sm[j].end <= sm[i as int].start && sm[j].id < sm[i as int].id);
                        if sm[j].start >= edit_end as int {
                            assert(sm[j].end >= edit_end as int);
                            assert(sm[i as int].start < edit_end as int);
                            assert(false);
                        }
                    }
                }
            }
        } else {
            proof {
                assert(retarget_spans(
                    sm.skip(i as int),
                    edit_start as int,
                    edit_end as int,
                    inserted as int,
                ) == retarget_spans(
                    sm.skip(i + 1),
                    edit_start as int,
                    edit_end as int,
                    inserted as int,
                ));
            }
        }
        i = i + 1;
    }
    proof {
        assert(sm.skip(spans@.len() as int) =~= Seq::<SpanModel>::empty());
        assert(retarget_spans(
            Seq::<SpanModel>::empty(),
            edit_start as int,
            edit_end as int,
            inserted as int,
        ) =~= Seq::<SpanModel>::empty());
        assert(spans_model(out@) + Seq::<SpanModel>::empty() =~= spans_model(out@));
    }
    out
}

} // verus!
