//! Stateless projection of a buffer and its annotation set into lines of
//! styled runs, ready for a presentation layer to draw.

use vstd::prelude::*;
use crate::annotations::{AnnotationSet, SpanModel, sorted_disjoint};
use crate::buffer::TextBuffer;

verus! {

/// A maximal stretch of characters within one line sharing one highlight
/// status.  A highlighted run carries the id of the covering span, so
/// that accepting a suggestion from any of its runs resolves to the same
/// finding; an unhighlighted run carries no id.
#[derive(Debug, PartialEq, Eq)]
pub struct Run {
    pub text: Vec<char>,
    pub is_highlighted: bool,
    pub span_id: Option<u64>,
}

/// One rendered line: its runs in order.  Line terminators count toward
/// buffer offsets but appear in no run's text.
#[derive(Debug, PartialEq, Eq)]
pub struct Line {
    pub runs: Vec<Run>,
}

/// Mathematical image of a run: its text, and the covering span's id if
/// the run is highlighted.
pub ghost struct RunModel {
    pub text: Seq<char>,
    pub ann: Option<int>,
}

/// The id carried by a run, at model level.
pub open spec fn opt_id_model(a: Option<u64>) -> Option<int> {
    match a {
        Some(x) => Some(x as int),
        None => None,
    }
}

/// The model of one run.
pub open spec fn run_model(r: Run) -> RunModel {
    RunModel { text: r.text@, ann: opt_id_model(r.span_id) }
}

/// The model of one line.
pub open spec fn line_model(l: Line) -> Seq<RunModel> {
    l.runs@.map_values(|r: Run| run_model(r))
}

/// The model of a whole layout result.
pub open spec fn lines_model(v: Seq<Line>) -> Seq<Seq<RunModel>> {
    v.map_values(|l: Line| line_model(l))
}

/// The id of the span covering character offset `i`, if any.  A span
/// covers the offsets of its half-open range, so a zero-length span
/// covers nothing.
pub open spec fn ann_at(spans: Seq<SpanModel>, i: int) -> Option<int>
    decreases spans.len(),
{
    if spans.len() == 0 {
        None
    } else if spans[0].start <= i < spans[0].end {
        Some(spans[0].id)
    } else {
        ann_at(spans.drop_first(), i)
    }
}

/// One character of the buffer together with the span covering it.
pub ghost struct AnnChar {
    pub ch: char,
    pub ann: Option<int>,
}

/// The character at offset `i`, with the span covering it.
pub open spec fn ann_char(content: Seq<char>, spans: Seq<SpanModel>, i: int) -> AnnChar {
    AnnChar { ch: content[i], ann: ann_at(spans, i) }
}

/// The whole buffer, character by character, each with its covering span.
pub open spec fn annotated(content: Seq<char>, spans: Seq<SpanModel>) -> Seq<AnnChar> {
    Seq::new(content.len(), |i: int| ann_char(content, spans, i))
}

/// The annotated sequence is as long as the text.
proof fn lemma_annotated_len(content: Seq<char>, spans: Seq<SpanModel>)
    ensures
        annotated(content, spans).len() == content.len(),
{
}

/// The annotated sequence, read at one offset.
proof fn lemma_annotated_index(content: Seq<char>, spans: Seq<SpanModel>, i: int)
    requires
        0 <= i < content.len(),
    ensures
        annotated(content, spans).len() == content.len(),
        annotated(content, spans)[i] == ann_char(content, spans, i),
{
}

/// A run holding one character.
pub open spec fn single_run(c: AnnChar) -> RunModel {
    RunModel { text: seq![c.ch], ann: c.ann }
}

/// A run grown by one more character of the same covering span.
pub open spec fn extended_run(r: RunModel, c: AnnChar) -> RunModel {
    RunModel { text: r.text.push(c.ch), ann: c.ann }
}

/// What layout produces, built up character by character from the left:
/// a line feed opens a new empty line; any other character joins the
/// last run of the last line when that run has the same covering span,
/// and otherwise starts a new run.
pub open spec fn layout_model(s: Seq<AnnChar>) -> Seq<Seq<RunModel>>
    decreases s.len(),
{
    if s.len() == 0 {
        seq![Seq::<RunModel>::empty()]
    } else {
        let prev = layout_model(s.drop_last());
        let c = s.last();
        if c.ch == '\n' {
            prev.push(Seq::<RunModel>::empty())
        } else {
            let lastline = prev.last();
            let upd = if lastline.len() > 0 && lastline.last().ann == c.ann {
                lastline.update(lastline.len() - 1, extended_run(lastline.last(), c))
            } else {
                lastline.push(single_run(c))
            };
            prev.update(prev.len() - 1, upd)
        }
    }
}

/// The full model of a layout pass.
pub open spec fn layout_spec(content: Seq<char>, spans: Seq<SpanModel>) -> Seq<Seq<RunModel>> {
    layout_model(annotated(content, spans))
}

/// Law: layout is a pure function of the buffer and the annotation set —
/// two passes over the same unchanged views produce identical lines.
pub proof fn lemma_layout_idempotent(
    a: &Vec<Line>,
    b: &Vec<Line>,
    content: Seq<char>,
    spans: Seq<SpanModel>,
)
    requires
        lines_model(a@) == layout_spec(content, spans),
        lines_model(b@) == layout_spec(content, spans),
    ensures
        lines_model(a@) == lines_model(b@),
{
}

/// The text of one rendered line: its runs' texts concatenated.
pub open spec fn line_text(runs: Seq<RunModel>) -> Seq<char>
    decreases runs.len(),
{
    if runs.len() == 0 {
        Seq::<char>::empty()
    } else {
        line_text(runs.drop_last()) + runs.last().text
    }
}

/// The text of a whole layout: the lines' texts joined by line feeds.
pub open spec fn lines_text(lines: Seq<Seq<RunModel>>) -> Seq<char>
    decreases lines.len(),
{
    if lines.len() == 0 {
        Seq::<char>::empty()
    } else if lines.len() == 1 {
        line_text(lines[0])
    } else {
        lines_text(lines.drop_last()) + seq!['\n'] + line_text(lines.last())
    }
}

/// The character of an annotated character.
pub open spec fn char_of(s: Seq<AnnChar>, i: int) -> char {
    s[i].ch
}

/// The bare characters of an annotated text.
pub open spec fn chars_of(s: Seq<AnnChar>) -> Seq<char> {
    Seq::new(s.len(), |i: int| char_of(s, i))
}

/// `chars_of`, read at one offset.
proof fn lemma_chars_of_index(s: Seq<AnnChar>, i: int)
    requires
        0 <= i < s.len(),
    ensures
        chars_of(s).len() == s.len(),
        chars_of(s)[i] == s[i].ch,
{
}

/// `chars_of` distributes over push.
proof fn lemma_chars_of_push(s: Seq<AnnChar>, c: AnnChar)
    ensures
        chars_of(s.push(c)) == chars_of(s).push(c.ch),
{
    assert(chars_of(s.push(c)).len() == s.len() + 1);
    assert forall|i: int| 0 <= i < s.len() + 1 implies chars_of(s.push(c))[i] == chars_of(s).push(
        c.ch,
    )[i] by {
        lemma_chars_of_index(s.push(c), i);
        if i < s.len() {
            lemma_chars_of_index(s, i);
        }
    }
    assert(chars_of(s.push(c)) =~= chars_of(s).push(c.ch));
}

/// Replacing the last run changes only the tail of the line's text.
proof fn lemma_line_text_update_last(runs: Seq<RunModel>, r: RunModel)
    requires
        runs.len() > 0,
    ensures
        line_text(runs.update(runs.len() - 1, r)) == line_text(runs.drop_last()) + r.text,
{
    let u = runs.update(runs.len() - 1, r);
    assert(u.drop_last() =~= runs.drop_last());
    assert(u.last() == r);
}

/// Law: layout loses no text — concatenating each line's runs, with one
/// line feed between lines, gives back exactly the annotated text; line
/// terminators appear in no run.
pub proof fn lemma_layout_reconstructs(s: Seq<AnnChar>)
    ensures
        layout_model(s).len() >= 1,
        lines_text(layout_model(s)) == chars_of(s),
    decreases s.len(),
{
    if s.len() == 0 {
        assert(chars_of(s) =~= Seq::<char>::empty());
        assert(layout_model(s) == seq![Seq::<RunModel>::empty()]);
        assert(lines_text(layout_model(s)) == line_text(Seq::<RunModel>::empty()));
    } else {
        let s0 = s.drop_last();
        let c = s.last();
        lemma_layout_reconstructs(s0);
        lemma_chars_of_push(s0, c);
        assert(s0.push(c) =~= s);
        assert(chars_of(s) == chars_of(s0).push(c.ch));
        let prev = layout_model(s0);
        if c.ch == '\n' {
            let grown = prev.push(Seq::<RunModel>::empty());
            assert(layout_model(s) == grown);
            assert(grown.drop_last() =~= prev);
            assert(grown.len() >= 2);
            assert(lines_text(grown) == lines_text(prev) + seq!['\n'] + line_text(
                Seq::<RunModel>::empty(),
            ));
            assert(lines_text(grown) =~= chars_of(s0).push('\n'));
        } else {
            let lastline = prev.last();
            let upd = if lastline.len() > 0 && lastline.last().ann == c.ann {
                lastline.update(lastline.len() - 1, extended_run(lastline.last(), c))
            } else {
                lastline.push(single_run(c))
            };
            assert(layout_model(s) == prev.update(prev.len() - 1, upd));
            if lastline.len() > 0 && lastline.last().ann == c.ann {
                lemma_line_text_update_last(lastline, extended_run(lastline.last(), c));
                assert(line_text(lastline) == line_text(lastline.drop_last())
                    + lastline.last().text);
                assert(line_text(lastline.drop_last()) + lastline.last().text.push(c.ch)
                    =~= line_text(lastline).push(c.ch));
                assert(line_text(upd) == line_text(lastline).push(c.ch));
            } else {
                assert(upd.drop_last() =~= lastline);
                assert(upd.last() == single_run(c));
                assert(line_text(upd) == line_text(lastline) + seq![c.ch]);
                assert(line_text(lastline) + seq![c.ch] =~= line_text(lastline).push(c.ch));
            }
            let lines = prev.update(prev.len() - 1, upd);
            if prev.len() == 1 {
                assert(lines.len() == 1);
                assert(lines[0] == upd);
                assert(lines_text(lines) == line_text(upd));
                assert(prev[0] == lastline);
                assert(lines_text(prev) == line_text(lastline));
                assert(lines_text(lines) =~= chars_of(s0).push(c.ch));
            } else {
                assert(lines.len() == prev.len() >= 2);
                assert(lines.drop_last() =~= prev.drop_last());
                assert(lines.last() == upd);
                assert(lines_text(lines) == lines_text(prev.drop_last()) + seq!['\n']
                    + line_text(upd));
                assert(lines_text(prev) == lines_text(prev.drop_last()) + seq!['\n'] + line_text(
                    lastline,
                ));
                assert(lines_text(prev.drop_last()) + seq!['\n'] + line_text(lastline).push(c.ch)
                    =~= (lines_text(prev.drop_last()) + seq!['\n'] + line_text(lastline)).push(
                    c.ch,
                ));
                assert(lines_text(lines) =~= chars_of(s0).push(c.ch));
            }
        }
    }
}

/// Law: a layout pass loses no text — concatenating each line's runs,
/// with one line feed between lines, spells the buffer exactly, so line
/// terminators stand in no run and every other character in exactly one.
pub proof fn lemma_layout_text(lines: &Vec<Line>, content: Seq<char>, spans: Seq<SpanModel>)
    requires
        lines_model(lines@) == layout_spec(content, spans),
    ensures
        lines_model(lines@).len() >= 1,
        lines_text(lines_model(lines@)) == content,
{
    let s = annotated(content, spans);
    lemma_layout_reconstructs(s);
    lemma_annotated_len(content, spans);
    assert forall|i: int| 0 <= i < content.len() implies chars_of(s)[i] == content[i] by {
        lemma_chars_of_index(s, i);
        lemma_annotated_index(content, spans, i);
    }
    assert(chars_of(s) =~= content);
}

/// Removing a zero-length span changes no character's covering span.
proof fn lemma_ann_at_remove_zero(spans: Seq<SpanModel>, k: int, i: int)
    requires
        0 <= k < spans.len(),
        spans[k].start == spans[k].end,
    ensures
        ann_at(spans.remove(k), i) == ann_at(spans, i),
    decreases spans.len(),
{
    if k == 0 {
        assert(!(spans[0].start <= i < spans[0].end));
        assert(spans.remove(0) =~= spans.drop_first());
    } else {
        assert(spans.remove(k)[0] == spans[0]);
        if spans[0].start <= i < spans[0].end {
            assert(spans.remove(k).len() > 0);
        } else {
            assert(spans.drop_first()[k - 1] == spans[k]);
            assert(spans.remove(k).drop_first() =~= spans.drop_first().remove(k - 1));
            lemma_ann_at_remove_zero(spans.drop_first(), k - 1, i);
        }
    }
}

/// Law: a zero-length span is invisible — removing it from the span list
/// changes nothing in the rendered lines.
pub proof fn lemma_zero_length_span_invisible(content: Seq<char>, spans: Seq<SpanModel>, k: int)
    requires
        0 <= k < spans.len(),
        spans[k].start == spans[k].end,
    ensures
        layout_spec(content, spans) == layout_spec(content, spans.remove(k)),
{
    lemma_annotated_len(content, spans);
    lemma_annotated_len(content, spans.remove(k));
    assert forall|i: int| 0 <= i < content.len() implies annotated(content, spans)[i] == annotated(
        content,
        spans.remove(k),
    )[i] by {
        lemma_annotated_index(content, spans, i);
        lemma_annotated_index(content, spans.remove(k), i);
        lemma_ann_at_remove_zero(spans, k, i);
    }
    assert(annotated(content, spans) =~= annotated(content, spans.remove(k)));
}

/// Dropping the first span keeps a span list well formed.
proof fn lemma_sorted_drop_first(spans: Seq<SpanModel>)
    requires
        sorted_disjoint(spans),
        spans.len() > 0,
    ensures
        sorted_disjoint(spans.drop_first()),
{
    let r = spans.drop_first();
    assert forall|i: int| 0 <= i < r.len() implies (#[trigger] r[i]).start <= r[i].end by {
        assert(r[i] == spans[i + 1]);
    }
    assert forall|i: int, j: int|
        #![trigger r[i], r[j]]
        0 <= i < j < r.len() implies r[i].end <= r[j].start && r[i].id < r[j].id by {
        assert(r[i] == spans[i + 1]);
        assert(r[j] == spans[j + 1]);
    }
}

/// No span of a well-formed list covers an offset left of the first span.
proof fn lemma_ann_at_none(spans: Seq<SpanModel>, i: int)
    requires
        sorted_disjoint(spans),
        spans.len() > 0 ==> i < spans[0].start,
    ensures
        ann_at(spans, i) is None,
    decreases spans.len(),
{
    if spans.len() > 0 {
        assert(!(spans[0].start <= i < spans[0].end));
        lemma_sorted_drop_first(spans);
        if spans.len() > 1 {
            assert(spans.drop_first()[0] == spans[1]);
            assert(spans[0].end <= spans[1].start);
        }
        lemma_ann_at_none(spans.drop_first(), i);
    }
}

/// With every span before the cursor ended at or before `i`, and the
/// cursor span (if any) not yet ended, the covering span at `i` is the
/// cursor span exactly when that one has started.
proof fn lemma_ann_at_cursor(spans: Seq<SpanModel>, i: int, cur: int)
    requires
        sorted_disjoint(spans),
        0 <= cur <= spans.len(),
        forall|t: int| 0 <= t < cur ==> (#[trigger] spans[t]).end <= i,
        cur < spans.len() ==> i < spans[cur].end,
    ensures
        ann_at(spans, i) == (if cur < spans.len() && spans[cur].start <= i {
            Some(spans[cur].id)
        } else {
            Option::<int>::None
        }),
    decreases cur,
{
    if cur == 0 {
        if spans.len() == 0 {
        } else if spans[0].start <= i {
        } else {
            lemma_ann_at_none(spans, i);
        }
    } else {
        assert(spans[0].end <= i);
        assert(!(spans[0].start <= i < spans[0].end));
        lemma_sorted_drop_first(spans);
        let r = spans.drop_first();
        assert forall|t: int| 0 <= t < cur - 1 implies (#[trigger] r[t]).end <= i by {
            assert(r[t] == spans[t + 1]);
        }
        if cur - 1 < r.len() {
            assert(r[cur - 1] == spans[cur]);
        }
        lemma_ann_at_cursor(r, i, cur - 1);
    }
}

/// The model of the line being built: the closed runs, plus the pending
/// run when it is nonempty.
spec fn partial_line(cur_runs: Seq<Run>, cur_text: Seq<char>, cur_ann: Option<u64>) -> Seq<
    RunModel,
> {
    let closed = cur_runs.map_values(|r: Run| run_model(r));
    if cur_text.len() == 0 {
        closed
    } else {
        closed.push(RunModel { text: cur_text, ann: opt_id_model(cur_ann) })
    }
}

/// Stateless renderer: one layout pass borrows the buffer and the set
/// read-only and owns nothing across frames.
pub struct LineRenderer {}

impl LineRenderer {
    /// Projects the buffer and its annotation set into lines of runs in
    /// one forward pass.  Lines break on line feeds, which appear in no
    /// run; consecutive characters with the same covering span coalesce
    /// into one run; a span straddling a line break contributes one run
    /// to each side, both under its id; a zero-length span contributes
    /// nothing.  The result is exactly `layout_spec` of the two views,
    /// so a second pass over unchanged views gives identical output.
    pub fn layout(buffer: &TextBuffer, set: &AnnotationSet) -> (lines: Vec<Line>)
        requires
            sorted_disjoint(set.model()),
        ensures
            lines_model(lines@) == layout_spec(buffer@, set.model()),
            forall|li: int, ri: int|
                0 <= li < lines@.len() && 0 <= ri < lines@[li].runs@.len() ==> ((
                #[trigger] lines@[li].runs@[ri]).is_highlighted == (lines@[li].runs@[ri].span_id
                    is Some)),
    {
        let ghost spans = set.model();
        let ghost full = annotated(buffer@, spans);
        let n = buffer.length();
        let mut done: Vec<Line> = Vec::new();
        let mut cur_runs: Vec<Run> = Vec::new();
        let mut cur_text: Vec<char> = Vec::new();
        let mut cur_ann: Option<u64> = None;
        let mut cur: usize = 0;
        let mut i: usize = 0;
        proof {
            lemma_annotated_len(buffer@, spans);
            assert(full.take(0) =~= Seq::<AnnChar>::empty());
            assert(lines_model(done@) =~= Seq::<Seq<RunModel>>::empty());
            assert(partial_line(cur_runs@, cur_text@, cur_ann) =~= Seq::<RunModel>::empty());
        }
        while i < n
            invariant
                i <= n,
                n == buffer@.len(),
                spans == set.model(),
                sorted_disjoint(spans),
                spans.len() == set.spans@.len(),
                full == annotated(buffer@, spans),
                full.len() == n,
                cur <= spans.len(),
                forall|t: int| 0 <= t < cur ==> (#[trigger] spans[t]).end <= i,
                layout_model(full.take(i as int)) == lines_model(done@).push(
                    partial_line(cur_runs@, cur_text@, cur_ann),
                ),
                cur_text@.len() == 0 ==> cur_runs@.len() == 0,
                forall|t: int|
                    0 <= t < cur_runs@.len() ==> ((#[trigger] cur_runs@[t]).is_highlighted == (
                    cur_runs@[t].span_id is Some)),
                forall|li: int, ri: int|
                    0 <= li < done@.len() && 0 <= ri < done@[li].runs@.len() ==> ((
                    #[trigger] done@[li].runs@[ri]).is_highlighted == (done@[li].runs@[ri].span_id
                        is Some)),
            decreases n - i,
        {
            let c = buffer.char_at(i);
            while cur < set.spans.len() && set.spans[cur].end <= i
                invariant
                    i < n,
                    spans == set.model(),
                    spans.len() == set.spans@.len(),
                    cur <= spans.len(),
                    forall|t: int| 0 <= t < cur ==> (#[trigger] spans[t]).end <= i,
                decreases spans.len() - cur,
            {
                proof {
                    assert(spans[cur as int].end == set.spans@[cur as int].end as int);
                }
                cur = cur + 1;
            }
            let a: Option<u64> = if cur < set.spans.len() && set.spans[cur].start <= i {
                Some(set.spans[cur].id)
            } else {
                None
            };
            proof {
                if cur < spans.len() {
                    assert(spans[cur as int].end == set.spans@[cur as int].end as int);
                    assert(spans[cur as int].start == set.spans@[cur as int].start as int);
                    assert(spans[cur as int].id == set.spans@[cur as int].id as int);
                }
                lemma_ann_at_cursor(spans, i as int, cur as int);
                assert(opt_id_model(a) == ann_at(spans, i as int));
            }
            let ghost pre = full.take(i as int);
            let ghost post = full.take(i + 1);
            let ghost dm = lines_model(done@);
            let ghost pl = partial_line(cur_runs@, cur_text@, cur_ann);
            proof {
                assert(post.drop_last() =~= pre);
                assert(post.last() == full[i as int]);
                lemma_annotated_index(buffer@, spans, i as int);
                assert(full[i as int] == ann_char(buffer@, spans, i as int));
                assert(full[i as int].ch == buffer@[i as int]);
                assert(full[i as int].ann == ann_at(spans, i as int));
            }
            if c == '\n' {
                if cur_text.len() > 0 {
                    let pending_text = cur_text;
                    cur_text = Vec::new();
                    cur_runs.push(
                        Run {
                            text: pending_text,
                            is_highlighted: cur_ann.is_some(),
                            span_id: cur_ann,
                        },
                    );
                }
                let closed_runs = cur_runs;
                cur_runs = Vec::new();
                cur_ann = None;
                done.push(Line { runs: closed_runs });
                proof {
                    assert(line_model(done@.last()) =~= pl);
                    assert(lines_model(done@) =~= dm.push(pl));
                    assert(layout_model(post) == layout_model(pre).push(
                        Seq::<RunModel>::empty(),
                    ));
                    assert(partial_line(cur_runs@, cur_text@, cur_ann) =~= Seq::<
                        RunModel,
                    >::empty());
                    assert(layout_model(post) =~= lines_model(done@).push(
                        partial_line(cur_runs@, cur_text@, cur_ann),
                    ));
                }
            } else {
                let same = match (cur_ann, a) {
                    (Option::None, Option::None) => true,
                    (Option::Some(x), Option::Some(y)) => x == y,
                    _ => false,
                };
                if cur_text.len() == 0 {
                    proof {
                        assert(cur_runs@.map_values(|r: Run| run_model(r)) =~= Seq::<
                            RunModel,
                        >::empty());
                        assert(pl =~= Seq::<RunModel>::empty());
                        assert(cur_text@ =~= Seq::<char>::empty());
                    }
                    cur_text.push(c);
                    cur_ann = a;
                    proof {
                        assert(cur_text@ =~= seq![c]);
                        let upd = pl.push(
                            RunModel { text: seq![c], ann: opt_id_model(a) },
                        );
                        assert(layout_model(pre).last() == pl);
                        assert(layout_model(post) == layout_model(pre).update(
                            layout_model(pre).len() - 1,
                            upd,
                        ));
                        assert(layout_model(pre).update(layout_model(pre).len() - 1, upd)
                            =~= dm.push(upd));
                        assert(partial_line(cur_runs@, cur_text@, cur_ann) =~= upd);
                    }
                } else if same {
                    let ghost old_text = cur_text@;
                    cur_text.push(c);
                    proof {
                        assert(opt_id_model(cur_ann) == opt_id_model(a));
                        let lastline = layout_model(pre).last();
                        assert(lastline == pl);
                        assert(pl.len() > 0);
                        assert(pl.last() == RunModel {
                            text: old_text,
                            ann: opt_id_model(cur_ann),
                        });
                        let upd = lastline.update(
                            lastline.len() - 1,
                            RunModel { text: old_text.push(c), ann: opt_id_model(a) },
                        );
                        assert(layout_model(post) == layout_model(pre).update(
                            layout_model(pre).len() - 1,
                            upd,
                        ));
                        assert(layout_model(pre).update(layout_model(pre).len() - 1, upd)
                            =~= dm.push(upd));
                        assert(upd =~= cur_runs@.map_values(|r: Run| run_model(r)).push(
                            RunModel { text: old_text.push(c), ann: opt_id_model(cur_ann) },
                        ));
                        assert(partial_line(cur_runs@, cur_text@, cur_ann) =~= upd);
                    }
                } else {
                    let pending_text = cur_text;
                    cur_text = Vec::new();
                    let ghost old_runs = cur_runs@;
                    cur_runs.push(
                        Run {
                            text: pending_text,
                            is_highlighted: cur_ann.is_some(),
                            span_id: cur_ann,
                        },
                    );
                    cur_text.push(c);
                    cur_ann = a;
                    proof {
                        let lastline = layout_model(pre).last();
                        assert(lastline == pl);
                        assert(pl.len() > 0);
                        let upd = lastline.push(
                            RunModel { text: seq![c], ann: opt_id_model(a) },
                        );
                        assert(layout_model(post) == layout_model(pre).update(
                            layout_model(pre).len() - 1,
                            upd,
                        ));
                        assert(layout_model(pre).update(layout_model(pre).len() - 1, upd)
                            =~= dm.push(upd));
                        assert(cur_runs@.map_values(|r: Run| run_model(r)) =~= pl);
                        assert(partial_line(cur_runs@, cur_text@, cur_ann) =~= upd);
                    }
                }
            }
            i = i + 1;
        }
        let ghost dm = lines_model(done@);
        let ghost old_pl = partial_line(cur_runs@, cur_text@, cur_ann);
        if cur_text.len() > 0 {
            let pending_text = cur_text;
            cur_text = Vec::new();
            cur_runs.push(
                Run { text: pending_text, is_highlighted: cur_ann.is_some(), span_id: cur_ann },
            );
        }
        proof {
            assert(partial_line(cur_runs@, cur_text@, cur_ann) =~= old_pl);
        }
        let closed_runs = cur_runs;
        done.push(Line { runs: closed_runs });
        proof {
            assert(full.take(n as int) =~= full);
            assert(line_model(done@.last()) =~= old_pl);
            assert(lines_model(done@) =~= dm.push(old_pl));
            assert(lines_model(done@) == layout_spec(buffer@, set.model()));
        }
        done
    }
}

} // verus!
