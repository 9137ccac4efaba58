//! The orchestrator: owns the buffer and the current annotation set,
//! drives check rounds, applies accepted replacements, and keeps stale
//! offsets from ever reaching the buffer.

use vstd::prelude::*;
use crate::annotations::{
    AnnotationSet, Span, SpanModel, lemma_remove_sorted, remove_index, retarget_spans,
    retarget_vec, select_findings, select_spans, sorted_disjoint, spans_model, valid_for,
};
use crate::buffer::{RangeError, TextBuffer, range_ok, string_chars};
use crate::findings::{LTResponse, findings_model};

verus! {

/// The note of an outstanding check round: which request it is, and the
/// buffer revision the submitted text was taken from.
#[derive(Clone, Copy)]
pub struct PendingCheck {
    pub request: u64,
    pub revision: u64,
}

/// Why an `apply` call was ignored.
#[derive(Debug, PartialEq, Eq)]
pub enum ApplyError {
    /// No span with the given id is in the current set; it was consumed,
    /// discarded by an edit, or belongs to an older generation.
    NotFound,
    /// The span exists but has no replacement with the given index.
    ChoiceOutOfRange,
}

/// One engine per open note.  It owns the buffer and the current
/// annotation set; the presentation layer reaches both through it.
///
/// `revision` counts buffer mutations, `next_request` numbers the check
/// rounds; together they make the staleness guard: a checker response
/// lands only if it answers the newest request and the buffer has not
/// moved since that request was started.
pub struct AnnotationEngine {
    pub buffer: TextBuffer,
    pub set: AnnotationSet,
    pub revision: u64,
    pub next_request: u64,
    pub pending: Option<PendingCheck>,
}

impl AnnotationEngine {
    /// The engine's invariant: the spans are well formed among
    /// themselves and every one of them fits the buffer.
    pub open spec fn wf(&self) -> bool {
        &&& sorted_disjoint(self.set.model())
        &&& valid_for(self.set.model(), self.buffer@.len() as int)
    }

    /// A fresh engine for a note with the given text: no findings yet,
    /// generation zero, no check round outstanding.
    pub fn new(content: Vec<char>) -> (e: AnnotationEngine)
        ensures
            e.wf(),
            e.buffer@ == content@,
            e.set.model() == Seq::<SpanModel>::empty(),
            e.set.generation == 0,
            e.revision == 0,
            e.next_request == 0,
            e.pending is None,
    {
        AnnotationEngine {
            buffer: TextBuffer::from_chars(content),
            set: AnnotationSet::empty(),
            revision: 0,
            next_request: 0,
            pending: None,
        }
    }

    /// Starts a check round: notes the request number and the buffer
    /// revision the submitted text is taken from.  A new call supersedes
    /// any outstanding round.  The caller submits the buffer text to the
    /// checker and later hands the outcome to `complete_refresh` or
    /// `fail_refresh` under this request number.
    pub fn begin_refresh(&mut self) -> (request: u64)
        requires
            old(self).next_request < u64::MAX,
        ensures
            request == old(self).next_request,
            final(self).pending == Some(
                PendingCheck { request, revision: old(self).revision },
            ),
            final(self).next_request == old(self).next_request + 1,
            final(self).buffer == old(self).buffer,
            final(self).set == old(self).set,
            final(self).revision == old(self).revision,
    {
        let request = self.next_request;
        self.next_request = self.next_request + 1;
        self.pending = Some(PendingCheck { request, revision: self.revision });
        request
    }

    /// Whether a response to request `request` would be accepted now:
    /// it must answer the outstanding round, and the buffer must not
    /// have been edited since that round started.
    pub open spec fn accepts(&self, request: u64) -> bool {
        self.pending matches Some(p) && p.request == request && p.revision == self.revision
    }

    /// Lands a checker response.  A response to a superseded request is
    /// ignored outright; a stale one — the buffer was edited after the
    /// round started — closes the round but is discarded, leaving the
    /// set at its last good generation.  An accepted response is
    /// validated finding by finding against the current buffer length,
    /// overlaps are resolved in favour of the earlier finding, and the
    /// generation counter is bumped.
    pub fn complete_refresh(&mut self, request: u64, response: &LTResponse) -> (accepted: bool)
        requires
            old(self).wf(),
            old(self).set.generation < u64::MAX,
        ensures
            final(self).wf(),
            accepted == old(self).accepts(request),
            final(self).buffer == old(self).buffer,
            final(self).revision == old(self).revision,
            final(self).next_request == old(self).next_request,
            accepted ==> final(self).pending is None && final(self).set.model() == select_spans(
                findings_model(response.matches@),
                old(self).buffer@.len() as int,
                0,
                0,
            ) && final(self).set.generation == old(self).set.generation + 1,
            !accepted ==> final(self).set == old(self).set && final(self).pending == (
            if old(self).pending matches Some(p) && p.request == request {
                Option::<PendingCheck>::None
            } else {
                old(self).pending
            }),
    {
        let (answers, fresh) = match self.pending {
            Some(p) => (p.request == request, p.revision == self.revision),
            None => (false, false),
        };
        if !answers {
            return false;
        }
        self.pending = None;
        if !fresh {
            return false;
        }
        let spans = select_findings(&response.matches, self.buffer.length());
        self.set = AnnotationSet { generation: self.set.generation + 1, spans };
        true
    }

    /// Reports that the outstanding check round failed (network trouble
    /// or a malformed payload).  The round is closed; buffer, spans and
    /// generation stay exactly as they were.  A failure report for a
    /// superseded request is ignored.
    pub fn fail_refresh(&mut self, request: u64)
        ensures
            final(self).buffer == old(self).buffer,
            final(self).set == old(self).set,
            final(self).revision == old(self).revision,
            final(self).next_request == old(self).next_request,
            final(self).pending == (if old(self).pending matches Some(p) && p.request == request {
                Option::<PendingCheck>::None
            } else {
                old(self).pending
            }),
    {
        let answers = match self.pending {
            Some(p) => p.request == request,
            None => false,
        };
        if answers {
            self.pending = None;
        }
    }

    /// Applies replacement `choice` of the span with id `span_id`:
    /// splices the replacement text over the span's range, removes the
    /// span, re-anchors the remaining spans by the length delta, and
    /// bumps the generation.  `NotFound` when no span has that id,
    /// `ChoiceOutOfRange` when the span has no such replacement; in
    /// either case the engine is left exactly as it was.
    pub fn apply(&mut self, span_id: u64, choice: usize) -> (r: Result<(), ApplyError>)
        requires
            old(self).wf(),
            old(self).set.generation < u64::MAX,
            old(self).revision < u64::MAX,
        ensures
            final(self).wf(),
            ({
                let m = old(self).set.model();
                &&& (r matches Ok(())) == exists|k: int|
                    0 <= k < m.len() && (#[trigger] m[k]).id == span_id as int && (choice as int)
                        < m[k].choices.len()
                &&& ((r == Result::<(), ApplyError>::Err(ApplyError::NotFound)) <==> forall|k: int|
                    0 <= k < m.len() ==> (#[trigger] m[k]).id != span_id as int)
                &&& ((r == Result::<(), ApplyError>::Err(ApplyError::ChoiceOutOfRange))
                    <==> exists|k: int|
                    0 <= k < m.len() && (#[trigger] m[k]).id == span_id as int && (choice as int)
                        >= m[k].choices.len())
                &&& (r matches Ok(())) ==> exists|k: int|
                    {
                        &&& 0 <= k < m.len()
                        &&& (#[trigger] m[k]).id == span_id as int
                        &&& (choice as int) < m[k].choices.len()
                        &&& final(self).buffer@ == old(self).buffer@.subrange(0, m[k].start)
                            + m[k].choices[choice as int] + old(self).buffer@.subrange(
                            m[k].end,
                            old(self).buffer@.len() as int,
                        )
                        &&& final(self).set.model() == retarget_spans(
                            m.remove(k),
                            m[k].start,
                            m[k].end,
                            m[k].choices[choice as int].len() as int,
                        )
                    }
                &&& (r is Err) ==> *final(self) == *old(self)
            }),
            r matches Ok(()) ==> final(self).set.generation == old(self).set.generation + 1
                && final(self).revision == old(self).revision + 1
                && final(self).pending == old(self).pending
                && final(self).next_request == old(self).next_request,
    {
        let ghost m = self.set.model();
        let k = match find_span_index(&self.set.spans, span_id) {
            None => {
                return Err(ApplyError::NotFound);
            },
            Some(k) => k,
        };
        proof {
            assert forall|t: int|
                0 <= t < m.len() && (#[trigger] m[t]).id == span_id as int implies t
                == k as int by {
                if t < k as int {
                    assert(m[t].id < m[k as int].id);
                } else if t > k as int {
                    assert(m[k as int].id < m[t].id);
                }
            }
        }
        let span: &Span = &self.set.spans[k];
        if choice >= span.choices.len() {
            return Err(ApplyError::ChoiceOutOfRange);
        }
        let es = span.start;
        let ee = span.end;
        let repl = string_chars(&span.choices[choice]);
        let old_len = self.buffer.length();
        proof {
            assert(m[k as int].start <= m[k as int].end <= old_len as int);
        }
        let res = self.buffer.splice(es, ee, &repl);
        proof {
            assert(res matches Ok(()));
        }
        let new_len = self.buffer.length();
        let pruned = remove_index(&self.set.spans, k);
        proof {
            lemma_remove_sorted(m, k as int, old_len as int);
        }
        let new_spans = retarget_vec(&pruned, es, ee, repl.len(), old_len, new_len);
        self.set = AnnotationSet { generation: self.set.generation + 1, spans: new_spans };
        self.revision = self.revision + 1;
        Ok(())
    }

    /// A free-form edit of the note (typing outside `apply`): replaces
    /// `[start, end)` with `replacement`, discards every span that
    /// intersects the edited range, shifts the spans after it by the
    /// length delta, and bumps the buffer revision so that an
    /// outstanding check round can no longer land.  On a bad range
    /// nothing changes.
    pub fn edit(&mut self, start: usize, end: usize, replacement: &Vec<char>) -> (r: Result<
        (),
        RangeError,
    >)
        requires
            old(self).wf(),
            old(self).revision < u64::MAX,
        ensures
            final(self).wf(),
            range_ok(start as int, end as int, old(self).buffer@.len() as int) ==> (r matches Ok(())
                && final(self).buffer@ == old(self).buffer@.subrange(0, start as int)
                + replacement@ + old(self).buffer@.subrange(
                end as int,
                old(self).buffer@.len() as int,
            ) && final(self).set.model() == retarget_spans(
                old(self).set.model(),
                start as int,
                end as int,
                replacement@.len() as int,
            ) && final(self).set.generation == old(self).set.generation && final(self).revision
                == old(self).revision + 1 && final(self).pending == old(self).pending
                && final(self).next_request == old(self).next_request),
            !range_ok(start as int, end as int, old(self).buffer@.len() as int) ==> (r matches Err(
                RangeError,
            ) && *final(self) == *old(self)),
    {
        let old_len = self.buffer.length();
        if start > end || end > old_len {
            return Err(RangeError);
        }
        let res = self.buffer.splice(start, end, replacement);
        proof {
            assert(res matches Ok(()));
        }
        let new_len = self.buffer.length();
        let new_spans = retarget_vec(
            &self.set.spans,
            start,
            end,
            replacement.len(),
            old_len,
            new_len,
        );
        self.set = AnnotationSet { generation: self.set.generation, spans: new_spans };
        self.revision = self.revision + 1;
        Ok(())
    }
}

/// The index of the span with the given id, if the list has one.
pub fn find_span_index(spans: &Vec<Span>, span_id: u64) -> (r: Option<usize>)
    ensures
        r matches Some(k) ==> k < spans@.len() && spans_model(spans@)[k as int].id
            == span_id as int,
        r is None ==> forall|t: int|
            0 <= t < spans@.len() ==> (#[trigger] spans_model(spans@)[t]).id != span_id as int,
{
    let mut i: usize = 0;
    while i < spans.len()
        invariant
            i <= spans@.len(),
            forall|t: int|
                0 <= t < i ==> (#[trigger] spans_model(spans@)[t]).id != span_id as int,
        decreases spans@.len() - i,
    {
        if spans[i].id == span_id {
            return Some(i);
        }
        i = i + 1;
    }
    None
}

/// Law: every span of a well-formed engine lies inside its buffer:
/// `0 <= start <= end <= length`.
pub proof fn lemma_offset_validity(e: &AnnotationEngine, i: int)
    requires
        e.wf(),
        0 <= i < e.set.model().len(),
    ensures
        0 <= e.set.model()[i].start <= e.set.model()[i].end <= e.buffer@.len(),
{
}

} // verus!
