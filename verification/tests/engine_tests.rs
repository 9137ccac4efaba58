use notecore::engine::{AnnotationEngine, ApplyError};
use notecore::findings::{LTMatch, LTResponse, LTSuggestion};

fn chars(s: &str) -> Vec<char> {
    s.chars().collect()
}

fn text_of(e: &AnnotationEngine) -> String {
    e.buffer.slice(0, e.buffer.length()).unwrap().into_iter().collect()
}

fn finding(message: &str, offset: usize, length: usize, choices: &[&str]) -> LTMatch {
    LTMatch {
        message: String::from(message),
        offset,
        length,
        replacements: choices
            .iter()
            .map(|c| LTSuggestion { value: String::from(*c) })
            .collect(),
    }
}

fn refreshed(text: &str, findings: Vec<LTMatch>) -> AnnotationEngine {
    let mut e = AnnotationEngine::new(chars(text));
    let req = e.begin_refresh();
    let accepted = e.complete_refresh(req, &LTResponse { matches: findings });
    assert!(accepted);
    e
}

#[test]
fn refresh_installs_valid_findings() {
    let e = refreshed(
        "Teh cat sta.",
        vec![finding("typo", 0, 3, &["The"]), finding("typo", 8, 3, &["sat"])],
    );
    assert_eq!(e.set.generation, 1);
    assert_eq!(e.set.spans.len(), 2);
    assert_eq!((e.set.spans[0].id, e.set.spans[0].start, e.set.spans[0].end), (0, 0, 3));
    assert_eq!((e.set.spans[1].id, e.set.spans[1].start, e.set.spans[1].end), (1, 8, 11));
    assert_eq!(e.set.spans[0].choices, vec![String::from("The")]);
    assert!(e.pending.is_none());
}

#[test]
fn refresh_drops_finding_past_buffer_end() {
    let e = refreshed(
        "short",
        vec![finding("ok", 0, 2, &["x"]), finding("past end", 3, 9, &["y"])],
    );
    assert_eq!(e.set.spans.len(), 1);
    assert_eq!((e.set.spans[0].start, e.set.spans[0].end), (0, 2));
}

#[test]
fn refresh_resolves_overlap_keeping_first() {
    let e = refreshed(
        "abcdefghij",
        vec![
            finding("first", 1, 4, &["x"]),
            finding("overlaps first", 3, 2, &["y"]),
            finding("clear of both", 5, 2, &["z"]),
        ],
    );
    assert_eq!(e.set.spans.len(), 2);
    assert_eq!((e.set.spans[0].start, e.set.spans[0].end), (1, 5));
    assert_eq!((e.set.spans[1].start, e.set.spans[1].end), (5, 7));
    assert_eq!(e.set.spans[1].id, 1);
}

#[test]
fn apply_consistency() {
    let mut e = refreshed("Teh cat sat.", vec![finding("typo", 0, 3, &["The"])]);
    let r = e.apply(0, 0);
    assert_eq!(r, Ok(()));
    assert_eq!(text_of(&e), "The cat sat.");
    assert_eq!(e.set.spans.len(), 0);
    assert_eq!(e.set.generation, 2);
}

#[test]
fn apply_shift_same_length_leaves_later_span() {
    let mut e = refreshed(
        "Teh cat sta.",
        vec![finding("typo", 0, 3, &["The"]), finding("typo", 8, 3, &["sat"])],
    );
    e.apply(0, 0).unwrap();
    assert_eq!(text_of(&e), "The cat sta.");
    assert_eq!(e.set.spans.len(), 1);
    assert_eq!(e.set.spans[0].id, 1);
    assert_eq!((e.set.spans[0].start, e.set.spans[0].end), (8, 11));
}

#[test]
fn apply_shift_longer_choice_moves_later_span() {
    let mut e = refreshed(
        "Teh cat sta.",
        vec![finding("typo", 0, 3, &["Tehh"]), finding("typo", 8, 3, &["sat"])],
    );
    e.apply(0, 0).unwrap();
    assert_eq!(text_of(&e), "Tehh cat sta.");
    assert_eq!((e.set.spans[0].start, e.set.spans[0].end), (9, 12));
}

#[test]
fn apply_unknown_id_is_not_found() {
    let mut e = refreshed("Teh cat sat.", vec![finding("typo", 0, 3, &["The"])]);
    let r = e.apply(99, 0);
    assert_eq!(r, Err(ApplyError::NotFound));
    assert_eq!(text_of(&e), "Teh cat sat.");
    assert_eq!(e.set.spans.len(), 1);
    assert_eq!(e.set.generation, 1);
}

#[test]
fn apply_choice_out_of_range() {
    let mut e = refreshed("Teh cat sat.", vec![finding("typo", 0, 3, &["The"])]);
    let r = e.apply(0, 5);
    assert_eq!(r, Err(ApplyError::ChoiceOutOfRange));
    assert_eq!(text_of(&e), "Teh cat sat.");
}

#[test]
fn apply_informational_finding_is_not_actionable() {
    // A finding with no replacement candidates is kept as a valid span
    // but accepting it is refused rather than splicing nothing.
    let mut e = refreshed("Teh cat sat.", vec![finding("style nit", 0, 3, &[])]);
    assert_eq!(e.set.spans.len(), 1);
    let r = e.apply(0, 0);
    assert_eq!(r, Err(ApplyError::ChoiceOutOfRange));
}

#[test]
fn edit_discards_intersecting_and_shifts_following() {
    let mut e = refreshed(
        "Teh cat sta.",
        vec![finding("typo", 0, 3, &["The"]), finding("typo", 8, 3, &["sat"])],
    );
    // Replace "cat" (4..7) by "dog!": intersects no span, one char longer.
    e.edit(4, 7, &chars("dog!")).unwrap();
    assert_eq!(text_of(&e), "Teh dog! sta.");
    assert_eq!(e.set.spans.len(), 2);
    assert_eq!((e.set.spans[0].start, e.set.spans[0].end), (0, 3));
    assert_eq!((e.set.spans[1].start, e.set.spans[1].end), (9, 12));
    // Now type inside the first span: it is discarded, the other stays.
    e.edit(1, 2, &chars("x")).unwrap();
    assert_eq!(e.set.spans.len(), 1);
    assert_eq!(e.set.spans[0].id, 1);
    assert_eq!((e.set.spans[0].start, e.set.spans[0].end), (9, 12));
}

#[test]
fn edit_rejects_bad_range() {
    let mut e = refreshed("abc", vec![finding("m", 0, 1, &["x"])]);
    assert!(e.edit(2, 1, &chars("y")).is_err());
    assert!(e.edit(0, 7, &chars("y")).is_err());
    assert_eq!(text_of(&e), "abc");
    assert_eq!(e.set.spans.len(), 1);
}

#[test]
fn staleness_guard_discards_response_after_edit() {
    let mut e = refreshed("Teh cat sat.", vec![finding("typo", 0, 3, &["The"])]);
    let req = e.begin_refresh();
    // The user keeps typing while the request is in flight.
    e.edit(4, 7, &chars("dog")).unwrap();
    let spans_after_edit: Vec<(u64, usize, usize)> =
        e.set.spans.iter().map(|s| (s.id, s.start, s.end)).collect();
    let generation_after_edit = e.set.generation;
    // The response lands late: it must be discarded, not installed.
    let accepted = e.complete_refresh(req, &LTResponse {
        matches: vec![finding("stale", 0, 12, &["nonsense"])],
    });
    assert!(!accepted);
    assert_eq!(e.set.generation, generation_after_edit);
    let spans_now: Vec<(u64, usize, usize)> =
        e.set.spans.iter().map(|s| (s.id, s.start, s.end)).collect();
    assert_eq!(spans_now, spans_after_edit);
    assert!(e.pending.is_none());
}

#[test]
fn superseded_request_is_ignored() {
    let mut e = AnnotationEngine::new(chars("Teh cat sat."));
    let first = e.begin_refresh();
    let second = e.begin_refresh();
    let accepted = e.complete_refresh(first, &LTResponse {
        matches: vec![finding("old", 0, 3, &["The"])],
    });
    assert!(!accepted);
    assert_eq!(e.set.spans.len(), 0);
    assert!(e.pending.is_some());
    let accepted = e.complete_refresh(second, &LTResponse {
        matches: vec![finding("new", 0, 3, &["The"])],
    });
    assert!(accepted);
    assert_eq!(e.set.spans.len(), 1);
}

fn assert_invariants(e: &AnnotationEngine) {
    let len = e.buffer.length();
    for s in &e.set.spans {
        assert!(s.start <= s.end && s.end <= len);
    }
    for i in 0..e.set.spans.len() {
        for j in (i + 1)..e.set.spans.len() {
            let a = &e.set.spans[i];
            let b = &e.set.spans[j];
            assert!(a.end <= b.start || b.end <= a.start);
            assert_ne!(a.id, b.id);
        }
    }
}

#[test]
fn non_overlap_and_validity_hold_through_refresh_apply_edit() {
    let mut e = refreshed(
        "abcdefghij",
        vec![
            finding("kept", 0, 4, &["q"]),
            finding("overlap, dropped", 2, 3, &["w"]),
            finding("kept", 5, 2, &["zz"]),
            finding("past end, dropped", 9, 5, &["y"]),
        ],
    );
    assert_eq!(e.set.spans.len(), 2);
    assert_invariants(&e);
    e.apply(0, 0).unwrap();
    assert_invariants(&e);
    assert_eq!((e.set.spans[0].start, e.set.spans[0].end), (2, 4));
    e.edit(0, 1, &chars("xyz")).unwrap();
    assert_invariants(&e);
    assert_eq!((e.set.spans[0].start, e.set.spans[0].end), (4, 6));
}

#[test]
fn failed_refresh_keeps_last_good_generation() {
    let mut e = refreshed("Teh cat sat.", vec![finding("typo", 0, 3, &["The"])]);
    let req = e.begin_refresh();
    e.fail_refresh(req);
    assert!(e.pending.is_none());
    assert_eq!(e.set.generation, 1);
    assert_eq!(e.set.spans.len(), 1);
    // A response for the failed round is now superseded and ignored.
    let accepted = e.complete_refresh(req, &LTResponse { matches: vec![] });
    assert!(!accepted);
    assert_eq!(e.set.generation, 1);
}
