use notecore::annotations::AnnotationSet;
use notecore::buffer::TextBuffer;
use notecore::engine::AnnotationEngine;
use notecore::findings::{LTMatch, LTResponse, LTSuggestion};
use notecore::render::{Line, LineRenderer};

fn chars(s: &str) -> Vec<char> {
    s.chars().collect()
}

fn finding(message: &str, offset: usize, length: usize, choices: &[&str]) -> LTMatch {
    LTMatch {
        message: String::from(message),
        offset,
        length,
        replacements: choices
            .iter()
            .map(|c| LTSuggestion { value: String::from(*c) })
            .collect(),
    }
}

fn engine_with(text: &str, findings: Vec<LTMatch>) -> AnnotationEngine {
    let mut e = AnnotationEngine::new(chars(text));
    let req = e.begin_refresh();
    assert!(e.complete_refresh(req, &LTResponse { matches: findings }));
    e
}

fn flat(lines: &[Line]) -> Vec<(String, bool, Option<u64>)> {
    let mut out = Vec::new();
    for line in lines {
        for run in &line.runs {
            out.push((run.text.iter().collect(), run.is_highlighted, run.span_id));
        }
        out.push((String::from("<nl>"), false, None));
    }
    out
}

#[test]
fn layout_single_line_without_findings() {
    let e = engine_with("hello", vec![]);
    let lines = LineRenderer::layout(&e.buffer, &e.set);
    assert_eq!(lines.len(), 1);
    assert_eq!(
        flat(&lines),
        vec![
            (String::from("hello"), false, None),
            (String::from("<nl>"), false, None),
        ]
    );
}

#[test]
fn layout_splits_highlighted_runs() {
    let e = engine_with("Teh cat", vec![finding("typo", 0, 3, &["The"])]);
    let lines = LineRenderer::layout(&e.buffer, &e.set);
    assert_eq!(
        flat(&lines),
        vec![
            (String::from("Teh"), true, Some(0)),
            (String::from(" cat"), false, None),
            (String::from("<nl>"), false, None),
        ]
    );
}

#[test]
fn layout_boundary_truncation_keeps_span_id() {
    // Line break at character 10; a span over 8..14 is truncated at the
    // break and contributes one run to each line, both under its id.
    let e = engine_with("abcdefghij\nklmnopq", vec![finding("long", 8, 6, &["x"])]);
    let lines = LineRenderer::layout(&e.buffer, &e.set);
    assert_eq!(lines.len(), 2);
    assert_eq!(
        flat(&lines),
        vec![
            (String::from("abcdefgh"), false, None),
            (String::from("ij"), true, Some(0)),
            (String::from("<nl>"), false, None),
            (String::from("klm"), true, Some(0)),
            (String::from("nopq"), false, None),
            (String::from("<nl>"), false, None),
        ]
    );
}

#[test]
fn layout_zero_length_span_produces_no_run() {
    let e = engine_with("abcdef", vec![finding("marker", 3, 0, &["x"])]);
    assert_eq!(e.set.spans.len(), 1);
    let lines = LineRenderer::layout(&e.buffer, &e.set);
    assert_eq!(
        flat(&lines),
        vec![
            (String::from("abcdef"), false, None),
            (String::from("<nl>"), false, None),
        ]
    );
}

#[test]
fn layout_is_idempotent() {
    let e = engine_with(
        "Teh cat\nsta. here",
        vec![finding("typo", 0, 3, &["The"]), finding("typo", 8, 4, &["sat."])],
    );
    let first = LineRenderer::layout(&e.buffer, &e.set);
    let second = LineRenderer::layout(&e.buffer, &e.set);
    assert_eq!(first, second);
}

#[test]
fn layout_empty_buffer_is_one_empty_line() {
    let b = TextBuffer::new();
    let s = AnnotationSet::empty();
    let lines = LineRenderer::layout(&b, &s);
    assert_eq!(lines.len(), 1);
    assert_eq!(lines[0].runs.len(), 0);
}

#[test]
fn layout_trailing_line_feed_opens_empty_line() {
    let e = engine_with("a\n", vec![]);
    let lines = LineRenderer::layout(&e.buffer, &e.set);
    assert_eq!(lines.len(), 2);
    assert_eq!(lines[0].runs.len(), 1);
    assert_eq!(lines[0].runs[0].text, chars("a"));
    assert_eq!(lines[1].runs.len(), 0);
}

#[test]
fn layout_adjacent_spans_make_separate_runs() {
    let e = engine_with(
        "abcdef",
        vec![finding("one", 0, 3, &["x"]), finding("two", 3, 3, &["y"])],
    );
    let lines = LineRenderer::layout(&e.buffer, &e.set);
    assert_eq!(
        flat(&lines),
        vec![
            (String::from("abc"), true, Some(0)),
            (String::from("def"), true, Some(1)),
            (String::from("<nl>"), false, None),
        ]
    );
}
