use std::collections::HashMap;

use ctc_forced_aligner_rs::postprocess::{
    get_spans, merge_repeats, spans_to_items, Segment, SpanError,
};

fn strings(list: &[&str]) -> Vec<String> {
    list.iter().map(|s| s.to_string()).collect()
}

fn segment(label: &str, start: usize, end: usize) -> Segment {
    Segment { label: label.to_string(), start, end }
}

fn shape(segments: &[Segment]) -> Vec<(String, usize, usize)> {
    segments.iter().map(|s| (s.label.clone(), s.start, s.end)).collect()
}

#[test]
fn runs_become_segments() {
    let mut names = HashMap::new();
    names.insert(0, "<blank>".to_string());
    names.insert(1, "a".to_string());
    let segments = merge_repeats(&[0, 0, 1, 1, 1, 0, 5], &names);
    assert_eq!(
        shape(&segments),
        vec![
            ("<blank>".to_string(), 0, 1),
            ("a".to_string(), 2, 4),
            ("<blank>".to_string(), 5, 5),
            ("id=5".to_string(), 6, 6),
        ]
    );
    assert!(merge_repeats(&[], &names).is_empty());
}

#[test]
fn segments_partition_the_path() {
    let names = HashMap::new();
    let path = [3, 3, 1, 2, 2, 2, 3];
    let segments = merge_repeats(&path, &names);
    let mut next = 0;
    for s in &segments {
        assert_eq!(s.start, next);
        assert!(s.end >= s.start);
        for k in s.start..=s.end {
            assert_eq!(path[k], path[s.start]);
        }
        next = s.end + 1;
    }
    assert_eq!(next, path.len());
}

#[test]
fn spans_follow_the_letters() {
    let segments = vec![
        segment("-", 0, 1),
        segment("h", 2, 2),
        segment("-", 3, 3),
        segment("i", 4, 6),
        segment("y", 7, 8),
        segment("-", 9, 9),
    ];
    let spans = get_spans(&strings(&["h i", "", "y"]), &segments, "-").unwrap();
    assert_eq!(spans.len(), 3);
    assert_eq!(shape(&spans[0]), shape(&segments[1..4]));
    assert_eq!(shape(&spans[1]), shape(&segments[3..4]));
    assert_eq!(shape(&spans[2]), shape(&segments[4..5]));
}

#[test]
fn uncovered_tokens_have_no_span() {
    let segments = vec![segment("h", 0, 0)];
    assert_eq!(get_spans(&strings(&["h", "i"]), &segments, "-").unwrap().len(), 1);
    assert!(get_spans(&strings(&["h i"]), &segments, "-").unwrap().is_empty());
    assert!(get_spans(&[], &[], "-").unwrap().is_empty());
}

#[test]
fn misfits_are_refused() {
    let tokens = strings(&["h"]);
    match get_spans(&tokens, &[segment("x", 0, 0)], "-") {
        Err(SpanError::Mismatch { got, expected }) => {
            assert_eq!(got, "x");
            assert_eq!(expected, "h");
        }
        other => panic!("{other:?}"),
    }
    match get_spans(&tokens, &[segment("h", 0, 0), segment("x", 1, 1)], "-") {
        Err(SpanError::ExpectedBlank { got }) => assert_eq!(got, "x"),
        other => panic!("{other:?}"),
    }
    let extra = [segment("h", 0, 0), segment("-", 1, 1), segment("h", 2, 2)];
    assert!(matches!(get_spans(&tokens, &extra, "-"), Err(SpanError::ExtraSegments)));
    // Double spaces wait for an empty letter.
    match get_spans(&strings(&["h  i"]), &[segment("h", 0, 0), segment("i", 1, 1)], "-") {
        Err(SpanError::Mismatch { got, expected }) => {
            assert_eq!(got, "i");
            assert_eq!(expected, "");
        }
        other => panic!("{other:?}"),
    }
}

#[test]
fn items_leave_out_stars() {
    let spans = vec![
        vec![segment("<star>", 0, 3)],
        vec![segment("h", 5, 5), segment("i", 6, 8)],
        vec![],
        vec![segment("y", 9, 9)],
    ];
    let items = spans_to_items(&strings(&["<star>", "Hi", "skipped"]), &spans);
    assert_eq!(items.len(), 2);
    assert_eq!((items[0].start_frame, items[0].end_frame), (5, 9));
    assert_eq!(items[0].text, "Hi");
    assert_eq!((items[1].start_frame, items[1].end_frame), (9, 10));
    assert_eq!(items[1].text, "");
}
