use markdown_html_finder::{html_positions_of_events, join_adjacent_spans, EventKind, ScanEvent};

#[test]
fn test_join_adjacent_spans() {
    let source = vec![(1, 3), (3, 6), (10, 12), (15, 17), (16, 18)];
    let expected = vec![(1, 6), (10, 12), (15, 18)];
    assert_eq!(join_adjacent_spans(source), (expected));
}

#[test]
fn join_empty_list() {
    let expected: Vec<(usize, usize)> = vec![];
    assert_eq!(join_adjacent_spans(vec![]), expected);
}

#[test]
fn join_single_span_unchanged() {
    assert_eq!(join_adjacent_spans(vec![(4, 9)]), vec![(4, 9)]);
}

#[test]
fn join_touching_spans() {
    assert_eq!(join_adjacent_spans(vec![(2, 5), (5, 8)]), vec![(2, 8)]);
}

#[test]
fn join_keeps_gap_of_one_byte() {
    assert_eq!(join_adjacent_spans(vec![(2, 5), (6, 8)]), vec![(2, 5), (6, 8)]);
}

#[test]
fn join_contained_span_keeps_larger_end() {
    assert_eq!(join_adjacent_spans(vec![(0, 10), (2, 4), (10, 11)]), vec![(0, 11)]);
}

#[test]
fn join_zero_length_break_between_spans() {
    assert_eq!(join_adjacent_spans(vec![(0, 5), (5, 5), (5, 9)]), vec![(0, 9)]);
}

#[test]
fn join_is_idempotent() {
    let once = join_adjacent_spans(vec![(0, 3), (2, 6), (7, 9), (9, 12), (20, 21)]);
    assert_eq!(once, vec![(0, 6), (7, 12), (20, 21)]);
    assert_eq!(join_adjacent_spans(once.clone()), once);
}

#[test]
fn join_output_is_separated_and_ascending() {
    let out = join_adjacent_spans(vec![(1, 2), (2, 3), (5, 7), (6, 6), (8, 10), (11, 11)]);
    assert_eq!(out, vec![(1, 3), (5, 7), (8, 10), (11, 11)]);
    for w in out.windows(2) {
        assert!(w[0].1 < w[1].0);
        assert!(w[0].0 < w[1].0);
    }
}

fn ev(kind: EventKind, start: usize, end: usize) -> ScanEvent {
    ScanEvent { kind, start, end }
}

#[test]
fn events_filtered_and_merged() {
    let events = vec![
        ev(EventKind::Other, 0, 40),
        ev(EventKind::Other, 0, 6),
        ev(EventKind::InlineHtml, 6, 12),
        ev(EventKind::Other, 12, 14),
        ev(EventKind::InlineHtml, 14, 17),
        ev(EventKind::SoftBreak, 17, 18),
        ev(EventKind::HtmlBlock, 18, 25),
        ev(EventKind::HardBreak, 30, 32),
        ev(EventKind::Other, 0, 40),
    ];
    assert_eq!(html_positions_of_events(&events), vec![(6, 12), (14, 25), (30, 32)]);
}

#[test]
fn events_with_nothing_kept() {
    let events = vec![ev(EventKind::Other, 0, 10), ev(EventKind::Other, 3, 7)];
    let expected: Vec<(usize, usize)> = vec![];
    assert_eq!(html_positions_of_events(&events), expected);
}

#[test]
fn html_spans_keeps_order_and_kinds() {
    let events = vec![
        ev(EventKind::HtmlBlock, 0, 5),
        ev(EventKind::Other, 5, 6),
        ev(EventKind::HardBreak, 6, 7),
        ev(EventKind::Other, 7, 9),
        ev(EventKind::InlineHtml, 9, 12),
    ];
    assert_eq!(markdown_html_finder::html_spans(&events), vec![(0, 5), (6, 7), (9, 12)]);
}
