use rehype_tree_sitter_highlight::engine::highlight_regions;
use rehype_tree_sitter_highlight::events::{linearize, sort_regions};
use rehype_tree_sitter_highlight::{HighlightEvent, HighlightRegion, Point, Range};

fn region(start: usize, end: usize, name: &str, priority: u32, pattern_index: u32) -> HighlightRegion {
    HighlightRegion {
        range: Range {
            start_byte: start,
            end_byte: end,
            start_point: Point { row: 0, column: start },
            end_point: Point { row: 0, column: end },
        },
        highlight: name.to_string(),
        priority,
        pattern_index,
    }
}

fn start(name: &str) -> HighlightEvent {
    HighlightEvent::Highlight(name.to_string())
}

fn src(start: usize, end: usize) -> HighlightEvent {
    HighlightEvent::Source { start, end }
}

fn opened(events: &[HighlightEvent]) -> Vec<String> {
    events
        .iter()
        .filter_map(|e| match e {
            HighlightEvent::Highlight(n) => Some(n.clone()),
            _ => None,
        })
        .collect()
}

fn assert_balanced(events: &[HighlightEvent]) {
    let mut depth: i64 = 0;
    for e in events {
        match e {
            HighlightEvent::Highlight(_) => depth += 1,
            HighlightEvent::HighlightEnd => depth -= 1,
            HighlightEvent::Source { .. } => {}
        }
        assert!(depth >= 0);
    }
    assert_eq!(depth, 0);
}

fn assert_contiguous(events: &[HighlightEvent], len: usize) {
    let mut cursor = 0;
    for e in events {
        if let HighlightEvent::Source { start, end } = e {
            assert_eq!(*start, cursor);
            assert!(start <= end);
            cursor = *end;
        }
    }
    if len > 0 {
        assert!(cursor >= len - 1);
    }
}

fn console_log_regions() -> Vec<HighlightRegion> {
    vec![
        region(21, 22, "punctuation.bracket", 100, 2),
        region(8, 11, "function.method", 100, 4),
        region(0, 7, "variable.builtin", 100, 6),
        region(12, 21, "string", 100, 7),
        region(7, 8, "punctuation.delimiter", 100, 1),
        region(0, 7, "variable", 100, 5),
        region(11, 12, "punctuation.bracket", 100, 2),
        region(8, 11, "property", 100, 3),
    ]
}

#[test]
fn console_log_start_order() {
    let source = "console.log(\"content\")";
    let events = highlight_regions(console_log_regions(), source.len());
    assert_eq!(
        opened(&events),
        vec![
            "variable",
            "variable.builtin",
            "punctuation.delimiter",
            "property",
            "function.method",
            "punctuation.bracket",
            "string",
            "punctuation.bracket",
        ]
    );
}

#[test]
fn console_log_full_stream() {
    let events = highlight_regions(console_log_regions(), 22);
    let end = HighlightEvent::HighlightEnd;
    assert_eq!(
        events,
        vec![
            start("variable"),
            start("variable.builtin"),
            src(0, 7),
            end.clone(),
            end.clone(),
            start("punctuation.delimiter"),
            src(7, 8),
            end.clone(),
            start("property"),
            start("function.method"),
            src(8, 11),
            end.clone(),
            end.clone(),
            start("punctuation.bracket"),
            src(11, 12),
            end.clone(),
            start("string"),
            src(12, 21),
            end.clone(),
            start("punctuation.bracket"),
            src(21, 22),
            end.clone(),
        ]
    );
    assert_balanced(&events);
    assert_contiguous(&events, 22);
}

#[test]
fn crossing_regions_close_in_stack_order() {
    let events = highlight_regions(vec![region(0, 10, "a", 100, 0), region(5, 15, "b", 100, 0)], 20);
    let end = HighlightEvent::HighlightEnd;
    assert_eq!(
        events,
        vec![start("a"), src(0, 5), start("b"), src(5, 15), end.clone(), end.clone(), src(15, 19)]
    );
    assert_balanced(&events);
    assert_contiguous(&events, 20);
}

#[test]
fn no_regions_leaves_last_byte_out() {
    assert_eq!(highlight_regions(Vec::new(), 5), vec![src(0, 4)]);
    assert_eq!(highlight_regions(Vec::new(), 1), Vec::<HighlightEvent>::new());
    assert_eq!(highlight_regions(Vec::new(), 0), Vec::<HighlightEvent>::new());
}

#[test]
fn gap_before_and_after_region() {
    let events = highlight_regions(vec![region(3, 5, "x", 100, 0)], 10);
    assert_eq!(
        events,
        vec![src(0, 3), start("x"), src(3, 5), HighlightEvent::HighlightEnd, src(5, 9)]
    );
}

#[test]
fn tie_break_ignores_priority_and_discovery_order() {
    let a = region(4, 9, "outer", 10, 3);
    let b = region(4, 6, "inner", 200, 1);
    let one = highlight_regions(vec![a.clone(), b.clone()], 12);
    let two = highlight_regions(vec![b, a], 12);
    assert_eq!(one, two);
    assert_eq!(opened(&one), vec!["outer", "inner"]);
    let c = region(4, 6, "late", 200, 7);
    let d = region(4, 6, "early", 1, 2);
    let three = highlight_regions(vec![c.clone(), d.clone()], 12);
    let four = highlight_regions(vec![d, c], 12);
    assert_eq!(three, four);
    assert_eq!(opened(&three), vec!["early", "late"]);
}

#[test]
fn same_input_same_events() {
    let one = highlight_regions(console_log_regions(), 22);
    let two = highlight_regions(console_log_regions(), 22);
    assert_eq!(one, two);
}

#[test]
fn sort_is_stable_on_equal_keys() {
    let sorted = sort_regions(vec![
        region(2, 4, "first", 100, 1),
        region(0, 9, "outer", 100, 1),
        region(2, 4, "second", 100, 1),
    ]);
    let names: Vec<&str> = sorted.iter().map(|r| r.highlight.as_str()).collect();
    assert_eq!(names, vec!["outer", "first", "second"]);
}

#[test]
fn linearize_closes_open_region_at_its_end() {
    let regions = sort_regions(vec![region(0, 2, "a", 100, 0), region(2, 4, "b", 100, 0)]);
    let events = linearize(&regions, 5);
    let end = HighlightEvent::HighlightEnd;
    assert_eq!(
        events,
        vec![start("a"), src(0, 2), end.clone(), start("b"), src(2, 4), end.clone()]
    );
}
