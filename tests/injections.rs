use rehype_tree_sitter_highlight::injections::{
    apply_offset_to_range, calculate_point_offset, extract_injections, get_lang_name,
    get_offset_modifier, parse_offset_predicate, point_to_byte, RangeOffset,
};
use rehype_tree_sitter_highlight::syntax::{
    GeneralPredicate, MatchCapture, PatternMatch, PatternProperty, PredicateArg,
};
use rehype_tree_sitter_highlight::{Point, Range};

fn range(start: usize, end: usize, sp: (usize, usize), ep: (usize, usize)) -> Range {
    Range {
        start_byte: start,
        end_byte: end,
        start_point: Point { row: sp.0, column: sp.1 },
        end_point: Point { row: ep.0, column: ep.1 },
    }
}

fn offset_pred(capture: u32, nums: [&str; 4]) -> GeneralPredicate {
    let mut args = vec![PredicateArg::Capture(capture)];
    for n in nums {
        args.push(PredicateArg::Text(n.to_string()));
    }
    GeneralPredicate { operator: "offset!".to_string(), args }
}

#[test]
fn point_offset_adds_signed_delta() {
    assert_eq!(calculate_point_offset(5, -2), 3);
    assert_eq!(calculate_point_offset(5, 3), 8);
    assert_eq!(calculate_point_offset(0, 0), 0);
}

#[test]
fn point_to_byte_counts_characters() {
    let source = "ab\nc\u{e9}\nx".as_bytes();
    assert_eq!(point_to_byte(source, Point { row: 0, column: 1 }), Some(1));
    assert_eq!(point_to_byte(source, Point { row: 1, column: 2 }), Some(6));
    assert_eq!(point_to_byte(source, Point { row: 1, column: 9 }), Some(7));
    assert_eq!(point_to_byte(source, Point { row: 2, column: 0 }), Some(7));
    assert_eq!(point_to_byte(source, Point { row: 2, column: 5 }), Some(8));
    assert_eq!(point_to_byte(source, Point { row: 3, column: 0 }), None);
    assert_eq!(point_to_byte(b"a\n", Point { row: 1, column: 0 }), None);
}

#[test]
fn offset_moves_points_and_recomputes_bytes() {
    let source = b"ab\ncd\n";
    let r = range(0, 2, (0, 0), (0, 2));
    let off = RangeOffset { start_row: 1, start_col: 0, end_row: 1, end_col: 1 };
    assert_eq!(apply_offset_to_range(source, &r, &off), Some(range(3, 6, (1, 0), (1, 3))));
    let before = RangeOffset { start_row: -1, start_col: 0, end_row: 0, end_col: 0 };
    assert_eq!(apply_offset_to_range(source, &r, &before), None);
    let past = RangeOffset { start_row: 5, start_col: 0, end_row: 5, end_col: 0 };
    assert_eq!(apply_offset_to_range(source, &r, &past), None);
}

#[test]
fn offset_predicate_arguments() {
    let p = offset_pred(2, ["1", "-1", "+2", "0"]);
    assert_eq!(
        parse_offset_predicate(&p),
        Some((2, RangeOffset { start_row: 1, start_col: -1, end_row: 2, end_col: 0 }))
    );
    assert_eq!(parse_offset_predicate(&offset_pred(2, ["1", "x", "0", "0"])), None);
    assert_eq!(parse_offset_predicate(&offset_pred(2, ["1", "", "0", "0"])), None);
    let short = GeneralPredicate {
        operator: "offset!".to_string(),
        args: vec![PredicateArg::Capture(1), PredicateArg::Text("1".to_string())],
    };
    assert_eq!(parse_offset_predicate(&short), None);
    let text_first = GeneralPredicate {
        operator: "offset!".to_string(),
        args: vec![
            PredicateArg::Text("1".to_string()),
            PredicateArg::Text("1".to_string()),
            PredicateArg::Text("1".to_string()),
            PredicateArg::Text("1".to_string()),
            PredicateArg::Text("1".to_string()),
        ],
    };
    assert_eq!(parse_offset_predicate(&text_first), None);
}

#[test]
fn last_offset_for_capture_wins() {
    let other_op = GeneralPredicate { operator: "set!".to_string(), args: vec![] };
    let preds = vec![
        offset_pred(2, ["1", "0", "0", "0"]),
        other_op,
        offset_pred(2, ["0", "3", "0", "-1"]),
        offset_pred(4, ["9", "9", "9", "9"]),
    ];
    assert_eq!(
        get_offset_modifier(&preds, 2),
        Some(RangeOffset { start_row: 0, start_col: 3, end_row: 0, end_col: -1 })
    );
    assert_eq!(get_offset_modifier(&preds, 3), None);
}

#[test]
fn language_property() {
    let props = vec![
        PatternProperty { key: "priority".to_string(), value: Some("5".to_string()) },
        PatternProperty { key: "injection.language".to_string(), value: Some("css".to_string()) },
    ];
    assert_eq!(get_lang_name(&props), Some("css".to_string()));
    assert_eq!(get_lang_name(&Vec::new()), None);
}

#[test]
fn injections_from_matches() {
    let source = b"lang js\ncode\n";
    let lang_capture = MatchCapture { index: 0, range: range(5, 7, (0, 5), (0, 7)) };
    let content_capture = MatchCapture { index: 1, range: range(8, 12, (1, 0), (1, 4)) };
    let by_capture = PatternMatch { pattern_index: 0, captures: vec![lang_capture, content_capture] };
    let by_property = PatternMatch { pattern_index: 1, captures: vec![content_capture] };
    let with_offset = PatternMatch { pattern_index: 2, captures: vec![lang_capture, content_capture] };
    let no_content = PatternMatch { pattern_index: 0, captures: vec![lang_capture] };
    let no_language = PatternMatch { pattern_index: 0, captures: vec![content_capture] };
    let properties = vec![
        Vec::new(),
        vec![PatternProperty { key: "injection.language".to_string(), value: Some("css".to_string()) }],
        Vec::new(),
    ];
    let predicates = vec![Vec::new(), Vec::new(), vec![offset_pred(1, ["0", "1", "0", "-1"])]];
    let found = extract_injections(
        &vec![by_capture, no_content, by_property, no_language, with_offset],
        &properties,
        &predicates,
        source,
        Some(0),
        1,
    );
    assert_eq!(found.len(), 3);
    assert_eq!(found[0].lang, "js");
    assert_eq!(found[0].range, range(8, 12, (1, 0), (1, 4)));
    assert_eq!(found[1].lang, "css");
    assert_eq!(found[1].range, range(8, 12, (1, 0), (1, 4)));
    assert_eq!(found[2].lang, "js");
    assert_eq!(found[2].range, range(9, 11, (1, 1), (1, 3)));
}
