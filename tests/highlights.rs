use rehype_tree_sitter_highlight::highlights::{classify_capture, extract_highlights, get_priority, CaptureKind};
use rehype_tree_sitter_highlight::syntax::{
    GeneralPredicate, MatchCapture, PatternMatch, PatternProperty, PredicateArg,
};
use rehype_tree_sitter_highlight::{Point, Range};

fn range(start: usize, end: usize) -> Range {
    Range {
        start_byte: start,
        end_byte: end,
        start_point: Point { row: 0, column: start },
        end_point: Point { row: 0, column: end },
    }
}

fn prop(key: &str, value: &str) -> PatternProperty {
    PatternProperty { key: key.to_string(), value: Some(value.to_string()) }
}

#[test]
fn priority_property() {
    assert_eq!(get_priority(&vec![prop("priority", "105")]), Some(105));
    assert_eq!(get_priority(&vec![prop("priority", "+7")]), Some(7));
    assert_eq!(get_priority(&vec![prop("priority", "-1")]), None);
    assert_eq!(get_priority(&vec![prop("priority", "4294967296")]), None);
    assert_eq!(get_priority(&vec![prop("other", "3"), prop("priority", "9"), prop("priority", "1")]), Some(9));
    assert_eq!(get_priority(&vec![PatternProperty { key: "priority".to_string(), value: None }]), None);
    assert_eq!(get_priority(&Vec::new()), None);
}

#[test]
fn capture_name_kinds() {
    assert_eq!(classify_capture(&"spell".to_string()), CaptureKind::Spell);
    assert_eq!(classify_capture(&"nospell".to_string()), CaptureKind::NoSpell);
    assert_eq!(classify_capture(&"conceal".to_string()), CaptureKind::Conceal);
    assert_eq!(classify_capture(&"_private".to_string()), CaptureKind::Private);
    assert_eq!(classify_capture(&"string".to_string()), CaptureKind::Highlight);
    assert_eq!(classify_capture(&"spelling".to_string()), CaptureKind::Highlight);
}

#[test]
fn regions_from_matches() {
    let names: Vec<String> = ["variable", "spell", "_hidden", "string"].iter().map(|s| s.to_string()).collect();
    let m0 = PatternMatch {
        pattern_index: 0,
        captures: vec![
            MatchCapture { index: 0, range: range(0, 3) },
            MatchCapture { index: 1, range: range(0, 3) },
            MatchCapture { index: 2, range: range(0, 3) },
        ],
    };
    let m1 = PatternMatch { pattern_index: 1, captures: vec![MatchCapture { index: 3, range: range(4, 9) }] };
    let m2 = PatternMatch { pattern_index: 2, captures: vec![MatchCapture { index: 0, range: range(10, 12) }] };
    let m3 = PatternMatch { pattern_index: 7, captures: vec![MatchCapture { index: 0, range: range(10, 12) }] };
    let properties = vec![Vec::new(), vec![prop("priority", "90")], Vec::new()];
    let lua = GeneralPredicate {
        operator: "lua-match?".to_string(),
        args: vec![PredicateArg::Capture(0), PredicateArg::Text("^x".to_string())],
    };
    let predicates = vec![Vec::new(), Vec::new(), vec![lua]];
    let regions = extract_highlights(&vec![m0, m1, m2, m3], &names, &properties, &predicates);
    assert_eq!(regions.len(), 2);
    assert_eq!(regions[0].highlight, "variable");
    assert_eq!(regions[0].priority, 100);
    assert_eq!(regions[0].pattern_index, 0);
    assert_eq!(regions[0].range, range(0, 3));
    assert_eq!(regions[1].highlight, "string");
    assert_eq!(regions[1].priority, 90);
    assert_eq!(regions[1].pattern_index, 1);
    assert_eq!(regions[1].range, range(4, 9));
}
