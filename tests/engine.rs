use rehype_tree_sitter_highlight::binding::{to_host_events, HighlightEventType, HighlightRange};
use rehype_tree_sitter_highlight::engine::{append_nested, compose_layer, highlight_regions};
use rehype_tree_sitter_highlight::ranges::{
    point_for_byte, remap_injected_region_highlight_range, remap_range_for_appended_newline, with_newline,
};
use rehype_tree_sitter_highlight::{
    Configurations, HighlightError, HighlightEvent, HighlightRegion, Highlighter, InjectedRegion, Point,
    Range,
};

fn range(start: usize, end: usize, sp: (usize, usize), ep: (usize, usize)) -> Range {
    Range {
        start_byte: start,
        end_byte: end,
        start_point: Point { row: sp.0, column: sp.1 },
        end_point: Point { row: ep.0, column: ep.1 },
    }
}

fn region(r: Range, name: &str, pattern_index: u32) -> HighlightRegion {
    HighlightRegion { range: r, highlight: name.to_string(), priority: 100, pattern_index }
}

#[test]
fn remap_shifts_by_injection_start() {
    let inj = range(10, 20, (1, 2), (1, 12));
    let h = range(1, 3, (0, 1), (0, 3));
    assert_eq!(remap_injected_region_highlight_range(&inj, &h), range(11, 13, (1, 3), (1, 5)));
}

#[test]
fn nested_regions_move_into_outer_text() {
    let inj = range(10, 14, (1, 2), (1, 6));
    let nested = vec![
        region(range(0, 1, (0, 0), (0, 1)), "variable", 3),
        region(range(2, 4, (0, 2), (0, 4)), "number", 0xffff_ffff),
        region(range(3, 9, (0, 3), (0, 9)), "escapes", 1),
    ];
    let mut out = vec![region(range(0, 20, (0, 0), (2, 0)), "outer", 0)];
    append_nested(&mut out, &inj, &nested, 10);
    assert_eq!(out.len(), 3);
    assert_eq!(out[1].range, range(10, 11, (1, 2), (1, 3)));
    assert_eq!(out[1].highlight, "variable");
    assert_eq!(out[1].pattern_index, 30);
    assert_eq!(out[2].range, range(12, 14, (1, 4), (1, 6)));
    assert_eq!(out[2].pattern_index, 0xffff_ffff);
}

#[test]
fn fenced_block_in_quote_nests_inner_highlights() {
    // "> ```js\n> a\n> ```\n": the code line's `a` is injected as another language.
    let source = b"> ```js\n> a\n> ```\n";
    let mut regions = vec![
        region(range(0, 1, (0, 0), (0, 1)), "punctuation.special", 0),
        region(range(2, 17, (0, 2), (2, 5)), "markup.raw.block", 4),
    ];
    let inj = range(10, 11, (1, 2), (1, 3));
    let inner = vec![region(range(0, 1, (0, 0), (0, 1)), "variable", 2)];
    append_nested(&mut regions, &inj, &inner, 1);
    let events = highlight_regions(regions, source.len());
    let end = HighlightEvent::HighlightEnd;
    let start = |n: &str| HighlightEvent::Highlight(n.to_string());
    let src = |s: usize, e: usize| HighlightEvent::Source { start: s, end: e };
    assert_eq!(
        events,
        vec![
            start("punctuation.special"),
            src(0, 1),
            end.clone(),
            src(1, 2),
            start("markup.raw.block"),
            src(2, 10),
            start("variable"),
            src(10, 11),
            end.clone(),
            src(11, 17),
            end.clone(),
        ]
    );
}

#[test]
fn unknown_language_is_refused() {
    let mut highlighter = Highlighter::new(Configurations::new());
    assert_eq!(highlighter.highlight(b"x = 1", "python"), Err(HighlightError::UnknownLanguage));
}

#[test]
fn newline_appended_when_missing() {
    let (text, end) = with_newline(b"ab");
    assert_eq!(text, b"ab\n".to_vec());
    assert_eq!(end, Some((2, Point { row: 0, column: 2 })));
    let (text, end) = with_newline(b"a\nb\n");
    assert_eq!(text, b"a\nb\n".to_vec());
    assert_eq!(end, None);
    let (text, end) = with_newline(b"");
    assert_eq!(text, b"\n".to_vec());
    assert_eq!(end, Some((0, Point { row: 0, column: 0 })));
}

#[test]
fn point_of_byte_clamps_to_end() {
    assert_eq!(point_for_byte(b"a\nbc", 3), Point { row: 1, column: 1 });
    assert_eq!(point_for_byte(b"a\nbc", 10), Point { row: 1, column: 2 });
    assert_eq!(point_for_byte(b"a\nbc", 0), Point { row: 0, column: 0 });
}

#[test]
fn point_of_byte_counts_characters() {
    let text = "a\n\u{e9}b".as_bytes();
    assert_eq!(point_for_byte(text, 4), Point { row: 1, column: 1 });
    assert_eq!(point_for_byte(text, 5), Point { row: 1, column: 2 });
    assert_eq!(point_for_byte(text, 3), Point { row: 1, column: 1 });
    let (_, end) = with_newline("x\u{1f600}".as_bytes());
    assert_eq!(end, Some((5, Point { row: 0, column: 2 })));
}

#[test]
fn range_cut_back_to_original_end() {
    let end = Some((5, Point { row: 1, column: 2 }));
    let inside = range(0, 3, (0, 0), (0, 3));
    assert_eq!(remap_range_for_appended_newline(inside, &end), inside);
    let reaching = range(2, 6, (0, 2), (2, 0));
    assert_eq!(remap_range_for_appended_newline(reaching, &end), range(2, 5, (0, 2), (1, 2)));
    assert_eq!(remap_range_for_appended_newline(reaching, &None), reaching);
}

#[test]
fn host_events_carry_names_and_spans() {
    let events = vec![
        HighlightEvent::Highlight("string".to_string()),
        HighlightEvent::Source { start: 3, end: 9 },
        HighlightEvent::HighlightEnd,
    ];
    let host = to_host_events(&events).unwrap();
    assert_eq!(host.len(), 3);
    assert_eq!(host[0].event_type, HighlightEventType::Start);
    assert_eq!(host[0].highlight, Some("string".to_string()));
    assert_eq!(host[1].event_type, HighlightEventType::Source);
    assert_eq!(host[1].range, Some(HighlightRange { start: 3, end: 9 }));
    assert_eq!(host[2].event_type, HighlightEventType::End);
    assert!(host[2].range.is_none());
}

#[test]
fn host_events_refuse_wide_offsets() {
    let events = vec![HighlightEvent::Source { start: 0, end: (u32::MAX as usize) + 1 }];
    assert!(to_host_events(&events).is_none());
}

#[test]
fn layer_composes_own_then_injected_regions() {
    let base = vec![region(range(0, 30, (0, 0), (2, 0)), "markup.raw.block", 4)];
    let injections = vec![
        InjectedRegion { range: range(10, 14, (1, 2), (1, 6)), lang: "js".to_string() },
        InjectedRegion { range: range(20, 40, (1, 12), (2, 5)), lang: "css".to_string() },
        InjectedRegion { range: range(2, 5, (0, 2), (0, 5)), lang: "lua".to_string() },
    ];
    let nested = vec![
        vec![
            region(range(0, 1, (0, 0), (0, 1)), "variable", 3),
            region(range(2, 4, (0, 2), (0, 4)), "number", 1),
        ],
        vec![region(range(0, 1, (0, 0), (0, 1)), "property", 1)],
        vec![region(range(1, 3, (0, 1), (0, 3)), "keyword", 2)],
    ];
    let out = compose_layer(base, &injections, &nested, 30, 10);
    let names: Vec<&str> = out.iter().map(|r| r.highlight.as_str()).collect();
    assert_eq!(names, vec!["markup.raw.block", "variable", "number", "keyword"]);
    assert_eq!(out[1].range, range(10, 11, (1, 2), (1, 3)));
    assert_eq!(out[1].pattern_index, 30);
    assert_eq!(out[2].range, range(12, 14, (1, 4), (1, 6)));
    assert_eq!(out[3].range, range(3, 5, (0, 3), (0, 5)));
    assert_eq!(out[3].pattern_index, 20);
}
