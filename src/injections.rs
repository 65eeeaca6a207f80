use vstd::prelude::*;
use vstd::utf8::{decode_utf8, valid_utf8};

use crate::highlights::{find_property, property_value};
use crate::ranges::{Point, Range};
use crate::syntax::{
    capture_index_for_name, parse_and_match, pattern_predicates, pattern_properties,
    set_parser_language, GeneralPredicate, MatchCapture, PatternMatch, PatternProperty,
    PredicateArg,
};
use crate::text::{equals_literal, parse_isize, signed_decimal, string_from_utf8};
use crate::HighlightError;

verus! {

/// A sub-range of the source to highlight with another language.
#[derive(Clone, Debug)]
pub struct InjectedRegion {
    pub range: Range,
    pub lang: String,
}

/// Signed row and column shifts for the two ends of a range.
#[derive(Clone, Copy, Debug, PartialEq, Eq, Structural)]
pub struct RangeOffset {
    pub start_row: isize,
    pub start_col: isize,
    pub end_row: isize,
    pub end_col: isize,
}

/// Adds a signed offset to a coordinate.
pub fn calculate_point_offset(value: usize, offset: isize) -> (r: usize)
    requires
        0 <= value + offset <= usize::MAX,
    ensures
        r == value + offset,
{
    if offset >= 0 {
        value + (offset as usize)
    } else {
        let neg: usize = (-(offset + 1)) as usize;
        value - neg - 1
    }
}

pub open spec fn is_continuation(b: u8) -> bool {
    0x80 <= b < 0xc0
}

/// From the start of a line at `pos`, where line `row` (counted from there)
/// starts; none if the text ends first.
pub open spec fn line_start(s: Seq<u8>, pos: int, row: nat) -> Option<int>
    decreases s.len() - pos,
{
    if pos < 0 || pos >= s.len() {
        None
    } else if row == 0 {
        Some(pos)
    } else if s[pos] == 10 {
        line_start(s, pos + 1, (row - 1) as nat)
    } else {
        line_start(s, pos + 1, row)
    }
}

/// The first position at or after `p` that is not a UTF-8 continuation byte.
pub open spec fn skip_continuation(s: Seq<u8>, p: int) -> int
    decreases s.len() - p,
{
    if 0 <= p < s.len() && is_continuation(s[p]) {
        skip_continuation(s, p + 1)
    } else {
        p
    }
}

/// The byte position `col` characters on from `pos` within its line; a line's
/// newline is its last character, and a column past it stops after it.
pub open spec fn advance_columns(s: Seq<u8>, pos: int, col: nat) -> int
    decreases col,
{
    if pos < 0 || pos >= s.len() || col == 0 {
        pos
    } else if s[pos] == 10 {
        pos + 1
    } else {
        advance_columns(s, skip_continuation(s, pos + 1), (col - 1) as nat)
    }
}

/// The byte offset of a row and column (in characters) of UTF-8 text; none
/// when the text has no such row.
pub open spec fn point_byte(s: Seq<u8>, row: nat, col: nat) -> Option<int> {
    match line_start(s, 0, row) {
        Some(p) => Some(advance_columns(s, p, col)),
        None => None,
    }
}

/// Converts a point to a byte offset of the UTF-8 `source`.
pub fn point_to_byte(source: &[u8], point: Point) -> (r: Option<usize>)
    ensures
        match point_byte(source@, point.row as nat, point.column as nat) {
            Some(b) => r == Some(b as usize) && b <= source@.len(),
            None => r is None,
        },
{
    let len = source.len();
    let mut pos: usize = 0;
    let mut row: usize = point.row;
    while pos < len && row > 0
        invariant
            len == source@.len(),
            pos <= len,
            line_start(source@, 0, point.row as nat) == line_start(source@, pos as int, row as nat),
        decreases len - pos,
    {
        if source[pos] == 10u8 {
            row = row - 1;
        }
        pos = pos + 1;
    }
    if pos >= len {
        return None;
    }
    let mut col: usize = point.column;
    while pos < len && col > 0
        invariant
            len == source@.len(),
            pos <= len,
            point_byte(source@, point.row as nat, point.column as nat) == Some(
                advance_columns(source@, pos as int, col as nat),
            ),
        decreases col,
    {
        if source[pos] == 10u8 {
            return Some(pos + 1);
        }
        pos = pos + 1;
        while pos < len && 0x80u8 <= source[pos] && source[pos] < 0xc0u8
            invariant
                len == source@.len(),
                pos <= len,
                point_byte(source@, point.row as nat, point.column as nat) == Some(
                    advance_columns(source@, skip_continuation(source@, pos as int), (col - 1) as nat),
                ),
            decreases len - pos,
        {
            pos = pos + 1;
        }
        col = col - 1;
    }
    Some(pos)
}

/// A coordinate moved by a signed offset, if the result is a valid coordinate.
pub open spec fn shifted(v: usize, d: isize) -> Option<usize> {
    if 0 <= v + d <= usize::MAX {
        Some((v + d) as usize)
    } else {
        None
    }
}

/// A range with its points shifted by the offset and its bytes recomputed
/// from the new points; none when a coordinate or point leaves the text.
pub open spec fn offset_range(s: Seq<u8>, r: Range, off: RangeOffset) -> Option<Range> {
    match (
        shifted(r.start_point.row, off.start_row),
        shifted(r.start_point.column, off.start_col),
        shifted(r.end_point.row, off.end_row),
        shifted(r.end_point.column, off.end_col),
    ) {
        (Some(sr), Some(sc), Some(er), Some(ec)) => match (
            point_byte(s, sr as nat, sc as nat),
            point_byte(s, er as nat, ec as nat),
        ) {
            (Some(sb), Some(eb)) => Some(
                Range {
                    start_byte: sb as usize,
                    end_byte: eb as usize,
                    start_point: Point { row: sr, column: sc },
                    end_point: Point { row: er, column: ec },
                },
            ),
            _ => None,
        },
        _ => None,
    }
}

fn shift(v: usize, d: isize) -> (r: Option<usize>)
    ensures
        r == shifted(v, d),
{
    if d >= 0 {
        if v <= usize::MAX - (d as usize) {
            Some(calculate_point_offset(v, d))
        } else {
            None
        }
    } else {
        let neg: usize = (-(d + 1)) as usize;
        if v > neg {
            Some(calculate_point_offset(v, d))
        } else {
            None
        }
    }
}

/// Applies an `offset!` adjustment to a captured range of `source`.
pub fn apply_offset_to_range(source: &[u8], range: &Range, offset: &RangeOffset) -> (r: Option<Range>)
    ensures
        r == offset_range(source@, *range, *offset),
{
    let sr = shift(range.start_point.row, offset.start_row);
    let sc = shift(range.start_point.column, offset.start_col);
    let er = shift(range.end_point.row, offset.end_row);
    let ec = shift(range.end_point.column, offset.end_col);
    match (sr, sc, er, ec) {
        (Some(sr), Some(sc), Some(er), Some(ec)) => {
            let start_point = Point { row: sr, column: sc };
            let end_point = Point { row: er, column: ec };
            match (point_to_byte(source, start_point), point_to_byte(source, end_point)) {
                (Some(sb), Some(eb)) => Some(
                    Range { start_byte: sb, end_byte: eb, start_point, end_point },
                ),
                _ => None,
            }
        },
        _ => None,
    }
}

/// The number a text argument names, if it fits an `isize`.
pub open spec fn arg_number(a: PredicateArg) -> Option<isize> {
    match a {
        PredicateArg::Text(t) => match signed_decimal(t@) {
            Some(v) => if isize::MIN <= v <= isize::MAX {
                Some(v as isize)
            } else {
                None
            },
            None => None,
        },
        _ => None,
    }
}

/// The capture and shifts of an `offset!` predicate: a capture and four
/// numerals, exactly.
pub open spec fn parsed_offset(pred: GeneralPredicate) -> Option<(u32, RangeOffset)> {
    let a = pred.args@;
    if a.len() != 5 {
        None
    } else {
        match (a[0], arg_number(a[1]), arg_number(a[2]), arg_number(a[3]), arg_number(a[4])) {
            (PredicateArg::Capture(c), Some(sr), Some(sc), Some(er), Some(ec)) => Some(
                (c, RangeOffset { start_row: sr, start_col: sc, end_row: er, end_col: ec }),
            ),
            _ => None,
        }
    }
}

fn number_arg(a: &PredicateArg) -> (r: Option<isize>)
    ensures
        r == arg_number(*a),
{
    match a {
        PredicateArg::Text(t) => parse_isize(t.as_str()),
        _ => None,
    }
}

/// Reads the arguments of an `offset!` predicate.
pub fn parse_offset_predicate(pred: &GeneralPredicate) -> (r: Option<(u32, RangeOffset)>)
    ensures
        r == parsed_offset(*pred),
{
    if pred.args.len() != 5 {
        return None;
    }
    let capture = match &pred.args[0] {
        PredicateArg::Capture(c) => *c,
        _ => return None,
    };
    match (
        number_arg(&pred.args[1]),
        number_arg(&pred.args[2]),
        number_arg(&pred.args[3]),
        number_arg(&pred.args[4]),
    ) {
        (Some(sr), Some(sc), Some(er), Some(ec)) => Some(
            (capture, RangeOffset { start_row: sr, start_col: sc, end_row: er, end_col: ec }),
        ),
        _ => None,
    }
}

/// The adjustment that the last well-formed `offset!` predicate for the
/// capture asks for.
pub open spec fn offset_modifier(preds: Seq<GeneralPredicate>, capture: u32) -> Option<RangeOffset>
    decreases preds.len(),
{
    if preds.len() == 0 {
        None
    } else {
        let p = preds.last();
        if p.operator@ == "offset!"@ && parsed_offset(p) is Some && parsed_offset(p)->Some_0.0
            == capture {
            Some(parsed_offset(p)->Some_0.1)
        } else {
            offset_modifier(preds.drop_last(), capture)
        }
    }
}

/// Finds the offset adjustment a pattern's predicates declare for a capture.
pub fn get_offset_modifier(predicates: &Vec<GeneralPredicate>, capture: u32) -> (r: Option<RangeOffset>)
    ensures
        r == offset_modifier(predicates@, capture),
{
    let mut i: usize = predicates.len();
    assert(predicates@.subrange(0, i as int) =~= predicates@);
    while i > 0
        invariant
            i <= predicates.len(),
            offset_modifier(predicates@, capture) == offset_modifier(predicates@.subrange(0, i as int), capture),
        decreases i,
    {
        proof {
            assert(predicates@.subrange(0, i as int).drop_last() =~= predicates@.subrange(0, i - 1));
        }
        let pred = &predicates[i - 1];
        if equals_literal(&pred.operator, "offset!") {
            match parse_offset_predicate(pred) {
                Some((c, off)) => {
                    if c == capture {
                        return Some(off);
                    }
                },
                None => {},
            }
        }
        i = i - 1;
    }
    None
}

/// The language that the first `injection.language` property names, if it
/// has a value.
pub open spec fn property_language(props: Seq<PatternProperty>) -> Option<String> {
    match property_value(props, "injection.language"@) {
        Some(v) => v,
        None => None,
    }
}

/// The language a pattern's properties name.
pub fn get_lang_name(properties: &Vec<PatternProperty>) -> (r: Option<String>)
    ensures
        r == property_language(properties@),
{
    match find_property(properties, "injection.language") {
        Some(v) => v,
        None => None,
    }
}

/// The last capture of the match with the given index.
pub open spec fn last_capture(caps: Seq<MatchCapture>, idx: u32) -> Option<MatchCapture>
    decreases caps.len(),
{
    if caps.len() == 0 {
        None
    } else if caps.last().index == idx {
        Some(caps.last())
    } else {
        last_capture(caps.drop_last(), idx)
    }
}

fn find_last_capture(caps: &Vec<MatchCapture>, idx: u32) -> (r: Option<MatchCapture>)
    ensures
        r == last_capture(caps@, idx),
{
    let mut i: usize = caps.len();
    assert(caps@.subrange(0, i as int) =~= caps@);
    while i > 0
        invariant
            i <= caps.len(),
            last_capture(caps@, idx) == last_capture(caps@.subrange(0, i as int), idx),
        decreases i,
    {
        proof {
            assert(caps@.subrange(0, i as int).drop_last() =~= caps@.subrange(0, i - 1));
        }
        if caps[i - 1].index == idx {
            return Some(caps[i - 1]);
        }
        i = i - 1;
    }
    None
}

/// The text a range covers, when it lies within the source and is UTF-8.
pub open spec fn range_text(s: Seq<u8>, r: Range) -> Option<Seq<char>> {
    if r.start_byte <= r.end_byte <= s.len() && valid_utf8(
        s.subrange(r.start_byte as int, r.end_byte as int),
    ) {
        Some(decode_utf8(s.subrange(r.start_byte as int, r.end_byte as int)))
    } else {
        None
    }
}

fn text_of_range(source: &[u8], r: &Range) -> (t: Option<String>)
    ensures
        match range_text(source@, *r) {
            Some(v) => t is Some && t->Some_0@ == v,
            None => t is None,
        },
{
    if r.start_byte <= r.end_byte && r.end_byte <= source.len() {
        string_from_utf8(&source[r.start_byte..r.end_byte])
    } else {
        None
    }
}

/// The language a match injects: the pattern's `injection.language` property,
/// else the text of its last language capture.
pub open spec fn match_language(
    m: PatternMatch,
    props: Seq<PatternProperty>,
    s: Seq<u8>,
    lang_idx: Option<u32>,
) -> Option<Seq<char>> {
    match property_language(props) {
        Some(l) => Some(l@),
        None => match lang_idx {
            Some(li) => match last_capture(m.captures@, li) {
                Some(c) => range_text(s, c.range),
                None => None,
            },
            None => None,
        },
    }
}

/// The injection one match declares: its language and the range of its last
/// content capture, moved by the `offset!` adjustment for that capture if the
/// pattern declares one. None when the pattern is unknown, a part is missing,
/// or the adjusted range leaves the text.
pub open spec fn match_injection(
    m: PatternMatch,
    props: Seq<Vec<PatternProperty>>,
    preds: Seq<Vec<GeneralPredicate>>,
    s: Seq<u8>,
    lang_idx: Option<u32>,
    content_idx: u32,
) -> Option<(Range, Seq<char>)> {
    let p = m.pattern_index as int;
    if p >= props.len() || p >= preds.len() {
        None
    } else {
        match match_language(m, props[p]@, s, lang_idx) {
            None => None,
            Some(lang) => match last_capture(m.captures@, content_idx) {
                None => None,
                Some(c) => match offset_modifier(preds[p]@, c.index) {
                    Some(off) => match offset_range(s, c.range, off) {
                        Some(r) => Some((r, lang)),
                        None => None,
                    },
                    None => Some((c.range, lang)),
                },
            },
        }
    }
}

/// The injections of all matches, in match order.
pub open spec fn matches_injections(
    ms: Seq<PatternMatch>,
    props: Seq<Vec<PatternProperty>>,
    preds: Seq<Vec<GeneralPredicate>>,
    s: Seq<u8>,
    lang_idx: Option<u32>,
    content_idx: u32,
) -> Seq<(Range, Seq<char>)>
    decreases ms.len(),
{
    if ms.len() == 0 {
        Seq::empty()
    } else {
        let before = matches_injections(ms.drop_last(), props, preds, s, lang_idx, content_idx);
        match match_injection(ms.last(), props, preds, s, lang_idx, content_idx) {
            Some(x) => before.push(x),
            None => before,
        }
    }
}

pub open spec fn injection_views(v: Seq<InjectedRegion>) -> Seq<(Range, Seq<char>)> {
    v.map_values(|x: InjectedRegion| (x.range, x.lang@))
}

fn injection_of_match(
    m: &PatternMatch,
    properties: &Vec<Vec<PatternProperty>>,
    predicates: &Vec<Vec<GeneralPredicate>>,
    source: &[u8],
    lang_index: Option<u32>,
    content_index: u32,
) -> (r: Option<InjectedRegion>)
    ensures
        match match_injection(*m, properties@, predicates@, source@, lang_index, content_index) {
            Some(x) => r is Some && x == (r->Some_0.range, r->Some_0.lang@),
            None => r is None,
        },
{
    let p = m.pattern_index;
    if p >= properties.len() || p >= predicates.len() {
        return None;
    }
    let lang = match get_lang_name(&properties[p]) {
        Some(l) => l,
        None => match lang_index {
            Some(li) => match find_last_capture(&m.captures, li) {
                Some(c) => match text_of_range(source, &c.range) {
                    Some(t) => t,
                    None => return None,
                },
                None => return None,
            },
            None => return None,
        },
    };
    let content = match find_last_capture(&m.captures, content_index) {
        Some(c) => c,
        None => return None,
    };
    let range = match get_offset_modifier(&predicates[p], content.index) {
        Some(off) => match apply_offset_to_range(source, &content.range, &off) {
            Some(r) => r,
            None => return None,
        },
        None => content.range,
    };
    Some(InjectedRegion { range, lang })
}

/// Turns the matches of an injections query into injected regions.
pub fn extract_injections(
    matches: &Vec<PatternMatch>,
    properties: &Vec<Vec<PatternProperty>>,
    predicates: &Vec<Vec<GeneralPredicate>>,
    source: &[u8],
    lang_index: Option<u32>,
    content_index: u32,
) -> (r: Vec<InjectedRegion>)
    ensures
        injection_views(r@) == matches_injections(
            matches@,
            properties@,
            predicates@,
            source@,
            lang_index,
            content_index,
        ),
{
    let mut out: Vec<InjectedRegion> = Vec::new();
    let mut i: usize = 0;
    assert(injection_views(out@) =~= Seq::<(Range, Seq<char>)>::empty());
    while i < matches.len()
        invariant
            i <= matches.len(),
            injection_views(out@) == matches_injections(
                matches@.subrange(0, i as int),
                properties@,
                predicates@,
                source@,
                lang_index,
                content_index,
            ),
        decreases matches.len() - i,
    {
        proof {
            assert(matches@.subrange(0, i + 1).drop_last() =~= matches@.subrange(0, i as int));
        }
        match injection_of_match(&matches[i], properties, predicates, source, lang_index, content_index) {
            Some(region) => {
                let ghost before = out@;
                out.push(region);
                proof {
                    assert(injection_views(out@) =~= injection_views(before).push((region.range, region.lang@)));
                }
            },
            None => {},
        }
        i = i + 1;
    }
    assert(matches@.subrange(0, matches@.len() as int) =~= matches@);
    out
}

/// Runs an injections query over a parse of `source` and returns the regions
/// to highlight with other languages. Fails with `InvalidText` when the source
/// is not UTF-8, and with `ParseFailure` when the grammar cannot be set or the
/// parse yields no tree; a query without an `injection.content` capture
/// injects nothing.
pub fn query_injections(
    parser: &mut tree_sitter::Parser,
    lang: &tree_sitter::Language,
    source: &[u8],
    query: &tree_sitter::Query,
) -> (r: Result<Vec<InjectedRegion>, HighlightError>)
    ensures
        !valid_utf8(source@) <==> r == Err::<Vec<InjectedRegion>, HighlightError>(HighlightError::InvalidText),
        r is Err ==> r->Err_0 == HighlightError::InvalidText || r->Err_0 == HighlightError::ParseFailure,
        r is Ok ==> r->Ok_0@.len() == 0 || exists|
            ms: Seq<PatternMatch>,
            props: Seq<Vec<PatternProperty>>,
            preds: Seq<Vec<GeneralPredicate>>,
            lang_idx: Option<u32>,
            content_idx: u32,
        | injection_views(r->Ok_0@) == matches_injections(ms, props, preds, source@, lang_idx, content_idx),
{
    if string_from_utf8(source).is_none() {
        return Err(HighlightError::InvalidText);
    }
    if !set_parser_language(parser, lang) {
        return Err(HighlightError::ParseFailure);
    }
    let matches = match parse_and_match(parser, query, source) {
        Some(m) => m,
        None => return Err(HighlightError::ParseFailure),
    };
    let lang_index = capture_index_for_name(query, "injection.language");
    let content_index = match capture_index_for_name(query, "injection.content") {
        Some(c) => c,
        None => return Ok(Vec::new()),
    };
    let properties = pattern_properties(query);
    let predicates = pattern_predicates(query);
    Ok(extract_injections(&matches, &properties, &predicates, source, lang_index, content_index))
}

} // verus!
