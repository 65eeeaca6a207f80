use vstd::prelude::*;

use crate::ranges::Range;
use crate::syntax::{
    capture_names, parse_and_match, pattern_predicates, pattern_properties, set_parser_language,
    GeneralPredicate, MatchCapture, PatternMatch, PatternProperty,
};
use crate::text::{equals_literal, parse_u32, unsigned_decimal};
use crate::HighlightError;

verus! {

/// One candidate highlighted span: a capture name over a range, with the
/// priority of its pattern and a key that breaks ties between equal spans.
#[derive(Clone, Debug)]
pub struct HighlightRegion {
    pub range: Range,
    pub highlight: String,
    pub priority: u32,
    pub pattern_index: u32,
}

/// What a capture name asks for.
#[derive(Clone, Copy, Debug, PartialEq, Eq, Structural)]
pub enum CaptureKind {
    Spell,
    NoSpell,
    Conceal,
    Private,
    Highlight,
}

pub open spec fn capture_kind(name: Seq<char>) -> CaptureKind {
    if name == "spell"@ {
        CaptureKind::Spell
    } else if name == "nospell"@ {
        CaptureKind::NoSpell
    } else if name == "conceal"@ {
        CaptureKind::Conceal
    } else if name.len() > 0 && name[0] == '_' {
        CaptureKind::Private
    } else {
        CaptureKind::Highlight
    }
}

/// Sorts a capture name into the spelling and concealment hints, the private
/// names (a leading `_`), and the names that mark a highlight.
pub fn classify_capture(name: &String) -> (r: CaptureKind)
    ensures
        r == capture_kind(name@),
{
    if equals_literal(name, "spell") {
        CaptureKind::Spell
    } else if equals_literal(name, "nospell") {
        CaptureKind::NoSpell
    } else if equals_literal(name, "conceal") {
        CaptureKind::Conceal
    } else {
        let chars = crate::text::to_chars(name.as_str());
        if chars.len() > 0 && chars[0] == '_' {
            CaptureKind::Private
        } else {
            CaptureKind::Highlight
        }
    }
}

/// The value of the first property with the given key, if it has one.
pub open spec fn property_value(props: Seq<PatternProperty>, key: Seq<char>) -> Option<Option<String>>
    decreases props.len(),
{
    if props.len() == 0 {
        None
    } else if props[0].key@ == key {
        Some(props[0].value)
    } else {
        property_value(props.drop_first(), key)
    }
}

/// The priority that the first `priority` property sets, when its value is a
/// numeral that fits a `u32`.
pub open spec fn priority_of(props: Seq<PatternProperty>) -> Option<u32> {
    match property_value(props, "priority"@) {
        Some(Some(v)) => match unsigned_decimal(v@) {
            Some(n) => if 0 <= n <= u32::MAX {
                Some(n as u32)
            } else {
                None
            },
            None => None,
        },
        _ => None,
    }
}

/// Finds the value of the first property with key `key`.
pub fn find_property(props: &Vec<PatternProperty>, key: &str) -> (r: Option<Option<String>>)
    ensures
        r == property_value(props@, key@),
{
    let mut i: usize = 0;
    assert(props@.skip(0) =~= props@);
    while i < props.len()
        invariant
            i <= props.len(),
            property_value(props@, key@) == property_value(props@.skip(i as int), key@),
        decreases props.len() - i,
    {
        proof {
            assert(props@.skip(i as int).drop_first() =~= props@.skip(i + 1));
        }
        if equals_literal(&props[i].key, key) {
            return Some(props[i].value.clone());
        }
        i = i + 1;
    }
    None
}

/// The priority a pattern's properties set, if any.
pub fn get_priority(properties: &Vec<PatternProperty>) -> (r: Option<u32>)
    ensures
        r == priority_of(properties@),
{
    match find_property(properties, "priority") {
        Some(Some(value)) => parse_u32(value.as_str()),
        _ => None,
    }
}

/// A pattern with a `lua-match?` predicate is left out: that predicate is not
/// evaluated, and the pattern only matches where it holds.
pub open spec fn has_unsupported_predicate(preds: Seq<GeneralPredicate>) -> bool {
    exists|i: int| 0 <= i < preds.len() && (#[trigger] preds[i]).operator@ == "lua-match?"@
}

fn any_unsupported_predicate(preds: &Vec<GeneralPredicate>) -> (r: bool)
    ensures
        r == has_unsupported_predicate(preds@),
{
    let mut i: usize = 0;
    while i < preds.len()
        invariant
            i <= preds.len(),
            forall|k: int| 0 <= k < i ==> (#[trigger] preds@[k]).operator@ != "lua-match?"@,
        decreases preds.len() - i,
    {
        if equals_literal(&preds[i].operator, "lua-match?") {
            return true;
        }
        i = i + 1;
    }
    false
}

/// The regions of a match's captures, one for each capture whose name marks a
/// highlight.
pub open spec fn capture_regions(
    caps: Seq<MatchCapture>,
    names: Seq<String>,
    priority: u32,
    pattern: u32,
) -> Seq<HighlightRegion>
    decreases caps.len(),
{
    if caps.len() == 0 {
        Seq::empty()
    } else {
        let before = capture_regions(caps.drop_last(), names, priority, pattern);
        let c = caps.last();
        if c.index < names.len() && capture_kind(names[c.index as int]@) == CaptureKind::Highlight {
            before.push(
                HighlightRegion {
                    range: c.range,
                    highlight: names[c.index as int],
                    priority,
                    pattern_index: pattern,
                },
            )
        } else {
            before
        }
    }
}

/// The regions one match yields: none if its pattern is unknown or carries an
/// unsupported predicate, else one per highlight capture, with the pattern's
/// priority (100 if it sets none).
pub open spec fn match_regions(
    m: PatternMatch,
    names: Seq<String>,
    props: Seq<Vec<PatternProperty>>,
    preds: Seq<Vec<GeneralPredicate>>,
) -> Seq<HighlightRegion> {
    let p = m.pattern_index as int;
    if p >= props.len() || p >= preds.len() || p > u32::MAX || has_unsupported_predicate(
        preds[p]@,
    ) {
        Seq::empty()
    } else {
        let priority = match priority_of(props[p]@) {
            Some(v) => v,
            None => 100u32,
        };
        capture_regions(m.captures@, names, priority, p as u32)
    }
}

/// The regions of all matches, in match order.
pub open spec fn matches_regions(
    ms: Seq<PatternMatch>,
    names: Seq<String>,
    props: Seq<Vec<PatternProperty>>,
    preds: Seq<Vec<GeneralPredicate>>,
) -> Seq<HighlightRegion>
    decreases ms.len(),
{
    if ms.len() == 0 {
        Seq::empty()
    } else {
        matches_regions(ms.drop_last(), names, props, preds) + match_regions(
            ms.last(),
            names,
            props,
            preds,
        )
    }
}

/// Turns the matches of a highlights query into candidate regions.
pub fn extract_highlights(
    matches: &Vec<PatternMatch>,
    names: &Vec<String>,
    properties: &Vec<Vec<PatternProperty>>,
    predicates: &Vec<Vec<GeneralPredicate>>,
) -> (r: Vec<HighlightRegion>)
    ensures
        r@ == matches_regions(matches@, names@, properties@, predicates@),
{
    let mut out: Vec<HighlightRegion> = Vec::new();
    let mut i: usize = 0;
    while i < matches.len()
        invariant
            i <= matches.len(),
            out@ == matches_regions(matches@.subrange(0, i as int), names@, properties@, predicates@),
        decreases matches.len() - i,
    {
        proof {
            assert(matches@.subrange(0, i + 1).drop_last() =~= matches@.subrange(0, i as int));
        }
        let m = &matches[i];
        let p = m.pattern_index;
        if p < properties.len() && p < predicates.len() && p <= 0xffff_ffffusize
            && !any_unsupported_predicate(&predicates[p]) {
            let priority = match get_priority(&properties[p]) {
                Some(v) => v,
                None => 100u32,
            };
            let ghost start = out@;
            let mut j: usize = 0;
            while j < m.captures.len()
                invariant
                    j <= m.captures.len(),
                    out@ == start + capture_regions(m.captures@.subrange(0, j as int), names@, priority, p as u32),
                decreases m.captures.len() - j,
            {
                proof {
                    assert(m.captures@.subrange(0, j + 1).drop_last() =~= m.captures@.subrange(0, j as int));
                }
                let c = m.captures[j];
                if (c.index as usize) < names.len() {
                    let name = &names[c.index as usize];
                    if classify_capture(name) == CaptureKind::Highlight {
                        out.push(HighlightRegion {
                            range: c.range,
                            highlight: name.clone(),
                            priority,
                            pattern_index: p as u32,
                        });
                    }
                }
                proof {
                    let caps = m.captures@.subrange(0, j + 1);
                    let before = capture_regions(caps.drop_last(), names@, priority, p as u32);
                    assert(out@ =~= start + capture_regions(caps, names@, priority, p as u32));
                }
                j = j + 1;
            }
            assert(m.captures@.subrange(0, m.captures@.len() as int) =~= m.captures@);
        }
        proof {
            let ms = matches@.subrange(0, i + 1);
            assert(out@ =~= matches_regions(ms.drop_last(), names@, properties@, predicates@)
                + match_regions(ms.last(), names@, properties@, predicates@));
        }
        i = i + 1;
    }
    assert(matches@.subrange(0, matches@.len() as int) =~= matches@);
    out
}

/// Runs a highlights query over a parse of `source` and returns the candidate
/// regions. Fails when the grammar cannot be set or the parse yields no tree.
pub fn query_highlights(
    parser: &mut tree_sitter::Parser,
    lang: &tree_sitter::Language,
    source: &[u8],
    query: &tree_sitter::Query,
) -> (r: Result<Vec<HighlightRegion>, HighlightError>)
    ensures
        r is Err ==> r == Err::<Vec<HighlightRegion>, HighlightError>(HighlightError::ParseFailure),
        r is Ok ==> exists|
            ms: Seq<PatternMatch>,
            names: Seq<String>,
            props: Seq<Vec<PatternProperty>>,
            preds: Seq<Vec<GeneralPredicate>>,
        | r->Ok_0@ == matches_regions(ms, names, props, preds),
        r is Ok ==> forall|i: int| 0 <= i < r->Ok_0@.len() ==> capture_kind(
            (#[trigger] r->Ok_0@[i]).highlight@,
        ) == CaptureKind::Highlight,
{
    if !set_parser_language(parser, lang) {
        return Err(HighlightError::ParseFailure);
    }
    let matches = match parse_and_match(parser, query, source) {
        Some(m) => m,
        None => return Err(HighlightError::ParseFailure),
    };
    let names = capture_names(query);
    let properties = pattern_properties(query);
    let predicates = pattern_predicates(query);
    let regions = extract_highlights(&matches, &names, &properties, &predicates);
    proof {
        lemma_matches_regions_highlight(matches@, names@, properties@, predicates@);
    }
    Ok(regions)
}

proof fn lemma_capture_regions_highlight(caps: Seq<MatchCapture>, names: Seq<String>, priority: u32, pattern: u32)
    ensures
        forall|i: int| 0 <= i < capture_regions(caps, names, priority, pattern).len() ==> capture_kind(
            (#[trigger] capture_regions(caps, names, priority, pattern)[i]).highlight@,
        ) == CaptureKind::Highlight,
    decreases caps.len(),
{
    if caps.len() > 0 {
        lemma_capture_regions_highlight(caps.drop_last(), names, priority, pattern);
    }
}

proof fn lemma_matches_regions_highlight(
    ms: Seq<PatternMatch>,
    names: Seq<String>,
    props: Seq<Vec<PatternProperty>>,
    preds: Seq<Vec<GeneralPredicate>>,
)
    ensures
        forall|i: int| 0 <= i < matches_regions(ms, names, props, preds).len() ==> capture_kind(
            (#[trigger] matches_regions(ms, names, props, preds)[i]).highlight@,
        ) == CaptureKind::Highlight,
    decreases ms.len(),
{
    if ms.len() > 0 {
        lemma_matches_regions_highlight(ms.drop_last(), names, props, preds);
        let m = ms.last();
        let p = m.pattern_index as int;
        if !(p >= props.len() || p >= preds.len() || p > u32::MAX || has_unsupported_predicate(preds[p]@)) {
            let priority = match priority_of(props[p]@) {
                Some(v) => v,
                None => 100u32,
            };
            lemma_capture_regions_highlight(m.captures@, names, priority, p as u32);
        }
        let a = matches_regions(ms.drop_last(), names, props, preds);
        let b = match_regions(m, names, props, preds);
        assert forall|i: int| 0 <= i < (a + b).len() implies capture_kind((#[trigger] (a + b)[i]).highlight@)
            == CaptureKind::Highlight by {
            if i >= a.len() {
                assert((a + b)[i] == b[i - a.len()]);
            }
        }
    }
}

} // verus!
