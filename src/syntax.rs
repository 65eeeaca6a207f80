use vstd::prelude::*;

use crate::ranges;

verus! {

#[verifier::external_type_specification]
#[verifier::external_body]
pub struct ExParser(tree_sitter::Parser);

#[verifier::external_type_specification]
#[verifier::external_body]
pub struct ExLanguage(tree_sitter::Language);

#[verifier::external_type_specification]
#[verifier::external_body]
pub struct ExQuery(tree_sitter::Query);

/// One captured node of a query match: the capture's index and the node's span.
#[derive(Clone, Copy, Debug)]
pub struct MatchCapture {
    pub index: u32,
    pub range: ranges::Range,
}

/// One match of a pattern-query: the pattern that matched and its captures.
#[derive(Clone, Debug)]
pub struct PatternMatch {
    pub pattern_index: usize,
    pub captures: Vec<MatchCapture>,
}

/// A `#set!` property of a pattern.
#[derive(Clone, Debug)]
pub struct PatternProperty {
    pub key: String,
    pub value: Option<String>,
}

/// An argument of a general predicate.
#[derive(Clone, Debug)]
pub enum PredicateArg {
    Capture(u32),
    Text(String),
}

/// A general predicate of a pattern: its operator and its arguments.
#[derive(Clone, Debug)]
pub struct GeneralPredicate {
    pub operator: String,
    pub args: Vec<PredicateArg>,
}

/// Relies on `tree_sitter::Parser::new`: a parser with no language set.
pub assume_specification[ tree_sitter::Parser::new ]() -> tree_sitter::Parser;

/// Relies on `tree_sitter::Parser::set_language`: whether the grammar's ABI
/// version is one the parser accepts.
#[verifier::external_body]
pub(crate) fn set_parser_language(parser: &mut tree_sitter::Parser, lang: &tree_sitter::Language) -> (r: bool) {
    parser.set_language(lang).is_ok()
}

/// The span with the given byte offsets and points.
pub fn span(
    start_byte: usize,
    end_byte: usize,
    start_row: usize,
    start_column: usize,
    end_row: usize,
    end_column: usize,
) -> (r: ranges::Range)
    ensures
        r == (ranges::Range {
            start_byte,
            end_byte,
            start_point: ranges::Point { row: start_row, column: start_column },
            end_point: ranges::Point { row: end_row, column: end_column },
        }),
{
    ranges::Range {
        start_byte,
        end_byte,
        start_point: ranges::Point { row: start_row, column: start_column },
        end_point: ranges::Point { row: end_row, column: end_column },
    }
}

/// Relies on `tree_sitter::Parser::parse` and `tree_sitter::QueryCursor::matches`:
/// parses `source` afresh and yields every match of the query over that tree's
/// root node, in the order the cursor yields them, reading node text from the
/// same `source`; none when parsing did not finish.
#[verifier::external_body]
pub(crate) fn parse_and_match(parser: &mut tree_sitter::Parser, query: &tree_sitter::Query, source: &[u8]) -> (r: Option<Vec<PatternMatch>>) {
    let tree = parser.parse(source, None)?;
    let mut cursor = tree_sitter::QueryCursor::new();
    let mut matches = cursor.matches(query, tree.root_node(), source);
    let mut out = Vec::new();
    while let Some(m) = tree_sitter::StreamingIterator::next(&mut matches) {
        let captures = m.captures.iter().map(|c| {
            let r = c.node.range();
            let (s, e) = (r.start_point, r.end_point);
            MatchCapture { index: c.index, range: span(r.start_byte, r.end_byte, s.row, s.column, e.row, e.column) }
        });
        out.push(PatternMatch { pattern_index: m.pattern_index, captures: captures.collect() });
    }
    Some(out)
}

/// Relies on `tree_sitter::Query::capture_names`: the name of each capture,
/// indexed by capture index.
#[verifier::external_body]
pub(crate) fn capture_names(query: &tree_sitter::Query) -> (r: Vec<String>) {
    query.capture_names().iter().map(|n| n.to_string()).collect()
}

/// Relies on `tree_sitter::Query::capture_index_for_name`: the index of the
/// capture with that name, if the query has one.
#[verifier::external_body]
pub(crate) fn capture_index_for_name(query: &tree_sitter::Query, name: &str) -> (r: Option<u32>) {
    query.capture_index_for_name(name)
}

/// Relies on `tree_sitter::Query::property_settings`: the properties of each
/// pattern, indexed by pattern index.
#[verifier::external_body]
pub(crate) fn pattern_properties(query: &tree_sitter::Query) -> (r: Vec<Vec<PatternProperty>>) {
    (0..query.pattern_count()).map(|i| query.property_settings(i).iter().map(|p| PatternProperty {
        key: p.key.to_string(),
        value: p.value.as_ref().map(|v| v.to_string()),
    }).collect()).collect()
}

/// Relies on `tree_sitter::Query::general_predicates`: the general predicates
/// of each pattern, indexed by pattern index.
#[verifier::external_body]
pub(crate) fn pattern_predicates(query: &tree_sitter::Query) -> (r: Vec<Vec<GeneralPredicate>>) {
    (0..query.pattern_count()).map(|i| query.general_predicates(i).iter().map(|p| GeneralPredicate {
        operator: p.operator.to_string(),
        args: p.args.iter().map(|a| match a {
            tree_sitter::QueryPredicateArg::Capture(c) => PredicateArg::Capture(*c),
            tree_sitter::QueryPredicateArg::String(s) => PredicateArg::Text(s.to_string()),
        }).collect(),
    }).collect()).collect()
}

/// Relies on `tree_sitter::Query::new`: compiles query text for a grammar, or
/// fails when the text does not compile.
#[verifier::external_body]
pub(crate) fn new_query(lang: &tree_sitter::Language, source: &str) -> (r: Option<tree_sitter::Query>) {
    tree_sitter::Query::new(lang, source).ok()
}

} // verus!
