use vstd::prelude::*;

use crate::syntax::new_query;
use crate::text::{push_str, to_chars};
use crate::HighlightError;

verus! {

/// Unicode's White_Space characters, those that `char::is_whitespace` accepts.
pub open spec fn is_white_space(c: char) -> bool {
    ||| ('\u{9}' <= c <= '\u{d}')
    ||| c == ' '
    ||| c == '\u{85}'
    ||| c == '\u{a0}'
    ||| c == '\u{1680}'
    ||| ('\u{2000}' <= c <= '\u{200a}')
    ||| c == '\u{2028}'
    ||| c == '\u{2029}'
    ||| c == '\u{202f}'
    ||| c == '\u{205f}'
    ||| c == '\u{3000}'
}

fn white_space(c: char) -> (r: bool)
    ensures
        r == is_white_space(c),
{
    ('\u{9}' <= c && c <= '\u{d}') || c == ' ' || c == '\u{85}' || c == '\u{a0}' || c == '\u{1680}'
        || ('\u{2000}' <= c && c <= '\u{200a}') || c == '\u{2028}' || c == '\u{2029}' || c
        == '\u{202f}' || c == '\u{205f}' || c == '\u{3000}'
}

/// The marker that makes an override file extend the query before it.
pub open spec fn extends_marker() -> Seq<char> {
    seq![';', ';', ' ', 'e', 'x', 't', 'e', 'n', 'd', 's']
}

/// Index of the first character that is not white space (the length if none).
pub open spec fn first_non_space(s: Seq<char>, i: int) -> int
    decreases s.len() - i,
{
    if i < s.len() && is_white_space(s[i]) {
        first_non_space(s, i + 1)
    } else {
        i
    }
}

/// The first non-blank line of the text, trimmed of leading white space, starts
/// with the extends marker.
pub open spec fn extends_query(s: Seq<char>) -> bool {
    let start = first_non_space(s, 0);
    &&& start >= 0
    &&& start + extends_marker().len() <= s.len()
    &&& s.subrange(start, start + extends_marker().len()) == extends_marker()
}

/// `overlay` appended to `base`, with a newline between unless `base` already
/// ends in one; an empty side yields the other.
pub open spec fn merged_query(base: Seq<char>, overlay: Seq<char>) -> Seq<char> {
    if base.len() == 0 {
        overlay
    } else if overlay.len() == 0 {
        base
    } else if base.last() == '\n' {
        base + overlay
    } else {
        base + seq!['\n'] + overlay
    }
}

/// The query after applying each override file in turn: one that extends is
/// merged after the query so far, any other replaces it.
pub open spec fn composed_query(base: Seq<char>, overrides: Seq<Seq<char>>) -> Seq<char>
    decreases overrides.len(),
{
    if overrides.len() == 0 {
        base
    } else {
        let so_far = composed_query(base, overrides.drop_last());
        if extends_query(overrides.last()) {
            merged_query(so_far, overrides.last())
        } else {
            overrides.last()
        }
    }
}

/// The files' contents joined with newlines.
pub open spec fn joined_files(files: Seq<Seq<char>>) -> Seq<char>
    decreases files.len(),
{
    if files.len() == 0 {
        Seq::empty()
    } else if files.len() == 1 {
        files[0]
    } else {
        joined_files(files.drop_last()) + seq!['\n'] + files.last()
    }
}

pub open spec fn string_views(v: Seq<String>) -> Seq<Seq<char>> {
    v.map_values(|s: String| s@)
}

proof fn lemma_newline_literal()
    ensures
        "\n"@ == seq!['\n'],
{
    reveal_strlit("\n");
    assert("\n"@ =~= seq!['\n']);
}

/// Appends `overlay` to `base` as `merged_query` says.
pub fn merge_queries(base: &str, overlay: &str) -> (r: String)
    ensures
        r@ == merged_query(base@, overlay@),
{
    let base_chars = to_chars(base);
    if base_chars.len() == 0 {
        return overlay.to_owned();
    }
    let overlay_chars = to_chars(overlay);
    if overlay_chars.len() == 0 {
        return base.to_owned();
    }
    let mut merged = base.to_owned();
    if base_chars[base_chars.len() - 1] != '\n' {
        proof {
            lemma_newline_literal();
        }
        push_str(&mut merged, "\n");
    }
    push_str(&mut merged, overlay);
    merged
}

/// Whether an override file extends the query before it rather than replacing it.
pub fn is_extending(contents: &str) -> (r: bool)
    ensures
        r == extends_query(contents@),
{
    let chars = to_chars(contents);
    let mut i: usize = 0;
    while i < chars.len() && white_space(chars[i])
        invariant
            i <= chars.len(),
            first_non_space(chars@, 0) == first_non_space(chars@, i as int),
        decreases chars.len() - i,
    {
        i = i + 1;
    }
    assert(first_non_space(chars@, i as int) == i as int);
    let marker = vec![';', ';', ' ', 'e', 'x', 't', 'e', 'n', 'd', 's'];
    assert(marker@ =~= extends_marker());
    if chars.len() - i < marker.len() {
        return false;
    }
    let mut j: usize = 0;
    while j < marker.len()
        invariant
            i + marker.len() <= chars.len(),
            first_non_space(chars@, 0) == i as int,
            chars@ == contents@,
            j <= marker.len(),
            marker@ == extends_marker(),
            forall|k: int| 0 <= k < j ==> chars@[i + k] == marker@[k],
        decreases marker.len() - j,
    {
        if chars[i + j] != marker[j] {
            assert(chars@.subrange(i as int, i + marker.len())[j as int] != extends_marker()[j as int]);
            return false;
        }
        j = j + 1;
    }
    assert(chars@.subrange(i as int, i + marker.len()) =~= extends_marker());
    true
}

/// Joins the built-in query files of a language, in order, with newlines.
pub fn join_query_files(files: &Vec<String>) -> (r: String)
    ensures
        r@ == joined_files(string_views(files@)),
{
    let mut out = String::new();
    let mut i: usize = 0;
    proof {
        lemma_newline_literal();
    }
    while i < files.len()
        invariant
            i <= files.len(),
            "\n"@ == seq!['\n'],
            out@ == joined_files(string_views(files@.subrange(0, i as int))),
        decreases files.len() - i,
    {
        proof {
            let s = string_views(files@.subrange(0, i + 1));
            assert(s.drop_last() =~= string_views(files@.subrange(0, i as int)));
            assert(s.last() == files@[i as int]@);
            if i == 0 {
                assert(string_views(files@.subrange(0, 0)) =~= Seq::<Seq<char>>::empty());
            }
        }
        if i > 0 {
            push_str(&mut out, "\n");
        }
        push_str(&mut out, files[i].as_str());
        i = i + 1;
    }
    assert(files@.subrange(0, files@.len() as int) =~= files@);
    out
}

/// Applies the override files found for a query, in search order, to the
/// joined built-in query.
pub fn compose_query(base: &str, overrides: &Vec<String>) -> (r: String)
    ensures
        r@ == composed_query(base@, string_views(overrides@)),
{
    let mut result = base.to_owned();
    let mut i: usize = 0;
    while i < overrides.len()
        invariant
            i <= overrides.len(),
            result@ == composed_query(base@, string_views(overrides@.subrange(0, i as int))),
        decreases overrides.len() - i,
    {
        proof {
            let s = string_views(overrides@.subrange(0, i + 1));
            assert(s.drop_last() =~= string_views(overrides@.subrange(0, i as int)));
        }
        let contents = overrides[i].as_str();
        if is_extending(contents) {
            result = merge_queries(result.as_str(), contents);
        } else {
            result = contents.to_owned();
        }
        i = i + 1;
    }
    assert(overrides@.subrange(0, overrides@.len() as int) =~= overrides@);
    result
}

/// Compiles the query of one kind for a grammar: the built-in files joined,
/// then the override files found applied in search order. Fails with
/// `QueryCompileError` when the text does not compile.
pub fn compile_query(
    lang: &tree_sitter::Language,
    base_files: &Vec<String>,
    overrides: &Vec<String>,
) -> (r: Result<tree_sitter::Query, HighlightError>)
    ensures
        r is Err ==> r == Err::<tree_sitter::Query, HighlightError>(HighlightError::QueryCompileError),
{
    let base = join_query_files(base_files);
    let text = compose_query(base.as_str(), overrides);
    match new_query(lang, text.as_str()) {
        Some(q) => Ok(q),
        None => Err(HighlightError::QueryCompileError),
    }
}

/// An override file that starts with the extends marker is appended to a
/// non-empty base, after a newline unless the base already ends in one; any
/// other override file replaces the base.
pub proof fn lemma_override_convention(base: Seq<char>, overlay: Seq<char>)
    requires
        base.len() > 0,
    ensures
        extends_query(overlay) && base.last() == '\n' ==> composed_query(base, seq![overlay])
            == base + overlay,
        extends_query(overlay) && base.last() != '\n' ==> composed_query(base, seq![overlay])
            == base + seq!['\n'] + overlay,
        !extends_query(overlay) ==> composed_query(base, seq![overlay]) == overlay,
{
    let ovs = seq![overlay];
    assert(ovs.drop_last() =~= Seq::<Seq<char>>::empty());
    assert(ovs.last() == overlay);
    assert(composed_query(base, ovs.drop_last()) == base);
    if extends_query(overlay) {
        assert(extends_marker().len() == 10);
        assert(overlay.len() > 0);
        assert(composed_query(base, ovs) == merged_query(base, overlay));
    }
}

} // verus!
