use vstd::prelude::*;

verus! {

/// A zero-based row and column in a text.
#[derive(Clone, Copy, Debug, PartialEq, Eq, Structural)]
pub struct Point {
    pub row: usize,
    pub column: usize,
}

/// A span of a text, in bytes and in rows and columns.
#[derive(Clone, Copy, Debug, PartialEq, Eq, Structural)]
pub struct Range {
    pub start_byte: usize,
    pub end_byte: usize,
    pub start_point: Point,
    pub end_point: Point,
}

} // verus!

verus! {

/// Whether shifting `h` by the start of `inj` stays within `usize`.
pub open spec fn remap_fits(inj: Range, h: Range) -> bool {
    &&& inj.start_byte + h.start_byte <= usize::MAX
    &&& inj.start_byte + h.end_byte <= usize::MAX
    &&& inj.start_point.row + h.start_point.row <= usize::MAX
    &&& inj.start_point.column + h.start_point.column <= usize::MAX
    &&& inj.start_point.row + h.end_point.row <= usize::MAX
    &&& inj.start_point.column + h.end_point.column <= usize::MAX
}

/// `h`, given relative to the injected range `inj`, in the coordinates of the
/// text around it: bytes, rows and columns each shifted by the start of `inj`
/// (rows and columns component by component, not renormalised).
pub open spec fn remapped_range(inj: Range, h: Range) -> Range {
    Range {
        start_byte: (inj.start_byte + h.start_byte) as usize,
        end_byte: (inj.start_byte + h.end_byte) as usize,
        start_point: Point {
            row: (inj.start_point.row + h.start_point.row) as usize,
            column: (inj.start_point.column + h.start_point.column) as usize,
        },
        end_point: Point {
            row: (inj.start_point.row + h.end_point.row) as usize,
            column: (inj.start_point.column + h.end_point.column) as usize,
        },
    }
}

/// Moves a range found inside an injected range into the coordinates of the
/// enclosing text.
pub fn remap_injected_region_highlight_range(injection_range: &Range, highlight_range: &Range) -> (r: Range)
    requires
        remap_fits(*injection_range, *highlight_range),
    ensures
        r == remapped_range(*injection_range, *highlight_range),
{
    Range {
        start_byte: injection_range.start_byte + highlight_range.start_byte,
        end_byte: injection_range.start_byte + highlight_range.end_byte,
        start_point: Point {
            row: injection_range.start_point.row + highlight_range.start_point.row,
            column: injection_range.start_point.column + highlight_range.start_point.column,
        },
        end_point: Point {
            row: injection_range.start_point.row + highlight_range.end_point.row,
            column: injection_range.start_point.column + highlight_range.end_point.column,
        },
    }
}

/// A span that lies within an injected range keeps its place relative to the
/// range's start: its offsets move by exactly that start, and it stays inside
/// the range.
pub proof fn lemma_injection_remap(inj: Range, h: Range)
    requires
        inj.start_byte <= inj.end_byte,
        h.start_byte <= h.end_byte <= inj.end_byte - inj.start_byte,
        remap_fits(inj, h),
    ensures
        remapped_range(inj, h).start_byte == inj.start_byte + h.start_byte,
        remapped_range(inj, h).end_byte == inj.start_byte + h.end_byte,
        inj.start_byte <= remapped_range(inj, h).start_byte,
        remapped_range(inj, h).start_byte <= remapped_range(inj, h).end_byte,
        remapped_range(inj, h).end_byte <= inj.end_byte,
{
}

/// The point just after the first `n` bytes of UTF-8 text: rows count
/// newlines, columns count the characters since the last one (a column is
/// counted at each byte that is not a continuation byte).
pub open spec fn point_after(s: Seq<u8>, n: int) -> Point
    decreases n,
{
    if n <= 0 {
        Point { row: 0, column: 0 }
    } else {
        let p = point_after(s, n - 1);
        if s[n - 1] == 10 {
            Point { row: (p.row + 1) as usize, column: 0 }
        } else if 0x80 <= s[n - 1] < 0xc0 {
            p
        } else {
            Point { row: p.row, column: (p.column + 1) as usize }
        }
    }
}

proof fn lemma_point_after_bound(s: Seq<u8>, n: int)
    requires
        0 <= n,
    ensures
        point_after(s, n).row <= n,
        point_after(s, n).column <= n,
    decreases n,
{
    if n > 0 {
        lemma_point_after_bound(s, n - 1);
    }
}

/// The point of a byte offset, clamped to the end of the text.
pub fn point_for_byte(source: &[u8], byte_index: usize) -> (r: Point)
    ensures
        r == point_after(
            source@,
            if byte_index <= source@.len() {
                byte_index as int
            } else {
                source@.len() as int
            },
        ),
{
    let target = if byte_index <= source.len() {
        byte_index
    } else {
        source.len()
    };
    let mut row: usize = 0;
    let mut column: usize = 0;
    let mut i: usize = 0;
    while i < target
        invariant
            target <= source@.len(),
            i <= target,
            (Point { row, column }) == point_after(source@, i as int),
        decreases target - i,
    {
        proof {
            lemma_point_after_bound(source@, i as int);
        }
        if source[i] == 10u8 {
            row = row + 1;
            column = 0;
        } else if source[i] < 0x80u8 || source[i] >= 0xc0u8 {
            column = column + 1;
        }
        i = i + 1;
    }
    Point { row, column }
}

/// A byte offset with its point.
pub type EndPoint = (usize, Point);

/// The source with a newline appended unless it already ends in one, and, when
/// one was appended, the original end with its point.
pub fn with_newline(source: &[u8]) -> (r: (Vec<u8>, Option<EndPoint>))
    ensures
        source@.len() > 0 && source@.last() == 10 ==> r.0@ == source@ && r.1 is None,
        !(source@.len() > 0 && source@.last() == 10) ==> r.0@ == source@.push(10) && r.1 == Some(
            (source@.len() as usize, point_after(source@, source@.len() as int)),
        ),
{
    let n = source.len();
    let mut out: Vec<u8> = Vec::new();
    let mut i: usize = 0;
    while i < n
        invariant
            n == source@.len(),
            i <= n,
            out@ == source@.subrange(0, i as int),
        decreases n - i,
    {
        out.push(source[i]);
        i = i + 1;
    }
    assert(source@.subrange(0, n as int) =~= source@);
    if n > 0 && source[n - 1] == 10u8 {
        (out, None)
    } else {
        let end = point_for_byte(source, n);
        out.push(10u8);
        (out, Some((n, end)))
    }
}

/// A range of the source with a newline appended, cut back to the original
/// end when it reaches it.
pub fn remap_range_for_appended_newline(range: Range, original_endpoint: &Option<EndPoint>) -> (r: Range)
    ensures
        match *original_endpoint {
            Some((end_byte, end_point)) => if range.end_byte < end_byte {
                r == range
            } else {
                r == (Range {
                    start_byte: range.start_byte,
                    start_point: range.start_point,
                    end_byte,
                    end_point,
                })
            },
            None => r == range,
        },
{
    match original_endpoint {
        Some((end_byte, end_point)) => {
            if range.end_byte < *end_byte {
                range
            } else {
                Range {
                    start_byte: range.start_byte,
                    start_point: range.start_point,
                    end_byte: *end_byte,
                    end_point: *end_point,
                }
            }
        },
        None => range,
    }
}

} // verus!
