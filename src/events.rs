use vstd::prelude::*;

use crate::highlights::HighlightRegion;

verus! {

/// One step of a highlighted rendering: open a highlight, copy a byte span of
/// the source verbatim, or close the innermost open highlight.
#[derive(Clone, Debug, PartialEq, Eq)]
pub enum HighlightEvent {
    Highlight(String),
    Source { start: usize, end: usize },
    HighlightEnd,
}

/// `a` goes no later than `b`: earlier start first, then the longer span, then
/// the smaller tie key.
pub open spec fn region_precedes(a: HighlightRegion, b: HighlightRegion) -> bool {
    ||| a.range.start_byte < b.range.start_byte
    ||| (a.range.start_byte == b.range.start_byte && a.range.end_byte > b.range.end_byte)
    ||| (a.range.start_byte == b.range.start_byte && a.range.end_byte == b.range.end_byte
        && a.pattern_index <= b.pattern_index)
}

pub open spec fn sorted_regions(s: Seq<HighlightRegion>) -> bool {
    forall|i: int, j: int| 0 <= i < j < s.len() ==> region_precedes(#[trigger] s[i], #[trigger] s[j])
}

/// How an event changes the number of open highlights.
pub open spec fn event_delta(e: HighlightEvent) -> int {
    match e {
        HighlightEvent::Highlight(_) => 1,
        HighlightEvent::HighlightEnd => -1,
        HighlightEvent::Source { .. } => 0,
    }
}

/// Number of highlights left open after the events.
pub open spec fn open_depth(evs: Seq<HighlightEvent>) -> int
    decreases evs.len(),
{
    if evs.len() == 0 {
        0
    } else {
        open_depth(evs.drop_last()) + event_delta(evs.last())
    }
}

/// Starts and ends pair up like parentheses: no prefix closes more than it
/// opened, and the whole opens as many as it closes.
pub open spec fn is_balanced(evs: Seq<HighlightEvent>) -> bool {
    &&& open_depth(evs) == 0
    &&& forall|k: int| 0 <= k <= evs.len() ==> open_depth(#[trigger] evs.subrange(0, k)) >= 0
}

/// The end of the last source span (0 before any).
pub open spec fn source_cursor(evs: Seq<HighlightEvent>) -> int
    decreases evs.len(),
{
    if evs.len() == 0 {
        0
    } else {
        match evs.last() {
            HighlightEvent::Source { start, end } => end as int,
            _ => source_cursor(evs.drop_last()),
        }
    }
}

/// Each source span starts where the previous one ended (the first at 0) and
/// does not run backwards: together they tile `[0, source_cursor(evs))`.
pub open spec fn sources_contiguous(evs: Seq<HighlightEvent>) -> bool
    decreases evs.len(),
{
    if evs.len() == 0 {
        true
    } else {
        &&& sources_contiguous(evs.drop_last())
        &&& match evs.last() {
            HighlightEvent::Source { start, end } => start == source_cursor(evs.drop_last())
                && start <= end,
            _ => true,
        }
    }
}

/// The names of the opened highlights, in order.
pub open spec fn opened_names(evs: Seq<HighlightEvent>) -> Seq<String>
    decreases evs.len(),
{
    if evs.len() == 0 {
        Seq::empty()
    } else {
        match evs.last() {
            HighlightEvent::Highlight(name) => opened_names(evs.drop_last()).push(name),
            _ => opened_names(evs.drop_last()),
        }
    }
}

/// Every region runs forwards and ends within a source of `len` bytes.
pub open spec fn regions_within(rs: Seq<HighlightRegion>, len: int) -> bool {
    forall|i: int|
        0 <= i < rs.len() ==> (#[trigger] rs[i]).range.start_byte <= rs[i].range.end_byte
            && rs[i].range.end_byte <= len
}

pub open spec fn region_names(rs: Seq<HighlightRegion>) -> Seq<String> {
    rs.map_values(|r: HighlightRegion| r.highlight)
}

proof fn lemma_push_event(evs: Seq<HighlightEvent>, e: HighlightEvent)
    requires
        forall|k: int| 0 <= k <= evs.len() ==> open_depth(#[trigger] evs.subrange(0, k)) >= 0,
        open_depth(evs) + event_delta(e) >= 0,
    ensures
        forall|k: int|
            0 <= k <= evs.push(e).len() ==> open_depth(#[trigger] evs.push(e).subrange(0, k))
                >= 0,
        open_depth(evs.push(e)) == open_depth(evs) + event_delta(e),
        source_cursor(evs.push(e)) == match e {
            HighlightEvent::Source { start, end } => end as int,
            _ => source_cursor(evs),
        },
        sources_contiguous(evs.push(e)) == (sources_contiguous(evs) && match e {
            HighlightEvent::Source { start, end } => start == source_cursor(evs) && start <= end,
            _ => true,
        }),
        opened_names(evs.push(e)) == match e {
            HighlightEvent::Highlight(name) => opened_names(evs).push(name),
            _ => opened_names(evs),
        },
{
    let s = evs.push(e);
    assert(s.drop_last() =~= evs);
    assert forall|k: int| 0 <= k <= s.len() implies open_depth(#[trigger] s.subrange(0, k)) >= 0 by {
        if k <= evs.len() {
            assert(s.subrange(0, k) =~= evs.subrange(0, k));
        } else {
            assert(s.subrange(0, k) =~= s);
        }
    }
}

/// Where `x` goes among sorted regions: before the first region it strictly
/// precedes, after all regions with an equal key.
pub open spec fn insert_position(t: Seq<HighlightRegion>, x: HighlightRegion, p: int) -> int
    decreases t.len() - p,
{
    if p < 0 || p >= t.len() || !region_precedes(t[p], x) {
        p
    } else {
        insert_position(t, x, p + 1)
    }
}

/// The regions in order, by insertion: stable among regions with equal keys.
pub open spec fn sorted_by_key(s: Seq<HighlightRegion>) -> Seq<HighlightRegion>
    decreases s.len(),
{
    if s.len() == 0 {
        Seq::empty()
    } else {
        let t = sorted_by_key(s.drop_last());
        t.insert(insert_position(t, s.last(), 0), s.last())
    }
}

/// Orders the regions by `region_precedes`, keeping the given order among
/// regions with equal keys.
pub fn sort_regions(regions: Vec<HighlightRegion>) -> (out: Vec<HighlightRegion>)
    ensures
        out@ == sorted_by_key(regions@),
        sorted_regions(out@),
        out@.to_multiset() == regions@.to_multiset(),
{
    broadcast use vstd::seq_lib::group_to_multiset_ensures;

    let mut rest = regions;
    let mut out: Vec<HighlightRegion> = Vec::new();
    let ghost orig = rest@;
    let ghost mut taken: Seq<HighlightRegion> = Seq::empty();
    while rest.len() > 0
        invariant
            orig == taken + rest@,
            out@ == sorted_by_key(taken),
            sorted_regions(out@),
            out@.to_multiset() == taken.to_multiset(),
        decreases rest.len(),
    {
        let x = rest.remove(0);
        let mut p: usize = 0;
        while p < out.len() && !precedes_strictly(&x, &out[p])
            invariant
                p <= out.len(),
                forall|j: int| 0 <= j < p ==> region_precedes(#[trigger] out@[j], x),
                insert_position(out@, x, 0) == insert_position(out@, x, p as int),
            decreases out.len() - p,
        {
            p = p + 1;
        }
        proof {
            assert(taken.push(x) + rest@ =~= orig);
            vstd::seq_lib::to_multiset_insert(out@, p as int, x);
            vstd::seq_lib::to_multiset_build(taken, x);
            assert(taken.push(x).drop_last() =~= taken);
            taken = taken.push(x);
        }
        out.insert(p, x);
    }
    proof {
        assert(taken =~= orig);
    }
    out
}

/// Regions that start at the same byte are ordered by their keys alone, in
/// whatever order they were found: the one that ends later opens first and
/// encloses the other; with equal ends, the smaller tie key opens first.
/// Priority takes no part in the order.
pub proof fn lemma_tie_break(a: HighlightRegion, b: HighlightRegion)
    requires
        a.range.start_byte == b.range.start_byte,
        a.range.end_byte > b.range.end_byte || (a.range.end_byte == b.range.end_byte
            && a.pattern_index < b.pattern_index),
    ensures
        sorted_by_key(seq![a, b]) == seq![a, b],
        sorted_by_key(seq![b, a]) == seq![a, b],
{
    let ab = seq![a, b];
    let ba = seq![b, a];
    assert(ab.drop_last() =~= seq![a]);
    assert(ba.drop_last() =~= seq![b]);
    assert(seq![a].drop_last() =~= Seq::<HighlightRegion>::empty());
    assert(seq![b].drop_last() =~= Seq::<HighlightRegion>::empty());
    let e = Seq::<HighlightRegion>::empty();
    assert(sorted_by_key(e) == e);
    assert(insert_position(e, a, 0) == 0);
    assert(insert_position(e, b, 0) == 0);
    assert(e.insert(0, a) =~= seq![a]);
    assert(e.insert(0, b) =~= seq![b]);
    assert(sorted_by_key(seq![a]) =~= seq![a]);
    assert(sorted_by_key(seq![b]) =~= seq![b]);
    assert(insert_position(seq![a], b, 1) == 1);
    assert(insert_position(seq![a], b, 0) == 1);
    assert(insert_position(seq![b], a, 0) == 0);
    assert(seq![a].insert(1, b) =~= ab);
    assert(seq![b].insert(0, a) =~= ab);
}

proof fn lemma_insert_position(t: Seq<HighlightRegion>, x: HighlightRegion, p: int)
    requires
        0 <= p <= t.len(),
        sorted_regions(t),
        forall|j: int| 0 <= j < p ==> region_precedes(#[trigger] t[j], x),
    ensures
        p <= insert_position(t, x, p) <= t.len(),
        forall|j: int| 0 <= j < insert_position(t, x, p) ==> region_precedes(#[trigger] t[j], x),
        forall|j: int| insert_position(t, x, p) <= j < t.len() ==> region_precedes(x, #[trigger] t[j]),
    decreases t.len() - p,
{
    if p < t.len() && region_precedes(t[p], x) {
        lemma_insert_position(t, x, p + 1);
    }
}

/// The insertion sort yields its input, in order.
pub proof fn lemma_sorted_by_key(s: Seq<HighlightRegion>)
    ensures
        sorted_regions(sorted_by_key(s)),
        sorted_by_key(s).to_multiset() == s.to_multiset(),
    decreases s.len(),
{
    broadcast use vstd::seq_lib::group_to_multiset_ensures;

    if s.len() > 0 {
        let t = sorted_by_key(s.drop_last());
        let x = s.last();
        lemma_sorted_by_key(s.drop_last());
        lemma_insert_position(t, x, 0);
        let p = insert_position(t, x, 0);
        vstd::seq_lib::to_multiset_insert(t, p, x);
        vstd::seq_lib::to_multiset_build(s.drop_last(), x);
        assert(s.drop_last().push(x) =~= s);
        let u = t.insert(p, x);
        assert forall|i: int, j: int| 0 <= i < j < u.len() implies region_precedes(#[trigger] u[i], #[trigger] u[j]) by {
            if j < p {
                assert(u[i] == t[i] && u[j] == t[j]);
            } else if j == p {
                assert(u[i] == t[i]);
            } else if i < p {
                assert(u[i] == t[i] && u[j] == t[j - 1]);
            } else if i == p {
                assert(u[j] == t[j - 1]);
            } else {
                assert(u[i] == t[i - 1] && u[j] == t[j - 1]);
            }
        }
    }
}

/// Regions with the same key are the same region.
pub open spec fn keys_identify(s: Seq<HighlightRegion>) -> bool {
    forall|i: int, j: int|
        0 <= i < s.len() && 0 <= j < s.len() && region_precedes(s[i], s[j]) && region_precedes(
            s[j],
            s[i],
        ) ==> #[trigger] s[i] == #[trigger] s[j]
}

proof fn lemma_sorted_unique(t1: Seq<HighlightRegion>, t2: Seq<HighlightRegion>)
    requires
        sorted_regions(t1),
        sorted_regions(t2),
        t1.to_multiset() == t2.to_multiset(),
        keys_identify(t1),
    ensures
        t1 == t2,
    decreases t1.len(),
{
    broadcast use vstd::seq_lib::group_to_multiset_ensures;

    if t1.len() == 0 {
        assert(t2.to_multiset().len() == 0);
        assert(t2 =~= t1);
    } else {
        vstd::seq_lib::to_multiset_len(t1);
        vstd::seq_lib::to_multiset_len(t2);
        assert(t2.len() == t1.len());
        let m = t1[0];
        assert(t1.contains(m));
        assert(t2.to_multiset().count(m) > 0);
        assert(t2.contains(m));
        let k = choose|k: int| 0 <= k < t2.len() && t2[k] == m;
        let f = t2[0];
        assert(t2.contains(f));
        assert(t1.to_multiset().count(f) > 0);
        assert(t1.contains(f));
        let j = choose|j: int| 0 <= j < t1.len() && t1[j] == f;
        if j > 0 {
            assert(region_precedes(t1[0], t1[j]));
        }
        if k > 0 {
            assert(region_precedes(t2[0], t2[k]));
        }
        assert(t1[0] == t1[j]);
        vstd::seq_lib::to_multiset_remove(t1, 0);
        vstd::seq_lib::to_multiset_remove(t2, 0);
        assert(t1.remove(0) =~= t1.drop_first());
        assert(t2.remove(0) =~= t2.drop_first());
        let r1 = t1.drop_first();
        assert forall|a: int, b: int| 0 <= a < r1.len() && 0 <= b < r1.len() && region_precedes(r1[a], r1[b])
            && region_precedes(r1[b], r1[a]) implies #[trigger] r1[a] == #[trigger] r1[b] by {
            assert(r1[a] == t1[a + 1] && r1[b] == t1[b + 1]);
        }
        lemma_sorted_unique(t1.drop_first(), t2.drop_first());
        assert(t1[0] == t2[0]);
        assert forall|i: int| 0 <= i < t1.len() implies t1[i] == t2[i] by {
            if i > 0 {
                assert(t1[i] == t1.drop_first()[i - 1]);
                assert(t2[i] == t2.drop_first()[i - 1]);
            }
        }
        assert(t1 =~= t2);
    }
}

/// Where no two different regions share a key, the order in which the regions
/// were found does not matter: any rearrangement of them sorts the same.
pub proof fn lemma_order_independent(s1: Seq<HighlightRegion>, s2: Seq<HighlightRegion>)
    requires
        s1.to_multiset() == s2.to_multiset(),
        keys_identify(s1),
    ensures
        sorted_by_key(s1) == sorted_by_key(s2),
{
    broadcast use vstd::seq_lib::group_to_multiset_ensures;

    lemma_sorted_by_key(s1);
    lemma_sorted_by_key(s2);
    let t = sorted_by_key(s1);
    assert forall|i: int, j: int|
        0 <= i < t.len() && 0 <= j < t.len() && region_precedes(t[i], t[j]) && region_precedes(t[j], t[i])
        implies #[trigger] t[i] == #[trigger] t[j] by {
        assert(t.contains(t[i]) && t.contains(t[j]));
        assert(s1.to_multiset().count(t[i]) > 0 && s1.to_multiset().count(t[j]) > 0);
        assert(s1.contains(t[i]) && s1.contains(t[j]));
        let a = choose|a: int| 0 <= a < s1.len() && s1[a] == t[i];
        let b = choose|b: int| 0 <= b < s1.len() && s1[b] == t[j];
        assert(s1[a] == s1[b]);
    }
    lemma_sorted_unique(t, sorted_by_key(s2));
}

/// Among any regions, however they were found, two that start at the same
/// byte with different keys open in key order: the one that ends later first
/// (it encloses the other), and with equal ends the smaller tie key first.
/// Priority takes no part in the order.
pub proof fn lemma_same_start_order(s: Seq<HighlightRegion>)
    ensures
        forall|i: int, j: int|
            0 <= i < sorted_by_key(s).len() && 0 <= j < sorted_by_key(s).len()
                && (#[trigger] sorted_by_key(s)[i]).range.start_byte == (#[trigger] sorted_by_key(s)[j]).range.start_byte
                && (sorted_by_key(s)[i].range.end_byte > sorted_by_key(s)[j].range.end_byte || (
                sorted_by_key(s)[i].range.end_byte == sorted_by_key(s)[j].range.end_byte
                    && sorted_by_key(s)[i].pattern_index < sorted_by_key(s)[j].pattern_index))
                ==> i < j,
{
    lemma_sorted_by_key(s);
    let t = sorted_by_key(s);
    assert forall|i: int, j: int|
        0 <= i < t.len() && 0 <= j < t.len() && (#[trigger] t[i]).range.start_byte == (#[trigger] t[j]).range.start_byte
            && (t[i].range.end_byte > t[j].range.end_byte || (t[i].range.end_byte == t[j].range.end_byte
            && t[i].pattern_index < t[j].pattern_index)) implies i < j by {
        if j <= i {
            if j < i {
                assert(region_precedes(t[j], t[i]));
            }
        }
    }
}

/// `a` goes strictly before `b`.
fn precedes_strictly(a: &HighlightRegion, b: &HighlightRegion) -> (r: bool)
    ensures
        r == !region_precedes(*b, *a),
{
    if a.range.start_byte != b.range.start_byte {
        a.range.start_byte < b.range.start_byte
    } else if a.range.end_byte != b.range.end_byte {
        a.range.end_byte > b.range.end_byte
    } else {
        a.pattern_index < b.pattern_index
    }
}

/// The events from a state of the linearizer to the point where no region is
/// left to open and none is open, with the cursor there. `stack` holds the
/// end offsets of the open regions, innermost last.
///
/// The innermost open region closes once the next region starts at or after
/// its end, or when none is left: a source span first runs up to its end if
/// the cursor is short of it (while regions remain) or not past it (once none
/// do). Otherwise the next region opens, after a source span up to its start
/// if the cursor is short of it.
pub open spec fn run_events(rs: Seq<HighlightRegion>, index: int, stack: Seq<usize>, byte: int) -> (Seq<HighlightEvent>, int)
    decreases 2 * (rs.len() - index) + stack.len(),
{
    if index < 0 || index > rs.len() {
        (Seq::empty(), byte)
    } else if stack.len() > 0 && (index == rs.len() || stack.last() <= rs[index].range.start_byte) {
        let end = stack.last() as int;
        let emit = if index == rs.len() { byte <= end } else { byte < end };
        let rest = run_events(rs, index, stack.drop_last(), if emit { end } else { byte });
        let head = if emit {
            seq![HighlightEvent::Source { start: byte as usize, end: end as usize }]
        } else {
            Seq::empty()
        };
        (head + seq![HighlightEvent::HighlightEnd] + rest.0, rest.1)
    } else if index < rs.len() {
        let start = rs[index].range.start_byte as int;
        let emit = byte < start;
        let rest = run_events(
            rs,
            index + 1,
            stack.push(rs[index].range.end_byte),
            if emit { start } else { byte },
        );
        let head = if emit {
            seq![HighlightEvent::Source { start: byte as usize, end: start as usize }]
        } else {
            Seq::empty()
        };
        (head + seq![HighlightEvent::Highlight(rs[index].highlight)] + rest.0, rest.1)
    } else {
        (Seq::empty(), byte)
    }
}

/// The event stream of sorted regions over a source of `len` bytes: the run
/// from the empty state, then a last source span from the cursor up to
/// `len - 1` if the cursor is short of it.
pub open spec fn linearized(rs: Seq<HighlightRegion>, len: int) -> Seq<HighlightEvent> {
    let run = run_events(rs, 0, Seq::empty(), 0);
    if run.1 + 1 < len {
        run.0.push(HighlightEvent::Source { start: run.1 as usize, end: (len - 1) as usize })
    } else {
        run.0
    }
}

/// Turns regions, sorted by `region_precedes`, into one properly nested event
/// stream over a source of `source_len` bytes, as `linearized` says.
///
/// A region that crosses the end of the one around it is closed with it, in
/// stack order. Source spans fill the gaps, and a last span runs to
/// `source_len - 1`, leaving the final byte position out.
pub fn linearize(regions: &Vec<HighlightRegion>, source_len: usize) -> (events: Vec<HighlightEvent>)
    requires
        sorted_regions(regions@),
    ensures
        events@ == linearized(regions@, source_len as int),
        is_balanced(events@),
        sources_contiguous(events@),
        source_len > 0 ==> source_cursor(events@) >= source_len - 1,
        regions_within(regions@, source_len as int) ==> source_cursor(events@) <= source_len,
        opened_names(events@) == region_names(regions@),
{
    let mut events: Vec<HighlightEvent> = Vec::new();
    let mut byte: usize = 0;
    let mut index: usize = 0;
    let mut stack: Vec<usize> = Vec::new();
    let n = regions.len();
    let ghost whole = run_events(regions@, 0, Seq::empty(), 0);
    proof {
        assert(events@.subrange(0, 0) =~= events@);
        assert(regions@.subrange(0, 0).map_values(|r: HighlightRegion| r.highlight) =~= Seq::<String>::empty());
        assert(events@ + whole.0 =~= whole.0);
    }
    while index < n
        invariant
            n == regions.len(),
            index <= n,
            stack.len() <= index,
            open_depth(events@) == stack.len(),
            forall|k: int| 0 <= k <= events@.len() ==> open_depth(#[trigger] events@.subrange(0, k)) >= 0,
            sources_contiguous(events@),
            source_cursor(events@) == byte,
            regions_within(regions@, source_len as int) ==> byte <= source_len,
            regions_within(regions@, source_len as int) ==> forall|k: int| 0 <= k < stack.len() ==> stack@[k] <= source_len,
            opened_names(events@) == regions@.subrange(0, index as int).map_values(|r: HighlightRegion| r.highlight),
            events@ + run_events(regions@, index as int, stack@, byte as int).0 == whole.0,
            run_events(regions@, index as int, stack@, byte as int).1 == whole.1,
        decreases 2 * (n - index) + stack.len(),
    {
        let ghost before = events@;
        let ghost rest = run_events(regions@, index as int, stack@, byte as int);
        let current_start = regions[index].range.start_byte;
        if stack.len() > 0 {
            let previous_end = stack[stack.len() - 1];
            if previous_end <= current_start {
                if byte < previous_end {
                    let e = HighlightEvent::Source { start: byte, end: previous_end };
                    proof { lemma_push_event(events@, e); }
                    events.push(e);
                    byte = previous_end;
                }
                stack.pop();
                proof { lemma_push_event(events@, HighlightEvent::HighlightEnd); }
                events.push(HighlightEvent::HighlightEnd);
                proof {
                    let next = run_events(regions@, index as int, stack@, byte as int);
                    assert(events@ + next.0 =~= before + rest.0);
                }
                continue;
            }
        }
        if byte < current_start {
            let e = HighlightEvent::Source { start: byte, end: current_start };
            proof { lemma_push_event(events@, e); }
            events.push(e);
            byte = current_start;
        }
        let e = HighlightEvent::Highlight(regions[index].highlight.clone());
        proof {
            lemma_push_event(events@, e);
            assert(regions@.subrange(0, index + 1).map_values(|r: HighlightRegion| r.highlight)
                =~= regions@.subrange(0, index as int).map_values(|r: HighlightRegion| r.highlight).push(regions@[index as int].highlight));
        }
        events.push(e);
        stack.push(regions[index].range.end_byte);
        index += 1;
        proof {
            let next = run_events(regions@, index as int, stack@, byte as int);
            assert(events@ + next.0 =~= before + rest.0);
        }
    }
    while stack.len() > 0
        invariant
            n == regions.len(),
            index == n,
            open_depth(events@) == stack.len(),
            forall|k: int| 0 <= k <= events@.len() ==> open_depth(#[trigger] events@.subrange(0, k)) >= 0,
            sources_contiguous(events@),
            source_cursor(events@) == byte,
            regions_within(regions@, source_len as int) ==> byte <= source_len,
            regions_within(regions@, source_len as int) ==> forall|k: int| 0 <= k < stack.len() ==> stack@[k] <= source_len,
            opened_names(events@) == region_names(regions@),
            events@ + run_events(regions@, index as int, stack@, byte as int).0 == whole.0,
            run_events(regions@, index as int, stack@, byte as int).1 == whole.1,
        decreases stack.len(),
    {
        let ghost before = events@;
        let ghost rest = run_events(regions@, index as int, stack@, byte as int);
        let end = stack.pop().unwrap();
        if byte <= end {
            let e = HighlightEvent::Source { start: byte, end: end };
            proof { lemma_push_event(events@, e); }
            events.push(e);
            byte = end;
        }
        proof { lemma_push_event(events@, HighlightEvent::HighlightEnd); }
        events.push(HighlightEvent::HighlightEnd);
        proof {
            let next = run_events(regions@, index as int, stack@, byte as int);
            assert(events@ + next.0 =~= before + rest.0);
        }
    }
    proof {
        assert(run_events(regions@, index as int, stack@, byte as int).0 =~= Seq::<HighlightEvent>::empty());
        assert(events@ =~= whole.0);
    }
    if byte < source_len && byte < source_len - 1 {
        let e = HighlightEvent::Source { start: byte, end: source_len - 1 };
        proof { lemma_push_event(events@, e); }
        events.push(e);
    }
    proof {
        assert(events@.subrange(0, events@.len() as int) =~= events@);
    }
    events
}

} // verus!
