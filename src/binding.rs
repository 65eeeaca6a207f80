use vstd::prelude::*;

verus! {

/// The kind of an event as a host sees it.
#[derive(Clone, Copy, Debug, PartialEq, Eq, Structural)]
pub enum HighlightEventType {
    Start,
    Source,
    End,
}

/// A byte span as a host sees it.
#[derive(Clone, Copy, Debug, PartialEq, Eq, Structural)]
pub struct HighlightRange {
    pub start: u32,
    pub end: u32,
}

/// An event as a host sees it: a start carries its name, a source its span.
#[derive(Clone, Debug)]
pub struct HighlightEvent {
    pub event_type: HighlightEventType,
    pub highlight: Option<String>,
    pub range: Option<HighlightRange>,
}

/// What a host asks to highlight, and where grammars and query overrides live.
#[derive(Clone, Debug)]
pub struct HighlightParams {
    pub source: String,
    pub language: String,
    pub query_paths: Option<Vec<String>>,
    pub grammar_paths: Option<Vec<String>>,
}

/// The event fits the host's 32-bit offsets.
pub open spec fn fits_host(e: crate::HighlightEvent) -> bool {
    match e {
        crate::HighlightEvent::Source { start, end } => start <= u32::MAX && end <= u32::MAX,
        _ => true,
    }
}

/// `b` is `e` as a host sees it.
pub open spec fn is_host_event(e: crate::HighlightEvent, b: HighlightEvent) -> bool {
    match e {
        crate::HighlightEvent::Highlight(name) => b.event_type == HighlightEventType::Start
            && b.highlight == Some(name) && b.range is None,
        crate::HighlightEvent::Source { start, end } => b.event_type == HighlightEventType::Source
            && b.highlight is None && b.range == Some(
            HighlightRange { start: start as u32, end: end as u32 },
        ),
        crate::HighlightEvent::HighlightEnd => b.event_type == HighlightEventType::End
            && b.highlight is None && b.range is None,
    }
}

/// Converts an event stream for a host; none when an offset does not fit in
/// 32 bits.
pub fn to_host_events(events: &Vec<crate::HighlightEvent>) -> (r: Option<Vec<HighlightEvent>>)
    ensures
        r is Some <==> forall|i: int| 0 <= i < events@.len() ==> fits_host(#[trigger] events@[i]),
        r is Some ==> r->Some_0@.len() == events@.len() && forall|i: int|
            0 <= i < events@.len() ==> is_host_event(events@[i], #[trigger] r->Some_0@[i]),
{
    let mut out: Vec<HighlightEvent> = Vec::new();
    let mut i: usize = 0;
    while i < events.len()
        invariant
            i <= events.len(),
            out@.len() == i,
            forall|k: int| 0 <= k < i ==> fits_host(#[trigger] events@[k]),
            forall|k: int| 0 <= k < i ==> is_host_event(events@[k], #[trigger] out@[k]),
        decreases events.len() - i,
    {
        let b = match &events[i] {
            crate::HighlightEvent::Highlight(name) => HighlightEvent {
                event_type: HighlightEventType::Start,
                highlight: Some(name.clone()),
                range: None,
            },
            crate::HighlightEvent::Source { start, end } => {
                if *start > 0xffff_ffffusize || *end > 0xffff_ffffusize {
                    return None;
                }
                HighlightEvent {
                    event_type: HighlightEventType::Source,
                    highlight: None,
                    range: Some(HighlightRange { start: *start as u32, end: *end as u32 }),
                }
            },
            crate::HighlightEvent::HighlightEnd => HighlightEvent {
                event_type: HighlightEventType::End,
                highlight: None,
                range: None,
            },
        };
        out.push(b);
        i = i + 1;
    }
    Some(out)
}

} // verus!
