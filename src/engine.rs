use vstd::prelude::*;

use crate::events::{
    lemma_sorted_by_key, regions_within, is_balanced, linearize, linearized, opened_names, region_names, sort_regions, sorted_by_key,
    sorted_regions, source_cursor, sources_contiguous, HighlightEvent,
};
use crate::highlights::{capture_kind, query_highlights, CaptureKind, HighlightRegion};
use crate::injections::{query_injections, InjectedRegion};
use crate::queries::compile_query;
use crate::ranges::{remap_fits, remap_injected_region_highlight_range, remapped_range, Range};
use crate::text::equals_literal;
use crate::HighlightError;

verus! {

/// A language's grammar with its compiled injections and highlights queries.
pub struct HighlightConfiguration {
    pub language: tree_sitter::Language,
    pub injections: tree_sitter::Query,
    pub highlights: tree_sitter::Query,
}

impl HighlightConfiguration {
    /// Compiles a language's injections and highlights queries from the
    /// contents of its built-in query files and of the override files found.
    pub fn from_query_sources(
        language: tree_sitter::Language,
        injection_files: &Vec<String>,
        injection_overrides: &Vec<String>,
        highlight_files: &Vec<String>,
        highlight_overrides: &Vec<String>,
    ) -> (r: Result<HighlightConfiguration, HighlightError>)
        ensures
            r is Err ==> r->Err_0 == HighlightError::QueryCompileError,
            r is Ok ==> r->Ok_0.language == language,
    {
        let injections = match compile_query(&language, injection_files, injection_overrides) {
            Ok(q) => q,
            Err(e) => return Err(e),
        };
        let highlights = match compile_query(&language, highlight_files, highlight_overrides) {
            Ok(q) => q,
            Err(e) => return Err(e),
        };
        Ok(HighlightConfiguration { language, injections, highlights })
    }
}

/// The loaded languages, each name at most once.
pub struct Configurations {
    pub entries: Vec<(String, HighlightConfiguration)>,
}

impl Configurations {
    pub open spec fn names(&self) -> Seq<Seq<char>> {
        self.entries@.map_values(|e: (String, HighlightConfiguration)| e.0@)
    }

    pub open spec fn has_language(&self, name: Seq<char>) -> bool {
        self.names().contains(name)
    }

    pub open spec fn wf(&self) -> bool {
        self.names().no_duplicates()
    }

    /// No languages.
    pub fn new() -> (r: Configurations)
        ensures
            r.wf(),
            r.names() == Seq::<Seq<char>>::empty(),
    {
        let r = Configurations { entries: Vec::new() };
        assert(r.names() =~= Seq::<Seq<char>>::empty());
        r
    }

    /// Where the language is, if it is loaded.
    pub fn position(&self, name: &str) -> (r: Option<usize>)
        ensures
            match r {
                Some(i) => i < self.names().len() && self.names()[i as int] == name@,
                None => !self.has_language(name@),
            },
    {
        let mut i: usize = 0;
        while i < self.entries.len()
            invariant
                i <= self.entries.len(),
                forall|k: int| 0 <= k < i ==> self.names()[k] != name@,
            decreases self.entries.len() - i,
        {
            if equals_literal(&self.entries[i].0, name) {
                return Some(i);
            }
            i = i + 1;
        }
        None
    }

    /// The configuration of a language, if it is loaded.
    pub fn get(&self, name: &str) -> (r: Option<&HighlightConfiguration>)
        ensures
            r is Some <==> self.has_language(name@),
            r is Some ==> exists|i: int|
                0 <= i < self.entries@.len() && self.names()[i] == name@ && *r->Some_0
                    == (#[trigger] self.entries@[i]).1,
    {
        match self.position(name) {
            Some(i) => {
                let c = &self.entries[i].1;
                assert(self.names()[i as int] == name@ && *c == self.entries@[i as int].1);
                Some(c)
            },
            None => None,
        }
    }

    /// Adds a language, replacing any configuration it had.
    pub fn insert(&mut self, name: String, config: HighlightConfiguration)
        requires
            old(self).wf(),
        ensures
            final(self).wf(),
            forall|n: Seq<char>| #[trigger] final(self).has_language(n) <==> (old(self).has_language(n) || n == name@),
    {
        let ghost before = self.names();
        match self.position(name.as_str()) {
            Some(i) => {
                let _ = self.entries.remove(i);
                proof {
                    assert(self.names() =~= before.remove(i as int));
                    assert forall|n: Seq<char>| #[trigger] self.names().contains(n) <==> (before.contains(n) && n != name@) by {
                        if before.contains(n) && n != name@ {
                            let k = choose|k: int| 0 <= k < before.len() && before[k] == n;
                            if k < i { assert(self.names()[k] == n); } else { assert(self.names()[k - 1] == n); }
                        }
                    }
                }
            },
            None => {},
        }
        let ghost mid = self.names();
        self.entries.push((name, config));
        proof {
            assert(self.names() =~= mid.push(name@));
            assert forall|n: Seq<char>| #[trigger] self.names().contains(n) <==> (mid.contains(n) || n == name@) by {
                if n == name@ { assert(self.names()[mid.len() as int] == n); }
                if mid.contains(n) {
                    let k = choose|k: int| 0 <= k < mid.len() && mid[k] == n;
                    assert(self.names()[k] == n);
                }
            }
        }
    }
}

/// A tie key scaled by a layer, held at `u32::MAX` where the product would
/// not fit.
pub open spec fn scaled_key(layer: u32, key: u32) -> u32 {
    if layer * key <= u32::MAX {
        (layer * key) as u32
    } else {
        u32::MAX
    }
}

fn scale_key(layer: u32, key: u32) -> (r: u32)
    ensures
        r == scaled_key(layer, key),
{
    assert((layer as int) * (key as int) <= 0xffff_ffff * 0xffff_ffff) by (nonlinear_arith)
        requires
            layer <= 0xffff_ffff,
            key <= 0xffff_ffff,
    {}
    let product: u64 = (layer as u64) * (key as u64);
    if product <= 0xffff_ffffu64 {
        product as u32
    } else {
        0xffff_ffffu32
    }
}

/// A region found in an injected range, moved into the enclosing text, with its
/// tie key scaled by the enclosing layer; none when it does not lie within the
/// injected range.
pub open spec fn nested_region(inj: Range, h: HighlightRegion, layer: u32) -> Option<HighlightRegion> {
    if inj.start_byte <= inj.end_byte && h.range.start_byte <= h.range.end_byte
        && h.range.end_byte <= inj.end_byte - inj.start_byte && remap_fits(inj, h.range) {
        Some(
            HighlightRegion {
                range: remapped_range(inj, h.range),
                highlight: h.highlight,
                priority: h.priority,
                pattern_index: scaled_key(layer, h.pattern_index),
            },
        )
    } else {
        None
    }
}

pub open spec fn nested_regions(inj: Range, hs: Seq<HighlightRegion>, layer: u32) -> Seq<HighlightRegion>
    decreases hs.len(),
{
    if hs.len() == 0 {
        Seq::empty()
    } else {
        let before = nested_regions(inj, hs.drop_last(), layer);
        match nested_region(inj, hs.last(), layer) {
            Some(r) => before.push(r),
            None => before,
        }
    }
}

/// Every region carried over from an injected range lies within that range,
/// its offsets those it had inside the range moved by exactly the range's
/// start.
pub proof fn lemma_nested_within(inj: Range, hs: Seq<HighlightRegion>, layer: u32)
    ensures
        forall|i: int|
            0 <= i < nested_regions(inj, hs, layer).len() ==> {
                let r = #[trigger] nested_regions(inj, hs, layer)[i];
                &&& inj.start_byte <= r.range.start_byte
                &&& r.range.start_byte <= r.range.end_byte
                &&& r.range.end_byte <= inj.end_byte
                &&& exists|k: int|
                    0 <= k < hs.len() && r.range.start_byte == inj.start_byte
                        + hs[k].range.start_byte && r.range.end_byte == inj.start_byte
                        + hs[k].range.end_byte && r.highlight == hs[k].highlight
            },
    decreases hs.len(),
{
    if hs.len() > 0 {
        lemma_nested_within(inj, hs.drop_last(), layer);
        let before = nested_regions(inj, hs.drop_last(), layer);
        let all = nested_regions(inj, hs, layer);
        assert forall|i: int| 0 <= i < all.len() implies {
            let r = #[trigger] all[i];
            &&& inj.start_byte <= r.range.start_byte
            &&& r.range.start_byte <= r.range.end_byte
            &&& r.range.end_byte <= inj.end_byte
            &&& exists|k: int|
                0 <= k < hs.len() && r.range.start_byte == inj.start_byte + hs[k].range.start_byte
                    && r.range.end_byte == inj.start_byte + hs[k].range.end_byte && r.highlight
                    == hs[k].highlight
        } by {
            if i < before.len() {
                assert(all[i] == before[i]);
                let k = choose|k: int|
                    0 <= k < hs.drop_last().len() && before[i].range.start_byte == inj.start_byte
                        + hs.drop_last()[k].range.start_byte && before[i].range.end_byte
                        == inj.start_byte + hs.drop_last()[k].range.end_byte
                        && before[i].highlight == hs.drop_last()[k].highlight;
                assert(hs[k] == hs.drop_last()[k]);
            } else {
                assert(all[i] == nested_region(inj, hs.last(), layer)->Some_0);
                assert(hs[hs.len() - 1] == hs.last());
            }
        }
    }
}

/// Appends the regions found in an injected range, moved into the enclosing
/// text.
pub fn append_nested(out: &mut Vec<HighlightRegion>, injection: &Range, nested: &Vec<HighlightRegion>, layer: u32)
    ensures
        final(out)@ == old(out)@ + nested_regions(*injection, nested@, layer),
{
    let ghost start = out@;
    let mut i: usize = 0;
    assert(start + nested_regions(*injection, nested@.subrange(0, 0), layer) =~= start);
    while i < nested.len()
        invariant
            i <= nested.len(),
            out@ == start + nested_regions(*injection, nested@.subrange(0, i as int), layer),
        decreases nested.len() - i,
    {
        proof {
            assert(nested@.subrange(0, i + 1).drop_last() =~= nested@.subrange(0, i as int));
        }
        let h = &nested[i];
        if injection.start_byte <= injection.end_byte && h.range.start_byte <= h.range.end_byte
            && h.range.end_byte <= injection.end_byte - injection.start_byte
            && h.range.start_byte <= usize::MAX - injection.start_byte
            && h.range.end_byte <= usize::MAX - injection.start_byte
            && h.range.start_point.row <= usize::MAX - injection.start_point.row
            && h.range.start_point.column <= usize::MAX - injection.start_point.column
            && h.range.end_point.row <= usize::MAX - injection.start_point.row
            && h.range.end_point.column <= usize::MAX - injection.start_point.column {
            let region = HighlightRegion {
                range: remap_injected_region_highlight_range(injection, &h.range),
                highlight: h.highlight.clone(),
                priority: h.priority,
                pattern_index: scale_key(layer, h.pattern_index),
            };
            out.push(region);
        }
        proof {
            let hs = nested@.subrange(0, i + 1);
            assert(out@ =~= start + nested_regions(*injection, hs, layer));
        }
        i = i + 1;
    }
    assert(nested@.subrange(0, nested@.len() as int) =~= nested@);
}

/// The regions carried over from the injections: for each injected range that
/// lies within a source of `len` bytes, in order, the regions found in it
/// (`nested` at the same index) moved into the enclosing text.
pub open spec fn injected_regions(
    injs: Seq<Range>,
    nested: Seq<Seq<HighlightRegion>>,
    len: int,
    layer: u32,
) -> Seq<HighlightRegion>
    decreases injs.len(),
{
    if injs.len() == 0 || nested.len() == 0 {
        Seq::empty()
    } else {
        let before = injected_regions(injs.drop_last(), nested.drop_last(), len, layer);
        let inj = injs.last();
        if inj.start_byte <= inj.end_byte && inj.end_byte <= len {
            before + nested_regions(inj, nested.last(), layer)
        } else {
            before
        }
    }
}

/// The regions of a layer: those of its own language, then those carried over
/// from its injections.
pub open spec fn composed_regions(
    base: Seq<HighlightRegion>,
    injs: Seq<Range>,
    nested: Seq<Seq<HighlightRegion>>,
    len: int,
    layer: u32,
) -> Seq<HighlightRegion> {
    base + injected_regions(injs, nested, len, layer)
}

/// Each region is one found in an injected range within the source, moved by
/// `nested_region`: offsets and points shifted by the range's start, inside
/// the range, tie key scaled by the layer.
pub open spec fn carried_over(
    rs: Seq<HighlightRegion>,
    injs: Seq<Range>,
    nested: Seq<Seq<HighlightRegion>>,
    len: int,
    layer: u32,
) -> bool {
    forall|j: int|
        0 <= j < rs.len() ==> exists|i: int, k: int|
            0 <= i < injs.len() && i < nested.len() && 0 <= k < nested[i].len()
                && injs[i].end_byte <= len && nested_region(injs[i], nested[i][k], layer) == Some(
                #[trigger] rs[j],
            )
}

proof fn lemma_nested_origin(inj: Range, hs: Seq<HighlightRegion>, layer: u32)
    ensures
        forall|j: int|
            0 <= j < nested_regions(inj, hs, layer).len() ==> exists|k: int|
                0 <= k < hs.len() && nested_region(inj, hs[k], layer) == Some(
                    #[trigger] nested_regions(inj, hs, layer)[j],
                ),
    decreases hs.len(),
{
    if hs.len() > 0 {
        lemma_nested_origin(inj, hs.drop_last(), layer);
        let before = nested_regions(inj, hs.drop_last(), layer);
        let all = nested_regions(inj, hs, layer);
        assert forall|j: int| 0 <= j < all.len() implies exists|k: int|
            0 <= k < hs.len() && nested_region(inj, hs[k], layer) == Some(#[trigger] all[j]) by {
            if j < before.len() {
                let k = choose|k: int|
                    0 <= k < hs.drop_last().len() && nested_region(inj, hs.drop_last()[k], layer) == Some(before[j]);
                assert(hs[k] == hs.drop_last()[k]);
                assert(all[j] == before[j]);
            } else {
                assert(hs[hs.len() - 1] == hs.last());
            }
        }
    }
}

/// Every region that `injected_regions` carries over comes from one injected
/// range within the source, moved by `nested_region`.
pub proof fn lemma_injected_origin(injs: Seq<Range>, nested: Seq<Seq<HighlightRegion>>, len: int, layer: u32)
    requires
        injs.len() == nested.len(),
    ensures
        carried_over(injected_regions(injs, nested, len, layer), injs, nested, len, layer),
    decreases injs.len(),
{
    if injs.len() > 0 && nested.len() > 0 {
        lemma_injected_origin(injs.drop_last(), nested.drop_last(), len, layer);
        let before = injected_regions(injs.drop_last(), nested.drop_last(), len, layer);
        let all = injected_regions(injs, nested, len, layer);
        let inj = injs.last();
        let last = nested.last();
        lemma_nested_origin(inj, last, layer);
        assert forall|j: int| 0 <= j < all.len() implies exists|i: int, k: int|
            0 <= i < injs.len() && i < nested.len() && 0 <= k < nested[i].len()
                && injs[i].end_byte <= len && nested_region(injs[i], nested[i][k], layer) == Some(
                #[trigger] all[j],
            ) by {
            if j < before.len() {
                let (i, k) = choose|i: int, k: int|
                    0 <= i < injs.drop_last().len() && i < nested.drop_last().len() && 0 <= k
                        < nested.drop_last()[i].len() && injs.drop_last()[i].end_byte <= len
                        && nested_region(injs.drop_last()[i], nested.drop_last()[i][k], layer)
                        == Some(before[j]);
                assert(injs[i] == injs.drop_last()[i]);
                assert(nested[i] == nested.drop_last()[i]);
                assert(all[j] == before[j]);
            } else {
                let ns = nested_regions(inj, last, layer);
                assert(all == before + ns);
                assert(all[j] == ns[j - before.len()]);
                let k = choose|k: int| 0 <= k < last.len() && nested_region(inj, last[k], layer) == Some(ns[j - before.len()]);
                assert(injs[injs.len() - 1] == inj);
                assert(nested[injs.len() - 1] == last);
            }
        }
    }
}

pub open spec fn injection_ranges(v: Seq<InjectedRegion>) -> Seq<Range> {
    v.map_values(|x: InjectedRegion| x.range)
}

pub open spec fn region_lists(v: Seq<Vec<HighlightRegion>>) -> Seq<Seq<HighlightRegion>> {
    v.map_values(|x: Vec<HighlightRegion>| x@)
}

/// Puts a layer together: its own regions, then, for each injected range that
/// lies within the source, in order, the regions found in it (`nested` at the
/// same index) moved into this text.
pub fn compose_layer(
    base: Vec<HighlightRegion>,
    injections: &Vec<InjectedRegion>,
    nested: &Vec<Vec<HighlightRegion>>,
    source_len: usize,
    layer: u32,
) -> (r: Vec<HighlightRegion>)
    requires
        injections.len() == nested.len(),
    ensures
        r@ == composed_regions(
            base@,
            injection_ranges(injections@),
            region_lists(nested@),
            source_len as int,
            layer,
        ),
{
    let ghost start = base@;
    let ghost injs = injection_ranges(injections@);
    let ghost ns = region_lists(nested@);
    let mut out = base;
    let mut i: usize = 0;
    assert(start + injected_regions(injs.subrange(0, 0), ns.subrange(0, 0), source_len as int, layer) =~= start);
    while i < injections.len()
        invariant
            i <= injections.len(),
            injections.len() == nested.len(),
            injs == injection_ranges(injections@),
            ns == region_lists(nested@),
            out@ == composed_regions(start, injs.subrange(0, i as int), ns.subrange(0, i as int), source_len as int, layer),
        decreases injections.len() - i,
    {
        proof {
            assert(injs.subrange(0, i + 1).drop_last() =~= injs.subrange(0, i as int));
            assert(ns.subrange(0, i + 1).drop_last() =~= ns.subrange(0, i as int));
            assert(injs.subrange(0, i + 1).last() == injections@[i as int].range);
            assert(ns.subrange(0, i + 1).last() == nested@[i as int]@);
        }
        let r = injections[i].range;
        if r.start_byte <= r.end_byte && r.end_byte <= source_len {
            append_nested(&mut out, &r, &nested[i], layer);
        }
        proof {
            assert(out@ =~= composed_regions(start, injs.subrange(0, i + 1), ns.subrange(0, i + 1), source_len as int, layer));
        }
        i = i + 1;
    }
    assert(injs.subrange(0, i as int) =~= injs);
    assert(ns.subrange(0, i as int) =~= ns);
    out
}

/// All candidate regions of `source` in language `lang`: this layer's regions,
/// then those of every injected range within the source, highlighted
/// recursively in its own language one layer down (`layer * 10`) and put
/// together by `compose_layer`. A language that is not loaded yields no
/// regions.
pub fn compose_highlights(
    parser: &mut tree_sitter::Parser,
    lang: &str,
    configurations: &Configurations,
    source: &[u8],
    layer: u32,
) -> (r: Result<Vec<HighlightRegion>, HighlightError>)
    requires
        layer >= 1,
    ensures
        !configurations.has_language(lang@) ==> r is Ok && r->Ok_0@.len() == 0,
        r is Ok ==> forall|i: int|
            0 <= i < r->Ok_0@.len() ==> capture_kind((#[trigger] r->Ok_0@[i]).highlight@)
                == CaptureKind::Highlight,
        r is Ok ==> exists|
            base: Seq<HighlightRegion>,
            injs: Seq<Range>,
            nested: Seq<Seq<HighlightRegion>>,
        |
            injs.len() == nested.len() && carried_over(
                injected_regions(injs, nested, source@.len() as int, layer),
                injs,
                nested,
                source@.len() as int,
                layer,
            ) && #[trigger] composed_regions(base, injs, nested, source@.len() as int, layer)
                == r->Ok_0@,
        r is Err ==> r->Err_0 == HighlightError::InvalidText || r->Err_0 == HighlightError::ParseFailure
            || r->Err_0 == HighlightError::NestingTooDeep,
    decreases u32::MAX - layer,
{
    let config = match configurations.get(lang) {
        Some(c) => c,
        None => {
            proof {
                let e = Seq::<HighlightRegion>::empty();
                let en = Seq::<Seq<HighlightRegion>>::empty();
                let er = Seq::<Range>::empty();
                lemma_injected_origin(er, en, source@.len() as int, layer);
                assert(composed_regions(e, er, en, source@.len() as int, layer) =~= e);
            }
            return Ok(Vec::new());
        },
    };
    let injections = match query_injections(parser, &config.language, source, &config.injections) {
        Ok(v) => v,
        Err(e) => return Err(e),
    };
    let highlights = match query_highlights(parser, &config.language, source, &config.highlights) {
        Ok(v) => v,
        Err(e) => return Err(e),
    };
    let mut nested: Vec<Vec<HighlightRegion>> = Vec::new();
    let mut i: usize = 0;
    while i < injections.len()
        invariant
            layer >= 1,
            i <= injections.len(),
            configurations.has_language(lang@),
            nested.len() == i,
            forall|k: int, j: int|
                0 <= k < nested@.len() && 0 <= j < nested@[k]@.len() ==> capture_kind(
                    (#[trigger] nested@[k]@[j]).highlight@,
                ) == CaptureKind::Highlight,
        decreases injections.len() - i,
    {
        let region = &injections[i];
        let r = region.range;
        if r.start_byte <= r.end_byte && r.end_byte <= source.len() {
            if layer > 0xffff_ffffu32 / 10 {
                return Err(HighlightError::NestingTooDeep);
            }
            let found = match compose_highlights(
                parser,
                region.lang.as_str(),
                configurations,
                &source[r.start_byte..r.end_byte],
                layer * 10,
            ) {
                Ok(v) => v,
                Err(e) => return Err(e),
            };
            nested.push(found);
        } else {
            nested.push(Vec::new());
        }
        i = i + 1;
    }
    let ghost base = highlights@;
    let out = compose_layer(highlights, &injections, &nested, source.len(), layer);
    proof {
        let len = source@.len() as int;
        let injs = injection_ranges(injections@);
        let ns = region_lists(nested@);
        lemma_injected_origin(injs, ns, len, layer);
        let part = injected_regions(injs, ns, len, layer);
        assert(out@ == base + part);
        assert forall|j: int| 0 <= j < out@.len() implies capture_kind((#[trigger] out@[j]).highlight@)
            == CaptureKind::Highlight by {
            if j < base.len() {
                assert(out@[j] == base[j]);
            } else {
                assert(out@[j] == part[j - base.len()]);
                let (a, k) = choose|a: int, k: int|
                    0 <= a < injs.len() && a < ns.len() && 0 <= k < ns[a].len() && injs[a].end_byte
                        <= len && nested_region(injs[a], ns[a][k], layer) == Some(part[j - base.len()]);
                assert(ns[a] == nested@[a]@);
            }
        }
    }
    Ok(out)
}

/// The event stream of a set of candidate regions over a source of
/// `source_len` bytes: the regions are put in order and linearised.
pub fn highlight_regions(regions: Vec<HighlightRegion>, source_len: usize) -> (events: Vec<HighlightEvent>)
    ensures
        events@ == linearized(sorted_by_key(regions@), source_len as int),
        sorted_regions(sorted_by_key(regions@)),
        sorted_by_key(regions@).to_multiset() == regions@.to_multiset(),
        is_balanced(events@),
        sources_contiguous(events@),
        source_len > 0 ==> source_cursor(events@) >= source_len - 1,
        regions_within(regions@, source_len as int) ==> source_cursor(events@) <= source_len,
        opened_names(events@) == region_names(sorted_by_key(regions@)),
{
    broadcast use vstd::seq_lib::group_to_multiset_ensures;

    let sorted = sort_regions(regions);
    proof {
        if regions_within(regions@, source_len as int) {
            assert forall|i: int| 0 <= i < sorted@.len() implies (#[trigger] sorted@[i]).range.start_byte
                <= sorted@[i].range.end_byte && sorted@[i].range.end_byte <= source_len by {
                assert(sorted@.contains(sorted@[i]));
                assert(regions@.to_multiset().count(sorted@[i]) > 0);
                assert(regions@.contains(sorted@[i]));
            }
        }
    }
    linearize(&sorted, source_len)
}

/// Highlights source text in a language, with the languages it injects.
pub struct Highlighter {
    configurations: Configurations,
    parser: tree_sitter::Parser,
}

impl Highlighter {
    /// The languages this highlighter knows.
    pub closed spec fn config(&self) -> Configurations {
        self.configurations
    }

    pub fn new(configurations: Configurations) -> (r: Highlighter)
        ensures
            r.config() == configurations,
    {
        Highlighter { parser: tree_sitter::Parser::new(), configurations }
    }

    /// The event stream for `source` in language `lang`. Fails with
    /// `UnknownLanguage` exactly when `lang` is not loaded, and otherwise when a
    /// parse yields no tree or injections nest too deep.
    pub fn highlight(&mut self, source: &[u8], lang: &str) -> (r: Result<Vec<HighlightEvent>, HighlightError>)
        ensures
            final(self).config() == old(self).config(),
            (r == Err::<Vec<HighlightEvent>, HighlightError>(HighlightError::UnknownLanguage))
                <==> !old(self).config().has_language(lang@),
            r is Err ==> r->Err_0 == HighlightError::UnknownLanguage || r->Err_0
                == HighlightError::InvalidText || r->Err_0 == HighlightError::ParseFailure || r->Err_0
                == HighlightError::NestingTooDeep,
            r is Ok ==> exists|
                base: Seq<HighlightRegion>,
                injs: Seq<Range>,
                nested: Seq<Seq<HighlightRegion>>,
            |
                injs.len() == nested.len() && carried_over(
                    injected_regions(injs, nested, source@.len() as int, 1),
                    injs,
                    nested,
                    source@.len() as int,
                    1,
                ) && r->Ok_0@ == linearized(
                    sorted_by_key(#[trigger] composed_regions(base, injs, nested, source@.len() as int, 1)),
                    source@.len() as int,
                ) && (regions_within(composed_regions(base, injs, nested, source@.len() as int, 1), source@.len() as int)
                    ==> source_cursor(r->Ok_0@) <= source@.len()),
            r is Ok ==> forall|i: int|
                0 <= i < opened_names(r->Ok_0@).len() ==> capture_kind(
                    (#[trigger] opened_names(r->Ok_0@)[i])@,
                ) == CaptureKind::Highlight,
            r is Ok ==> is_balanced(r->Ok_0@) && sources_contiguous(r->Ok_0@) && (source@.len() > 0
                ==> source_cursor(r->Ok_0@) >= source@.len() - 1),
    {
        if self.configurations.get(lang).is_none() {
            return Err(HighlightError::UnknownLanguage);
        }
        let regions = match compose_highlights(&mut self.parser, lang, &self.configurations, source, 1) {
            Ok(v) => v,
            Err(e) => return Err(e),
        };
        let ghost found = regions@;
        let events = highlight_regions(regions, source.len());
        proof {
            broadcast use vstd::seq_lib::group_to_multiset_ensures;

            lemma_sorted_by_key(found);
            let t = sorted_by_key(found);
            assert forall|i: int| 0 <= i < opened_names(events@).len() implies capture_kind(
                (#[trigger] opened_names(events@)[i])@,
            ) == CaptureKind::Highlight by {
                assert(opened_names(events@)[i] == t[i].highlight);
                assert(t.contains(t[i]));
                assert(found.to_multiset().count(t[i]) > 0);
                assert(found.contains(t[i]));
            }
        }
        proof {
            let len = source@.len() as int;
            let (b, i, n) = choose|b: Seq<HighlightRegion>, i: Seq<Range>, n: Seq<Seq<HighlightRegion>>|
                i.len() == n.len() && carried_over(injected_regions(i, n, len, 1), i, n, len, 1)
                    && #[trigger] composed_regions(b, i, n, len, 1) == found;
            assert(events@ == linearized(sorted_by_key(composed_regions(b, i, n, len, 1)), len));
        }
        Ok(events)
    }
}

} // verus!
