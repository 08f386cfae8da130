//! Stretches of code and data outside functions.

use crate::addr_map::window;
use crate::bytes::wrap64;
use crate::draft::{
    sanitize_symbol_name, symbol_text, Draft, DraftSymbol, DraftSymbolView, DraftView, Linkage,
    SymbolClass,
};
use crate::emitter::{
    fixed_bytes, fixed_pending, straddling, EmitView, Emitter,
};
use crate::format::{section_name, Contents};
use crate::function_code::{label_symbol, same_sections, same_shape, Place};
use crate::model::{Name, SegClass};
use crate::ranges::{padded_bytes, read_padded, Span};
use crate::resolver::{VariableView, SYM_BSS_START, SYM_CONST_START, SYM_DATA_START};
use crate::sorting::{count_below, key_window, lemma_place_before_monotone};
use crate::text::{hex_text, Error};
use std::collections::HashSet;
use vstd::hash_set::StringHashSet;
use vstd::prelude::*;

verus! {

/// The bytes of the image at a span of the model, with zeros for what it does
/// not back.
pub open spec fn span_bytes(ctx: EmitView, span: Span) -> Seq<u8> {
    padded_bytes(
        ctx.image,
        wrap64(span.start - ctx.base()) as u64,
        ((span.end - span.start) as u64) as usize as int,
    )
}

/// Where a span stands that begins a section.
pub open spec fn span_place(section: usize, span: Span) -> Place {
    Place { section, base: 0, start: span.start, end: span.end }
}

/// `d` with the names of a span, but for those of switch tables.
pub open spec fn with_gap_names(
    d: DraftView,
    names: Seq<Name>,
    tables: Set<Seq<char>>,
    place: Place,
) -> DraftView
    decreases names.len(),
{
    if names.len() == 0 {
        d
    } else {
        let before = with_gap_names(d, names.drop_last(), tables, place);
        let n = names.last();
        if tables.contains(n.name@) {
            before
        } else {
            before.offering(n.name@, label_symbol(n, place, n.size))
        }
    }
}

/// `d` with the bytes at `span`, and what fixups relocate in them, in `section`.
pub open spec fn with_span(d: DraftView, ctx: EmitView, section: usize, span: Span) -> DraftView {
    let bytes = span_bytes(ctx, span);
    let relocs = ctx.relocs(span.start, span.end);
    d.with_data(
        section as int,
        fixed_bytes(ctx, span.start, Set::empty(), relocs, bytes),
    ).staging_all(
        fixed_pending(
            ctx,
            section as int,
            0,
            span.start,
            bytes.len() as int,
            Set::empty(),
            relocs,
        ),
    )
}

/// `d` with a stretch between functions in `section`: bytes and names.
pub open spec fn with_gap(
    d: DraftView,
    ctx: EmitView,
    section: usize,
    gap: Span,
    tables: Set<Seq<char>>,
) -> DraftView {
    with_gap_names(
        with_span(d, ctx, section, gap),
        key_window(ctx.names, gap.start as int, gap.end as int),
        tables,
        span_place(section, gap),
    )
}

/// `d` with a new section for the data at `span`: zero-filled, or the bytes of
/// the image. A fixup that reaches over the end of the span is a fault.
pub open spec fn with_data_section(
    d: DraftView,
    ctx: EmitView,
    contents: Contents,
    span: Span,
) -> Result<DraftView, Seq<char>> {
    let section = d.sections.len() as usize;
    let added = d.with_section(section_name(ctx.format, contents), contents);
    if contents == Contents::Zeroed {
        Ok(added.with_zeroed(section as int, (span.end - span.start) as u64))
    } else {
        match straddling(
            ctx,
            span.start,
            span_bytes(ctx, span).len() as int,
            ctx.relocs(span.start, span.end),
        ) {
            Some(a) => Err(
                "data split boundary intersects the relocation at "@ + hex_text(a as int),
            ),
            None => Ok(with_span(added, ctx, section, span)),
        }
    }
}

/// A symbol at the start of a section.
pub open spec fn start_symbol(name: Seq<char>, section: int) -> DraftSymbolView {
    DraftSymbolView {
        name,
        value: 0,
        size: 0,
        class: SymbolClass::Data,
        linkage: Linkage::External,
        section,
    }
}

/// The symbol that marks the start of the first section of a class.
pub open spec fn class_start(class: SegClass) -> Seq<char> {
    match class {
        SegClass::Const => SYM_CONST_START@,
        SegClass::Data => SYM_DATA_START@,
        _ => SYM_BSS_START@,
    }
}

pub fn class_start_symbol(class: SegClass) -> (r: &'static str)
    ensures
        r@ == class_start(class),
{
    match class {
        SegClass::Const => SYM_CONST_START,
        SegClass::Data => SYM_DATA_START,
        _ => SYM_BSS_START,
    }
}

/// `d` with the variables of a span that begins `section`.
pub open spec fn with_variables(
    d: DraftView,
    variables: Seq<(u64, VariableView)>,
    section: int,
    start: u64,
) -> DraftView
    decreases variables.len(),
{
    if variables.len() == 0 {
        d
    } else {
        let before = with_variables(d, variables.drop_last(), section, start);
        let (va, v) = variables.last();
        before.offering(
            v.name,
            DraftSymbolView {
                name: symbol_text(v.name),
                value: (va - start) as u64,
                size: v.size,
                class: SymbolClass::Data,
                linkage: Linkage::External,
                section,
            },
        )
    }
}

impl<'a> Emitter<'a> {
    fn draft_span(&self, draft: &mut Draft, section: usize, span: Span)
        requires
            self.wf(),
            old(draft)@.wf(),
            section < old(draft)@.sections.len(),
            old(draft)@.sections[section as int].contents != Contents::Zeroed,
            span.start <= span.end,
        ensures
            final(draft)@ == with_span(old(draft)@, self@, section, span),
            final(draft)@.wf(),
            same_shape(final(draft)@, old(draft)@),
    {
        broadcast use vstd::std_specs::hash::group_hash_axioms;

        let len: u64 = span.end - span.start;
        let rva: u64 = span.start.wrapping_sub(self.model.image_base);
        let mut bytes = read_padded(self.pe, rva, len as usize);
        let none: HashSet<u64> = HashSet::new();
        assert(none@ =~= Set::<u64>::empty());
        let fixed = self.apply_fixups(span, &none, &mut bytes, section, 0);
        let _ = draft.append(section, &bytes);
        self.stage_all(draft, fixed);
    }

    fn draft_gap_names(
        &self,
        draft: &mut Draft,
        tables: &StringHashSet,
        place: Place,
    )
        requires
            self.wf(),
            old(draft)@.wf(),
            place.section < old(draft)@.sections.len(),
            place.start <= place.end,
        ensures
            final(draft)@ == with_gap_names(
                old(draft)@,
                key_window(self@.names, place.start as int, place.end as int),
                tables@,
                place,
            ),
            final(draft)@.wf(),
            same_sections(final(draft)@, old(draft)@),
    {
        let from: usize = count_below(self.names, place.start);
        let to: usize = count_below(self.names, place.end);
        proof {
            lemma_place_before_monotone(self.names@, place.start as int, place.end as int);
        }
        let ghost names = key_window(self@.names, place.start as int, place.end as int);
        let ghost start = draft@;
        let mut i: usize = from;
        assert(names.take(0) =~= Seq::<Name>::empty());
        while i < to
            invariant
                from <= i <= to <= self.names@.len(),
                names == self.names@.subrange(from as int, to as int),
                place.section < start.sections.len(),
                draft@ == with_gap_names(start, names.take(i - from), tables@, place),
                draft@.wf(),
                same_sections(draft@, start),
            decreases to - i,
        {
            let n = &self.names[i];
            assert(names.take(i - from + 1).drop_last() =~= names.take(i - from));
            assert(names[i - from] == *n);
            if !tables.contains(n.name.as_str()) {
                let symbol = DraftSymbol {
                    name: sanitize_symbol_name(n.name.as_str()),
                    value: place.offset_of(n.addr),
                    size: n.size,
                    class: SymbolClass::Data,
                    linkage: Linkage::External,
                    section: place.section,
                };
                draft.offer(n.name.clone(), symbol);
            }
            i += 1;
        }
        assert(names.take(names.len() as int) =~= names);
    }

    /// Draft a stretch between functions in `section`.
    pub fn draft_gap(&self, draft: &mut Draft, section: usize, gap: Span, tables: &StringHashSet)
        requires
            self.wf(),
            old(draft)@.wf(),
            section < old(draft)@.sections.len(),
            old(draft)@.sections[section as int].contents != Contents::Zeroed,
            gap.start <= gap.end,
        ensures
            final(draft)@ == with_gap(old(draft)@, self@, section, gap, tables@),
            final(draft)@.wf(),
            same_shape(final(draft)@, old(draft)@),
    {
        self.draft_span(draft, section, gap);
        let place = Place { section, base: 0, start: gap.start, end: gap.end };
        self.draft_gap_names(draft, tables, place);
    }

    /// Draft a new section for the data at `span`.
    pub fn draft_data_section(&self, draft: &mut Draft, contents: Contents, span: Span) -> (r:
        Result<usize, Error>)
        requires
            self.wf(),
            old(draft)@.wf(),
            span.start <= span.end,
        ensures
            match r {
                Ok(section) => {
                    &&& with_data_section(old(draft)@, self@, contents, span) == Ok::<
                        DraftView,
                        Seq<char>,
                    >(final(draft)@)
                    &&& section == old(draft)@.sections.len()
                    &&& final(draft)@.sections.len() == section + 1
                    &&& final(draft)@.wf()
                },
                Err(e) => with_data_section(old(draft)@, self@, contents, span) == Err::<
                    DraftView,
                    Seq<char>,
                >(e@),
            },
    {
        let section: usize = draft.add_section(self.format, contents);
        let size: u64 = span.end - span.start;
        if contents == Contents::Zeroed {
            draft.append_zeroed(section, size);
            return Ok(section);
        }
        let rva: u64 = span.start.wrapping_sub(self.model.image_base);
        let bytes = read_padded(self.pe, rva, size as usize);
        if let Some(a) = self.find_straddling(span, bytes.len()) {
            return Err(
                Error::new("data split boundary intersects the relocation at ").hex(a),
            );
        }
        self.draft_span(draft, section, span);
        Ok(section)
    }

    /// Draft a symbol at the start of `section`.
    pub fn draft_start_symbol(&self, draft: &mut Draft, name: String, section: usize)
        requires
            old(draft)@.wf(),
            section < old(draft)@.sections.len(),
        ensures
            final(draft)@ == old(draft)@.defining(name@, start_symbol(name@, section as int)),
            final(draft)@.wf(),
            same_sections(final(draft)@, old(draft)@),
    {
        let symbol = DraftSymbol {
            name: name.clone(),
            value: 0,
            size: 0,
            class: SymbolClass::Data,
            linkage: Linkage::External,
            section,
        };
        draft.define(name, symbol);
    }

    /// Draft the variables of a span that begins `section`.
    pub fn draft_variables(&self, draft: &mut Draft, section: usize, span: Span)
        requires
            self.wf(),
            old(draft)@.wf(),
            section < old(draft)@.sections.len(),
            span.start <= span.end,
        ensures
            final(draft)@ == with_variables(
                old(draft)@,
                window(self@.symbols.variables, span.start as int, span.end as int),
                section as int,
                span.start,
            ),
            final(draft)@.wf(),
            same_sections(final(draft)@, old(draft)@),
    {
        let variables = &self.symbols.variables;
        let from: usize = variables.lower(span.start);
        let to: usize = variables.lower(span.end);
        let ghost vs = window(self@.symbols.variables, span.start as int, span.end as int);
        proof {
            crate::addr_map::lemma_below_monotone(
                variables@,
                span.start as int,
                span.end as int,
            );
            crate::emitter::lemma_window_keys(variables@, span.start as int, span.end as int);
        }
        let ghost start = draft@;
        let mut i: usize = from;
        assert(vs.take(0) =~= Seq::<(u64, VariableView)>::empty());
        while i < to
            invariant
                from <= i <= to <= variables.entries@.len(),
                vs == variables@.subrange(from as int, to as int),
                forall|k: int| 0 <= k < vs.len() ==> span.start <= (#[trigger] vs[k]).0,
                section < start.sections.len(),
                draft@ == with_variables(start, vs.take(i - from), section as int, span.start),
                draft@.wf(),
                same_sections(draft@, start),
            decreases to - i,
        {
            assert(vs.take(i - from + 1).drop_last() =~= vs.take(i - from));
            let va: u64 = variables.entries[i].0;
            let v = &variables.entries[i].1;
            assert(vs[i - from] == (va, v@));
            let symbol = DraftSymbol {
                name: sanitize_symbol_name(v.name.as_str()),
                value: va - span.start,
                size: v.size,
                class: SymbolClass::Data,
                linkage: Linkage::External,
                section,
            };
            draft.offer(v.name.clone(), symbol);
            i += 1;
        }
        assert(vs.take(vs.len() as int) =~= vs);
    }
}

} // verus!
