//! What holds of every drafted object: nothing that was drafted is lost, every
//! function and data range of a group is there, and its bytes are those of the
//! image but for relocated fields.

use crate::addr_map::keys_increase;
use crate::blocks::{
    span_bytes, start_symbol, with_data_section, with_gap, with_gap_names, with_span,
    with_variables,
};
use crate::bytes::wrap64;
use crate::draft::{
    empty_draft, symbol_text, DraftSectionView, DraftSymbolView, DraftView, Linkage, PendingView,
    SymbolClass,
};
use crate::emitter::{cleared, fixed_bytes, EmitView};
use crate::format::{absolute_type, Contents, OutputFormat, RelocType};
use crate::function_code::{
    bytes_at, checked_tables, dispatch_cleared, end_with_tables, entries_cleared, function_bytes,
    function_drafted, function_place, function_recovered, function_symbol, recovered_bytes,
    switch_fields, tables_cleared, with_case, with_cases, with_dispatch, with_function_code,
    with_labels, with_recovered, with_tables, Place, RecRelView,
};
use crate::groups::{DataRange, GroupView};
use crate::model::{Function, JumpTableEntry, Name, RelocView, SegClass, Section, TableView};
use crate::objects::{
    code_drafted, code_section, code_starts, functions_drafted, gaps_drafted, gaps_in,
    group_data_drafted, group_drafted, occupied_spans, range_contents, range_drafted,
    ranges_drafted, resolved_functions, span_starts, starts_of, table_names, with_code_sections,
    with_range_symbols,
};
use crate::ownership::{anchor_text, owned_by_groups, owned_ranges};
use crate::plan::{all_bound, finished, PlanView};
use crate::ranges::{covered, lemma_subtracted, virtual_end, Span};
use crate::reloc_laws::{
    fixups_staged, in_fixup, in_recovered, in_switch, in_tables, keeps, lemma_fixed_window,
    lemma_fixups_staged, lemma_names_placed, lemma_recovered_cleared, lemma_recovered_staged,
    lemma_staged_on, lemma_switch_fields, lemma_tables_cleared, lemma_tables_on,
    lemma_tables_staged, lemma_variables_placed, names_placed, recovered_staged, tables_staged,
    variables_placed,
};
use crate::resolver::VariableView;
use crate::shared::{
    code_gaps, code_gaps_drafted, data_fragments, emitted_table_names, fragment_drafted,
    fragments_drafted, is_shared_class, shared_code_drafted, shared_data_drafted, shared_drafted,
    Elsewhere, SharedDataStats,
};
use crate::sorting::{
    in_key_order, lemma_place_behind, lemma_stable_sort_contains, lemma_stable_sort_orders,
    place_behind, stable_sort,
};
use crate::split::{held_by, owned_spans};
use vstd::prelude::*;

verus! {

// ---------------------------------------------------------------------------
// Bytes
// ---------------------------------------------------------------------------

/// Whether `bytes` are those of `image`, but for some that are zero.
pub open spec fn masked(bytes: Seq<u8>, image: Seq<u8>) -> bool {
    &&& bytes.len() == image.len()
    &&& forall|i: int|
        0 <= i < image.len() ==> (#[trigger] bytes[i]) == image[i] || bytes[i] == 0
}

proof fn lemma_cleared_masked(bytes: Seq<u8>, image: Seq<u8>, off: int, width: int)
    requires
        masked(bytes, image),
    ensures
        masked(cleared(bytes, off, width), image),
{
    let after = cleared(bytes, off, width);
    assert forall|i: int| 0 <= i < image.len() implies (#[trigger] after[i]) == image[i]
        || after[i] == 0 by {
        assert(bytes[i] == image[i] || bytes[i] == 0);
    }
}

proof fn lemma_recovered_masked(relocs: Seq<RecRelView>, image: Seq<u8>)
    ensures
        masked(recovered_bytes(relocs, image), image),
    decreases relocs.len(),
{
    if relocs.len() > 0 {
        lemma_recovered_masked(relocs.drop_last(), image);
        lemma_cleared_masked(
            recovered_bytes(relocs.drop_last(), image),
            image,
            relocs.last().offset as int,
            4,
        );
    }
}

proof fn lemma_fixed_masked(
    ctx: EmitView,
    start: u64,
    skip: Set<u64>,
    relocs: Seq<(u64, RelocView)>,
    bytes: Seq<u8>,
    image: Seq<u8>,
)
    requires
        masked(bytes, image),
    ensures
        masked(fixed_bytes(ctx, start, skip, relocs, bytes), image),
    decreases relocs.len(),
{
    if relocs.len() > 0 {
        lemma_fixed_masked(ctx, start, skip, relocs.drop_last(), bytes, image);
        let e = relocs.last();
        lemma_cleared_masked(
            fixed_bytes(ctx, start, skip, relocs.drop_last(), bytes),
            image,
            e.0 - start,
            e.1.size as int,
        );
    }
}

proof fn lemma_dispatch_masked(fields: Seq<u64>, start: u64, bytes: Seq<u8>, image: Seq<u8>)
    requires
        masked(bytes, image),
    ensures
        masked(dispatch_cleared(fields, start, bytes), image),
    decreases fields.len(),
{
    if fields.len() > 0 {
        lemma_dispatch_masked(fields.drop_last(), start, bytes, image);
        lemma_cleared_masked(
            dispatch_cleared(fields.drop_last(), start, bytes),
            image,
            crate::bytes::wrap64(fields.last() - start),
            4,
        );
    }
}

proof fn lemma_entries_masked(
    entries: Seq<JumpTableEntry>,
    width: int,
    start: u64,
    bytes: Seq<u8>,
    image: Seq<u8>,
)
    requires
        masked(bytes, image),
    ensures
        masked(entries_cleared(entries, width, start, bytes), image),
    decreases entries.len(),
{
    if entries.len() > 0 {
        lemma_entries_masked(entries.drop_last(), width, start, bytes, image);
        lemma_cleared_masked(
            entries_cleared(entries.drop_last(), width, start, bytes),
            image,
            crate::bytes::wrap64(entries.last().addr - start),
            width,
        );
    }
}

proof fn lemma_tables_masked(tables: Seq<TableView>, start: u64, bytes: Seq<u8>, image: Seq<u8>)
    requires
        masked(bytes, image),
    ensures
        masked(tables_cleared(tables, start, bytes), image),
    decreases tables.len(),
{
    if tables.len() > 0 {
        let t = tables.last();
        let before = tables_cleared(tables.drop_last(), start, bytes);
        lemma_tables_masked(tables.drop_last(), start, bytes, image);
        lemma_dispatch_masked(t.fields(), start, before, image);
        lemma_entries_masked(
            t.entries,
            t.entry_size as int,
            start,
            dispatch_cleared(t.fields(), start, before),
            image,
        );
    }
}

/// The bytes that are emitted for a function are those of the image, as many
/// and in the same order; where they differ, the emitted byte is zero.
pub proof fn lemma_function_bytes_are_the_image(
    ctx: EmitView,
    f: Function,
    tables: Seq<TableView>,
    image: Seq<u8>,
)
    ensures
        masked(function_bytes(ctx, f, tables, image), image),
{
    let end = end_with_tables(f.end, tables);
    let relocs = function_recovered(ctx, f, tables, image).relocs;
    let rec = recovered_bytes(relocs, image);
    lemma_recovered_masked(relocs, image);
    lemma_fixed_masked(
        ctx,
        f.start,
        switch_fields(tables),
        ctx.relocs(f.start, end),
        rec,
        image,
    );
    lemma_tables_masked(
        tables,
        f.start,
        fixed_bytes(ctx, f.start, switch_fields(tables), ctx.relocs(f.start, end), rec),
        image,
    );
}

/// The addresses of the fields and cases of the tables.
pub open spec fn switch_addresses(tables: Seq<TableView>) -> Set<u64> {
    Set::new(|a: u64| in_switch(tables, a))
}

proof fn lemma_switch_addresses(tables: Seq<TableView>)
    ensures
        switch_fields(tables) == switch_addresses(tables),
{
    assert forall|a: u64| switch_fields(tables).contains(a) == switch_addresses(tables).contains(
        a,
    ) by {
        lemma_switch_fields(tables, a);
    }
    assert(switch_fields(tables) =~= switch_addresses(tables));
}

/// A byte that is emitted for a function is zero where it lies in a field that was
/// recovered, that a fixup relocates, or that belongs to a table, and the byte of
/// the image anywhere else.
pub proof fn lemma_function_bytes_differ_in_fields(
    ctx: EmitView,
    f: Function,
    tables: Seq<TableView>,
    image: Seq<u8>,
    i: int,
)
    requires
        keys_increase(ctx.symbols.relocs),
        f.start <= f.end,
        0 <= i < image.len(),
    ensures
        ({
            let bytes = function_bytes(ctx, f, tables, image);
            let len = image.len() as int;
            &&& bytes.len() == image.len()
            &&& bytes[i] == if in_recovered(
                function_recovered(ctx, f, tables, image).relocs,
                len,
                i,
            ) || in_fixup(
                ctx,
                f.start,
                end_with_tables(f.end, tables),
                len,
                switch_addresses(tables),
                i,
            ) || in_tables(tables, f.start, len, i) {
                0u8
            } else {
                image[i]
            }
        }),
{
    let end = end_with_tables(f.end, tables);
    let relocs = function_recovered(ctx, f, tables, image).relocs;
    let rec = recovered_bytes(relocs, image);
    let fixed = fixed_bytes(ctx, f.start, switch_fields(tables), ctx.relocs(f.start, end), rec);
    lemma_switch_addresses(tables);
    lemma_end_with_tables(f.end, tables);
    lemma_recovered_cleared(relocs, image, i);
    lemma_fixed_window(ctx, f.start, end, switch_fields(tables), rec, i);
    lemma_tables_cleared(tables, f.start, fixed, i);
}

/// A function with its tables ends where the last of them does.
pub proof fn lemma_end_with_tables(end: u64, tables: Seq<TableView>)
    ensures
        end <= end_with_tables(end, tables),
        forall|k: int|
            0 <= k < tables.len() ==> (#[trigger] tables[k]).end() <= end_with_tables(end, tables),
        end_with_tables(end, tables) == end || exists|k: int|
            0 <= k < tables.len() && (#[trigger] tables[k]).end() == end_with_tables(end, tables),
    decreases tables.len(),
{
    if tables.len() > 0 {
        let init = tables.drop_last();
        lemma_end_with_tables(end, init);
        assert forall|k: int| 0 <= k < tables.len() implies (#[trigger] tables[k]).end()
            <= end_with_tables(end, tables) by {
            if k < init.len() {
                assert(init[k] == tables[k]);
            }
        }
        let e = end_with_tables(end, tables);
        if e == tables.last().end() {
            assert(tables[tables.len() - 1].end() == e);
        } else if e != end {
            let k = choose|k: int| 0 <= k < init.len() && (#[trigger] init[k]).end() == e;
            assert(tables[k].end() == e);
        }
    }
}

/// The bytes that are emitted for a span of data or of code between functions.
pub open spec fn span_emitted(ctx: EmitView, span: Span) -> Seq<u8> {
    fixed_bytes(
        ctx,
        span.start,
        Set::empty(),
        ctx.relocs(span.start, span.end),
        span_bytes(ctx, span),
    )
}

/// The bytes that are emitted for a span are those of the image, as many and in
/// the same order; where they differ, the emitted byte is zero.
pub proof fn lemma_span_bytes_are_the_image(ctx: EmitView, span: Span)
    ensures
        masked(span_emitted(ctx, span), span_bytes(ctx, span)),
{
    lemma_fixed_masked(
        ctx,
        span.start,
        Set::empty(),
        ctx.relocs(span.start, span.end),
        span_bytes(ctx, span),
        span_bytes(ctx, span),
    );
}

/// A byte that is emitted for a span is zero where it lies in a field that a fixup
/// relocates, and the byte of the image anywhere else.
pub proof fn lemma_span_bytes_differ_in_fields(ctx: EmitView, span: Span, i: int)
    requires
        keys_increase(ctx.symbols.relocs),
        span.start <= span.end,
        0 <= i < span_bytes(ctx, span).len(),
    ensures
        span_emitted(ctx, span).len() == span_bytes(ctx, span).len(),
        span_emitted(ctx, span)[i] == if in_fixup(
            ctx,
            span.start,
            span.end,
            span_bytes(ctx, span).len() as int,
            Set::empty(),
            i,
        ) {
            0u8
        } else {
            span_bytes(ctx, span)[i]
        },
{
    lemma_fixed_window(ctx, span.start, span.end, Set::empty(), span_bytes(ctx, span), i);
}

// ---------------------------------------------------------------------------
// Nothing is lost
// ---------------------------------------------------------------------------

/// Whether `b` begins with `a`.
pub open spec fn begins<T>(a: Seq<T>, b: Seq<T>) -> bool {
    a.len() <= b.len() && b.take(a.len() as int) == a
}

pub(crate) proof fn lemma_begins_with_self<T>(a: Seq<T>)
    ensures
        begins(a, a),
{
    assert(a.take(a.len() as int) =~= a);
}

proof fn lemma_begins_appended<T>(a: Seq<T>, more: Seq<T>)
    ensures
        begins(a, a + more),
{
    assert((a + more).take(a.len() as int) =~= a);
}

proof fn lemma_begins_pushed<T>(a: Seq<T>, x: T)
    ensures
        begins(a, a.push(x)),
{
    assert(a.push(x).take(a.len() as int) =~= a);
}

pub(crate) proof fn lemma_begins_trans<T>(a: Seq<T>, b: Seq<T>, c: Seq<T>)
    requires
        begins(a, b),
        begins(b, c),
    ensures
        begins(a, c),
{
    assert(c.take(a.len() as int) =~= c.take(b.len() as int).take(a.len() as int));
}

pub(crate) proof fn lemma_begins_index<T>(a: Seq<T>, b: Seq<T>, i: int)
    requires
        begins(a, b),
        0 <= i < a.len(),
    ensures
        b[i] == a[i],
{
    assert(b.take(a.len() as int)[i] == b[i]);
}

/// Whether a section is `a` with more bytes behind it.
pub open spec fn section_extends(a: DraftSectionView, b: DraftSectionView) -> bool {
    &&& a.name == b.name
    &&& a.contents == b.contents
    &&& a.zeroed == b.zeroed
    &&& begins(a.data, b.data)
}

/// Whether the names of a draft lead to symbols of these names that it defines.
pub open spec fn names_lead(d: DraftView) -> bool {
    forall|name: Seq<char>| #[trigger]
        d.local.contains_key(name) ==> {
            &&& d.local[name] < d.symbols.len()
            &&& d.symbols[d.local[name] as int].name == symbol_text(name)
            &&& d.symbols[d.local[name] as int].class != SymbolClass::Undefined
        }
}

/// Whether `b` has the names that `a` has, and its names lead to symbols where
/// those of `a` do.
pub open spec fn names_extend(a: DraftView, b: DraftView) -> bool {
    &&& forall|name: Seq<char>| #[trigger]
        a.local.contains_key(name) ==> b.local.contains_key(name)
    &&& names_lead(a) && b.symbols.len() <= usize::MAX ==> names_lead(b)
}

/// Whether a draft is `a` with more sections, bytes, symbols and relocations
/// behind those that it has.
pub open spec fn extends(a: DraftView, b: DraftView) -> bool {
    &&& names_extend(a, b)
    &&& begins(a.symbols, b.symbols)
    &&& begins(a.pending, b.pending)
    &&& a.sections.len() <= b.sections.len()
    &&& forall|i: int|
        0 <= i < a.sections.len() ==> section_extends(#[trigger] a.sections[i], b.sections[i])
}

proof fn lemma_extends_self(a: DraftView)
    ensures
        extends(a, a),
{
    lemma_begins_with_self(a.symbols);
    lemma_begins_with_self(a.pending);
    assert forall|i: int| 0 <= i < a.sections.len() implies section_extends(
        #[trigger] a.sections[i],
        a.sections[i],
    ) by {
        lemma_begins_with_self(a.sections[i].data);
    }
}

proof fn lemma_extends_trans(a: DraftView, b: DraftView, c: DraftView)
    requires
        extends(a, b),
        extends(b, c),
    ensures
        extends(a, c),
{
    lemma_begins_trans(a.symbols, b.symbols, c.symbols);
    lemma_begins_trans(a.pending, b.pending, c.pending);
    assert forall|i: int| 0 <= i < a.sections.len() implies section_extends(
        #[trigger] a.sections[i],
        c.sections[i],
    ) by {
        assert(section_extends(b.sections[i], c.sections[i]));
        lemma_begins_trans(a.sections[i].data, b.sections[i].data, c.sections[i].data);
    }
}

/// A draft that only gained symbols and relocations.
proof fn lemma_extends_same_sections(a: DraftView, b: DraftView)
    requires
        a.sections == b.sections,
        names_extend(a, b),
        begins(a.symbols, b.symbols),
        begins(a.pending, b.pending),
    ensures
        extends(a, b),
{
    lemma_extends_self(a);
    assert forall|i: int| 0 <= i < a.sections.len() implies section_extends(
        #[trigger] a.sections[i],
        b.sections[i],
    ) by {
        lemma_begins_with_self(a.sections[i].data);
    }
}

/// Whether `b` is `a` with more symbols and relocations.
pub open spec fn marks_extend(a: DraftView, b: DraftView) -> bool {
    &&& a.sections == b.sections
    &&& names_extend(a, b)
    &&& begins(a.symbols, b.symbols)
    &&& begins(a.pending, b.pending)
}

proof fn lemma_marks_self(a: DraftView)
    ensures
        marks_extend(a, a),
{
    lemma_begins_with_self(a.symbols);
    lemma_begins_with_self(a.pending);
}

proof fn lemma_marks_trans(a: DraftView, b: DraftView, c: DraftView)
    requires
        marks_extend(a, b),
        marks_extend(b, c),
    ensures
        marks_extend(a, c),
{
    lemma_begins_trans(a.symbols, b.symbols, c.symbols);
    lemma_begins_trans(a.pending, b.pending, c.pending);
}

pub(crate) proof fn lemma_defining(d: DraftView, key: Seq<char>, s: crate::draft::DraftSymbolView)
    requires
        s.name == symbol_text(key),
        s.class != SymbolClass::Undefined,
    ensures
        marks_extend(d, d.defining(key, s)),
        marks_extend(d, d.offering(key, s)),
{
    lemma_begins_with_self(d.pending);
    lemma_begins_pushed(d.symbols, s);
}

proof fn lemma_staging(d: DraftView, p: crate::draft::PendingView)
    ensures
        marks_extend(d, d.staging(p)),
{
    lemma_begins_with_self(d.symbols);
    lemma_begins_pushed(d.pending, p);
}

pub(crate) proof fn lemma_with_labels(d: DraftView, names: Seq<Name>, own: Seq<char>, place: Place)
    ensures
        marks_extend(d, with_labels(d, names, own, place)),
    decreases names.len(),
{
    lemma_marks_self(d);
    if names.len() > 0 {
        let before = with_labels(d, names.drop_last(), own, place);
        let n = names.last();
        lemma_with_labels(d, names.drop_last(), own, place);
        lemma_defining(before, n.name@, crate::function_code::label_symbol(n, place, 0));
        if n.name@ != own {
            lemma_marks_trans(d, before, with_labels(d, names, own, place));
        }
    }
}

pub(crate) proof fn lemma_with_dispatch(
    d: DraftView,
    ctx: EmitView,
    fields: Seq<u64>,
    table: Seq<char>,
    place: Place,
    len: int,
)
    ensures
        marks_extend(d, with_dispatch(d, ctx, fields, table, place, len)),
    decreases fields.len(),
{
    lemma_marks_self(d);
    if fields.len() > 0 {
        let before = with_dispatch(d, ctx, fields.drop_last(), table, place, len);
        let after = with_dispatch(d, ctx, fields, table, place, len);
        lemma_with_dispatch(d, ctx, fields.drop_last(), table, place, len);
        if after != before {
            lemma_staging(before, after.pending.last());
            assert(after == before.staging(after.pending.last()));
            lemma_marks_trans(d, before, after);
        }
    }
}

pub(crate) proof fn lemma_with_case(
    d: DraftView,
    ctx: EmitView,
    entry: JumpTableEntry,
    width: u32,
    place: Place,
    len: int,
)
    ensures
        marks_extend(d, with_case(d, ctx, entry, width, place, len)),
{
    let after = with_case(d, ctx, entry, width, place, len);
    let label = crate::function_code::case_label(entry.target);
    let symbol = crate::function_code::local_label(label, entry.target, place);
    let labelled = d.defining(label, symbol);
    lemma_marks_self(d);
    lemma_defining(d, label, symbol);
    lemma_staging(d, after.pending.last());
    lemma_staging(labelled, after.pending.last());
    lemma_marks_trans(d, labelled, labelled.staging(after.pending.last()));
}

pub(crate) proof fn lemma_with_cases(
    d: DraftView,
    ctx: EmitView,
    entries: Seq<JumpTableEntry>,
    width: u32,
    place: Place,
    len: int,
)
    ensures
        marks_extend(d, with_cases(d, ctx, entries, width, place, len)),
    decreases entries.len(),
{
    lemma_marks_self(d);
    if entries.len() > 0 {
        let before = with_cases(d, ctx, entries.drop_last(), width, place, len);
        lemma_with_cases(d, ctx, entries.drop_last(), width, place, len);
        lemma_with_case(before, ctx, entries.last(), width, place, len);
        lemma_marks_trans(d, before, with_cases(d, ctx, entries, width, place, len));
    }
}

pub(crate) proof fn lemma_with_tables(
    d: DraftView,
    ctx: EmitView,
    tables: Seq<TableView>,
    place: Place,
    len: int,
)
    ensures
        marks_extend(d, with_tables(d, ctx, tables, place, len)),
    decreases tables.len(),
{
    lemma_marks_self(d);
    if tables.len() > 0 {
        let before = with_tables(d, ctx, tables.drop_last(), place, len);
        let t = tables.last();
        let symbol = crate::function_code::local_label(t.name, t.start, place);
        let labelled = before.defining(t.name, symbol);
        let dispatched = with_dispatch(labelled, ctx, t.fields(), t.name, place, len);
        lemma_with_tables(d, ctx, tables.drop_last(), place, len);
        lemma_defining(before, t.name, symbol);
        lemma_with_dispatch(labelled, ctx, t.fields(), t.name, place, len);
        lemma_with_cases(dispatched, ctx, t.entries, t.entry_size, place, len);
        lemma_marks_trans(d, before, labelled);
        lemma_marks_trans(d, labelled, dispatched);
        lemma_marks_trans(d, dispatched, with_tables(d, ctx, tables, place, len));
    }
}

pub(crate) proof fn lemma_with_recovered(d: DraftView, ctx: EmitView, relocs: Seq<RecRelView>, place: Place)
    ensures
        marks_extend(d, with_recovered(d, ctx, relocs, place)),
    decreases relocs.len(),
{
    lemma_marks_self(d);
    if relocs.len() > 0 {
        let before = with_recovered(d, ctx, relocs.drop_last(), place);
        let after = with_recovered(d, ctx, relocs, place);
        lemma_with_recovered(d, ctx, relocs.drop_last(), place);
        if after != before {
            lemma_staging(before, after.pending.last());
            assert(after == before.staging(after.pending.last()));
            lemma_marks_trans(d, before, after);
        }
    }
}

pub(crate) proof fn lemma_with_gap_names(
    d: DraftView,
    names: Seq<Name>,
    tables: Set<Seq<char>>,
    place: Place,
)
    ensures
        marks_extend(d, with_gap_names(d, names, tables, place)),
    decreases names.len(),
{
    lemma_marks_self(d);
    if names.len() > 0 {
        let before = with_gap_names(d, names.drop_last(), tables, place);
        let n = names.last();
        lemma_with_gap_names(d, names.drop_last(), tables, place);
        lemma_defining(before, n.name@, crate::function_code::label_symbol(n, place, n.size));
        if !tables.contains(n.name@) {
            lemma_marks_trans(d, before, with_gap_names(d, names, tables, place));
        }
    }
}

pub(crate) proof fn lemma_with_variables(
    d: DraftView,
    variables: Seq<(u64, VariableView)>,
    section: int,
    start: u64,
)
    ensures
        marks_extend(d, with_variables(d, variables, section, start)),
    decreases variables.len(),
{
    lemma_marks_self(d);
    if variables.len() > 0 {
        let before = with_variables(d, variables.drop_last(), section, start);
        let after = with_variables(d, variables, section, start);
        lemma_with_variables(d, variables.drop_last(), section, start);
        lemma_defining(before, variables.last().1.name, after.symbols.last());
        lemma_marks_trans(d, before, after);
    }
}

proof fn lemma_with_data(d: DraftView, section: int, data: Seq<u8>)
    requires
        0 <= section < d.sections.len(),
    ensures
        extends(d, d.with_data(section, data)),
        d.with_data(section, data).sections.len() == d.sections.len(),
{
    let after = d.with_data(section, data);
    lemma_begins_with_self(d.symbols);
    lemma_begins_with_self(d.pending);
    assert forall|i: int| 0 <= i < d.sections.len() implies section_extends(
        #[trigger] d.sections[i],
        after.sections[i],
    ) by {
        lemma_begins_with_self(d.sections[i].data);
        lemma_begins_appended(d.sections[i].data, data);
    }
}

proof fn lemma_with_section(d: DraftView, name: Seq<char>, contents: Contents)
    ensures
        extends(d, d.with_section(name, contents)),
{
    let after = d.with_section(name, contents);
    lemma_begins_with_self(d.symbols);
    lemma_begins_with_self(d.pending);
    assert forall|i: int| 0 <= i < d.sections.len() implies section_extends(
        #[trigger] d.sections[i],
        after.sections[i],
    ) by {
        lemma_begins_with_self(d.sections[i].data);
    }
}

proof fn lemma_marks_are_extends(a: DraftView, b: DraftView)
    requires
        marks_extend(a, b),
    ensures
        extends(a, b),
{
    lemma_extends_same_sections(a, b);
}

// ---------------------------------------------------------------------------
// Functions
// ---------------------------------------------------------------------------

/// Whether `part` stands in `data` at `offset`.
pub open spec fn bytes_stand(data: Seq<u8>, offset: int, part: Seq<u8>) -> bool {
    &&& 0 <= offset
    &&& offset + part.len() <= data.len()
    &&& data.subrange(offset, (offset + part.len()) as int) == part
}

proof fn lemma_bytes_stand_on(a: Seq<u8>, b: Seq<u8>, offset: int, part: Seq<u8>)
    requires
        bytes_stand(a, offset, part),
        begins(a, b),
    ensures
        bytes_stand(b, offset, part),
{
    let end = (offset + part.len()) as int;
    assert(b.subrange(offset, end) =~= b.take(a.len() as int).subrange(offset, end));
}

/// What is asked of an emission: addresses in order.
pub open spec fn is_ordered(ctx: EmitView) -> bool {
    &&& keys_increase(ctx.symbols.relocs)
    &&& keys_increase(ctx.symbols.variables)
    &&& in_key_order(ctx.names)
}

/// Whether every field of a function is staged, and the names in it are symbols.
pub open spec fn function_staged(
    ctx: EmitView,
    d: DraftView,
    f: Function,
    tables: Seq<TableView>,
    image: Seq<u8>,
    place: Place,
) -> bool {
    let len = image.len() as int;
    let section = place.section as int;
    &&& fixups_staged(
        ctx,
        d,
        section,
        place.base,
        place.start,
        place.end,
        len,
        switch_addresses(tables),
    )
    &&& recovered_staged(
        ctx,
        d,
        function_recovered(ctx, f, tables, image).relocs,
        section,
        place.base,
        place.start,
    )
    &&& tables_staged(ctx, d, tables, place, len)
    &&& names_placed(ctx, d, f.name@, place)
    &&& d.local.contains_key(f.name@)
}

/// Whether the draft has the bytes of a function at `offset` of the section of
/// `place`, the external symbol `k` for them, and what they need relocated.
pub open spec fn function_at(
    ctx: EmitView,
    d: DraftView,
    f: Function,
    tables: Seq<TableView>,
    image: Seq<u8>,
    place: Place,
    offset: int,
    k: int,
) -> bool {
    &&& 0 <= k < d.symbols.len()
    &&& d.symbols[k] == (DraftSymbolView {
        name: symbol_text(f.name@),
        value: place.base,
        size: (place.end - f.start) as u64,
        class: SymbolClass::Function,
        linkage: Linkage::External,
        section: place.section as int,
    })
    &&& place.base == offset as u64
    &&& place.start == f.start
    &&& place.end == end_with_tables(f.end, tables)
    &&& place.section < d.sections.len()
    &&& bytes_stand(
        d.sections[place.section as int].data,
        offset,
        function_bytes(ctx, f, tables, image),
    )
    &&& is_ordered(ctx) ==> function_staged(ctx, d, f, tables, image, place)
}

/// Whether the draft has a function: its bytes, its symbol, and what its bytes
/// need relocated.
pub open spec fn has_function(
    ctx: EmitView,
    d: DraftView,
    f: Function,
    tables: Seq<TableView>,
    image: Seq<u8>,
) -> bool {
    exists|place: Place, offset: int, k: int| #[trigger]
        function_at(ctx, d, f, tables, image, place, offset, k)
}

proof fn lemma_function_staged_on(
    ctx: EmitView,
    a: DraftView,
    b: DraftView,
    f: Function,
    tables: Seq<TableView>,
    image: Seq<u8>,
    place: Place,
)
    requires
        keeps(a, b),
        function_staged(ctx, a, f, tables, image, place),
    ensures
        function_staged(ctx, b, f, tables, image, place),
{
    lemma_staged_on(a, b);
    lemma_tables_on(ctx, a, b, tables, place, image.len() as int);
}

proof fn lemma_has_function_on(
    ctx: EmitView,
    a: DraftView,
    b: DraftView,
    f: Function,
    tables: Seq<TableView>,
    image: Seq<u8>,
)
    requires
        extends(a, b),
        has_function(ctx, a, f, tables, image),
    ensures
        has_function(ctx, b, f, tables, image),
{
    let (place, offset, k) = choose|place: Place, offset: int, k: int| #[trigger]
        function_at(ctx, a, f, tables, image, place, offset, k);
    lemma_begins_index(a.symbols, b.symbols, k);
    let s = place.section as int;
    assert(section_extends(a.sections[s], b.sections[s]));
    lemma_bytes_stand_on(
        a.sections[s].data,
        b.sections[s].data,
        offset,
        function_bytes(ctx, f, tables, image),
    );
    if is_ordered(ctx) {
        lemma_function_staged_on(ctx, a, b, f, tables, image, place);
    }
    assert(function_at(ctx, b, f, tables, image, place, offset, k));
}

proof fn lemma_function_code(
    d: DraftView,
    ctx: EmitView,
    section: usize,
    f: Function,
    tables: Seq<TableView>,
    image: Seq<u8>,
)
    requires
        f.start <= f.end,
        section < d.sections.len(),
    ensures
        ({
            let after = with_function_code(d, ctx, section, f, tables, image);
            &&& extends(d, after)
            &&& after.sections.len() == d.sections.len()
            &&& has_function(ctx, after, f, tables, image)
        }),
{
    reveal(with_function_code);
    let end = end_with_tables(f.end, tables);
    let place = function_place(d, section, f, end);
    let len = image.len() as int;
    let bytes = function_bytes(ctx, f, tables, image);
    let symbol = function_symbol(f, place);
    let stored = d.with_data(section as int, bytes);
    let defined = stored.defining(f.name@, symbol);
    let names = crate::sorting::key_window(ctx.names, f.start as int, end as int);
    let labelled = with_labels(defined, names, f.name@, place);
    let switched = with_tables(labelled, ctx, tables, place, len);
    let after = with_function_code(d, ctx, section, f, tables, image);
    let relocs = function_recovered(ctx, f, tables, image).relocs;
    let staged = crate::emitter::fixed_pending(
        ctx,
        section as int,
        place.base,
        f.start,
        len,
        switch_fields(tables),
        ctx.relocs(f.start, end),
    );
    let fixed = switched.staging_all(staged);
    lemma_with_data(d, section as int, bytes);
    lemma_defining(stored, f.name@, symbol);
    lemma_with_labels(defined, names, f.name@, place);
    lemma_with_tables(labelled, ctx, tables, place, len);
    lemma_begins_appended(switched.pending, staged);
    lemma_begins_with_self(switched.symbols);
    assert(marks_extend(switched, fixed));
    lemma_with_recovered(fixed, ctx, relocs, place);
    assert(after == with_recovered(fixed, ctx, relocs, place));
    lemma_marks_trans(defined, labelled, switched);
    lemma_marks_trans(defined, switched, fixed);
    lemma_marks_trans(defined, fixed, after);
    lemma_marks_trans(stored, defined, after);
    lemma_marks_are_extends(stored, after);
    lemma_extends_trans(d, stored, after);
    let offset = d.sections[section as int].data.len() as int;
    assert(stored.sections[section as int].data.subrange(
        offset,
        (offset + bytes.len()) as int,
    ) =~= bytes);
    let k = stored.symbols.len() as int;
    assert(defined.symbols[k] == symbol);
    lemma_begins_index(defined.symbols, after.symbols, k);
    assert(bytes_stand(after.sections[section as int].data, offset, bytes));
    lemma_end_with_tables(f.end, tables);
    lemma_switch_addresses(tables);
    if is_ordered(ctx) {
        lemma_function_is_staged(d, ctx, section, f, tables, image);
    }
    assert(function_at(ctx, after, f, tables, image, place, offset, k));
}

/// Drafting a function stages every field of it.
proof fn lemma_function_is_staged(
    d: DraftView,
    ctx: EmitView,
    section: usize,
    f: Function,
    tables: Seq<TableView>,
    image: Seq<u8>,
)
    requires
        is_ordered(ctx),
        f.start <= f.end,
    ensures
        function_staged(
            ctx,
            with_function_code(d, ctx, section, f, tables, image),
            f,
            tables,
            image,
            function_place(d, section, f, end_with_tables(f.end, tables)),
        ),
{
    reveal(with_function_code);
    let end = end_with_tables(f.end, tables);
    let place = function_place(d, section, f, end);
    let len = image.len() as int;
    let bytes = function_bytes(ctx, f, tables, image);
    let symbol = function_symbol(f, place);
    let stored = d.with_data(section as int, bytes);
    let defined = stored.defining(f.name@, symbol);
    let names = crate::sorting::key_window(ctx.names, f.start as int, end as int);
    let labelled = with_labels(defined, names, f.name@, place);
    let switched = with_tables(labelled, ctx, tables, place, len);
    let after = with_function_code(d, ctx, section, f, tables, image);
    let relocs = function_recovered(ctx, f, tables, image).relocs;
    let staged = crate::emitter::fixed_pending(
        ctx,
        section as int,
        place.base,
        f.start,
        len,
        switch_fields(tables),
        ctx.relocs(f.start, end),
    );
    let fixed = switched.staging_all(staged);
    lemma_end_with_tables(f.end, tables);
    lemma_switch_addresses(tables);
    lemma_with_labels(defined, names, f.name@, place);
    lemma_with_tables(labelled, ctx, tables, place, len);
    lemma_begins_appended(switched.pending, staged);
    lemma_begins_with_self(switched.symbols);
    assert(marks_extend(switched, fixed));
    lemma_with_recovered(fixed, ctx, relocs, place);
    assert(after == with_recovered(fixed, ctx, relocs, place));
    lemma_marks_trans(labelled, switched, fixed);
    lemma_marks_trans(labelled, fixed, after);
    lemma_marks_trans(defined, labelled, after);
    assert forall|p: PendingView| #[trigger] staged.contains(p) implies fixed.pending.contains(
        p,
    ) by {
        let m = choose|m: int| 0 <= m < staged.len() && staged[m] == p;
        assert(fixed.pending[switched.pending.len() + m] == p);
    }
    lemma_staged_on(fixed, after);
    lemma_fixups_staged(
        ctx,
        after,
        section as int,
        place.base,
        f.start,
        end,
        len,
        switch_fields(tables),
    );
    lemma_recovered_staged(fixed, ctx, relocs, place);
    lemma_tables_staged(labelled, ctx, tables, place, len);
    lemma_marks_trans(switched, fixed, after);
    lemma_tables_on(ctx, switched, after, tables, place, len);
    lemma_names_placed(defined, ctx, f.name@, place);
    lemma_marks_trans(labelled, switched, after);
    lemma_staged_on(labelled, after);
    assert(names_placed(ctx, after, f.name@, place));
    assert(defined.local.contains_key(f.name@));
}

/// What is asked of the sections of code contributions: there is one for each
/// start.
pub open spec fn sections_for(d: DraftView, starts: Seq<u64>) -> bool {
    in_key_order(starts) && starts.len() <= d.sections.len() && d.sections.len() <= usize::MAX
}

proof fn lemma_code_section(d: DraftView, starts: Seq<u64>, start: u64)
    requires
        sections_for(d, starts),
        starts.contains(start),
    ensures
        code_section(starts, start) < d.sections.len(),
{
    lemma_place_behind(starts, start);
    let k = choose|k: int| 0 <= k < starts.len() && starts[k] == start;
    assert(crate::sorting::HasKey::spec_key(&starts[k]) == start);
    assert(0 < place_behind(starts, start) <= starts.len());
}

proof fn lemma_functions_drafted(
    ctx: EmitView,
    state: (DraftView, crate::emitter::EmitStats),
    starts: Seq<u64>,
    functions: Seq<Function>,
    k: int,
)
    requires
        sections_for(state.0, starts),
        forall|i: int|
            0 <= i < functions.len() ==> starts.contains((#[trigger] functions[i]).start)
                && functions[i].start <= functions[i].end,
        functions_drafted(ctx, state, starts, functions) is Ok,
    ensures
        ({
            let d = functions_drafted(ctx, state, starts, functions)->Ok_0.0;
            &&& extends(state.0, d)
            &&& d.sections.len() == state.0.sections.len()
            &&& 0 <= k < functions.len() ==> backed_function_held(ctx, d, functions[k])
        }),
    decreases functions.len(),
{
    if functions.len() == 0 {
        lemma_extends_self(state.0);
    } else {
        let init = functions.drop_last();
        assert forall|i: int| 0 <= i < init.len() implies starts.contains(
            (#[trigger] init[i]).start,
        ) && init[i].start <= init[i].end by {
            assert(init[i] == functions[i]);
        }
        lemma_functions_drafted(ctx, state, starts, init, k);
        let (before, stats) = functions_drafted(ctx, state, starts, init)->Ok_0;
        let f = functions.last();
        assert(starts.contains(functions[functions.len() - 1].start));
        let section = code_section(starts, f.start);
        lemma_code_section(before, starts, f.start);
        let d = functions_drafted(ctx, state, starts, functions)->Ok_0.0;
        assert(function_drafted(ctx, before, stats, section, f) is Ok);
        let tables = checked_tables(ctx, f)->Ok_0;
        let size = end_with_tables(f.end, tables) - f.start;
        lemma_extends_self(before);
        if let Some(image) = bytes_at(ctx, f.start, size) {
            lemma_function_code(before, ctx, section, f, tables, image);
        }
        assert(extends(before, d));
        lemma_extends_trans(state.0, before, d);
        if 0 <= k < init.len() {
            lemma_backed_function_on(ctx, before, d, functions[k]);
        }
    }
}

/// Whether the draft has a function, where its tables are sound and the image
/// backs it.
pub open spec fn backed_function_held(ctx: EmitView, d: DraftView, f: Function) -> bool {
    match checked_tables(ctx, f) {
        Err(_) => true,
        Ok(tables) => match bytes_at(ctx, f.start, end_with_tables(f.end, tables) - f.start) {
            None => true,
            Some(image) => has_function(ctx, d, f, tables, image),
        },
    }
}

proof fn lemma_backed_function_on(ctx: EmitView, a: DraftView, b: DraftView, f: Function)
    requires
        extends(a, b),
        backed_function_held(ctx, a, f),
    ensures
        backed_function_held(ctx, b, f),
{
    if let Ok(tables) = checked_tables(ctx, f) {
        if let Some(image) = bytes_at(ctx, f.start, end_with_tables(f.end, tables) - f.start) {
            lemma_has_function_on(ctx, a, b, f, tables, image);
        }
    }
}

proof fn lemma_with_span(d: DraftView, ctx: EmitView, section: usize, span: Span)
    requires
        section < d.sections.len(),
    ensures
        extends(d, with_span(d, ctx, section, span)),
        with_span(d, ctx, section, span).sections.len() == d.sections.len(),
        with_span(d, ctx, section, span).sections[section as int].data
            == d.sections[section as int].data + span_emitted(ctx, span),
{
    let stored = d.with_data(section as int, span_emitted(ctx, span));
    let after = with_span(d, ctx, section, span);
    lemma_with_data(d, section as int, span_emitted(ctx, span));
    let staged = crate::emitter::fixed_pending(
        ctx,
        section as int,
        0,
        span.start,
        span_bytes(ctx, span).len() as int,
        Set::empty(),
        ctx.relocs(span.start, span.end),
    );
    assert(after == stored.staging_all(staged));
    lemma_begins_appended(stored.pending, staged);
    lemma_begins_with_self(stored.symbols);
    lemma_marks_are_extends(stored, after);
    lemma_extends_trans(d, stored, after);
}

/// Whether what fixups name in a span that begins a section is staged.
pub open spec fn span_staged(ctx: EmitView, d: DraftView, section: int, span: Span) -> bool {
    is_ordered(ctx) ==> fixups_staged(
        ctx,
        d,
        section,
        0,
        span.start,
        span.end,
        span_bytes(ctx, span).len() as int,
        Set::empty(),
    )
}

proof fn lemma_span_staged(d: DraftView, ctx: EmitView, section: usize, span: Span)
    requires
        span.start <= span.end,
    ensures
        span_staged(ctx, with_span(d, ctx, section, span), section as int, span),
{
    let after = with_span(d, ctx, section, span);
    let staged = crate::emitter::fixed_pending(
        ctx,
        section as int,
        0,
        span.start,
        span_bytes(ctx, span).len() as int,
        Set::empty(),
        ctx.relocs(span.start, span.end),
    );
    assert forall|p: PendingView| #[trigger] staged.contains(p) implies after.pending.contains(
        p,
    ) by {
        let m = choose|m: int| 0 <= m < staged.len() && staged[m] == p;
        assert(after.pending[d.pending.len() + m] == p);
    }
    if is_ordered(ctx) {
        lemma_fixups_staged(
            ctx,
            after,
            section as int,
            0,
            span.start,
            span.end,
            span_bytes(ctx, span).len() as int,
            Set::empty(),
        );
    }
}

proof fn lemma_span_staged_on(ctx: EmitView, a: DraftView, b: DraftView, section: int, span: Span)
    requires
        keeps(a, b),
        span_staged(ctx, a, section, span),
    ensures
        span_staged(ctx, b, section, span),
{
    lemma_staged_on(a, b);
}

/// Whether the variables of a span that begins a section are symbols.
pub open spec fn variables_held(ctx: EmitView, d: DraftView, section: int, span: Span) -> bool {
    is_ordered(ctx) ==> variables_placed(ctx, d, section, span.start, span.end)
}

proof fn lemma_variables_on(
    ctx: EmitView,
    a: DraftView,
    b: DraftView,
    section: int,
    span: Span,
)
    requires
        keeps(a, b),
        variables_held(ctx, a, section, span),
    ensures
        variables_held(ctx, b, section, span),
{
    lemma_staged_on(a, b);
}

/// Whether the names of a stretch that begins a section are symbols that other
/// objects can refer to, but for those of tables.
pub open spec fn gap_names_placed(
    ctx: EmitView,
    d: DraftView,
    section: int,
    gap: Span,
    tables: Set<Seq<char>>,
) -> bool {
    is_ordered(ctx) ==> forall|k: int|
        0 <= k < ctx.names.len() && gap.start <= (#[trigger] ctx.names[k]).addr < gap.end
            && !tables.contains(ctx.names[k].name@) ==> {
            &&& d.local.contains_key(ctx.names[k].name@)
            &&& d.symbols.contains(
                DraftSymbolView {
                    name: symbol_text(ctx.names[k].name@),
                    value: (ctx.names[k].addr - gap.start) as u64,
                    size: ctx.names[k].size,
                    class: SymbolClass::Data,
                    linkage: Linkage::External,
                    section,
                },
            )
        }
}

proof fn lemma_gap_name_of(
    d: DraftView,
    names: Seq<Name>,
    tables: Set<Seq<char>>,
    place: Place,
    k: int,
)
    requires
        0 <= k < names.len(),
        !tables.contains(names[k].name@),
        place.base == 0,
        place.start <= names[k].addr,
    ensures
        with_gap_names(d, names, tables, place).local.contains_key(names[k].name@),
        with_gap_names(d, names, tables, place).symbols.contains(
            DraftSymbolView {
                name: symbol_text(names[k].name@),
                value: (names[k].addr - place.start) as u64,
                size: names[k].size,
                class: SymbolClass::Data,
                linkage: Linkage::External,
                section: place.section as int,
            },
        ),
    decreases names.len(),
{
    let init = names.drop_last();
    let before = with_gap_names(d, init, tables, place);
    let after = with_gap_names(d, names, tables, place);
    let s = DraftSymbolView {
        name: symbol_text(names[k].name@),
        value: (names[k].addr - place.start) as u64,
        size: names[k].size,
        class: SymbolClass::Data,
        linkage: Linkage::External,
        section: place.section as int,
    };
    if k < init.len() {
        lemma_gap_name_of(d, init, tables, place, k);
        let i = choose|i: int| 0 <= i < before.symbols.len() && before.symbols[i] == s;
        assert(after.symbols[i] == s);
    } else {
        assert(after.symbols[before.symbols.len() as int] == s);
    }
}

/// Whether the draft has a stretch of code: its bytes in a section, what they need
/// relocated, and the names in it.
pub open spec fn gap_at(
    ctx: EmitView,
    d: DraftView,
    gap: Span,
    tables: Set<Seq<char>>,
    s: int,
    offset: int,
) -> bool {
    &&& 0 <= s < d.sections.len()
    &&& bytes_stand(d.sections[s].data, offset, span_emitted(ctx, gap))
    &&& span_staged(ctx, d, s, gap)
    &&& gap_names_placed(ctx, d, s, gap, tables)
}

pub open spec fn gap_held(
    ctx: EmitView,
    d: DraftView,
    gap: Span,
    tables: Set<Seq<char>>,
) -> bool {
    exists|s: int, offset: int| #[trigger] gap_at(ctx, d, gap, tables, s, offset)
}

proof fn lemma_gap_held_on(
    ctx: EmitView,
    a: DraftView,
    b: DraftView,
    gap: Span,
    tables: Set<Seq<char>>,
)
    requires
        extends(a, b),
        gap_held(ctx, a, gap, tables),
    ensures
        gap_held(ctx, b, gap, tables),
{
    let (s, offset) = choose|s: int, offset: int| #[trigger]
        gap_at(ctx, a, gap, tables, s, offset);
    assert(section_extends(a.sections[s], b.sections[s]));
    lemma_bytes_stand_on(
        a.sections[s].data,
        b.sections[s].data,
        offset,
        span_emitted(ctx, gap),
    );
    lemma_span_staged_on(ctx, a, b, s, gap);
    lemma_staged_on(a, b);
    assert(gap_at(ctx, b, gap, tables, s, offset));
}

/// What drafting a stretch of code in a section adds.
proof fn lemma_with_gap(
    d: DraftView,
    ctx: EmitView,
    section: usize,
    gap: Span,
    tables: Set<Seq<char>>,
)
    requires
        gap.start <= gap.end,
        section < d.sections.len(),
    ensures
        extends(d, with_gap(d, ctx, section, gap, tables)),
        with_gap(d, ctx, section, gap, tables).sections.len() == d.sections.len(),
        gap_at(
            ctx,
            with_gap(d, ctx, section, gap, tables),
            gap,
            tables,
            section as int,
            d.sections[section as int].data.len() as int,
        ),
{
    let spanned = with_span(d, ctx, section, gap);
    let after = with_gap(d, ctx, section, gap, tables);
    let names = crate::sorting::key_window(ctx.names, gap.start as int, gap.end as int);
    let place = crate::blocks::span_place(section, gap);
    lemma_with_span(d, ctx, section, gap);
    lemma_with_gap_names(spanned, names, tables, place);
    lemma_marks_are_extends(spanned, after);
    lemma_extends_trans(d, spanned, after);
    lemma_span_staged(d, ctx, section, gap);
    lemma_span_staged_on(ctx, spanned, after, section as int, gap);
    let offset = d.sections[section as int].data.len() as int;
    let bytes = span_emitted(ctx, gap);
    assert(after.sections[section as int].data.subrange(
        offset,
        (offset + bytes.len()) as int,
    ) =~= bytes);
    if is_ordered(ctx) {
        let from = crate::sorting::place_before(ctx.names, gap.start as int);
        crate::sorting::lemma_place_before(ctx.names, gap.start as int);
        crate::sorting::lemma_place_before(ctx.names, gap.end as int);
        assert forall|k: int|
            0 <= k < ctx.names.len() && gap.start <= (#[trigger] ctx.names[k]).addr < gap.end
                && !tables.contains(ctx.names[k].name@) implies {
            &&& after.local.contains_key(ctx.names[k].name@)
            &&& after.symbols.contains(
                DraftSymbolView {
                    name: symbol_text(ctx.names[k].name@),
                    value: (ctx.names[k].addr - gap.start) as u64,
                    size: ctx.names[k].size,
                    class: SymbolClass::Data,
                    linkage: Linkage::External,
                    section: section as int,
                },
            )
        } by {
            assert(crate::sorting::HasKey::spec_key(&ctx.names[k]) == ctx.names[k].addr);
            assert(names[k - from] == ctx.names[k]);
            lemma_gap_name_of(spanned, names, tables, place, k - from);
        }
    }
}

proof fn lemma_gaps_drafted(
    ctx: EmitView,
    state: (DraftView, crate::emitter::EmitStats),
    starts: Seq<u64>,
    gaps: Seq<Span>,
    tables: Set<Seq<char>>,
)
    requires
        sections_for(state.0, starts),
        forall|i: int|
            0 <= i < gaps.len() ==> starts.contains((#[trigger] gaps[i]).start) && gaps[i].start
                <= gaps[i].end,
    ensures
        extends(state.0, gaps_drafted(ctx, state, starts, gaps, tables).0),
        gaps_drafted(ctx, state, starts, gaps, tables).0.sections.len() == state.0.sections.len(),
        forall|i: int|
            0 <= i < gaps.len() ==> gap_held(
                ctx,
                gaps_drafted(ctx, state, starts, gaps, tables).0,
                #[trigger] gaps[i],
                tables,
            ),
    decreases gaps.len(),
{
    if gaps.len() == 0 {
        lemma_extends_self(state.0);
    } else {
        let init = gaps.drop_last();
        assert forall|i: int| 0 <= i < init.len() implies starts.contains(
            (#[trigger] init[i]).start,
        ) && init[i].start <= init[i].end by {
            assert(init[i] == gaps[i]);
        }
        lemma_gaps_drafted(ctx, state, starts, init, tables);
        let before = gaps_drafted(ctx, state, starts, init, tables).0;
        let gap = gaps.last();
        assert(starts.contains(gaps[gaps.len() - 1].start));
        let section = code_section(starts, gap.start);
        lemma_code_section(before, starts, gap.start);
        let after = with_gap(before, ctx, section, gap, tables);
        lemma_with_gap(before, ctx, section, gap, tables);
        lemma_extends_trans(state.0, before, after);
        assert forall|i: int| 0 <= i < gaps.len() implies gap_held(
            ctx,
            after,
            #[trigger] gaps[i],
            tables,
        ) by {
            if i < init.len() {
                assert(init[i] == gaps[i]);
                lemma_gap_held_on(ctx, before, after, gaps[i], tables);
            }
        }
    }
}

/// What function ranges hold beside the functions is the code of the ranges that
/// no function takes up.
pub proof fn lemma_gaps_are_what_is_left(ranges: Seq<DataRange>, occupied: Seq<Span>, a: int)
    ensures
        covered(gaps_in(ranges, occupied), a) == (one_holds(ranges, a) && !covered(occupied, a)),
        forall|i: int|
            0 <= i < gaps_in(ranges, occupied).len() ==> (#[trigger] gaps_in(
                ranges,
                occupied,
            )[i]).start < gaps_in(ranges, occupied)[i].end,
    decreases ranges.len(),
{
    if ranges.len() > 0 {
        let init = ranges.drop_last();
        let r = ranges.last();
        let whole = Span { start: r.spec_start(), end: r.spec_end() };
        let before = gaps_in(init, occupied);
        let part = crate::ranges::subtracted(whole, occupied);
        lemma_gaps_are_what_is_left(init, occupied, a);
        lemma_subtracted(whole, occupied, a);
        lemma_covered_appended(before, part, a);
        assert(ranges[ranges.len() - 1] == r);
        if one_holds(init, a) {
            let k = choose|k: int|
                0 <= k < init.len() && (#[trigger] init[k]).spec_start() <= a < init[k].spec_end();
            assert(ranges[k].spec_start() <= a < ranges[k].spec_end());
        }
        if one_holds(ranges, a) {
            let k = choose|k: int|
                0 <= k < ranges.len() && (#[trigger] ranges[k]).spec_start() <= a
                    < ranges[k].spec_end();
            if k < init.len() {
                assert(init[k].spec_start() <= a < init[k].spec_end());
            }
        }
    }
}

proof fn lemma_with_code_sections(d: DraftView, format: OutputFormat, n: nat)
    ensures
        with_code_sections(d, format, n).sections.len() == d.sections.len() + n,
        with_code_sections(d, format, n).local == d.local,
    decreases n,
{
    if n > 0 {
        lemma_with_code_sections(d, format, (n - 1) as nat);
    }
}

proof fn lemma_stable_sort_len<T: crate::sorting::HasKey>(s: Seq<T>)
    ensures
        stable_sort(s).len() == s.len(),
{
    crate::sorting::lemma_stable_sort_keeps_elements(s);
    s.to_multiset_ensures();
    stable_sort(s).to_multiset_ensures();
}

/// Whether the draft has the stretches of a group's function ranges that none of
/// its functions takes up.
pub open spec fn group_gaps_held(
    ctx: EmitView,
    d: DraftView,
    functions: Seq<Function>,
    group: GroupView,
) -> bool {
    let gaps = gaps_in(group.function_ranges, occupied_spans(ctx, functions));
    forall|i: int|
        0 <= i < gaps.len() ==> gap_held(ctx, d, #[trigger] gaps[i], table_names(ctx, functions))
}

proof fn lemma_code_drafted(ctx: EmitView, functions: Seq<Function>, group: GroupView, k: int)
    requires
        forall|i: int|
            0 <= i < functions.len() ==> (#[trigger] functions[i]).start <= functions[i].end,
        code_drafted(ctx, functions, group) is Ok,
        functions.len() + gaps_in(group.function_ranges, occupied_spans(ctx, functions)).len()
            <= usize::MAX,
    ensures
        ({
            let d = code_drafted(ctx, functions, group)->Ok_0.0;
            &&& d.sections.len() == functions.len() + gaps_in(
                group.function_ranges,
                occupied_spans(ctx, functions),
            ).len()
            &&& 0 <= k < functions.len() ==> backed_function_held(ctx, d, functions[k])
            &&& d.symbols.len() <= usize::MAX ==> names_lead(d)
            &&& group_gaps_held(ctx, d, functions, group)
        }),
{
    let gaps = gaps_in(group.function_ranges, occupied_spans(ctx, functions));
    let unsorted = starts_of(functions) + span_starts(gaps);
    let starts = code_starts(functions, gaps);
    let blank = with_code_sections(empty_draft(), ctx.format, starts.len());
    let first = (blank, crate::emitter::no_stats());
    lemma_with_code_sections(empty_draft(), ctx.format, starts.len());
    lemma_stable_sort_len(unsorted);
    lemma_stable_sort_orders(unsorted);
    assert forall|i: int| 0 <= i < functions.len() implies starts.contains(
        (#[trigger] functions[i]).start,
    ) by {
        assert(unsorted[i] == functions[i].start);
        assert(unsorted.contains(functions[i].start));
        lemma_stable_sort_contains(unsorted, functions[i].start);
    }
    lemma_gaps_are_what_is_left(group.function_ranges, occupied_spans(ctx, functions), 0);
    assert forall|i: int| 0 <= i < gaps.len() implies starts.contains(
        (#[trigger] gaps[i]).start,
    ) && gaps[i].start <= gaps[i].end by {
        assert(unsorted[functions.len() + i] == gaps[i].start);
        assert(unsorted.contains(gaps[i].start));
        lemma_stable_sort_contains(unsorted, gaps[i].start);
    }
    lemma_functions_drafted(ctx, first, starts, functions, k);
    let state = functions_drafted(ctx, first, starts, functions)->Ok_0;
    lemma_gaps_drafted(ctx, state, starts, gaps, table_names(ctx, functions));
    assert(names_lead(blank));
    lemma_extends_trans(blank, state.0, code_drafted(ctx, functions, group)->Ok_0.0);
    if 0 <= k < functions.len() {
        lemma_backed_function_on(
            ctx,
            state.0,
            code_drafted(ctx, functions, group)->Ok_0.0,
            functions[k],
        );
    }
}

// ---------------------------------------------------------------------------
// Data
// ---------------------------------------------------------------------------

/// Whether a section holds what a data range asks for: zeros for `size` bytes,
/// or the bytes of the image but for relocated fields.
pub open spec fn section_holds(
    ctx: EmitView,
    s: DraftSectionView,
    contents: Contents,
    span: Span,
) -> bool {
    &&& s.contents == contents
    &&& if contents == Contents::Zeroed {
        s.zeroed == span.end - span.start
    } else {
        bytes_stand(s.data, 0, span_emitted(ctx, span))
    }
}

proof fn lemma_with_data_section(d: DraftView, ctx: EmitView, contents: Contents, span: Span)
    requires
        d.sections.len() < usize::MAX,
        span.start <= span.end,
        with_data_section(d, ctx, contents, span) is Ok,
    ensures
        ({
            let after = with_data_section(d, ctx, contents, span)->Ok_0;
            let section = d.sections.len() as int;
            &&& extends(d, after)
            &&& after.sections.len() == d.sections.len() + 1
            &&& section_holds(ctx, after.sections[section], contents, span)
            &&& contents != Contents::Zeroed ==> span_staged(ctx, after, section, span)
        }),
{
    let name = crate::format::section_name(ctx.format, contents);
    let section = d.sections.len() as usize;
    let added = d.with_section(name, contents);
    let after = with_data_section(d, ctx, contents, span)->Ok_0;
    lemma_with_section(d, name, contents);
    if contents == Contents::Zeroed {
        let size = (span.end - span.start) as u64;
        assert(after == added.with_zeroed(section as int, size));
        lemma_begins_with_self(d.symbols);
        lemma_begins_with_self(d.pending);
        assert forall|i: int| 0 <= i < d.sections.len() implies section_extends(
            #[trigger] d.sections[i],
            after.sections[i],
        ) by {
            lemma_begins_with_self(d.sections[i].data);
        }
    } else {
        lemma_with_span(added, ctx, section, span);
        lemma_span_staged(added, ctx, section, span);
        lemma_extends_trans(d, added, after);
        let s = after.sections[section as int];
        assert(section_extends(added.sections[section as int], s));
        assert(s.data =~= span_emitted(ctx, span));
        assert(s.data.subrange(0, s.data.len() as int) =~= s.data);
    }
}

/// Whether the draft has a section for a data range with what it needs relocated,
/// its anchor as an external symbol at the start of the section, and its
/// variables.
pub open spec fn range_at(
    ctx: EmitView,
    d: DraftView,
    class: SegClass,
    span: Span,
    s: int,
    k: int,
) -> bool {
    &&& 0 <= s < d.sections.len()
    &&& section_holds(ctx, d.sections[s], range_contents(ctx, class, span.start), span)
    &&& range_contents(ctx, class, span.start) != Contents::Zeroed ==> span_staged(ctx, d, s, span)
    &&& variables_held(ctx, d, s, span)
    &&& 0 <= k < d.symbols.len()
    &&& d.symbols[k] == (DraftSymbolView {
        name: anchor_text(class, span.start),
        value: 0,
        size: 0,
        class: SymbolClass::Data,
        linkage: Linkage::External,
        section: s,
    })
    &&& d.local.contains_key(anchor_text(class, span.start))
}

/// Whether the draft has a data range, as far as the image reaches.
pub open spec fn range_held(ctx: EmitView, d: DraftView, class: SegClass, range: DataRange) -> bool {
    let start = range.spec_start();
    let end = virtual_end(ctx.image, ctx.base(), start, range.spec_end());
    start < end ==> exists|s: int, k: int| range_at(ctx, d, class, Span { start, end }, s, k)
}

proof fn lemma_range_held_on(
    ctx: EmitView,
    a: DraftView,
    b: DraftView,
    class: SegClass,
    range: DataRange,
)
    requires
        extends(a, b),
        range_held(ctx, a, class, range),
    ensures
        range_held(ctx, b, class, range),
{
    let start = range.spec_start();
    let end = virtual_end(ctx.image, ctx.base(), start, range.spec_end());
    let span = Span { start, end };
    if start < end {
        let (s, k) = choose|s: int, k: int| range_at(ctx, a, class, span, s, k);
        assert(section_extends(a.sections[s], b.sections[s]));
        lemma_begins_index(a.symbols, b.symbols, k);
        lemma_variables_on(ctx, a, b, s, span);
        if range_contents(ctx, class, start) != Contents::Zeroed {
            lemma_span_staged_on(ctx, a, b, s, span);
            lemma_bytes_stand_on(
                a.sections[s].data,
                b.sections[s].data,
                0,
                span_emitted(ctx, span),
            );
        }
        assert(range_at(ctx, b, class, span, s, k));
    }
}

proof fn lemma_class_start_is_name(class: SegClass)
    ensures
        symbol_text(crate::blocks::class_start(class)) == crate::blocks::class_start(class),
{
    reveal_strlit("__delink_ida_data_start");
    reveal_strlit("__delink_ida_const_start");
    reveal_strlit("__delink_ida_bss_start");
}

proof fn lemma_with_range_symbols(
    d: DraftView,
    ctx: EmitView,
    class: SegClass,
    section: int,
    span: Span,
)
    requires
        span.start <= span.end,
    ensures
        ({
            let after = with_range_symbols(d, ctx, class, section, span);
            &&& marks_extend(d, after)
            &&& variables_held(ctx, after, section, span)
            &&& after.local.contains_key(anchor_text(class, span.start))
            &&& after.symbols.len() > d.symbols.len()
            &&& after.symbols[d.symbols.len() as int] == start_symbol(
                anchor_text(class, span.start),
                section,
            )
        }),
{
    let anchor = anchor_text(class, span.start);
    let anchored = d.defining(anchor, start_symbol(anchor, section));
    let begin = crate::blocks::class_start(class);
    let named = if crate::ranges::starts_class(ctx.model.sections@, class, span.start) {
        anchored.defining(begin, start_symbol(begin, section))
    } else {
        anchored
    };
    let after = with_range_symbols(d, ctx, class, section, span);
    lemma_defining(d, anchor, start_symbol(anchor, section));
    lemma_marks_self(anchored);
    lemma_class_start_is_name(class);
    lemma_defining(anchored, begin, start_symbol(begin, section));
    lemma_with_variables(
        named,
        crate::addr_map::window(ctx.symbols.variables, span.start as int, span.end as int),
        section,
        span.start,
    );
    lemma_marks_trans(anchored, named, after);
    lemma_marks_trans(d, anchored, after);
    if is_ordered(ctx) {
        lemma_variables_placed(named, ctx, section, span.start, span.end);
    }
    assert(anchored.local.contains_key(anchor));
    lemma_begins_index(anchored.symbols, after.symbols, d.symbols.len() as int);
}

proof fn lemma_range_drafted(
    ctx: EmitView,
    state: (DraftView, crate::emitter::EmitStats),
    class: SegClass,
    range: DataRange,
)
    requires
        state.0.sections.len() < usize::MAX,
        range_drafted(ctx, state, class, range) is Ok,
    ensures
        ({
            let d = range_drafted(ctx, state, class, range)->Ok_0.0;
            &&& extends(state.0, d)
            &&& d.sections.len() <= state.0.sections.len() + 1
            &&& range_held(ctx, d, class, range)
        }),
{
    let start = range.spec_start();
    let end = virtual_end(ctx.image, ctx.base(), start, range.spec_end());
    lemma_extends_self(state.0);
    if start < end {
        let span = Span { start, end };
        let contents = range_contents(ctx, class, start);
        let section = state.0.sections.len() as int;
        let stored = with_data_section(state.0, ctx, contents, span)->Ok_0;
        let d = range_drafted(ctx, state, class, range)->Ok_0.0;
        lemma_with_data_section(state.0, ctx, contents, span);
        lemma_with_range_symbols(stored, ctx, class, section, span);
        lemma_marks_are_extends(stored, d);
        lemma_extends_trans(state.0, stored, d);
        if contents != Contents::Zeroed {
            lemma_span_staged_on(ctx, stored, d, section, span);
        }
        assert(range_at(ctx, d, class, span, section, stored.symbols.len() as int));
    }
}

proof fn lemma_ranges_drafted(
    ctx: EmitView,
    state: (DraftView, crate::emitter::EmitStats),
    class: SegClass,
    ranges: Seq<DataRange>,
    k: int,
)
    requires
        state.0.sections.len() + ranges.len() <= usize::MAX,
        ranges_drafted(ctx, state, class, ranges) is Ok,
    ensures
        ({
            let d = ranges_drafted(ctx, state, class, ranges)->Ok_0.0;
            &&& extends(state.0, d)
            &&& d.sections.len() <= state.0.sections.len() + ranges.len()
            &&& 0 <= k < ranges.len() ==> range_held(ctx, d, class, ranges[k])
        }),
    decreases ranges.len(),
{
    if ranges.len() == 0 {
        lemma_extends_self(state.0);
    } else {
        let init = ranges.drop_last();
        lemma_ranges_drafted(ctx, state, class, init, k);
        let before = ranges_drafted(ctx, state, class, init)->Ok_0;
        let d = ranges_drafted(ctx, state, class, ranges)->Ok_0.0;
        lemma_range_drafted(ctx, before, class, ranges.last());
        lemma_extends_trans(state.0, before.0, d);
        if 0 <= k < init.len() {
            lemma_range_held_on(ctx, before.0, d, class, ranges[k]);
        }
    }
}

// ---------------------------------------------------------------------------
// Groups
// ---------------------------------------------------------------------------

/// The sections of a group are few enough for an index.
pub open spec fn sections_fit(ctx: EmitView, functions: Seq<Function>, group: GroupView) -> bool {
    let gaps = gaps_in(group.function_ranges, occupied_spans(ctx, stable_sort(functions)));
    functions.len() + gaps.len() + group.rdata.len() + group.data.len() + group.bss.len()
        <= usize::MAX
}

/// The data ranges of a class in a group.
pub open spec fn ranges_of(group: GroupView, class: SegClass) -> Seq<DataRange> {
    match class {
        SegClass::Const => group.rdata,
        SegClass::Data => group.data,
        SegClass::Bss => group.bss,
        _ => Seq::empty(),
    }
}

proof fn lemma_group_data_drafted(
    ctx: EmitView,
    state: (DraftView, crate::emitter::EmitStats),
    group: GroupView,
    class: SegClass,
    k: int,
)
    requires
        state.0.sections.len() + group.rdata.len() + group.data.len() + group.bss.len()
            <= usize::MAX,
        group_data_drafted(ctx, state, group) is Ok,
    ensures
        ({
            let d = group_data_drafted(ctx, state, group)->Ok_0.0;
            &&& extends(state.0, d)
            &&& 0 <= k < ranges_of(group, class).len() ==> range_held(
                ctx,
                d,
                class,
                ranges_of(group, class)[k],
            )
        }),
{
    let s1 = ranges_drafted(ctx, state, SegClass::Const, group.rdata)->Ok_0;
    let s2 = ranges_drafted(ctx, s1, SegClass::Data, group.data)->Ok_0;
    let s3 = ranges_drafted(ctx, s2, SegClass::Bss, group.bss)->Ok_0;
    lemma_ranges_drafted(ctx, state, SegClass::Const, group.rdata, k);
    lemma_ranges_drafted(ctx, s1, SegClass::Data, group.data, k);
    lemma_ranges_drafted(ctx, s2, SegClass::Bss, group.bss, k);
    lemma_extends_trans(s1.0, s2.0, s3.0);
    lemma_extends_trans(state.0, s1.0, s3.0);
    if class == SegClass::Const && 0 <= k < group.rdata.len() {
        lemma_range_held_on(ctx, s1.0, s3.0, class, group.rdata[k]);
    }
    if class == SegClass::Data && 0 <= k < group.data.len() {
        lemma_range_held_on(ctx, s2.0, s3.0, class, group.data[k]);
    }
}

proof fn lemma_resolved_are_sized(functions: Seq<Function>, addresses: Seq<u64>)
    ensures
        resolved_functions(functions, addresses) matches Ok(fs) ==> forall|i: int|
            0 <= i < fs.len() ==> (#[trigger] fs[i]).start < fs[i].end,
    decreases addresses.len(),
{
    if addresses.len() > 0 {
        lemma_resolved_are_sized(functions, addresses.drop_last());
    }
}

proof fn lemma_sorted_are_sized(functions: Seq<Function>)
    requires
        forall|i: int| 0 <= i < functions.len() ==> (#[trigger] functions[i]).start < functions[i].end,
    ensures
        forall|i: int|
            0 <= i < stable_sort(functions).len() ==> (#[trigger] stable_sort(functions)[i]).start
                <= stable_sort(functions)[i].end,
{
    let sorted = stable_sort(functions);
    assert forall|i: int| 0 <= i < sorted.len() implies (#[trigger] sorted[i]).start
        <= sorted[i].end by {
        assert(sorted.contains(sorted[i]));
        lemma_stable_sort_contains(functions, sorted[i]);
        let j = choose|j: int| 0 <= j < functions.len() && functions[j] == sorted[i];
        assert(functions[j].start < functions[j].end);
    }
}

/// What the draft of a group holds.
proof fn lemma_group_drafted(
    ctx: EmitView,
    group: GroupView,
    functions: Seq<Function>,
    f: Function,
    class: SegClass,
    k: int,
)
    requires
        resolved_functions(ctx.model.functions@, group.functions) == Ok::<
            Seq<Function>,
            Seq<char>,
        >(functions),
        sections_fit(ctx, functions, group),
        group_drafted(ctx, group) is Ok,
    ensures
        ({
            let d = group_drafted(ctx, group)->Ok_0.0;
            &&& functions.contains(f) ==> backed_function_held(ctx, d, f)
            &&& 0 <= k < ranges_of(group, class).len() ==> range_held(
                ctx,
                d,
                class,
                ranges_of(group, class)[k],
            )
            &&& d.symbols.len() <= usize::MAX ==> names_lead(d)
            &&& group_gaps_held(ctx, d, stable_sort(functions), group)
        }),
{
    let sorted = stable_sort(functions);
    let state = code_drafted(ctx, sorted, group)->Ok_0;
    let d = group_drafted(ctx, group)->Ok_0.0;
    lemma_stable_sort_len(functions);
    lemma_resolved_are_sized(ctx.model.functions@, group.functions);
    lemma_sorted_are_sized(functions);
    let i = if functions.contains(f) {
        lemma_stable_sort_contains(functions, f);
        choose|i: int| 0 <= i < sorted.len() && sorted[i] == f
    } else {
        -1
    };
    lemma_code_drafted(ctx, sorted, group, i);
    lemma_group_data_drafted(ctx, state, group, class, k);
    if functions.contains(f) {
        lemma_backed_function_on(ctx, state.0, d, f);
    }
    assert(names_extend(state.0, d));
    let gaps = gaps_in(group.function_ranges, occupied_spans(ctx, sorted));
    let names = table_names(ctx, sorted);
    assert forall|i: int| 0 <= i < gaps.len() implies gap_held(
        ctx,
        d,
        #[trigger] gaps[i],
        names,
    ) by {
        lemma_gap_held_on(ctx, state.0, d, gaps[i], names);
    }
}

/// The object of a group has every function of the group whose tables are sound
/// and that the image backs: its bytes with those of its tables, under an
/// external symbol of its name, and a relocation of every field in them whose
/// target has a name.
pub proof fn lemma_group_holds_its_functions(
    ctx: EmitView,
    group: GroupView,
    functions: Seq<Function>,
    f: Function,
)
    requires
        resolved_functions(ctx.model.functions@, group.functions) == Ok::<
            Seq<Function>,
            Seq<char>,
        >(functions),
        functions.contains(f),
        sections_fit(ctx, functions, group),
    ensures
        group_drafted(ctx, group) matches Ok(state) ==> backed_function_held(ctx, state.0, f),
{
    if group_drafted(ctx, group) is Ok {
        lemma_group_drafted(ctx, group, functions, f, SegClass::Data, -1);
    }
}

/// The object of a group has every data range of the group, as far as the image
/// reaches: a section of its own with the bytes of the image or zeros, its anchor
/// and its variables as external symbols, and a relocation of every field in it
/// whose target has a name.
pub proof fn lemma_group_holds_its_data(
    ctx: EmitView,
    group: GroupView,
    functions: Seq<Function>,
    class: SegClass,
    k: int,
)
    requires
        resolved_functions(ctx.model.functions@, group.functions) == Ok::<
            Seq<Function>,
            Seq<char>,
        >(functions),
        0 <= k < ranges_of(group, class).len(),
        sections_fit(ctx, functions, group),
    ensures
        group_drafted(ctx, group) matches Ok(state) ==> range_held(
            ctx,
            state.0,
            class,
            ranges_of(group, class)[k],
        ),
{
    if group_drafted(ctx, group) is Ok {
        lemma_group_drafted(ctx, group, functions, arbitrary(), class, k);
    }
}

/// The object of a group has every byte of the group's function ranges that is in
/// none of its functions: in a stretch with the bytes of the image, the names in it,
/// and a relocation of every field whose target has a name.
pub proof fn lemma_group_holds_its_gaps(
    ctx: EmitView,
    group: GroupView,
    functions: Seq<Function>,
    a: int,
)
    requires
        resolved_functions(ctx.model.functions@, group.functions) == Ok::<
            Seq<Function>,
            Seq<char>,
        >(functions),
        sections_fit(ctx, functions, group),
        one_holds(group.function_ranges, a),
        !covered(occupied_spans(ctx, stable_sort(functions)), a),
    ensures
        group_drafted(ctx, group) matches Ok(state) ==> exists|gap: Span| #[trigger]
            gap_held(ctx, state.0, gap, table_names(ctx, stable_sort(functions))) && gap.has(a),
{
    if let Ok(state) = group_drafted(ctx, group) {
        lemma_group_drafted(ctx, group, functions, arbitrary(), SegClass::Data, -1);
        let sorted = stable_sort(functions);
        let occupied = occupied_spans(ctx, sorted);
        let gaps = gaps_in(group.function_ranges, occupied);
        lemma_gaps_are_what_is_left(group.function_ranges, occupied, a);
        let i = choose|i: int| 0 <= i < gaps.len() && (#[trigger] gaps[i]).has(a);
        assert(gap_held(ctx, state.0, gaps[i], table_names(ctx, sorted)));
    }
}

/// Whether a finished object has a relocation of the field at `offset` of a
/// section against a symbol of the name.
pub open spec fn relocated(
    plan: PlanView,
    section: int,
    offset: int,
    name: Seq<char>,
    addend: i64,
    flags: RelocType,
) -> bool {
    exists|k: int|
        0 <= k < plan.relocs.len() && (#[trigger] plan.relocs[k]).section == section as usize
            && plan.relocs[k].offset == wrap64(offset) && plan.relocs[k].addend == addend
            && plan.relocs[k].flags == flags && plan.relocs[k].symbol < plan.symbols.len()
            && plan.symbols[plan.relocs[k].symbol as int].name == symbol_text(name)
}

/// Every relocation that was staged is one of the finished object, against a
/// symbol of the name that it was staged with.
pub proof fn lemma_staged_are_relocated(d: DraftView, p: PendingView)
    requires
        names_lead(d),
        d.symbols.len() + d.pending.len() <= usize::MAX,
        d.pending.contains(p),
    ensures
        relocated(finished(d), p.section, p.offset as int, p.target, p.addend, p.flags),
{
    let i = choose|i: int| 0 <= i < d.pending.len() && d.pending[i] == p;
    crate::plan::lemma_relocations_bind(d, i);
    lemma_finished_keeps_draft(d);
    let plan = finished(d);
    let r = plan.relocs[i];
    if d.local.contains_key(p.target) {
        lemma_begins_index(d.symbols, plan.symbols, d.local[p.target] as int);
    }
    assert(plan.symbols[r.symbol as int].name == symbol_text(p.target));
}

/// In the object of a group, every absolute pointer of a function that a fixup
/// names and that is no field of a table has its relocation: at its place in the
/// function, of the type for its size, against the name and addend that its target
/// resolves to.
pub proof fn lemma_every_fixup_is_relocated(
    ctx: EmitView,
    group: GroupView,
    functions: Seq<Function>,
    f: Function,
    tables: Seq<TableView>,
    image: Seq<u8>,
    e: (u64, RelocView),
    target: Seq<char>,
    addend: i64,
    flags: RelocType,
)
    requires
        resolved_functions(ctx.model.functions@, group.functions) == Ok::<
            Seq<Function>,
            Seq<char>,
        >(functions),
        functions.contains(f),
        sections_fit(ctx, functions, group),
        checked_tables(ctx, f) == Ok::<Seq<TableView>, Seq<char>>(tables),
        bytes_at(ctx, f.start, end_with_tables(f.end, tables) - f.start) == Some(image),
        ctx.symbols.relocs.contains(e),
        f.start <= e.0 < end_with_tables(f.end, tables),
        !in_switch(tables, e.0),
        e.0 - f.start + e.1.size <= image.len(),
        absolute_type(ctx.format, ctx.model.arch, e.1.size) == Some(flags),
        ctx.target(e.1.target) == Some((target, addend)),
        is_ordered(ctx),
    ensures
        group_drafted(ctx, group) matches Ok((d, _)) ==> d.symbols.len() + d.pending.len()
            <= usize::MAX ==> relocates_in(
            finished(d),
            function_bytes(ctx, f, tables, image),
            e.0 - f.start,
            target,
            addend,
            flags,
        ),
{
    if let Ok((d, _)) = group_drafted(ctx, group) {
        if d.symbols.len() + d.pending.len() <= usize::MAX {
            lemma_group_drafted(ctx, group, functions, f, SegClass::Data, -1);
            assert(has_function(ctx, d, f, tables, image));
            lemma_fixup_in_finished(ctx, d, f, tables, image, e, target, addend, flags);
        }
    }
}

/// Whether a finished object has the bytes somewhere, and a relocation of the field
/// `at` bytes into them.
pub open spec fn relocates_in(
    plan: PlanView,
    bytes: Seq<u8>,
    at: int,
    name: Seq<char>,
    addend: i64,
    flags: RelocType,
) -> bool {
    exists|section: int, base: int|
        0 <= section < plan.sections.len() && #[trigger] bytes_stand(
            plan.sections[section].data,
            base,
            bytes,
        ) && relocated(plan, section, (base as u64) + at, name, addend, flags)
}

#[verifier::spinoff_prover]
#[verifier::rlimit(50)]
proof fn lemma_fixup_in_finished(
    ctx: EmitView,
    d: DraftView,
    f: Function,
    tables: Seq<TableView>,
    image: Seq<u8>,
    e: (u64, RelocView),
    target: Seq<char>,
    addend: i64,
    flags: RelocType,
)
    requires
        is_ordered(ctx),
        has_function(ctx, d, f, tables, image),
        names_lead(d),
        d.symbols.len() + d.pending.len() <= usize::MAX,
        ctx.symbols.relocs.contains(e),
        f.start <= e.0 < end_with_tables(f.end, tables),
        !in_switch(tables, e.0),
        e.0 - f.start + e.1.size <= image.len(),
        absolute_type(ctx.format, ctx.model.arch, e.1.size) == Some(flags),
        ctx.target(e.1.target) == Some((target, addend)),
    ensures
        relocates_in(
            finished(d),
            function_bytes(ctx, f, tables, image),
            e.0 - f.start,
            target,
            addend,
            flags,
        ),
{
    let (place, offset, k) = choose|place: Place, offset: int, k: int| #[trigger]
        function_at(ctx, d, f, tables, image, place, offset, k);
    let section = place.section as int;
    let bytes = function_bytes(ctx, f, tables, image);
    lemma_finished_keeps_draft(d);
    let p = PendingView {
        section,
        offset: wrap64(place.base + (e.0 - f.start)) as u64,
        target,
        addend,
        flags,
    };
    assert(!switch_addresses(tables).contains(e.0));
    assert(d.pending.contains(p));
    lemma_staged_are_relocated(d, p);
    assert(relocated(
        finished(d),
        section,
        (offset as u64) + (e.0 - f.start),
        target,
        addend,
        flags,
    ));
    assert(bytes_stand(finished(d).sections[section].data, offset, bytes));
}

/// A finished object has the sections and the symbols of its draft, in their
/// order, and a relocation for each that was staged.
pub proof fn lemma_finished_keeps_draft(d: DraftView)
    ensures
        finished(d).sections == d.sections,
        begins(d.symbols, finished(d).symbols),
        finished(d).relocs.len() == d.pending.len(),
{
    lemma_bound_keeps_draft(d, d.pending);
}

proof fn lemma_bound_keeps_draft(d: DraftView, pending: Seq<crate::draft::PendingView>)
    ensures
        begins(d.symbols, all_bound(d, pending).symbols),
        all_bound(d, pending).relocs.len() == pending.len(),
    decreases pending.len(),
{
    if pending.len() == 0 {
        lemma_begins_with_self(d.symbols);
    } else {
        let before = all_bound(d, pending.drop_last());
        let after = all_bound(d, pending);
        lemma_bound_keeps_draft(d, pending.drop_last());
        lemma_begins_with_self(before.symbols);
        if after.symbols != before.symbols {
            lemma_begins_pushed(before.symbols, after.symbols.last());
            assert(after.symbols =~= before.symbols.push(after.symbols.last()));
        }
        lemma_begins_trans(d.symbols, before.symbols, after.symbols);
    }
}

/// An address of a data section that the image reaches is shared if and only if
/// no object owns it.
pub proof fn lemma_data_is_owned_or_shared(
    ctx: EmitView,
    elsewhere: Elsewhere,
    section: Section,
    a: u64,
)
    requires
        section.start <= a < virtual_end(ctx.image, ctx.base(), section.start, section.end),
    ensures
        covered(data_fragments(ctx, elsewhere, section), a as int) == !covered(
            elsewhere.data,
            a as int,
        ),
{
    lemma_subtracted(
        Span {
            start: section.start,
            end: virtual_end(ctx.image, ctx.base(), section.start, section.end),
        },
        elsewhere.data,
        a as int,
    );
}

// ---------------------------------------------------------------------------
// What no group holds
// ---------------------------------------------------------------------------

/// How many stretches of code are shared.
pub open spec fn gap_count(ctx: EmitView, elsewhere: Elsewhere, sections: Seq<Section>) -> nat
    decreases sections.len(),
{
    if sections.len() == 0 {
        0
    } else {
        let before = gap_count(ctx, elsewhere, sections.drop_last());
        if sections.last().class == SegClass::Code {
            before + code_gaps(ctx, elsewhere, sections.last()).len()
        } else {
            before
        }
    }
}

/// How many fragments of data are shared.
pub open spec fn fragment_count(ctx: EmitView, elsewhere: Elsewhere, sections: Seq<Section>) -> nat
    decreases sections.len(),
{
    if sections.len() == 0 {
        0
    } else {
        let before = fragment_count(ctx, elsewhere, sections.drop_last());
        if is_shared_class(sections.last().class) {
            before + data_fragments(ctx, elsewhere, sections.last()).len()
        } else {
            before
        }
    }
}

/// The sections of the shared object are few enough for an index.
pub open spec fn shared_sections_fit(ctx: EmitView, elsewhere: Elsewhere) -> bool {
    let sections = ctx.model.sections@;
    gap_count(ctx, elsewhere, sections) + fragment_count(ctx, elsewhere, sections) <= usize::MAX
}

proof fn lemma_code_gaps_drafted(
    ctx: EmitView,
    state: (DraftView, SharedDataStats),
    gaps: Seq<Span>,
    tables: Set<Seq<char>>,
)
    requires
        state.0.sections.len() + gaps.len() <= usize::MAX,
        forall|i: int| 0 <= i < gaps.len() ==> (#[trigger] gaps[i]).start <= gaps[i].end,
    ensures
        code_gaps_drafted(ctx, state, gaps, tables).0.sections.len() == state.0.sections.len()
            + gaps.len(),
        extends(state.0, code_gaps_drafted(ctx, state, gaps, tables).0),
        forall|i: int|
            0 <= i < gaps.len() ==> gap_held(
                ctx,
                code_gaps_drafted(ctx, state, gaps, tables).0,
                #[trigger] gaps[i],
                tables,
            ),
    decreases gaps.len(),
{
    if gaps.len() == 0 {
        lemma_extends_self(state.0);
    } else {
        let init = gaps.drop_last();
        assert forall|i: int| 0 <= i < init.len() implies (#[trigger] init[i]).start
            <= init[i].end by {
            assert(init[i] == gaps[i]);
        }
        lemma_code_gaps_drafted(ctx, state, init, tables);
        let d = code_gaps_drafted(ctx, state, init, tables).0;
        let gap = gaps.last();
        assert(gaps[gaps.len() - 1] == gap);
        let name = crate::format::section_name(ctx.format, Contents::Text);
        let added = d.with_section(name, Contents::Text);
        let section = d.sections.len() as usize;
        let after = with_gap(added, ctx, section, gap, tables);
        lemma_with_section(d, name, Contents::Text);
        lemma_with_gap(added, ctx, section, gap, tables);
        lemma_extends_trans(d, added, after);
        lemma_extends_trans(state.0, d, after);
        assert forall|i: int| 0 <= i < gaps.len() implies gap_held(
            ctx,
            after,
            #[trigger] gaps[i],
            tables,
        ) by {
            if i < init.len() {
                assert(init[i] == gaps[i]);
                lemma_gap_held_on(ctx, d, after, gaps[i], tables);
            }
        }
    }
}

/// Whether the draft has the code of a section that no other object holds.
pub open spec fn section_code_held(
    ctx: EmitView,
    d: DraftView,
    elsewhere: Elsewhere,
    section: Section,
) -> bool {
    let gaps = code_gaps(ctx, elsewhere, section);
    let tables = emitted_table_names(ctx, elsewhere, section, ctx.model.functions@);
    forall|i: int| 0 <= i < gaps.len() ==> gap_held(ctx, d, #[trigger] gaps[i], tables)
}

proof fn lemma_section_code_on(
    ctx: EmitView,
    a: DraftView,
    b: DraftView,
    elsewhere: Elsewhere,
    section: Section,
)
    requires
        extends(a, b),
        section_code_held(ctx, a, elsewhere, section),
    ensures
        section_code_held(ctx, b, elsewhere, section),
{
    let gaps = code_gaps(ctx, elsewhere, section);
    let tables = emitted_table_names(ctx, elsewhere, section, ctx.model.functions@);
    assert forall|i: int| 0 <= i < gaps.len() implies gap_held(
        ctx,
        b,
        #[trigger] gaps[i],
        tables,
    ) by {
        lemma_gap_held_on(ctx, a, b, gaps[i], tables);
    }
}

proof fn lemma_shared_code_drafted(ctx: EmitView, elsewhere: Elsewhere, sections: Seq<Section>)
    requires
        gap_count(ctx, elsewhere, sections) <= usize::MAX,
    ensures
        shared_code_drafted(ctx, elsewhere, sections).0.sections.len() == gap_count(
            ctx,
            elsewhere,
            sections,
        ),
        extends(empty_draft(), shared_code_drafted(ctx, elsewhere, sections).0),
        forall|i: int|
            0 <= i < sections.len() && (#[trigger] sections[i]).class == SegClass::Code
                ==> section_code_held(
                ctx,
                shared_code_drafted(ctx, elsewhere, sections).0,
                elsewhere,
                sections[i],
            ),
    decreases sections.len(),
{
    if sections.len() == 0 {
        lemma_extends_self(empty_draft());
    } else {
        let init = sections.drop_last();
        lemma_shared_code_drafted(ctx, elsewhere, init);
        let section = sections.last();
        let before = shared_code_drafted(ctx, elsewhere, init);
        let after = shared_code_drafted(ctx, elsewhere, sections).0;
        lemma_extends_self(before.0);
        if section.class == SegClass::Code {
            lemma_subtracted(
                Span {
                    start: section.start,
                    end: virtual_end(ctx.image, ctx.base(), section.start, section.end),
                },
                crate::shared::occupied_in(ctx, elsewhere, section, ctx.model.functions@),
                0,
            );
            lemma_code_gaps_drafted(
                ctx,
                before,
                code_gaps(ctx, elsewhere, section),
                emitted_table_names(ctx, elsewhere, section, ctx.model.functions@),
            );
        }
        lemma_extends_trans(empty_draft(), before.0, after);
        assert forall|i: int|
            0 <= i < sections.len() && (#[trigger] sections[i]).class
                == SegClass::Code implies section_code_held(
            ctx,
            after,
            elsewhere,
            sections[i],
        ) by {
            if i < init.len() {
                assert(init[i] == sections[i]);
                lemma_section_code_on(ctx, before.0, after, elsewhere, sections[i]);
            }
        }
    }
}

/// Whether a section of the draft has what a fragment asks for.
pub open spec fn fragment_at(
    ctx: EmitView,
    d: DraftView,
    class: SegClass,
    fragment: Span,
    s: int,
) -> bool {
    let contents = range_contents(ctx, class, fragment.start);
    &&& 0 <= s < d.sections.len()
    &&& section_holds(ctx, d.sections[s], contents, fragment)
    &&& contents != Contents::Zeroed ==> span_staged(ctx, d, s, fragment)
    &&& variables_held(ctx, d, s, fragment)
}

/// Whether the draft has a section with what a fragment asks for: its bytes with
/// what they need relocated, and its variables.
pub open spec fn fragment_held(ctx: EmitView, d: DraftView, class: SegClass, fragment: Span) -> bool {
    exists|s: int| #[trigger] fragment_at(ctx, d, class, fragment, s)
}

proof fn lemma_fragment_held_on(
    ctx: EmitView,
    a: DraftView,
    b: DraftView,
    class: SegClass,
    fragment: Span,
)
    requires
        extends(a, b),
        fragment_held(ctx, a, class, fragment),
    ensures
        fragment_held(ctx, b, class, fragment),
{
    let contents = range_contents(ctx, class, fragment.start);
    let s = choose|s: int| #[trigger] fragment_at(ctx, a, class, fragment, s);
    assert(section_extends(a.sections[s], b.sections[s]));
    lemma_variables_on(ctx, a, b, s, fragment);
    if contents != Contents::Zeroed {
        lemma_span_staged_on(ctx, a, b, s, fragment);
        lemma_bytes_stand_on(
            a.sections[s].data,
            b.sections[s].data,
            0,
            span_emitted(ctx, fragment),
        );
    }
    assert(fragment_at(ctx, b, class, fragment, s));
}

proof fn lemma_fragments_drafted(
    ctx: EmitView,
    state: (DraftView, SharedDataStats),
    class: SegClass,
    fragments: Seq<Span>,
    k: int,
)
    requires
        state.0.sections.len() + fragments.len() <= usize::MAX,
        forall|i: int|
            0 <= i < fragments.len() ==> (#[trigger] fragments[i]).start <= fragments[i].end,
        fragments_drafted(ctx, state, class, fragments) is Ok,
    ensures
        ({
            let d = fragments_drafted(ctx, state, class, fragments)->Ok_0.0;
            &&& extends(state.0, d)
            &&& d.sections.len() == state.0.sections.len() + fragments.len()
            &&& 0 <= k < fragments.len() ==> fragment_held(ctx, d, class, fragments[k])
        }),
    decreases fragments.len(),
{
    if fragments.len() == 0 {
        lemma_extends_self(state.0);
    } else {
        let init = fragments.drop_last();
        let fragment = fragments.last();
        assert forall|i: int| 0 <= i < init.len() implies (#[trigger] init[i]).start
            <= init[i].end by {
            assert(init[i] == fragments[i]);
        }
        lemma_fragments_drafted(ctx, state, class, init, k);
        let before = fragments_drafted(ctx, state, class, init)->Ok_0;
        let d = fragments_drafted(ctx, state, class, fragments)->Ok_0.0;
        let contents = range_contents(ctx, class, fragment.start);
        let index = before.0.sections.len() as int;
        let stored = with_data_section(before.0, ctx, contents, fragment)->Ok_0;
        assert(fragments[fragments.len() - 1].start <= fragment.end);
        assert(fragment_drafted(ctx, before, class, fragment) is Ok);
        lemma_with_data_section(before.0, ctx, contents, fragment);
        let begin = crate::blocks::class_start(class);
        let symbol = start_symbol(begin, index);
        let named = if class != SegClass::Xtrn && crate::ranges::starts_class(
            ctx.model.sections@,
            class,
            fragment.start,
        ) {
            stored.defining(begin, symbol)
        } else {
            stored
        };
        lemma_marks_self(stored);
        lemma_class_start_is_name(class);
        lemma_defining(stored, begin, symbol);
        lemma_with_variables(
            named,
            crate::addr_map::window(
                ctx.symbols.variables,
                fragment.start as int,
                fragment.end as int,
            ),
            index,
            fragment.start,
        );
        lemma_marks_trans(stored, named, d);
        if is_ordered(ctx) {
            lemma_variables_placed(named, ctx, index, fragment.start, fragment.end);
        }
        if contents != Contents::Zeroed {
            lemma_span_staged_on(ctx, stored, d, index, fragment);
        }
        lemma_marks_are_extends(stored, d);
        lemma_extends_trans(before.0, stored, d);
        lemma_extends_trans(state.0, before.0, d);
        if 0 <= k < init.len() {
            lemma_fragment_held_on(ctx, before.0, d, class, fragments[k]);
        } else {
            assert(fragment_at(ctx, d, class, fragment, index));
        }
    }
}

proof fn lemma_shared_data_drafted(
    ctx: EmitView,
    elsewhere: Elsewhere,
    state: (DraftView, SharedDataStats),
    sections: Seq<Section>,
    i: int,
    k: int,
)
    requires
        state.0.sections.len() + fragment_count(ctx, elsewhere, sections) <= usize::MAX,
        shared_data_drafted(ctx, elsewhere, state, sections) is Ok,
    ensures
        ({
            let d = shared_data_drafted(ctx, elsewhere, state, sections)->Ok_0.0;
            &&& extends(state.0, d)
            &&& d.sections.len() == state.0.sections.len() + fragment_count(
                ctx,
                elsewhere,
                sections,
            )
            &&& 0 <= i < sections.len() && is_shared_class(sections[i].class) && 0 <= k
                < data_fragments(ctx, elsewhere, sections[i]).len() ==> fragment_held(
                ctx,
                d,
                sections[i].class,
                data_fragments(ctx, elsewhere, sections[i])[k],
            )
        }),
    decreases sections.len(),
{
    lemma_extends_self(state.0);
    if sections.len() > 0 {
        let init = sections.drop_last();
        let section = sections.last();
        lemma_shared_data_drafted(ctx, elsewhere, state, init, i, k);
        let before = shared_data_drafted(ctx, elsewhere, state, init)->Ok_0;
        if is_shared_class(section.class) {
            let fragments = data_fragments(ctx, elsewhere, section);
            lemma_subtracted(
                Span {
                    start: section.start,
                    end: virtual_end(ctx.image, ctx.base(), section.start, section.end),
                },
                elsewhere.data,
                0,
            );
            lemma_fragments_drafted(
                ctx,
                before,
                section.class,
                fragments,
                if i == init.len() {
                    k
                } else {
                    -1
                },
            );
            let d = shared_data_drafted(ctx, elsewhere, state, sections)->Ok_0.0;
            lemma_extends_trans(state.0, before.0, d);
            if 0 <= i < init.len() && is_shared_class(sections[i].class) && 0 <= k
                < data_fragments(ctx, elsewhere, sections[i]).len() {
                lemma_fragment_held_on(
                    ctx,
                    before.0,
                    d,
                    sections[i].class,
                    data_fragments(ctx, elsewhere, sections[i])[k],
                );
            }
        }
    }
}

/// The shared object has every part of a data section that no object owns: a
/// section of its own with the bytes of the image or zeros, its variables as
/// external symbols, and a relocation of every field in it whose target has a
/// name.
pub proof fn lemma_shared_object_holds_the_rest(
    ctx: EmitView,
    elsewhere: Elsewhere,
    i: int,
    k: int,
)
    requires
        0 <= i < ctx.model.sections@.len(),
        is_shared_class(ctx.model.sections@[i].class),
        0 <= k < data_fragments(ctx, elsewhere, ctx.model.sections@[i]).len(),
        shared_sections_fit(ctx, elsewhere),
    ensures
        shared_drafted(ctx, elsewhere) matches Ok(state) ==> fragment_held(
            ctx,
            state.0,
            ctx.model.sections@[i].class,
            data_fragments(ctx, elsewhere, ctx.model.sections@[i])[k],
        ),
{
    let sections = ctx.model.sections@;
    if shared_drafted(ctx, elsewhere) is Ok {
        let code = if elsewhere.functions == Set::<u64>::empty() {
            (empty_draft(), crate::shared::no_shared_stats())
        } else {
            shared_code_drafted(ctx, elsewhere, sections)
        };
        lemma_shared_code_drafted(ctx, elsewhere, sections);
        lemma_shared_data_drafted(ctx, elsewhere, code, sections, i, k);
    }
}

/// Where other objects hold functions, the shared object has every stretch of a code
/// section that no other object holds: with the bytes of the image, the names in it,
/// and a relocation of every field whose target has a name.
pub proof fn lemma_shared_object_holds_the_code(ctx: EmitView, elsewhere: Elsewhere, i: int)
    requires
        0 <= i < ctx.model.sections@.len(),
        ctx.model.sections@[i].class == SegClass::Code,
        elsewhere.functions != Set::<u64>::empty(),
        shared_sections_fit(ctx, elsewhere),
    ensures
        shared_drafted(ctx, elsewhere) matches Ok(state) ==> section_code_held(
            ctx,
            state.0,
            elsewhere,
            ctx.model.sections@[i],
        ),
{
    let sections = ctx.model.sections@;
    if let Ok(state) = shared_drafted(ctx, elsewhere) {
        let code = shared_code_drafted(ctx, elsewhere, sections);
        lemma_shared_code_drafted(ctx, elsewhere, sections);
        lemma_shared_data_drafted(ctx, elsewhere, code, sections, -1, -1);
        lemma_section_code_on(ctx, code.0, state.0, elsewhere, sections[i]);
    }
}

/// The names of the shared object lead to symbols that it defines.
pub proof fn lemma_shared_names_lead(ctx: EmitView, elsewhere: Elsewhere)
    requires
        shared_sections_fit(ctx, elsewhere),
    ensures
        shared_drafted(ctx, elsewhere) matches Ok(state) ==> state.0.symbols.len() <= usize::MAX
            ==> names_lead(state.0),
{
    let sections = ctx.model.sections@;
    if let Ok(state) = shared_drafted(ctx, elsewhere) {
        let code = if elsewhere.functions == Set::<u64>::empty() {
            (empty_draft(), crate::shared::no_shared_stats())
        } else {
            shared_code_drafted(ctx, elsewhere, sections)
        };
        lemma_extends_self(empty_draft());
        lemma_shared_code_drafted(ctx, elsewhere, sections);
        lemma_shared_data_drafted(ctx, elsewhere, code, sections, -1, -1);
        lemma_extends_trans(empty_draft(), code.0, state.0);
        assert(names_lead(empty_draft()));
    }
}

/// Whether one of the ranges holds an address.
pub open spec fn one_holds(ranges: Seq<DataRange>, a: int) -> bool {
    exists|k: int|
        0 <= k < ranges.len() && (#[trigger] ranges[k]).spec_start() <= a < ranges[k].spec_end()
}

/// Whether a data range of one of the groups holds an address.
pub open spec fn assigned(groups: Seq<(Seq<char>, GroupView)>, a: int) -> bool
    decreases groups.len(),
{
    groups.len() > 0 && (assigned(groups.drop_last(), a) || one_holds(groups.last().1.rdata, a)
        || one_holds(groups.last().1.data, a) || one_holds(groups.last().1.bss, a))
}

proof fn lemma_covered_appended(x: Seq<Span>, y: Seq<Span>, a: int)
    ensures
        covered(x + y, a) == (covered(x, a) || covered(y, a)),
{
    if covered(x, a) {
        let k = choose|k: int| 0 <= k < x.len() && (#[trigger] x[k]).has(a);
        assert((x + y)[k].has(a));
    }
    if covered(y, a) {
        let k = choose|k: int| 0 <= k < y.len() && (#[trigger] y[k]).has(a);
        assert((x + y)[x.len() + k].has(a));
    }
    if covered(x + y, a) {
        let k = choose|k: int| 0 <= k < (x + y).len() && (#[trigger] (x + y)[k]).has(a);
        if k < x.len() {
            assert(x[k].has(a));
        } else {
            assert(y[k - x.len()].has(a));
        }
    }
}

proof fn lemma_owned_ranges_cover(class: SegClass, ranges: Seq<DataRange>, a: int)
    ensures
        covered(owned_spans(owned_ranges(class, ranges)), a) == one_holds(ranges, a),
{
    let spans = owned_spans(owned_ranges(class, ranges));
    if covered(spans, a) {
        let k = choose|k: int| 0 <= k < spans.len() && (#[trigger] spans[k]).has(a);
        assert(ranges[k].spec_start() <= a < ranges[k].spec_end());
    }
    if one_holds(ranges, a) {
        let k = choose|k: int|
            0 <= k < ranges.len() && (#[trigger] ranges[k]).spec_start() <= a
                < ranges[k].spec_end();
        assert(spans[k].has(a));
    }
}

proof fn lemma_owned_by_groups_cover(groups: Seq<(Seq<char>, GroupView)>, a: int)
    ensures
        covered(owned_spans(owned_by_groups(groups)), a) == assigned(groups, a),
    decreases groups.len(),
{
    if groups.len() > 0 {
        let group = groups.last().1;
        let before = owned_by_groups(groups.drop_last());
        let c = owned_ranges(SegClass::Const, group.rdata);
        let d = owned_ranges(SegClass::Data, group.data);
        let b = owned_ranges(SegClass::Bss, group.bss);
        lemma_owned_by_groups_cover(groups.drop_last(), a);
        lemma_owned_ranges_cover(SegClass::Const, group.rdata, a);
        lemma_owned_ranges_cover(SegClass::Data, group.data, a);
        lemma_owned_ranges_cover(SegClass::Bss, group.bss, a);
        assert(owned_spans(owned_by_groups(groups)) =~= owned_spans(before) + owned_spans(c)
            + owned_spans(d) + owned_spans(b));
        lemma_covered_appended(owned_spans(before), owned_spans(c), a);
        lemma_covered_appended(owned_spans(before) + owned_spans(c), owned_spans(d), a);
        lemma_covered_appended(
            owned_spans(before) + owned_spans(c) + owned_spans(d),
            owned_spans(b),
            a,
        );
    }
}

/// Data that is assigned to a group is removed from the shared object, and
/// nothing else is: an address of a data section that the image reaches is shared
/// if and only if no group has a range for it.
pub proof fn lemma_assigned_data_is_not_shared(
    ctx: EmitView,
    groups: Seq<(Seq<char>, GroupView)>,
    section: Section,
    a: u64,
)
    requires
        section.start <= a < virtual_end(ctx.image, ctx.base(), section.start, section.end),
    ensures
        covered(data_fragments(ctx, held_by(groups), section), a as int) == !assigned(
            groups,
            a as int,
        ),
{
    lemma_data_is_owned_or_shared(ctx, held_by(groups), section, a);
    lemma_owned_by_groups_cover(groups, a as int);
}

} // verus!
