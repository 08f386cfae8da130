//! The code of one function: its switch tables, recovered fields and symbols.

use crate::addr_map::value_at;
use crate::bytes::wrap64;
use crate::draft::{
    sanitize_symbol_name, symbol_text, Draft, DraftSymbol, DraftSymbolView, DraftView, Linkage,
    Pending, PendingView, SymbolClass,
};
use crate::emitter::{
    clear_field, cleared, fixed_bytes, fixed_pending, is_msvc_x86_pe, uses_except_list, EmitStats,
    EmitView, Emitter, SplitResolver, WideRelocView,
};
use crate::format::{abs_flags, absolute_type, rel32_flags, relative_type, Contents};
use crate::model::{
    holds, Function, IdaArch, IdaModel, JumpTable, JumpTableEntry, Name, SegClass, Section,
    TableView,
};
use crate::pe::{has_rva, image_bytes, PeImage};
use crate::ranges::Span;
use crate::recover::{
    answers, in_body, recover, recovered, Answers, RecoveredRelocView, RelocKind,
};
use crate::seqs::{first, keep, lemma_first_index, lemma_keep_step, opt_bytes, views};
use crate::sorting::{
    count_below, key_window, lemma_place_before_monotone, lemma_sort_views, sort_stably,
    stable_sort,
};
use crate::tables::{discover_x86_jump_tables, discovered_tables};
use crate::text::{digits, format_digits, Error};
use std::collections::HashSet;
use vstd::prelude::*;

verus! {

// ---------------------------------------------------------------------------
// Switch tables of a function
// ---------------------------------------------------------------------------

/// Tables of the function at `start`.
pub open spec fn owned_by(start: u64) -> spec_fn(TableView) -> bool {
    |t: TableView| t.owner == start
}

/// The bytes of the image at an address of the model.
pub open spec fn bytes_at(ctx: EmitView, start: u64, len: int) -> Option<Seq<u8>> {
    image_bytes(ctx.image, wrap64(start - ctx.base()) as u64, len)
}

/// `exported`, or where there is none in 32-bit code the tables that the code
/// itself shows.
pub open spec fn or_discovered(ctx: EmitView, f: Function, exported: Seq<TableView>) -> Seq<
    TableView,
> {
    if exported.len() == 0 && ctx.model.arch == IdaArch::X86 {
        match bytes_at(ctx, f.start, f.spec_size()) {
            Some(code) => discovered_tables(code, f.start, f.end, ctx.model, ctx.image),
            None => exported,
        }
    } else {
        exported
    }
}

/// The tables that belong to a function.
pub open spec fn function_tables(ctx: EmitView, f: Function) -> Seq<TableView> {
    or_discovered(ctx, f, keep(views(ctx.model.jump_tables@), owned_by(f.start)))
}

/// Whether a table lies in the code section of the function that owns it.
pub open spec fn lies_with_owner(sections: Seq<Section>, start: u64, table: u64) -> bool {
    match (first(sections, holds(start)), first(sections, holds(table))) {
        (Some(owner), Some(section)) => owner.class == SegClass::Code && section.start
            == owner.start && section.end == owner.end,
        _ => false,
    }
}

/// Tables that are emitted with the 32-bit function at `start`.
pub open spec fn emitted_with(model: IdaModel, start: u64) -> spec_fn(TableView) -> bool {
    |t: TableView|
        model.arch == IdaArch::X86 && t.owner == start && lies_with_owner(
            model.sections@,
            start,
            t.start,
        )
}

/// The tables that are emitted with a function, in address order.
pub open spec fn inline_tables(ctx: EmitView, f: Function) -> Seq<TableView> {
    stable_sort(
        or_discovered(ctx, f, keep(views(ctx.model.jump_tables@), emitted_with(ctx.model, f.start))),
    )
}

/// The end of a function with its tables.
pub open spec fn end_with_tables(end: u64, tables: Seq<TableView>) -> u64
    decreases tables.len(),
{
    if tables.len() == 0 {
        end
    } else {
        let before = end_with_tables(end, tables.drop_last());
        if before >= tables.last().end() {
            before
        } else {
            tables.last().end()
        }
    }
}

/// The address four bytes behind `field`, or the last address.
pub open spec fn field_end(field: u64) -> int {
    if field + 4 > u64::MAX {
        u64::MAX as int
    } else {
        field + 4
    }
}

/// Whether the entries of a table stand one behind the other from its start.
pub open spec fn entries_in_line(t: TableView) -> bool {
    forall|k: int|
        0 <= k < t.entries.len() ==> (#[trigger] t.entries[k]).addr == wrap64(
            t.start + k * t.entry_size,
        )
}

/// Whether every field that holds a table's address lies in the function.
pub open spec fn fields_inside(t: TableView, start: u64, end: u64) -> bool {
    forall|k: int|
        0 <= k < t.fields().len() ==> start <= (#[trigger] t.fields()[k]) && field_end(
            t.fields()[k],
        ) <= end
}

/// Whether table `i` can be emitted with a function: it starts behind the
/// function's start and the table before it, and ends within the section.
pub open spec fn table_fits(
    tables: Seq<TableView>,
    i: int,
    start: u64,
    end: u64,
    section: Option<Section>,
) -> bool {
    let t = tables[i];
    &&& start <= t.start
    &&& t.entry_size != 0
    &&& section is Some ==> t.end() <= section->0.end
    &&& fields_inside(t, start, end)
    &&& entries_in_line(t)
    &&& i > 0 ==> tables[i - 1].end() <= t.start
}

/// The first table that cannot be emitted with a function.
pub open spec fn misplaced_table(
    tables: Seq<TableView>,
    n: nat,
    start: u64,
    end: u64,
    section: Option<Section>,
) -> Option<int>
    decreases n,
{
    if n == 0 {
        None
    } else {
        match misplaced_table(tables, (n - 1) as nat, start, end, section) {
            Some(i) => Some(i),
            None => if table_fits(tables, n - 1, start, end, section) {
                None
            } else {
                Some(n - 1)
            },
        }
    }
}

/// The tables that are emitted with a function, or the fault of one.
#[verifier::opaque]
pub open spec fn checked_tables(ctx: EmitView, f: Function) -> Result<Seq<TableView>, Seq<char>> {
    let tables = inline_tables(ctx, f);
    let section = first(ctx.model.sections@, holds(f.start));
    match misplaced_table(tables, tables.len(), f.start, f.end, section) {
        Some(i) => Err(
            "invalid inline jump table '"@ + tables[i].name + "' owned by '"@ + f.name@ + "'"@,
        ),
        None => Ok(tables),
    }
}

/// The bytes of the image at an address of the model.
fn image_data<'a>(pe: &'a PeImage, base: u64, start: u64, len: u64) -> (r: Option<&'a [u8]>)
    ensures
        opt_bytes(r) == image_bytes(pe.spec_sections(), wrap64(start - base) as u64, len as int),
{
    let rva: u64 = start.wrapping_sub(base);
    match pe.section_for_rva(rva) {
        Some(section) => {
            if len > section.data.len() as u64 {
                proof {
                    lemma_first_index(pe.spec_sections(), has_rva(rva));
                }
                None
            } else {
                section.data_at_rva(rva, len as usize)
            }
        },
        None => None,
    }
}

fn same_section(model: &IdaModel, start: u64, table: u64) -> (r: bool)
    ensures
        r == lies_with_owner(model.sections@, start, table),
{
    match (model.section_for(start), model.section_for(table)) {
        (Some(owner), Some(section)) => owner.class == SegClass::Code && section.start
            == owner.start && section.end == owner.end,
        _ => false,
    }
}

pub(crate) fn table_ends(end: u64, tables: &Vec<JumpTable>) -> (r: u64)
    ensures
        r == end_with_tables(end, views(tables@)),
        r >= end,
{
    let ghost v = views(tables@);
    let mut last: u64 = end;
    let mut i: usize = 0;
    assert(v.take(0) =~= Seq::<TableView>::empty());
    while i < tables.len()
        invariant
            i <= tables@.len(),
            v == views(tables@),
            last == end_with_tables(end, v.take(i as int)),
            last >= end,
        decreases tables@.len() - i,
    {
        assert(v.take(i + 1).drop_last() =~= v.take(i as int));
        let e: u64 = tables[i].end();
        if last < e {
            last = e;
        }
        i += 1;
    }
    assert(v.take(v.len() as int) =~= v);
    last
}

fn check_fields(table: &JumpTable, start: u64, end: u64) -> (r: bool)
    ensures
        r == fields_inside(table@, start, end),
{
    let fields = table.dispatch_fields();
    let mut i: usize = 0;
    while i < fields.len()
        invariant
            i <= fields@.len(),
            fields@ == table@.fields(),
            forall|k: int|
                0 <= k < i ==> start <= (#[trigger] fields@[k]) && field_end(fields@[k]) <= end,
        decreases fields@.len() - i,
    {
        let field: u64 = fields[i];
        if field < start || field.saturating_add(4) > end {
            assert(!(start <= table@.fields()[i as int] && field_end(table@.fields()[i as int])
                <= end));
            return false;
        }
        i += 1;
    }
    true
}

fn check_entries(table: &JumpTable) -> (r: bool)
    ensures
        r == entries_in_line(table@),
{
    let mut i: usize = 0;
    while i < table.entries.len()
        invariant
            i <= table.entries@.len(),
            forall|k: int|
                0 <= k < i ==> (#[trigger] table.entries@[k]).addr == wrap64(
                    table.start + k * table.entry_size,
                ),
        decreases table.entries@.len() - i,
    {
        let distance: u64 = (i as u64).wrapping_mul(table.entry_size as u64);
        let expected: u64 = table.start.wrapping_add(distance);
        proof {
            lemma_wrapped_offset(table.start as int, i * table.entry_size);
        }
        if table.entries[i].addr != expected {
            assert(table@.entries[i as int].addr != wrap64(table.start + i * table.entry_size));
            return false;
        }
        i += 1;
    }
    true
}

proof fn lemma_wrapped_offset(start: int, product: int)
    ensures
        wrap64(start + wrap64(product)) == wrap64(start + product),
{
}

impl<'a> Emitter<'a> {
    fn add_discovered(&self, f: &Function, exported: Vec<JumpTable>) -> (r: Vec<JumpTable>)
        requires
            self.wf(),
        ensures
            views(r@) == or_discovered(self@, *f, views(exported@)),
    {
        if exported.len() == 0 && self.model.arch == IdaArch::X86 {
            if let Some(code) = image_data(
                self.pe,
                self.model.image_base,
                f.start,
                f.size(),
            ) {
                return discover_x86_jump_tables(code, f.start, f.end, self.model, self.pe);
            }
        }
        exported
    }

    /// The tables that belong to a function.
    pub fn tables_of(&self, f: &Function) -> (r: Vec<JumpTable>)
        requires
            self.wf(),
        ensures
            views(r@) == function_tables(self@, *f),
    {
        let ghost all = views(self.model.jump_tables@);
        let ghost p = owned_by(f.start);
        let mut kept: Vec<JumpTable> = Vec::new();
        let mut i: usize = 0;
        assert(all.take(0) =~= Seq::<TableView>::empty());
        assert(views(kept@) =~= Seq::<TableView>::empty());
        while i < self.model.jump_tables.len()
            invariant
                i <= self.model.jump_tables@.len(),
                all == views(self.model.jump_tables@),
                p == owned_by(f.start),
                views(kept@) == keep(all.take(i as int), p),
            decreases self.model.jump_tables@.len() - i,
        {
            proof {
                lemma_keep_step(all, p, i as int);
            }
            let table = &self.model.jump_tables[i];
            assert(all[i as int] == table@);
            if table.owner == f.start {
                let ghost before = kept@;
                let copy = table.clone();
                kept.push(copy);
                assert(views(kept@) =~= views(before).push(copy@));
            }
            i += 1;
        }
        assert(all.take(all.len() as int) =~= all);
        self.add_discovered(f, kept)
    }

    fn tables_emitted_with(&self, f: &Function) -> (r: Vec<JumpTable>)
        requires
            self.wf(),
        ensures
            views(r@) == inline_tables(self@, *f),
    {
        let ghost all = views(self.model.jump_tables@);
        let ghost p = emitted_with(*self.model, f.start);
        let mut kept: Vec<JumpTable> = Vec::new();
        let mut i: usize = 0;
        assert(all.take(0) =~= Seq::<TableView>::empty());
        assert(views(kept@) =~= Seq::<TableView>::empty());
        while i < self.model.jump_tables.len()
            invariant
                i <= self.model.jump_tables@.len(),
                all == views(self.model.jump_tables@),
                p == emitted_with(*self.model, f.start),
                views(kept@) == keep(all.take(i as int), p),
            decreases self.model.jump_tables@.len() - i,
        {
            proof {
                lemma_keep_step(all, p, i as int);
            }
            let table = &self.model.jump_tables[i];
            assert(all[i as int] == table@);
            if self.model.arch == IdaArch::X86 && table.owner == f.start && same_section(
                self.model,
                f.start,
                table.start,
            ) {
                let ghost before = kept@;
                let copy = table.clone();
                kept.push(copy);
                assert(views(kept@) =~= views(before).push(copy@));
            }
            i += 1;
        }
        assert(all.take(all.len() as int) =~= all);
        let tables = self.add_discovered(f, kept);
        proof {
            lemma_sort_views(tables@);
        }
        sort_stably(tables)
    }

    fn check_tables(&self, f: &Function) -> (r: Result<Vec<JumpTable>, Error>)
        requires
            self.wf(),
        ensures
            match r {
                Ok(tables) => checked_tables(self@, *f) == Ok::<Seq<TableView>, Seq<char>>(
                    views(tables@),
                ),
                Err(e) => checked_tables(self@, *f) == Err::<Seq<TableView>, Seq<char>>(e@),
            },
    {
        reveal(checked_tables);
        let tables = self.tables_emitted_with(f);
        let ghost v = views(tables@);
        let ghost section = first(self.model.sections@, holds(f.start));
        let owner = self.model.section_for(f.start);
        let mut i: usize = 0;
        while i < tables.len()
            invariant
                i <= tables@.len(),
                v == views(tables@),
                v == inline_tables(self@, *f),
                section == first(self.model.sections@, holds(f.start)),
                crate::model::deref_section(owner) == section,
                misplaced_table(v, i as nat, f.start, f.end, section) is None,
            decreases tables@.len() - i,
        {
            let table = &tables[i];
            assert(v[i as int] == table@);
            let behind_previous = i == 0 || tables[i - 1].end() <= table.start;
            assert(i > 0 ==> v[i - 1] == tables@[i - 1]@);
            let in_section = match owner {
                Some(s) => table.end() <= s.end,
                None => true,
            };
            if table.start < f.start || table.entry_size == 0 || !in_section || !check_fields(
                table,
                f.start,
                f.end,
            ) || !check_entries(table) || !behind_previous {
                proof {
                    reveal(checked_tables);
                    assert(!table_fits(v, i as int, f.start, f.end, section));
                    lemma_misplaced_stays(v, (i + 1) as nat, v.len(), f.start, f.end, section);
                }
                return Err(
                    Error::new("invalid inline jump table '").text(table.name.as_str()).text(
                        "' owned by '",
                    ).text(f.name.as_str()).text("'"),
                );
            }
            assert(table_fits(v, i as int, f.start, f.end, section));
            i += 1;
        }
        Ok(tables)
    }
}

proof fn lemma_misplaced_stays(
    tables: Seq<TableView>,
    m: nat,
    n: nat,
    start: u64,
    end: u64,
    section: Option<Section>,
)
    requires
        m <= n,
        misplaced_table(tables, m, start, end, section) is Some,
    ensures
        misplaced_table(tables, n, start, end, section) == misplaced_table(
            tables,
            m,
            start,
            end,
            section,
        ),
    decreases n,
{
    if m < n {
        lemma_misplaced_stays(tables, m, (n - 1) as nat, start, end, section);
    }
}

// ---------------------------------------------------------------------------
// Recovered fields
// ---------------------------------------------------------------------------

/// A field that instructions show to hold an address.
#[derive(Debug)]
pub struct RecRel {
    pub offset: u64,
    pub target: String,
    pub addend: i64,
    pub absolute: bool,
}

#[verifier::ext_equal]
pub struct RecRelView {
    pub offset: u64,
    pub target: Seq<char>,
    pub addend: i64,
    pub absolute: bool,
}

impl View for RecRel {
    type V = RecRelView;

    open spec fn view(&self) -> RecRelView {
        RecRelView {
            offset: self.offset,
            target: self.target@,
            addend: self.addend,
            absolute: self.absolute,
        }
    }
}

/// What the instructions of a function show.
pub struct Recovered {
    pub relocs: Vec<RecRel>,
    pub instructions: usize,
    pub unresolved_calls: usize,
    pub unresolved_rip: usize,
}

#[verifier::ext_equal]
pub struct RecoveredView {
    pub relocs: Seq<RecRelView>,
    pub instructions: usize,
    pub unresolved_calls: usize,
    pub unresolved_rip: usize,
}

impl View for Recovered {
    type V = RecoveredView;

    open spec fn view(&self) -> RecoveredView {
        RecoveredView {
            relocs: views(self.relocs@),
            instructions: self.instructions,
            unresolved_calls: self.unresolved_calls,
            unresolved_rip: self.unresolved_rip,
        }
    }
}

pub open spec fn none_recovered() -> RecoveredView {
    RecoveredView {
        relocs: Seq::empty(),
        instructions: 0,
        unresolved_calls: 0,
        unresolved_rip: 0,
    }
}

impl RecoveredView {
    /// With what a later part of the function shows.
    pub open spec fn with_part(self, part: RecoveredView) -> RecoveredView {
        RecoveredView {
            relocs: self.relocs + part.relocs,
            instructions: self.instructions.wrapping_add(part.instructions),
            unresolved_calls: self.unresolved_calls.wrapping_add(part.unresolved_calls),
            unresolved_rip: self.unresolved_rip.wrapping_add(part.unresolved_rip),
        }
    }
}

/// What is answered of the model's code: targets resolve to the exported symbols,
/// and those in the body of a function stay within it.
pub open spec fn symbol_answers(ctx: EmitView) -> Answers {
    Answers {
        code: |va: u64| ctx.symbols.code_target(va),
        intra_function: |fn_va: u64, fn_size: u64, target_va: u64|
            in_body(fn_va, fn_size, target_va),
        fs_zero: except_list(ctx.model),
    }
}

/// What `fs:[0]` is called in the model's code.
pub open spec fn except_list(model: IdaModel) -> Option<Seq<char>> {
    if is_msvc_x86_pe(model) {
        Some("__except_list"@)
    } else {
        None
    }
}

/// A field that 32-bit recovery found, `shift` bytes into the function.
pub open spec fn narrow_field(r: RecoveredRelocView, shift: int) -> RecRelView {
    RecRelView {
        offset: wrap64(r.offset + shift) as u64,
        target: r.target,
        addend: r.addend,
        absolute: r.kind == RelocKind::Dir32,
    }
}

/// A field that 64-bit recovery found, `shift` bytes into the function.
pub open spec fn wide_field(r: WideRelocView, shift: int) -> RecRelView {
    RecRelView {
        offset: wrap64(r.offset + shift) as u64,
        target: r.target,
        addend: r.addend,
        absolute: false,
    }
}

pub open spec fn narrow_fields(relocs: Seq<RecoveredRelocView>, shift: int) -> Seq<RecRelView> {
    relocs.map_values(|r: RecoveredRelocView| narrow_field(r, shift))
}

pub open spec fn wide_fields(relocs: Seq<WideRelocView>, shift: int) -> Seq<RecRelView> {
    relocs.map_values(|r: WideRelocView| wide_field(r, shift))
}

/// What the instructions of `code`, which stand at `span` in the function at
/// `start`, show.
pub open spec fn span_recovered(
    ctx: EmitView,
    code: Seq<u8>,
    span: Span,
    start: u64,
) -> RecoveredView {
    match ctx.model.arch {
        IdaArch::X86 => {
            let r = recovered(
                code,
                span.start,
                (span.end - span.start) as u64,
                symbol_answers(ctx),
            );
            RecoveredView {
                relocs: narrow_fields(r.relocs, span.start - start),
                instructions: r.instructions as usize,
                unresolved_calls: r.calls_unresolved as usize,
                unresolved_rip: 0,
            }
        },
        IdaArch::X86_64 => match value_at(ctx.wide, span.start) {
            Some(r) => RecoveredView {
                relocs: wide_fields(r.relocs, span.start - start),
                instructions: r.instructions,
                unresolved_calls: r.unresolved_calls,
                unresolved_rip: r.unresolved_rip,
            },
            None => none_recovered(),
        },
        IdaArch::Other => none_recovered(),
    }
}

/// `a` no lower than `lo` and no higher than `hi`.
pub open spec fn clamp(a: u64, lo: u64, hi: u64) -> u64 {
    let raised = if a >= lo {
        a
    } else {
        lo
    };
    if raised <= hi {
        raised
    } else {
        hi
    }
}

/// The instructions of a function from `cursor` on: what is left of it without
/// the tables from `i` on, which are data even where the function's bounds take
/// them in.
pub open spec fn code_spans(
    start: u64,
    end: u64,
    tables: Seq<TableView>,
    cursor: u64,
    i: int,
) -> Seq<Span>
    decreases tables.len() - i,
{
    if i < 0 || i >= tables.len() {
        if cursor < end {
            seq![Span { start: cursor, end }]
        } else {
            Seq::empty()
        }
    } else {
        let table_start = clamp(tables[i].start, start, end);
        let table_end = if tables[i].end() <= end {
            tables[i].end()
        } else {
            end
        };
        let next = if cursor >= table_end {
            cursor
        } else {
            table_end
        };
        let rest = code_spans(start, end, tables, next, i + 1);
        if cursor < table_start {
            seq![Span { start: cursor, end: table_start }] + rest
        } else {
            rest
        }
    }
}

/// What the instructions of the first spans show.
pub open spec fn spans_recovered(
    ctx: EmitView,
    bytes: Seq<u8>,
    start: u64,
    spans: Seq<Span>,
) -> RecoveredView
    decreases spans.len(),
{
    if spans.len() == 0 {
        none_recovered()
    } else {
        let span = spans.last();
        let code = bytes.subrange(span.start - start, span.end - start);
        spans_recovered(ctx, bytes, start, spans.drop_last()).with_part(
            span_recovered(ctx, code, span, start),
        )
    }
}

/// What the instructions of a function show; `bytes` begins with its code.
#[verifier::opaque]
pub open spec fn function_recovered(
    ctx: EmitView,
    f: Function,
    tables: Seq<TableView>,
    bytes: Seq<u8>,
) -> RecoveredView {
    spans_recovered(ctx, bytes, f.start, code_spans(f.start, f.end, tables, f.start, 0))
}

impl Recovered {
    fn append(&mut self, part: Recovered)
        ensures
            final(self)@ == old(self)@.with_part(part@),
    {
        let ghost before = self@;
        let mut relocs = part.relocs;
        let ghost added = relocs@;
        let ghost had = self.relocs@;
        self.relocs.append(&mut relocs);
        self.instructions = self.instructions.wrapping_add(part.instructions);
        self.unresolved_calls = self.unresolved_calls.wrapping_add(part.unresolved_calls);
        self.unresolved_rip = self.unresolved_rip.wrapping_add(part.unresolved_rip);
        proof {
            assert(views(self.relocs@) =~= views(had) + views(added));
            assert(self@ =~= before.with_part(part@));
        }
    }

    fn none() -> (r: Recovered)
        ensures
            r@ == none_recovered(),
    {
        let r = Recovered {
            relocs: Vec::new(),
            instructions: 0,
            unresolved_calls: 0,
            unresolved_rip: 0,
        };
        assert(r@ =~= none_recovered());
        r
    }
}

impl<'a> Emitter<'a> {
    fn recover_narrow(&self, code: &[u8], span: Span, start: u64) -> (r: Recovered)
        requires
            self.wf(),
            start <= span.start <= span.end,
            self.model.arch == IdaArch::X86,
        ensures
            r@ == span_recovered(self@, code@, span, start),
    {
        let resolver = SplitResolver {
            symbols: self.symbols,
            owned: self.owned,
            msvc_x86_pe: uses_except_list(self.model),
        };
        let found = match recover(code, span.start, span.end - span.start, &resolver) {
            Ok(found) => found,
            Err(_) => {
                return Recovered::none();
            },
        };
        proof {
            let given = answers(&resolver);
            let expected = symbol_answers(self@);
            assert(given.code =~= expected.code);
            assert(given.intra_function =~= expected.intra_function);
        }
        let shift: u64 = span.start - start;
        let ghost all = narrow_fields(found@.relocs, shift as int);
        let mut relocs: Vec<RecRel> = Vec::new();
        let mut i: usize = 0;
        while i < found.relocs.len()
            invariant
                i <= found.relocs@.len(),
                all == narrow_fields(views(found.relocs@), shift as int),
                views(relocs@) == all.take(i as int),
            decreases found.relocs@.len() - i,
        {
            let x = &found.relocs[i];
            let ghost before = relocs@;
            let field = RecRel {
                offset: x.offset.wrapping_add(shift),
                target: x.target.clone(),
                addend: x.addend,
                absolute: x.kind == RelocKind::Dir32,
            };
            relocs.push(field);
            i += 1;
            assert(field@ =~= all[i - 1]);
            assert(views(relocs@) =~= views(before).push(field@));
            assert(views(relocs@) =~= all.take(i as int));
        }
        assert(views(relocs@) =~= all);
        let r = Recovered {
            relocs,
            instructions: found.diag.instructions,
            unresolved_calls: found.diag.calls_unresolved,
            unresolved_rip: found.diag.rip_refs_unresolved,
        };
        assert(r@ =~= span_recovered(self@, code@, span, start));
        r
    }

    fn recover_wide(&self, span: Span, start: u64, Ghost(code): Ghost<Seq<u8>>) -> (r: Recovered)
        requires
            self.wf(),
            start <= span.start,
            self.model.arch == IdaArch::X86_64,
        ensures
            r@ == span_recovered(self@, code, span, start),
    {
        let found = match self.wide.get(span.start) {
            Some(found) => found,
            None => {
                return Recovered::none();
            },
        };
        let shift: u64 = span.start - start;
        let ghost all = wide_fields(found@.relocs, shift as int);
        let mut relocs: Vec<RecRel> = Vec::new();
        let mut i: usize = 0;
        while i < found.relocs.len()
            invariant
                i <= found.relocs@.len(),
                all == wide_fields(views(found.relocs@), shift as int),
                views(relocs@) == all.take(i as int),
            decreases found.relocs@.len() - i,
        {
            let x = &found.relocs[i];
            let ghost before = relocs@;
            let field = RecRel {
                offset: x.offset.wrapping_add(shift),
                target: x.target.clone(),
                addend: x.addend,
                absolute: false,
            };
            relocs.push(field);
            i += 1;
            assert(field@ =~= all[i - 1]);
            assert(views(relocs@) =~= views(before).push(field@));
            assert(views(relocs@) =~= all.take(i as int));
        }
        assert(views(relocs@) =~= all);
        let r = Recovered {
            relocs,
            instructions: found.instructions,
            unresolved_calls: found.unresolved_calls,
            unresolved_rip: found.unresolved_rip,
        };
        assert(r@ =~= span_recovered(self@, code, span, start));
        r
    }

    /// What the instructions of `code`, which stand at `span` in the function at
    /// `start`, show.
    pub fn recover_span(&self, code: &[u8], span: Span, start: u64) -> (r: Recovered)
        requires
            self.wf(),
            start <= span.start <= span.end,
        ensures
            r@ == span_recovered(self@, code@, span, start),
    {
        match self.model.arch {
            IdaArch::X86 => self.recover_narrow(code, span, start),
            IdaArch::X86_64 => self.recover_wide(span, start, Ghost(code@)),
            IdaArch::Other => Recovered::none(),
        }
    }

    fn recover_function(&self, f: &Function, tables: &Vec<JumpTable>, bytes: &Vec<u8>) -> (r:
        Recovered)
        requires
            self.wf(),
            f.start <= f.end,
            bytes@.len() >= f.end - f.start,
        ensures
            r@ == function_recovered(self@, *f, views(tables@), bytes@),
    {
        reveal(function_recovered);
        let spans = collect_code_spans(f, tables);
        let ghost all = spans@;
        let mut out = Recovered::none();
        let mut i: usize = 0;
        assert(all.take(0) =~= Seq::<Span>::empty());
        while i < spans.len()
            invariant
                self.wf(),
                i <= spans@.len(),
                all == spans@,
                bytes@.len() >= f.end - f.start,
                forall|k: int|
                    0 <= k < spans@.len() ==> f.start <= (#[trigger] spans@[k]).start
                        < spans@[k].end <= f.end,
                out@ == spans_recovered(self@, bytes@, f.start, all.take(i as int)),
            decreases spans@.len() - i,
        {
            assert(all.take(i + 1).drop_last() =~= all.take(i as int));
            let span = spans[i];
            assert(f.start <= spans@[i as int].start);
            assert(bytes@.len() == bytes.len());
            let from: usize = (span.start - f.start) as usize;
            let to: usize = (span.end - f.start) as usize;
            let code = vstd::slice::slice_subrange(bytes.as_slice(), from, to);
            let part = self.recover_span(code, span, f.start);
            out.append(part);
            i += 1;
        }
        assert(all.take(all.len() as int) =~= all);
        out
    }

    /// The stretches of instructions of a function: what is left of it without
    /// its tables.
    pub fn code_of(&self, f: &Function) -> (r: Result<Vec<Span>, Error>)
        requires
            self.wf(),
            f.start <= f.end,
        ensures
            match (r, checked_tables(self@, *f)) {
                (Ok(spans), Ok(tables)) => spans@ == code_spans(
                    f.start,
                    f.end,
                    tables,
                    f.start,
                    0,
                ),
                (Err(e), Err(text)) => e@ == text,
                _ => false,
            },
    {
        match self.check_tables(f) {
            Ok(tables) => Ok(collect_code_spans(f, &tables)),
            Err(e) => Err(e),
        }
    }
}

fn collect_code_spans(f: &Function, tables: &Vec<JumpTable>) -> (r: Vec<Span>)
    requires
        f.start <= f.end,
    ensures
        r@ == code_spans(f.start, f.end, views(tables@), f.start, 0),
        forall|k: int|
            0 <= k < r@.len() ==> f.start <= (#[trigger] r@[k]).start < r@[k].end <= f.end,
{
    let ghost v = views(tables@);
    let ghost all = code_spans(f.start, f.end, v, f.start, 0);
    let mut out: Vec<Span> = Vec::new();
    let mut cursor: u64 = f.start;
    let mut i: usize = 0;
    assert(out@ + all =~= all);
    while i < tables.len()
        invariant
            i <= tables@.len(),
            v == views(tables@),
            f.start <= cursor <= f.end,
            all == out@ + code_spans(f.start, f.end, v, cursor, i as int),
            forall|k: int|
                0 <= k < out@.len() ==> f.start <= (#[trigger] out@[k]).start < out@[k].end
                    <= f.end,
        decreases tables@.len() - i,
    {
        let table = &tables[i];
        assert(v[i as int] == table@);
        let raised: u64 = if table.start >= f.start {
            table.start
        } else {
            f.start
        };
        let table_start: u64 = if raised <= f.end {
            raised
        } else {
            f.end
        };
        let end: u64 = table.end();
        let table_end: u64 = if end <= f.end {
            end
        } else {
            f.end
        };
        let next: u64 = if cursor >= table_end {
            cursor
        } else {
            table_end
        };
        let ghost rest = code_spans(f.start, f.end, v, next, i + 1);
        if cursor < table_start {
            let span = Span { start: cursor, end: table_start };
            assert(out@ + (seq![span] + rest) =~= out@.push(span) + rest);
            out.push(span);
        }
        cursor = next;
        i += 1;
    }
    if cursor < f.end {
        let span = Span { start: cursor, end: f.end };
        assert(out@ + seq![span] =~= out@.push(span));
        out.push(span);
    }
    assert(out@ =~= all);
    out
}

// ---------------------------------------------------------------------------
// Bytes
// ---------------------------------------------------------------------------

/// `bytes` with the recovered fields cleared.
pub open spec fn recovered_bytes(relocs: Seq<RecRelView>, bytes: Seq<u8>) -> Seq<u8>
    decreases relocs.len(),
{
    if relocs.len() == 0 {
        bytes
    } else {
        cleared(recovered_bytes(relocs.drop_last(), bytes), relocs.last().offset as int, 4)
    }
}

/// The addresses that a table's own relocations take care of.
pub open spec fn table_fields(t: TableView) -> Set<u64> {
    Set::new(
        |a: u64|
            t.fields().contains(a) || exists|k: int|
                0 <= k < t.entries.len() && (#[trigger] t.entries[k]).addr == a,
    )
}

/// The addresses that the tables' own relocations take care of.
pub open spec fn switch_fields(tables: Seq<TableView>) -> Set<u64>
    decreases tables.len(),
{
    if tables.len() == 0 {
        Set::empty()
    } else {
        switch_fields(tables.drop_last()).union(table_fields(tables.last()))
    }
}

/// `bytes`, which stand at `start`, with the first fields cleared.
pub open spec fn dispatch_cleared(fields: Seq<u64>, start: u64, bytes: Seq<u8>) -> Seq<u8>
    decreases fields.len(),
{
    if fields.len() == 0 {
        bytes
    } else {
        cleared(
            dispatch_cleared(fields.drop_last(), start, bytes),
            wrap64(fields.last() - start),
            4,
        )
    }
}

/// `bytes`, which stand at `start`, with the first entries cleared.
pub open spec fn entries_cleared(
    entries: Seq<JumpTableEntry>,
    width: int,
    start: u64,
    bytes: Seq<u8>,
) -> Seq<u8>
    decreases entries.len(),
{
    if entries.len() == 0 {
        bytes
    } else {
        cleared(
            entries_cleared(entries.drop_last(), width, start, bytes),
            wrap64(entries.last().addr - start),
            width,
        )
    }
}

/// `bytes`, which stand at `start`, with the fields and entries of the tables
/// cleared.
pub open spec fn tables_cleared(tables: Seq<TableView>, start: u64, bytes: Seq<u8>) -> Seq<u8>
    decreases tables.len(),
{
    if tables.len() == 0 {
        bytes
    } else {
        let t = tables.last();
        entries_cleared(
            t.entries,
            t.entry_size as int,
            start,
            dispatch_cleared(
                t.fields(),
                start,
                tables_cleared(tables.drop_last(), start, bytes),
            ),
        )
    }
}

/// The bytes that are emitted for a function: those of the image, with every
/// relocated field cleared.
pub open spec fn function_bytes(
    ctx: EmitView,
    f: Function,
    tables: Seq<TableView>,
    image: Seq<u8>,
) -> Seq<u8> {
    let emit_end = end_with_tables(f.end, tables);
    let rec = recovered_bytes(function_recovered(ctx, f, tables, image).relocs, image);
    let fixed = fixed_bytes(
        ctx,
        f.start,
        switch_fields(tables),
        ctx.relocs(f.start, emit_end),
        rec,
    );
    tables_cleared(tables, f.start, fixed)
}

fn clear_recovered(relocs: &Vec<RecRel>, bytes: &mut Vec<u8>)
    ensures
        final(bytes)@ == recovered_bytes(views(relocs@), old(bytes)@),
        final(bytes)@.len() == old(bytes)@.len(),
{
    let ghost v = views(relocs@);
    let ghost original = bytes@;
    let mut i: usize = 0;
    assert(v.take(0) =~= Seq::<RecRelView>::empty());
    while i < relocs.len()
        invariant
            i <= relocs@.len(),
            v == views(relocs@),
            bytes@ == recovered_bytes(v.take(i as int), original),
            bytes@.len() == original.len(),
        decreases relocs@.len() - i,
    {
        assert(v.take(i + 1).drop_last() =~= v.take(i as int));
        clear_field(bytes, relocs[i].offset, 4);
        i += 1;
    }
    assert(v.take(v.len() as int) =~= v);
}

fn clear_tables(tables: &Vec<JumpTable>, start: u64, bytes: &mut Vec<u8>)
    ensures
        final(bytes)@ == tables_cleared(views(tables@), start, old(bytes)@),
        final(bytes)@.len() == old(bytes)@.len(),
{
    let ghost v = views(tables@);
    let ghost original = bytes@;
    let mut i: usize = 0;
    assert(v.take(0) =~= Seq::<TableView>::empty());
    while i < tables.len()
        invariant
            i <= tables@.len(),
            v == views(tables@),
            bytes@ == tables_cleared(v.take(i as int), start, original),
            bytes@.len() == original.len(),
        decreases tables@.len() - i,
    {
        assert(v.take(i + 1).drop_last() =~= v.take(i as int));
        let table = &tables[i];
        assert(v[i as int] == table@);
        clear_table(table, start, bytes);
        i += 1;
    }
    assert(v.take(v.len() as int) =~= v);
}

fn clear_table(table: &JumpTable, start: u64, bytes: &mut Vec<u8>)
    ensures
        final(bytes)@ == entries_cleared(
            table@.entries,
            table@.entry_size as int,
            start,
            dispatch_cleared(table@.fields(), start, old(bytes)@),
        ),
        final(bytes)@.len() == old(bytes)@.len(),
{
    let ghost original = bytes@;
    let fields = table.dispatch_fields();
    let ghost fs = fields@;
    let mut i: usize = 0;
    assert(fs.take(0) =~= Seq::<u64>::empty());
    while i < fields.len()
        invariant
            i <= fields@.len(),
            fs == fields@,
            bytes@ == dispatch_cleared(fs.take(i as int), start, original),
            bytes@.len() == original.len(),
        decreases fields@.len() - i,
    {
        assert(fs.take(i + 1).drop_last() =~= fs.take(i as int));
        clear_field(bytes, fields[i].wrapping_sub(start), 4);
        i += 1;
    }
    assert(fs.take(fs.len() as int) =~= fs);
    let ghost middle = bytes@;
    let ghost es = table.entries@;
    let mut k: usize = 0;
    assert(es.take(0) =~= Seq::<JumpTableEntry>::empty());
    while k < table.entries.len()
        invariant
            k <= table.entries@.len(),
            es == table.entries@,
            bytes@ == entries_cleared(es.take(k as int), table.entry_size as int, start, middle),
            bytes@.len() == original.len(),
        decreases table.entries@.len() - k,
    {
        assert(es.take(k + 1).drop_last() =~= es.take(k as int));
        clear_field(bytes, table.entries[k].addr.wrapping_sub(start), table.entry_size as u64);
        k += 1;
    }
    assert(es.take(es.len() as int) =~= es);
}

fn collect_switch_fields(tables: &Vec<JumpTable>) -> (r: HashSet<u64>)
    ensures
        r@ == switch_fields(views(tables@)),
{
    broadcast use vstd::std_specs::hash::group_hash_axioms;

    let ghost v = views(tables@);
    let mut set: HashSet<u64> = HashSet::new();
    let mut i: usize = 0;
    assert(v.take(0) =~= Seq::<TableView>::empty());
    assert(set@ =~= Set::<u64>::empty());
    while i < tables.len()
        invariant
            i <= tables@.len(),
            v == views(tables@),
            set@ == switch_fields(v.take(i as int)),
        decreases tables@.len() - i,
    {
        assert(v.take(i + 1).drop_last() =~= v.take(i as int));
        let table = &tables[i];
        assert(v[i as int] == table@);
        add_table_fields(table, &mut set);
        i += 1;
    }
    assert(v.take(v.len() as int) =~= v);
    set
}

fn add_table_fields(table: &JumpTable, set: &mut HashSet<u64>)
    ensures
        final(set)@ == old(set)@.union(table_fields(table@)),
{
    broadcast use vstd::std_specs::hash::group_hash_axioms;

    let ghost original = set@;
    let fields = table.dispatch_fields();
    let mut i: usize = 0;
    while i < fields.len()
        invariant
            i <= fields@.len(),
            forall|a: u64| #[trigger]
                set@.contains(a) <==> original.contains(a) || exists|k: int|
                    0 <= k < i && #[trigger] fields@[k] == a,
        decreases fields@.len() - i,
    {
        broadcast use vstd::std_specs::hash::group_hash_axioms;

        let ghost before = set@;
        set.insert(fields[i]);
        assert forall|a: u64| #[trigger] set@.contains(a) <==> original.contains(a) || exists|k: int|
            0 <= k < i + 1 && #[trigger] fields@[k] == a by {
            if a == fields@[i as int] {
                assert(fields@[i as int] == a);
            } else if before.contains(a) && !original.contains(a) {
                let k = choose|k: int| 0 <= k < i && #[trigger] fields@[k] == a;
                assert(fields@[k] == a);
            }
        }
        i += 1;
    }
    let ghost middle = set@;
    let mut k: usize = 0;
    while k < table.entries.len()
        invariant
            k <= table.entries@.len(),
            forall|a: u64| #[trigger]
                set@.contains(a) <==> middle.contains(a) || exists|m: int|
                    0 <= m < k && (#[trigger] table.entries@[m]).addr == a,
        decreases table.entries@.len() - k,
    {
        broadcast use vstd::std_specs::hash::group_hash_axioms;

        let ghost before = set@;
        set.insert(table.entries[k].addr);
        assert forall|a: u64| #[trigger] set@.contains(a) <==> middle.contains(a) || exists|m: int|
            0 <= m < k + 1 && (#[trigger] table.entries@[m]).addr == a by {
            if a == table.entries@[k as int].addr {
            } else if before.contains(a) && !middle.contains(a) {
                let m = choose|m: int| 0 <= m < k && (#[trigger] table.entries@[m]).addr == a;
                assert(table.entries@[m].addr == a);
            }
        }
        k += 1;
    }
    assert(set@ =~= original.union(table_fields(table@))) by {
        assert forall|a: u64| set@.contains(a) == original.union(table_fields(table@)).contains(
            a,
        ) by {
            if middle.contains(a) && !original.contains(a) {
                let j = choose|j: int| 0 <= j < fields@.len() && #[trigger] fields@[j] == a;
                assert(table@.fields()[j] == a);
            }
            if table@.fields().contains(a) {
                let j = choose|j: int| 0 <= j < table@.fields().len() && table@.fields()[j] == a;
                assert(fields@[j] == a);
            }
        }
    }
}

// ---------------------------------------------------------------------------
// Symbols and relocations
// ---------------------------------------------------------------------------

/// Where the bytes of a function stand: in which section, at which offset, for
/// which addresses.
#[derive(Debug, Clone, Copy)]
pub struct Place {
    pub section: usize,
    pub base: u64,
    pub start: u64,
    pub end: u64,
}

impl Place {
    /// The offset in the section of the byte at an address.
    pub open spec fn offset(self, address: u64) -> u64 {
        wrap64(self.base + (address - self.start)) as u64
    }

    /// The distance of an address from the start.
    pub open spec fn distance(self, address: u64) -> int {
        wrap64(address - self.start)
    }

    pub fn offset_of(self, address: u64) -> (r: u64)
        ensures
            r == self.offset(address),
    {
        let distance: u64 = address.wrapping_sub(self.start);
        proof {
            lemma_wrapped_offset(self.base as int, address - self.start);
        }
        self.base.wrapping_add(distance)
    }
}

/// The symbol of a name within a function.
pub open spec fn label_symbol(n: Name, place: Place, size: u64) -> DraftSymbolView {
    DraftSymbolView {
        name: symbol_text(n.name@),
        value: place.offset(n.addr),
        size,
        class: SymbolClass::Data,
        linkage: Linkage::External,
        section: place.section as int,
    }
}

/// `d` with the names within a function other than its own.
pub open spec fn with_labels(d: DraftView, names: Seq<Name>, own: Seq<char>, place: Place) -> DraftView
    decreases names.len(),
{
    if names.len() == 0 {
        d
    } else {
        let before = with_labels(d, names.drop_last(), own, place);
        let n = names.last();
        if n.name@ == own {
            before
        } else {
            before.offering(n.name@, label_symbol(n, place, 0))
        }
    }
}

/// A local label in the code.
pub open spec fn local_label(name: Seq<char>, address: u64, place: Place) -> DraftSymbolView {
    DraftSymbolView {
        name: symbol_text(name),
        value: place.offset(address),
        size: 0,
        class: SymbolClass::Label,
        linkage: Linkage::Internal,
        section: place.section as int,
    }
}

/// A relocation of the field at `address`.
pub open spec fn field_reloc(
    place: Place,
    address: u64,
    target: Seq<char>,
    addend: i64,
    flags: crate::format::RelocType,
) -> PendingView {
    PendingView {
        section: place.section as int,
        offset: place.offset(address),
        target,
        addend,
        flags,
    }
}

/// `d` with relocations of the fields that hold a table's address.
pub open spec fn with_dispatch(
    d: DraftView,
    ctx: EmitView,
    fields: Seq<u64>,
    table: Seq<char>,
    place: Place,
    len: int,
) -> DraftView
    decreases fields.len(),
{
    if fields.len() == 0 {
        d
    } else {
        let before = with_dispatch(d, ctx, fields.drop_last(), table, place, len);
        let field = fields.last();
        match absolute_type(ctx.format, ctx.model.arch, 4) {
            Some(flags) => if place.distance(field) + 4 <= len {
                before.staging(field_reloc(place, field, table, 0, flags))
            } else {
                before
            },
            None => before,
        }
    }
}

/// The name of a case destination.
pub open spec fn case_label(address: u64) -> Seq<char> {
    "$L_"@ + digits(address as nat, 16, true)
}

/// `d` with a case of a table: a destination within the function gets a local
/// label, another the symbol that it resolves to.
pub open spec fn with_case(
    d: DraftView,
    ctx: EmitView,
    entry: JumpTableEntry,
    width: u32,
    place: Place,
    len: int,
) -> DraftView {
    let flags = absolute_type(ctx.format, ctx.model.arch, width);
    if place.distance(entry.addr) + width > len {
        d
    } else if place.start <= entry.target < place.end {
        let label = case_label(entry.target);
        let labelled = if d.local.contains_key(label) {
            d
        } else {
            d.defining(label, local_label(label, entry.target, place))
        };
        match flags {
            Some(flags) => labelled.staging(field_reloc(place, entry.addr, label, 0, flags)),
            None => labelled,
        }
    } else {
        match (ctx.symbols.code_target(entry.target), flags) {
            (Some((target, addend)), Some(flags)) => d.staging(
                field_reloc(place, entry.addr, target, addend, flags),
            ),
            _ => d,
        }
    }
}

pub open spec fn with_cases(
    d: DraftView,
    ctx: EmitView,
    entries: Seq<JumpTableEntry>,
    width: u32,
    place: Place,
    len: int,
) -> DraftView
    decreases entries.len(),
{
    if entries.len() == 0 {
        d
    } else {
        with_case(
            with_cases(d, ctx, entries.drop_last(), width, place, len),
            ctx,
            entries.last(),
            width,
            place,
            len,
        )
    }
}

/// `d` with the tables of a function: a local label each, and relocations of
/// the fields and cases.
pub open spec fn with_tables(
    d: DraftView,
    ctx: EmitView,
    tables: Seq<TableView>,
    place: Place,
    len: int,
) -> DraftView
    decreases tables.len(),
{
    if tables.len() == 0 {
        d
    } else {
        let before = with_tables(d, ctx, tables.drop_last(), place, len);
        let t = tables.last();
        let labelled = before.defining(t.name, local_label(t.name, t.start, place));
        with_cases(
            with_dispatch(labelled, ctx, t.fields(), t.name, place, len),
            ctx,
            t.entries,
            t.entry_size,
            place,
            len,
        )
    }
}

/// Bytes by which a relative field is measured from its start rather than from
/// the next instruction.
pub const REL32_FIELD_BYTES: i64 = 4;

/// `d` with the recovered fields. An exported fixup at an absolute field is
/// authoritative: it gets no second relocation.
pub open spec fn with_recovered(
    d: DraftView,
    ctx: EmitView,
    relocs: Seq<RecRelView>,
    place: Place,
) -> DraftView
    decreases relocs.len(),
{
    if relocs.len() == 0 {
        d
    } else {
        let before = with_recovered(d, ctx, relocs.drop_last(), place);
        let r = relocs.last();
        let address = wrap64(place.start + r.offset) as u64;
        let offset = wrap64(place.base + r.offset) as u64;
        let section = place.section as int;
        if !r.absolute {
            before.staging(
                PendingView {
                    section,
                    offset,
                    target: r.target,
                    addend: r.addend.wrapping_sub(REL32_FIELD_BYTES),
                    flags: relative_type(ctx.format, ctx.model.arch),
                },
            )
        } else if value_at(ctx.symbols.relocs, address) is Some {
            before
        } else {
            match absolute_type(ctx.format, ctx.model.arch, 4) {
                Some(flags) => before.staging(
                    PendingView { section, offset, target: r.target, addend: r.addend, flags },
                ),
                None => before,
            }
        }
    }
}

/// The symbol of a function.
pub open spec fn function_symbol(f: Function, place: Place) -> DraftSymbolView {
    DraftSymbolView {
        name: symbol_text(f.name@),
        value: place.base,
        size: (place.end - place.start) as u64,
        class: SymbolClass::Function,
        linkage: Linkage::External,
        section: place.section as int,
    }
}

/// Whether two drafts have the same sections but for their bytes.
pub open spec fn same_shape(a: DraftView, b: DraftView) -> bool {
    &&& a.sections.len() == b.sections.len()
    &&& forall|i: int|
        0 <= i < a.sections.len() ==> (#[trigger] a.sections[i]).contents == b.sections[i].contents
}

/// Whether two drafts have the same sections.
pub open spec fn same_sections(a: DraftView, b: DraftView) -> bool {
    a.sections == b.sections
}

impl<'a> Emitter<'a> {
    fn draft_labels(&self, draft: &mut Draft, own: &String, place: Place)
        requires
            self.wf(),
            old(draft)@.wf(),
            place.section < old(draft)@.sections.len(),
            place.start <= place.end,
        ensures
            final(draft)@ == with_labels(
                old(draft)@,
                key_window(self@.names, place.start as int, place.end as int),
                own@,
                place,
            ),
            final(draft)@.wf(),
            same_sections(final(draft)@, old(draft)@),
    {
        let from: usize = count_below(self.names, place.start);
        let to: usize = count_below(self.names, place.end);
        proof {
            lemma_place_before_monotone(self.names@, place.start as int, place.end as int);
        }
        let ghost names = key_window(self@.names, place.start as int, place.end as int);
        let ghost start = draft@;
        let mut i: usize = from;
        assert(names.take(0) =~= Seq::<Name>::empty());
        while i < to
            invariant
                from <= i <= to <= self.names@.len(),
                names == self.names@.subrange(from as int, to as int),
                place.section < start.sections.len(),
                draft@ == with_labels(start, names.take(i - from), own@, place),
                draft@.wf(),
                same_sections(draft@, start),
            decreases to - i,
        {
            let n = &self.names[i];
            assert(names.take(i - from + 1).drop_last() =~= names.take(i - from));
            assert(names[i - from] == *n);
            if n.name != *own {
                let symbol = DraftSymbol {
                    name: sanitize_symbol_name(n.name.as_str()),
                    value: place.offset_of(n.addr),
                    size: 0,
                    class: SymbolClass::Data,
                    linkage: Linkage::External,
                    section: place.section,
                };
                draft.offer(n.name.clone(), symbol);
            }
            i += 1;
        }
        assert(names.take(names.len() as int) =~= names);
    }

    fn draft_dispatch(&self, draft: &mut Draft, table: &JumpTable, place: Place, len: usize)
        requires
            old(draft)@.wf(),
            place.section < old(draft)@.sections.len(),
            old(draft)@.sections[place.section as int].contents != Contents::Zeroed,
        ensures
            final(draft)@ == with_dispatch(
                old(draft)@,
                self@,
                table@.fields(),
                table@.name,
                place,
                len as int,
            ),
            final(draft)@.wf(),
            same_sections(final(draft)@, old(draft)@),
    {
        let fields = table.dispatch_fields();
        let ghost fs = fields@;
        let ghost start = draft@;
        let total: u64 = len as u64;
        let mut i: usize = 0;
        assert(fs.take(0) =~= Seq::<u64>::empty());
        while i < fields.len()
            invariant
                i <= fields@.len(),
                fs == fields@,
                total == len,
                place.section < start.sections.len(),
                start.sections[place.section as int].contents != Contents::Zeroed,
                draft@ == with_dispatch(
                    start,
                    self@,
                    fs.take(i as int),
                    table@.name,
                    place,
                    len as int,
                ),
                draft@.wf(),
                same_sections(draft@, start),
            decreases fields@.len() - i,
        {
            assert(fs.take(i + 1).drop_last() =~= fs.take(i as int));
            let field: u64 = fields[i];
            let distance: u64 = field.wrapping_sub(place.start);
            if total >= 4 && distance <= total - 4 {
                if let Some(flags) = abs_flags(self.format, self.model.arch, 4) {
                    draft.stage(
                        Pending {
                            section: place.section,
                            offset: place.offset_of(field),
                            target: table.name.clone(),
                            addend: 0,
                            flags,
                        },
                    );
                }
            }
            i += 1;
        }
        assert(fs.take(fs.len() as int) =~= fs);
    }

    fn draft_case(
        &self,
        draft: &mut Draft,
        entry: JumpTableEntry,
        width: u32,
        place: Place,
        len: usize,
    )
        requires
            self.wf(),
            old(draft)@.wf(),
            place.section < old(draft)@.sections.len(),
            old(draft)@.sections[place.section as int].contents != Contents::Zeroed,
        ensures
            final(draft)@ == with_case(old(draft)@, self@, entry, width, place, len as int),
            final(draft)@.wf(),
            same_sections(final(draft)@, old(draft)@),
    {
        let distance: u64 = entry.addr.wrapping_sub(place.start);
        let total: u64 = len as u64;
        if width as u64 > total || distance > total - width as u64 {
            return;
        }
        let flags = abs_flags(self.format, self.model.arch, width);
        if place.start <= entry.target && entry.target < place.end {
            let hex = format_digits(entry.target, 16, true);
            let label = "$L_".to_owned().concat(hex.as_str());
            if !draft.local.contains_key(label.as_str()) {
                let symbol = DraftSymbol {
                    name: sanitize_symbol_name(label.as_str()),
                    value: place.offset_of(entry.target),
                    size: 0,
                    class: SymbolClass::Label,
                    linkage: Linkage::Internal,
                    section: place.section,
                };
                draft.define(label.clone(), symbol);
            }
            if let Some(flags) = flags {
                draft.stage(
                    Pending {
                        section: place.section,
                        offset: place.offset_of(entry.addr),
                        target: label,
                        addend: 0,
                        flags,
                    },
                );
            }
        } else if let Some((target, addend)) = self.symbols.resolve_code(entry.target) {
            if let Some(flags) = flags {
                draft.stage(
                    Pending {
                        section: place.section,
                        offset: place.offset_of(entry.addr),
                        target,
                        addend,
                        flags,
                    },
                );
            }
        }
    }

    fn draft_cases(&self, draft: &mut Draft, table: &JumpTable, place: Place, len: usize)
        requires
            self.wf(),
            old(draft)@.wf(),
            place.section < old(draft)@.sections.len(),
            old(draft)@.sections[place.section as int].contents != Contents::Zeroed,
        ensures
            final(draft)@ == with_cases(
                old(draft)@,
                self@,
                table@.entries,
                table@.entry_size,
                place,
                len as int,
            ),
            final(draft)@.wf(),
            same_sections(final(draft)@, old(draft)@),
    {
        let ghost es = table.entries@;
        let ghost start = draft@;
        let mut i: usize = 0;
        assert(es.take(0) =~= Seq::<JumpTableEntry>::empty());
        while i < table.entries.len()
            invariant
                self.wf(),
                i <= table.entries@.len(),
                es == table.entries@,
                place.section < start.sections.len(),
                start.sections[place.section as int].contents != Contents::Zeroed,
                draft@ == with_cases(
                    start,
                    self@,
                    es.take(i as int),
                    table.entry_size,
                    place,
                    len as int,
                ),
                draft@.wf(),
                same_sections(draft@, start),
            decreases table.entries@.len() - i,
        {
            assert(es.take(i + 1).drop_last() =~= es.take(i as int));
            self.draft_case(draft, table.entries[i], table.entry_size, place, len);
            i += 1;
        }
        assert(es.take(es.len() as int) =~= es);
    }

    fn draft_tables(&self, draft: &mut Draft, tables: &Vec<JumpTable>, place: Place, len: usize)
        requires
            self.wf(),
            old(draft)@.wf(),
            place.section < old(draft)@.sections.len(),
            old(draft)@.sections[place.section as int].contents != Contents::Zeroed,
        ensures
            final(draft)@ == with_tables(
                old(draft)@,
                self@,
                views(tables@),
                place,
                len as int,
            ),
            final(draft)@.wf(),
            same_sections(final(draft)@, old(draft)@),
    {
        let ghost v = views(tables@);
        let ghost start = draft@;
        let mut i: usize = 0;
        assert(v.take(0) =~= Seq::<TableView>::empty());
        while i < tables.len()
            invariant
                self.wf(),
                i <= tables@.len(),
                v == views(tables@),
                place.section < start.sections.len(),
                start.sections[place.section as int].contents != Contents::Zeroed,
                draft@ == with_tables(start, self@, v.take(i as int), place, len as int),
                draft@.wf(),
                same_sections(draft@, start),
            decreases tables@.len() - i,
        {
            assert(v.take(i + 1).drop_last() =~= v.take(i as int));
            let table = &tables[i];
            assert(v[i as int] == table@);
            // Keep this as a label, matching MSVC's `$L...` switch-table anchor.
            let symbol = DraftSymbol {
                name: sanitize_symbol_name(table.name.as_str()),
                value: place.offset_of(table.start),
                size: 0,
                class: SymbolClass::Label,
                linkage: Linkage::Internal,
                section: place.section,
            };
            draft.define(table.name.clone(), symbol);
            self.draft_dispatch(draft, table, place, len);
            self.draft_cases(draft, table, place, len);
            i += 1;
        }
        assert(v.take(v.len() as int) =~= v);
    }

    fn draft_recovered(&self, draft: &mut Draft, relocs: &Vec<RecRel>, place: Place)
        requires
            self.wf(),
            old(draft)@.wf(),
            place.section < old(draft)@.sections.len(),
            old(draft)@.sections[place.section as int].contents != Contents::Zeroed,
        ensures
            final(draft)@ == with_recovered(old(draft)@, self@, views(relocs@), place),
            final(draft)@.wf(),
            same_sections(final(draft)@, old(draft)@),
    {
        let ghost v = views(relocs@);
        let ghost start = draft@;
        let mut i: usize = 0;
        assert(v.take(0) =~= Seq::<RecRelView>::empty());
        while i < relocs.len()
            invariant
                self.wf(),
                i <= relocs@.len(),
                v == views(relocs@),
                place.section < start.sections.len(),
                start.sections[place.section as int].contents != Contents::Zeroed,
                draft@ == with_recovered(start, self@, v.take(i as int), place),
                draft@.wf(),
                same_sections(draft@, start),
            decreases relocs@.len() - i,
        {
            assert(v.take(i + 1).drop_last() =~= v.take(i as int));
            let r = &relocs[i];
            assert(v[i as int] == r@);
            let offset: u64 = place.base.wrapping_add(r.offset);
            if !r.absolute {
                draft.stage(
                    Pending {
                        section: place.section,
                        offset,
                        target: r.target.clone(),
                        addend: r.addend.wrapping_sub(REL32_FIELD_BYTES),
                        flags: rel32_flags(self.format, self.model.arch),
                    },
                );
            } else if self.symbols.relocs.get(place.start.wrapping_add(r.offset)).is_none() {
                if let Some(flags) = abs_flags(self.format, self.model.arch, 4) {
                    draft.stage(
                        Pending {
                            section: place.section,
                            offset,
                            target: r.target.clone(),
                            addend: r.addend,
                            flags,
                        },
                    );
                }
            }
            i += 1;
        }
        assert(v.take(v.len() as int) =~= v);
    }

    pub(crate) fn stage_all(&self, draft: &mut Draft, pending: Vec<Pending>)
        requires
            old(draft)@.wf(),
            forall|i: int|
                0 <= i < pending@.len() ==> {
                    &&& (#[trigger] pending@[i]).section < old(draft)@.sections.len()
                    &&& old(draft)@.sections[pending@[i].section as int].contents
                        != Contents::Zeroed
                },
        ensures
            final(draft)@ == old(draft)@.staging_all(views(pending@)),
            final(draft)@.wf(),
            same_sections(final(draft)@, old(draft)@),
    {
        let ghost start = draft@;
        let ghost had = draft.pending@;
        let ghost added = pending@;
        let mut pending = pending;
        draft.pending.append(&mut pending);
        proof {
            assert(views(draft.pending@) =~= views(had) + views(added));
            assert(draft@ =~= start.staging_all(views(added)));
            assert forall|i: int| 0 <= i < draft@.pending.len() implies {
                &&& 0 <= (#[trigger] draft@.pending[i]).section < draft@.sections.len()
                &&& draft@.sections[draft@.pending[i].section].contents != Contents::Zeroed
            } by {
                if i < had.len() {
                    assert(draft@.pending[i] == start.pending[i]);
                } else {
                    assert(draft@.pending[i] == added[i - had.len()]@);
                }
            }
        }
    }
}

// ---------------------------------------------------------------------------
// A whole function
// ---------------------------------------------------------------------------

/// `stats` with a function of `size` bytes.
pub open spec fn with_function_stats(stats: EmitStats, size: u64, rec: RecoveredView) -> EmitStats {
    EmitStats {
        text_bytes: wrap64(stats.text_bytes + size) as u64,
        instructions: stats.instructions.wrapping_add(rec.instructions),
        unresolved_calls: stats.unresolved_calls.wrapping_add(rec.unresolved_calls),
        unresolved_rip: stats.unresolved_rip.wrapping_add(rec.unresolved_rip),
        ..stats
    }
}

/// Where a function's bytes come to stand in a draft.
pub open spec fn function_place(d: DraftView, section: usize, f: Function, end: u64) -> Place {
    Place {
        section,
        base: d.sections[section as int].data.len() as u64,
        start: f.start,
        end,
    }
}

/// `d` with a function whose bytes in the image, with those of its tables, are
/// `image`.
#[verifier::opaque]
pub open spec fn with_function_code(
    d: DraftView,
    ctx: EmitView,
    section: usize,
    f: Function,
    tables: Seq<TableView>,
    image: Seq<u8>,
) -> DraftView {
    let end = end_with_tables(f.end, tables);
    let place = function_place(d, section, f, end);
    let len = image.len() as int;
    let defined = d.with_data(section as int, function_bytes(ctx, f, tables, image)).defining(
        f.name@,
        function_symbol(f, place),
    );
    let labelled = with_labels(
        defined,
        key_window(ctx.names, f.start as int, end as int),
        f.name@,
        place,
    );
    let switched = with_tables(labelled, ctx, tables, place, len);
    let fixed = switched.staging_all(
        fixed_pending(
            ctx,
            section as int,
            place.base,
            f.start,
            len,
            switch_fields(tables),
            ctx.relocs(f.start, end),
        ),
    );
    with_recovered(fixed, ctx, function_recovered(ctx, f, tables, image).relocs, place)
}

/// `d` with a function in `section`. One whose tables are misplaced is a fault;
/// one that the image does not back is left out.
pub open spec fn function_drafted(
    ctx: EmitView,
    d: DraftView,
    stats: EmitStats,
    section: usize,
    f: Function,
) -> Result<(DraftView, EmitStats), Seq<char>> {
    match checked_tables(ctx, f) {
        Err(e) => Err(e),
        Ok(tables) => {
            let size = end_with_tables(f.end, tables) - f.start;
            match bytes_at(ctx, f.start, size) {
                None => Ok((d, stats)),
                Some(image) => Ok(
                    (
                        with_function_code(d, ctx, section, f, tables, image),
                        with_function_stats(
                            stats,
                            size as u64,
                            function_recovered(ctx, f, tables, image),
                        ),
                    ),
                ),
            }
        },
    }
}

impl<'a> Emitter<'a> {
    fn draft_code(
        &self,
        draft: &mut Draft,
        section: usize,
        f: &Function,
        tables: &Vec<JumpTable>,
        rec: &Recovered,
        image: &[u8],
        end: u64,
    )
        requires
            self.wf(),
            old(draft)@.wf(),
            section < old(draft)@.sections.len(),
            old(draft)@.sections[section as int].contents != Contents::Zeroed,
            f.start < f.end <= end,
            end == end_with_tables(f.end, views(tables@)),
            image@.len() == end - f.start,
            rec@ == function_recovered(self@, *f, views(tables@), image@),
        ensures
            final(draft)@ == with_function_code(
                old(draft)@,
                self@,
                section,
                *f,
                views(tables@),
                image@,
            ),
            final(draft)@.wf(),
            same_shape(final(draft)@, old(draft)@),
    {
        reveal(with_function_code);
        let mut bytes = vstd::slice::slice_to_vec(image);
        let len: usize = bytes.len();
        clear_recovered(&rec.relocs, &mut bytes);
        let skip = collect_switch_fields(tables);
        assert(section < draft.sections@.len());
        assert(draft@.sections[section as int].data == draft.sections@[section as int].data@);
        let place = Place {
            section,
            base: draft.sections[section].data.len() as u64,
            start: f.start,
            end,
        };
        let fixed = self.apply_fixups(
            Span { start: f.start, end },
            &skip,
            &mut bytes,
            section,
            place.base,
        );
        clear_tables(tables, f.start, &mut bytes);
        let _ = draft.append(section, &bytes);
        let symbol = DraftSymbol {
            name: sanitize_symbol_name(f.name.as_str()),
            value: place.base,
            size: end - f.start,
            class: SymbolClass::Function,
            // IDA's "public" flag does not describe the visibility needed after
            // splitting: another object can call any named function.
            linkage: Linkage::External,
            section,
        };
        draft.define(f.name.clone(), symbol);
        self.draft_labels(draft, &f.name, place);
        self.draft_tables(draft, tables, place, len);
        self.stage_all(draft, fixed);
        self.draft_recovered(draft, &rec.relocs, place);
    }

    /// Draft a function in `section`.
    pub fn draft_function(
        &self,
        draft: &mut Draft,
        stats: &mut EmitStats,
        section: usize,
        f: &Function,
    ) -> (r: Result<(), Error>)
        requires
            self.wf(),
            old(draft)@.wf(),
            section < old(draft)@.sections.len(),
            old(draft)@.sections[section as int].contents != Contents::Zeroed,
            f.start < f.end,
        ensures
            match r {
                Ok(_) => {
                    &&& function_drafted(self@, old(draft)@, *old(stats), section, *f) == Ok::<
                        (DraftView, EmitStats),
                        Seq<char>,
                    >((final(draft)@, *final(stats)))
                    &&& final(draft)@.wf()
                    &&& same_shape(final(draft)@, old(draft)@)
                },
                Err(e) => function_drafted(self@, old(draft)@, *old(stats), section, *f) == Err::<
                    (DraftView, EmitStats),
                    Seq<char>,
                >(e@),
            },
    {
        let tables = match self.check_tables(f) {
            Ok(tables) => tables,
            Err(e) => {
                return Err(e);
            },
        };
        let end: u64 = table_ends(f.end, &tables);
        let size: u64 = end - f.start;
        let image = match image_data(self.pe, self.model.image_base, f.start, size) {
            Some(image) => image,
            None => {
                return Ok(());
            },
        };
        let copy = vstd::slice::slice_to_vec(image);
        let rec = self.recover_function(f, &tables, &copy);
        stats.text_bytes = stats.text_bytes.wrapping_add(size);
        stats.instructions = stats.instructions.wrapping_add(rec.instructions);
        stats.unresolved_calls = stats.unresolved_calls.wrapping_add(rec.unresolved_calls);
        stats.unresolved_rip = stats.unresolved_rip.wrapping_add(rec.unresolved_rip);
        self.draft_code(draft, section, f, &tables, &rec, image, end);
        Ok(())
    }
}

} // verus!
