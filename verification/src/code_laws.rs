//! What is read of a function's code: every instruction outside its tables, each
//! once, and the tables that belong to it.

use crate::bytes::wrap64;
use crate::emitter::EmitView;
use crate::function_code::{
    bytes_at, checked_tables, code_spans, function_recovered, inline_tables, misplaced_table,
    narrow_field, span_recovered, spans_recovered, symbol_answers, table_fits,
    RecRelView,
};
use crate::model::{Function, IdaArch, Section, SegClass, TableView};
use crate::ranges::{covered, Span};
use crate::recover::{recovered, RecoveredRelocView, RelocKind};
use crate::recover_laws::{
    control_at, lemma_every_branch_out_is_relocated, lemma_every_fs_zero_is_relocated,
    lemma_recovered_relocations_are_sound, operand_at, starts, stems_from, uses_fs_zero,
};
use crate::seqs::{first, keep, lemma_first_index_is, lemma_keep_contains, views};
use crate::sorting::{lemma_stable_sort_contains, stable_sort};
use crate::tables::discovered_tables;
use crate::x86::Flow;
use vstd::prelude::*;

verus! {

// ---------------------------------------------------------------------------
// Code and tables
// ---------------------------------------------------------------------------

/// Whether tables stand one behind the other, none before `start`.
pub open spec fn tables_in_line(tables: Seq<TableView>, start: u64) -> bool {
    &&& forall|k: int|
        0 <= k < tables.len() ==> start <= (#[trigger] tables[k]).start <= tables[k].end()
    &&& forall|j: int, k: int|
        0 <= j < k < tables.len() ==> (#[trigger] tables[j]).end() <= (#[trigger] tables[k]).start
}

/// Whether an address lies in one of the tables.
pub open spec fn in_a_table(tables: Seq<TableView>, a: int) -> bool {
    exists|k: int| 0 <= k < tables.len() && (#[trigger] tables[k]).start <= a < tables[k].end()
}

proof fn lemma_code_spans_from(
    start: u64,
    end: u64,
    tables: Seq<TableView>,
    cursor: u64,
    i: int,
    a: int,
)
    requires
        tables_in_line(tables, start),
        0 <= i <= tables.len(),
        start <= cursor <= end,
        forall|k: int| i <= k < tables.len() ==> cursor <= (#[trigger] tables[k]).start || cursor == end,
    ensures
        ({
            let spans = code_spans(start, end, tables, cursor, i);
            &&& covered(spans, a) == (cursor <= a < end && forall|k: int|
                i <= k < tables.len() ==> !((#[trigger] tables[k]).start <= a < tables[k].end()))
            &&& forall|m: int|
                0 <= m < spans.len() ==> cursor <= (#[trigger] spans[m]).start < spans[m].end
                    <= end
            &&& forall|m: int, n: int|
                0 <= m < n < spans.len() ==> (#[trigger] spans[m]).end <= (
                #[trigger] spans[n]).start
        }),
    decreases tables.len() - i,
{
    let spans = code_spans(start, end, tables, cursor, i);
    if i >= tables.len() {
        if cursor < end {
            assert(spans[0].has(a) == (cursor <= a < end));
        }
    } else {
        let t = tables[i];
        assert(start <= t.start <= t.end());
        let from = if t.start <= end {
            t.start
        } else {
            end
        };
        let to = if t.end() <= end {
            t.end()
        } else {
            end
        };
        let next = if cursor >= to {
            cursor
        } else {
            to
        };
        assert forall|k: int| i + 1 <= k < tables.len() implies next <= (#[trigger] tables[k]).start
            || next == end by {
            assert(tables[i].end() <= tables[k].start);
        }
        lemma_code_spans_from(start, end, tables, next, i + 1, a);
        let rest = code_spans(start, end, tables, next, i + 1);
        if cursor < from {
            let first = Span { start: cursor, end: from };
            assert(spans == seq![first] + rest);
            assert(spans[0] == first);
            assert forall|m: int| 0 < m < spans.len() implies #[trigger] spans[m] == rest[m
                - 1] by {}
            if covered(rest, a) {
                let m = choose|m: int| 0 <= m < rest.len() && (#[trigger] rest[m]).has(a);
                assert(spans[m + 1].has(a));
            }
            if covered(spans, a) {
                let m = choose|m: int| 0 <= m < spans.len() && (#[trigger] spans[m]).has(a);
                if m > 0 {
                    assert(rest[m - 1].has(a));
                } else {
                    assert forall|k: int| i <= k < tables.len() implies !((
                    #[trigger] tables[k]).start <= a < tables[k].end()) by {
                        if k > i {
                            assert(tables[i].end() <= tables[k].start);
                        }
                    }
                }
            }
            if cursor <= a < end && forall|k: int|
                i <= k < tables.len() ==> !((#[trigger] tables[k]).start <= a < tables[k].end()) {
                assert(!(tables[i].start <= a < tables[i].end()));
                if a < from {
                    assert(spans[0].has(a));
                } else {
                    assert(covered(rest, a));
                }
            }
        } else {
            assert(spans == rest);
            if cursor <= a < end && forall|k: int|
                i <= k < tables.len() ==> !((#[trigger] tables[k]).start <= a < tables[k].end()) {
                assert(!(tables[i].start <= a < tables[i].end()));
            }
        }
    }
}

/// The stretches of a function that are read as code are what is left of it without
/// its tables, one behind the other.
pub proof fn lemma_code_is_what_is_no_table(start: u64, end: u64, tables: Seq<TableView>, a: int)
    requires
        tables_in_line(tables, start),
        start <= end,
    ensures
        ({
            let spans = code_spans(start, end, tables, start, 0);
            &&& covered(spans, a) == (start <= a < end && !in_a_table(tables, a))
            &&& forall|m: int, n: int|
                0 <= m < n < spans.len() ==> (#[trigger] spans[m]).end <= (
                #[trigger] spans[n]).start
        }),
{
    lemma_code_spans_from(start, end, tables, start, 0, a);
}

// ---------------------------------------------------------------------------
// Recovered fields
// ---------------------------------------------------------------------------

proof fn lemma_spans_recovered(
    ctx: EmitView,
    bytes: Seq<u8>,
    start: u64,
    spans: Seq<Span>,
    r: RecRelView,
)
    ensures
        spans_recovered(ctx, bytes, start, spans).relocs.contains(r) <==> exists|m: int|
            0 <= m < spans.len() && span_recovered(
                ctx,
                bytes.subrange(spans[m].start - start, spans[m].end - start),
                #[trigger] spans[m],
                start,
            ).relocs.contains(r),
    decreases spans.len(),
{
    if spans.len() > 0 {
        let init = spans.drop_last();
        let span = spans.last();
        lemma_spans_recovered(ctx, bytes, start, init, r);
        let before = spans_recovered(ctx, bytes, start, init).relocs;
        let code = bytes.subrange(span.start - start, span.end - start);
        let part = span_recovered(ctx, code, span, start).relocs;
        let all = spans_recovered(ctx, bytes, start, spans).relocs;
        assert(all == before + part);
        assert(spans[spans.len() - 1] == span);
        if before.contains(r) {
            let k = choose|k: int| 0 <= k < before.len() && before[k] == r;
            assert(all[k] == r);
            let m = choose|m: int|
                0 <= m < init.len() && span_recovered(
                    ctx,
                    bytes.subrange(init[m].start - start, init[m].end - start),
                    #[trigger] init[m],
                    start,
                ).relocs.contains(r);
            assert(spans[m] == init[m]);
        }
        if part.contains(r) {
            let k = choose|k: int| 0 <= k < part.len() && part[k] == r;
            assert(all[before.len() + k] == r);
        }
        if all.contains(r) && !before.contains(r) {
            let k = choose|k: int| 0 <= k < all.len() && all[k] == r;
            if k < before.len() {
                assert(before[k] == r);
            } else {
                assert(part[k - before.len()] == r);
            }
        }
        if exists|m: int|
            0 <= m < spans.len() && span_recovered(
                ctx,
                bytes.subrange(spans[m].start - start, spans[m].end - start),
                #[trigger] spans[m],
                start,
            ).relocs.contains(r) {
            let m = choose|m: int|
                0 <= m < spans.len() && span_recovered(
                    ctx,
                    bytes.subrange(spans[m].start - start, spans[m].end - start),
                    #[trigger] spans[m],
                    start,
                ).relocs.contains(r);
            if m < init.len() {
                assert(init[m] == spans[m]);
            }
        }
    }
}

/// The bytes of a stretch of a function.
pub open spec fn code_of(f: Function, bytes: Seq<u8>, span: Span) -> Seq<u8> {
    bytes.subrange(span.start - f.start, span.end - f.start)
}

/// The stretches of a function that are read as code.
pub open spec fn stretches(f: Function, tables: Seq<TableView>) -> Seq<Span> {
    code_spans(f.start, f.end, tables, f.start, 0)
}

proof fn lemma_narrow(
    ctx: EmitView,
    f: Function,
    tables: Seq<TableView>,
    bytes: Seq<u8>,
    m: int,
    found: RecoveredRelocView,
)
    requires
        ctx.model.arch == IdaArch::X86,
        0 <= m < stretches(f, tables).len(),
        recovered(
            code_of(f, bytes, stretches(f, tables)[m]),
            stretches(f, tables)[m].start,
            (stretches(f, tables)[m].end - stretches(f, tables)[m].start) as u64,
            symbol_answers(ctx),
        ).relocs.contains(found),
    ensures
        function_recovered(ctx, f, tables, bytes).relocs.contains(
            RecRelView {
                offset: wrap64(found.offset + (stretches(f, tables)[m].start - f.start)) as u64,
                target: found.target,
                addend: found.addend,
                absolute: found.kind == RelocKind::Dir32,
            },
        ),
{
    reveal(function_recovered);
    let spans = stretches(f, tables);
    let span = spans[m];
    let code = code_of(f, bytes, span);
    let all = recovered(
        code,
        span.start,
        (span.end - span.start) as u64,
        symbol_answers(ctx),
    ).relocs;
    let r = RecRelView {
        offset: wrap64(found.offset + (span.start - f.start)) as u64,
        target: found.target,
        addend: found.addend,
        absolute: found.kind == RelocKind::Dir32,
    };
    let k = choose|k: int| 0 <= k < all.len() && all[k] == found;
    let part = span_recovered(ctx, code, span, f.start).relocs;
    assert(part[k] == narrow_field(found, span.start - f.start));
    assert(part.contains(r));
    lemma_spans_recovered(ctx, bytes, f.start, spans, r);
}

/// Every call, jump or conditional branch in the code of a 32-bit function that
/// has a field of 32 bits, leads out of its stretch of code and has a target that
/// resolves gets a relative field: the last four bytes of the instruction.
pub proof fn lemma_every_branch_of_a_function_is_recovered(
    ctx: EmitView,
    f: Function,
    tables: Seq<TableView>,
    bytes: Seq<u8>,
    m: int,
    k: int,
    target: Seq<char>,
    addend: i64,
)
    requires
        ctx.model.arch == IdaArch::X86,
        0 <= m < stretches(f, tables).len(),
        ({
            let span = stretches(f, tables)[m];
            let code = code_of(f, bytes, span);
            let at = starts(code, span.start, 0)[k];
            let control = control_at(code, span.start, at);
            &&& 0 <= k < starts(code, span.start, 0).len()
            &&& !control.invalid && control.len >= 5
            &&& control.flow == Flow::Call || control.flow == Flow::Jump || control.flow
                == Flow::Branch
            &&& !(span.start <= control.target < span.end)
            &&& span.start <= span.end
            &&& ctx.symbols.code_target(control.target as u64) == Some((target, addend))
        }),
    ensures
        ({
            let span = stretches(f, tables)[m];
            let code = code_of(f, bytes, span);
            let at = starts(code, span.start, 0)[k];
            let field = (at + control_at(code, span.start, at).len - 4) as u64;
            function_recovered(ctx, f, tables, bytes).relocs.contains(
                RecRelView {
                    offset: wrap64(field + (span.start - f.start)) as u64,
                    target,
                    addend,
                    absolute: false,
                },
            )
        }),
{
    let span = stretches(f, tables)[m];
    let code = code_of(f, bytes, span);
    let at = starts(code, span.start, 0)[k];
    let control = control_at(code, span.start, at);
    let given = symbol_answers(ctx);
    let size = (span.end - span.start) as u64;
    assert(wrap64(span.start + size) == span.end);
    assert(!(given.intra_function)(span.start, size, control.target as u64));
    lemma_every_branch_out_is_relocated(code, span.start, size, given, k, target, addend);
    lemma_narrow(
        ctx,
        f,
        tables,
        bytes,
        m,
        RecoveredRelocView {
            offset: (at + control.len - 4) as u64,
            pc: wrap64(span.start % 0x1_0000_0000 + at) as u64,
            kind: RelocKind::Rel32,
            target,
            addend,
        },
    );
}

/// Every `fs:[0]` in the code of a 32-bit function of a PE image gets an absolute
/// field against `__except_list`.
pub proof fn lemma_every_fs_zero_of_a_function_is_recovered(
    ctx: EmitView,
    f: Function,
    tables: Seq<TableView>,
    bytes: Seq<u8>,
    m: int,
    k: int,
)
    requires
        ctx.model.arch == IdaArch::X86,
        ctx.model.filetype@ == "PE"@,
        0 <= m < stretches(f, tables).len(),
        ({
            let span = stretches(f, tables)[m];
            let code = code_of(f, bytes, span);
            &&& 0 <= k < starts(code, span.start, 0).len()
            &&& uses_fs_zero(code, span.start, starts(code, span.start, 0)[k])
        }),
    ensures
        ({
            let span = stretches(f, tables)[m];
            let code = code_of(f, bytes, span);
            let at = starts(code, span.start, 0)[k];
            let field = wrap64(at + operand_at(code, span.start, at).displacement_offset) as u64;
            function_recovered(ctx, f, tables, bytes).relocs.contains(
                RecRelView {
                    offset: wrap64(field + (span.start - f.start)) as u64,
                    target: "__except_list"@,
                    addend: 0,
                    absolute: true,
                },
            )
        }),
{
    reveal_strlit("PE");
    let span = stretches(f, tables)[m];
    let code = code_of(f, bytes, span);
    let at = starts(code, span.start, 0)[k];
    let given = symbol_answers(ctx);
    let size = (span.end - span.start) as u64;
    lemma_every_fs_zero_is_relocated(code, span.start, size, given, k, "__except_list"@);
    lemma_narrow(
        ctx,
        f,
        tables,
        bytes,
        m,
        crate::recover_laws::fs_reloc(code, span.start, at, "__except_list"@),
    );
}

/// Nothing else is recovered from the code of a 32-bit function: each field is one
/// of an instruction of one of its stretches of code.
pub proof fn lemma_recovered_fields_are_sound(
    ctx: EmitView,
    f: Function,
    tables: Seq<TableView>,
    bytes: Seq<u8>,
    r: RecRelView,
)
    requires
        ctx.model.arch == IdaArch::X86,
        function_recovered(ctx, f, tables, bytes).relocs.contains(r),
    ensures
        exists|m: int, k: int, found: RecoveredRelocView|
            #![trigger is_field_of(ctx, f, tables, bytes, m, k, found)]
            is_field_of(ctx, f, tables, bytes, m, k, found) && r.offset == wrap64(
                found.offset + (stretches(f, tables)[m].start - f.start),
            ) && r.target == found.target && r.addend == found.addend && r.absolute == (found.kind
                == RelocKind::Dir32),
{
    reveal(function_recovered);
    let spans = stretches(f, tables);
    lemma_spans_recovered(ctx, bytes, f.start, spans, r);
    let m = choose|m: int|
        0 <= m < spans.len() && span_recovered(
            ctx,
            bytes.subrange(spans[m].start - f.start, spans[m].end - f.start),
            #[trigger] spans[m],
            f.start,
        ).relocs.contains(r);
    let span = spans[m];
    let code = code_of(f, bytes, span);
    let size = (span.end - span.start) as u64;
    let part = span_recovered(ctx, code, span, f.start).relocs;
    let i = choose|i: int| 0 <= i < part.len() && part[i] == r;
    let all = recovered(code, span.start, size, symbol_answers(ctx)).relocs;
    lemma_recovered_relocations_are_sound(code, span.start, size, symbol_answers(ctx), i);
    let places = starts(code, span.start, 0);
    let k = choose|k: int|
        0 <= k < places.len() && stems_from(
            code,
            span.start,
            size,
            symbol_answers(ctx),
            #[trigger] places[k],
            all[i],
        );
    assert(r == narrow_field(all[i], span.start - f.start));
    assert(is_field_of(ctx, f, tables, bytes, m, k, all[i]));
}

/// Whether a recovered field is that of the `k`th instruction of a stretch of the
/// function's code.
pub open spec fn is_field_of(
    ctx: EmitView,
    f: Function,
    tables: Seq<TableView>,
    bytes: Seq<u8>,
    m: int,
    k: int,
    found: RecoveredRelocView,
) -> bool {
    let span = stretches(f, tables)[m];
    let code = code_of(f, bytes, span);
    &&& 0 <= m < stretches(f, tables).len()
    &&& 0 <= k < starts(code, span.start, 0).len()
    &&& stems_from(
        code,
        span.start,
        (span.end - span.start) as u64,
        symbol_answers(ctx),
        starts(code, span.start, 0)[k],
        found,
    )
}

/// Every field that was recovered from a stretch of 64-bit code is one of the
/// function, as far behind the function's start as the stretch begins.
pub proof fn lemma_wide_fields_are_taken_over(
    ctx: EmitView,
    f: Function,
    tables: Seq<TableView>,
    bytes: Seq<u8>,
    m: int,
    k: int,
    wide: crate::emitter::WideRecoveryView,
)
    requires
        ctx.model.arch == IdaArch::X86_64,
        0 <= m < stretches(f, tables).len(),
        crate::addr_map::value_at(ctx.wide, stretches(f, tables)[m].start) == Some(wide),
        0 <= k < wide.relocs.len(),
    ensures
        function_recovered(ctx, f, tables, bytes).relocs.contains(
            RecRelView {
                offset: wrap64(
                    wide.relocs[k].offset + (stretches(f, tables)[m].start - f.start),
                ) as u64,
                target: wide.relocs[k].target,
                addend: wide.relocs[k].addend,
                absolute: false,
            },
        ),
{
    reveal(function_recovered);
    let spans = stretches(f, tables);
    let span = spans[m];
    let r = RecRelView {
        offset: wrap64(wide.relocs[k].offset + (span.start - f.start)) as u64,
        target: wide.relocs[k].target,
        addend: wide.relocs[k].addend,
        absolute: false,
    };
    let part = span_recovered(ctx, code_of(f, bytes, span), span, f.start).relocs;
    assert(part[k] == r);
    lemma_spans_recovered(ctx, bytes, f.start, spans, r);
}

// ---------------------------------------------------------------------------
// The tables of a function
// ---------------------------------------------------------------------------

/// Whether an exported table goes with the 32-bit function at `start`: the
/// function owns it, and one code section holds both.
pub open spec fn goes_with(ctx: EmitView, start: u64, t: TableView, s: int) -> bool {
    let sections = ctx.model.sections@;
    &&& ctx.model.arch == IdaArch::X86
    &&& t.owner == start
    &&& 0 <= s < sections.len()
    &&& sections[s].class == SegClass::Code
    &&& sections[s].start <= start < sections[s].end
    &&& sections[s].start <= t.start < sections[s].end
    &&& forall|j: int|
        0 <= j < s ==> !((#[trigger] sections[j]).start <= start < sections[j].end) && !(
        sections[j].start <= t.start < sections[j].end)
}

/// An exported table that goes with a function is one of the tables that are
/// emitted with it, unless one of these is misplaced.
pub proof fn lemma_exported_tables_are_emitted(ctx: EmitView, f: Function, i: int, s: int)
    requires
        0 <= i < ctx.model.jump_tables@.len(),
        goes_with(ctx, f.start, ctx.model.jump_tables@[i]@, s),
    ensures
        checked_tables(ctx, f) matches Ok(tables) ==> tables.contains(
            ctx.model.jump_tables@[i]@,
        ),
{
    reveal(checked_tables);
    let t = ctx.model.jump_tables@[i]@;
    let all = views(ctx.model.jump_tables@);
    let sections = ctx.model.sections@;
    let p = crate::function_code::emitted_with(ctx.model, f.start);
    lemma_first_index_is(sections, crate::model::holds(f.start), s);
    lemma_first_index_is(sections, crate::model::holds(t.start), s);
    assert(p(t));
    assert(all[i] == t);
    lemma_keep_contains(all, p, t);
    let kept = keep(all, p);
    assert(kept.contains(t));
    lemma_stable_sort_contains(kept, t);
    assert(inline_tables(ctx, f) == stable_sort(kept));
}

/// Where no exported table goes with a 32-bit function, the tables that its code
/// shows are those that are emitted with it.
pub proof fn lemma_discovered_tables_are_emitted(
    ctx: EmitView,
    f: Function,
    image: Seq<u8>,
    t: TableView,
)
    requires
        ctx.model.arch == IdaArch::X86,
        f.start <= f.end,
        forall|i: int|
            0 <= i < ctx.model.jump_tables@.len() ==> (
            #[trigger] ctx.model.jump_tables@[i]).owner != f.start,
        bytes_at(ctx, f.start, f.end - f.start) == Some(image),
    ensures
        checked_tables(ctx, f) matches Ok(tables) ==> (tables.contains(t) <==> discovered_tables(
            image,
            f.start,
            f.end,
            ctx.model,
            ctx.image,
        ).contains(t)),
{
    reveal(checked_tables);
    let all = views(ctx.model.jump_tables@);
    let p = crate::function_code::emitted_with(ctx.model, f.start);
    let kept = keep(all, p);
    if kept.len() > 0 {
        assert(kept.contains(kept[0]));
        lemma_keep_contains(all, p, kept[0]);
        let i = choose|i: int| 0 <= i < all.len() && all[i] == kept[0];
        assert(ctx.model.jump_tables@[i].owner == f.start);
    }
    let found = discovered_tables(image, f.start, f.end, ctx.model, ctx.image);
    assert(inline_tables(ctx, f) == stable_sort(found));
    lemma_stable_sort_contains(found, t);
}

proof fn lemma_misplaced(
    tables: Seq<TableView>,
    n: nat,
    start: u64,
    end: u64,
    section: Option<Section>,
    k: int,
)
    requires
        n <= tables.len(),
        misplaced_table(tables, n, start, end, section) is None,
        0 <= k < n,
    ensures
        table_fits(tables, k, start, end, section),
    decreases n,
{
    if k < n - 1 {
        lemma_misplaced(tables, (n - 1) as nat, start, end, section, k);
    }
}

/// The tables that are emitted with a function are sound: none begins before the
/// function or before the end of the one before it, their fields lie in the
/// function, their cases one behind the other, and they end in its section.
pub proof fn lemma_emitted_tables_are_sound(ctx: EmitView, f: Function, k: int, s: int)
    requires
        0 <= s < ctx.model.sections@.len(),
        ctx.model.sections@[s].start <= f.start < ctx.model.sections@[s].end,
        forall|j: int|
            0 <= j < s ==> !((#[trigger] ctx.model.sections@[j]).start <= f.start
                < ctx.model.sections@[j].end),
    ensures
        checked_tables(ctx, f) matches Ok(tables) ==> 0 <= k < tables.len() ==> {
            let t = tables[k];
            &&& f.start <= t.start
            &&& t.entry_size != 0
            &&& t.end() <= ctx.model.sections@[s].end
            &&& forall|j: int|
                0 <= j < t.fields().len() ==> f.start <= (#[trigger] t.fields()[j])
                    && t.fields()[j] + 4 <= f.end || t.fields()[j] + 4 > u64::MAX
            &&& forall|j: int|
                0 <= j < t.entries.len() ==> (#[trigger] t.entries[j]).addr == wrap64(
                    t.start + j * t.entry_size,
                )
            &&& k > 0 ==> tables[k - 1].end() <= t.start
        },
{
    reveal(checked_tables);
    let tables = inline_tables(ctx, f);
    let section = first(ctx.model.sections@, crate::model::holds(f.start));
    lemma_first_index_is(ctx.model.sections@, crate::model::holds(f.start), s);
    if checked_tables(ctx, f) is Ok && 0 <= k < tables.len() {
        lemma_misplaced(tables, tables.len(), f.start, f.end, section, k);
        assert(table_fits(tables, k, f.start, f.end, section));
    }
}

/// Nothing else is emitted with a function as a table.
pub proof fn lemma_emitted_tables_belong(ctx: EmitView, f: Function, t: TableView)
    requires
        checked_tables(ctx, f) matches Ok(tables) && tables.contains(t),
    ensures
        ({
            ||| views(ctx.model.jump_tables@).contains(t) && t.owner == f.start
            ||| ctx.model.arch == IdaArch::X86 && (bytes_at(ctx, f.start, f.spec_size()) matches Some(
                image,
            ) && discovered_tables(image, f.start, f.end, ctx.model, ctx.image).contains(t))
        }),
{
    reveal(checked_tables);
    let all = views(ctx.model.jump_tables@);
    let p = crate::function_code::emitted_with(ctx.model, f.start);
    let kept = keep(all, p);
    let chosen = crate::function_code::or_discovered(ctx, f, kept);
    lemma_stable_sort_contains(chosen, t);
    assert(inline_tables(ctx, f) == stable_sort(chosen));
    if kept.len() > 0 {
        lemma_keep_contains(all, p, t);
    } else {
        assert(chosen.contains(t));
        let i = choose|i: int| 0 <= i < chosen.len() && chosen[i] == t;
    }
}

} // verus!
