//! What is relocated in the bytes that are emitted: a byte that differs from the
//! image lies in a field, every field is cleared, and every field whose target has
//! a name has a relocation against it.

use crate::addr_map::{keys_increase, lemma_below, lemma_below_monotone, window};
use crate::blocks::with_variables;
use crate::bytes::wrap64;
use crate::draft::{symbol_text, DraftSymbolView, DraftView, Linkage, PendingView, SymbolClass};
use crate::emitter::{cleared, fixed_bytes, fixed_pending, fixup_applies, EmitView};
use crate::format::{absolute_type, relative_type, RelocType};
use crate::function_code::{
    dispatch_cleared, entries_cleared, recovered_bytes, switch_fields, table_fields,
    tables_cleared, with_cases, with_dispatch, with_labels, with_recovered, with_tables,
    Place, RecRelView,
};
use crate::laws::{begins, lemma_begins_index};
use crate::model::{JumpTableEntry, Name, RelocView, TableView};
use crate::resolver::VariableView;
use crate::text::digits;
use vstd::prelude::*;

verus! {

// ---------------------------------------------------------------------------
// Windows
// ---------------------------------------------------------------------------

/// A window has the entries with a key in it, and no other.
pub(crate) proof fn lemma_window<V>(s: Seq<(u64, V)>, lo: int, hi: int, e: (u64, V))
    requires
        keys_increase(s),
        lo <= hi,
    ensures
        window(s, lo, hi).contains(e) <==> s.contains(e) && lo <= e.0 < hi,
{
    lemma_below(s, lo);
    lemma_below(s, hi);
    lemma_below_monotone(s, lo, hi);
    let w = window(s, lo, hi);
    let from = crate::addr_map::below(s, lo);
    if w.contains(e) {
        let k = choose|k: int| 0 <= k < w.len() && w[k] == e;
        assert(s[from + k] == e);
    }
    if s.contains(e) && lo <= e.0 < hi {
        let k = choose|k: int| 0 <= k < s.len() && s[k] == e;
        assert(w[k - from] == e);
    }
}

// ---------------------------------------------------------------------------
// Fields
// ---------------------------------------------------------------------------

/// Whether the byte `i` of `len` is one of the `width` bytes at `off`, which are
/// all among them.
pub open spec fn in_field(off: int, width: int, len: int, i: int) -> bool {
    0 <= off && off + width <= len && off <= i < off + width
}

/// Whether a fixup relocates a field of the `len` bytes at `start`: the format has
/// a type for it, the field fits, and the target has a name.
pub open spec fn relocates(ctx: EmitView, start: u64, len: int, e: (u64, RelocView)) -> bool {
    &&& absolute_type(ctx.format, ctx.model.arch, e.1.size) is Some
    &&& e.0 - start + e.1.size <= len
    &&& ctx.target(e.1.target) is Some
}

/// Whether the byte `i` of the `len` bytes from `start` up to `end` lies in a
/// field that a fixup relocates, which is not set aside.
pub open spec fn in_fixup(
    ctx: EmitView,
    start: u64,
    end: u64,
    len: int,
    aside: Set<u64>,
    i: int,
) -> bool {
    exists|e: (u64, RelocView)|
        #![trigger ctx.symbols.relocs.contains(e)]
        ctx.symbols.relocs.contains(e) && start <= e.0 < end && !aside.contains(e.0) && relocates(
            ctx,
            start,
            len,
            e,
        ) && in_field(e.0 - start, e.1.size as int, len, i)
}

/// Whether the byte `i` of `len` lies in a field that was recovered.
pub open spec fn in_recovered(relocs: Seq<RecRelView>, len: int, i: int) -> bool {
    exists|k: int|
        0 <= k < relocs.len() && in_field((#[trigger] relocs[k]).offset as int, 4, len, i)
}

/// Whether the byte `i` of the `len` bytes at `start` lies in one of the fields.
pub open spec fn in_dispatch(fields: Seq<u64>, start: u64, len: int, i: int) -> bool {
    exists|k: int|
        0 <= k < fields.len() && in_field(wrap64(#[trigger] fields[k] - start), 4, len, i)
}

/// Whether the byte `i` of the `len` bytes at `start` lies in one of the cases.
pub open spec fn in_cases(
    entries: Seq<JumpTableEntry>,
    width: int,
    start: u64,
    len: int,
    i: int,
) -> bool {
    exists|k: int|
        0 <= k < entries.len() && in_field(
            wrap64((#[trigger] entries[k]).addr - start),
            width,
            len,
            i,
        )
}

/// Whether the byte `i` of the `len` bytes at `start` lies in a field or a case of
/// one of the tables.
pub open spec fn in_tables(tables: Seq<TableView>, start: u64, len: int, i: int) -> bool {
    exists|k: int|
        0 <= k < tables.len() && (in_dispatch((#[trigger] tables[k]).fields(), start, len, i)
            || in_cases(tables[k].entries, tables[k].entry_size as int, start, len, i))
}

proof fn lemma_cleared(bytes: Seq<u8>, off: int, width: int, i: int)
    requires
        0 <= i < bytes.len(),
    ensures
        cleared(bytes, off, width).len() == bytes.len(),
        cleared(bytes, off, width)[i] == if in_field(off, width, bytes.len() as int, i) {
            0u8
        } else {
            bytes[i]
        },
{
}

proof fn lemma_fixed(
    ctx: EmitView,
    start: u64,
    aside: Set<u64>,
    relocs: Seq<(u64, RelocView)>,
    bytes: Seq<u8>,
    i: int,
)
    requires
        0 <= i < bytes.len(),
    ensures
        ({
            let len = bytes.len() as int;
            let after = fixed_bytes(ctx, start, aside, relocs, bytes);
            let hit = exists|k: int|
                0 <= k < relocs.len() && !aside.contains((#[trigger] relocs[k]).0) && relocates(
                    ctx,
                    start,
                    len,
                    relocs[k],
                ) && in_field(relocs[k].0 - start, relocs[k].1.size as int, len, i);
            &&& after.len() == bytes.len()
            &&& after[i] == if hit {
                0u8
            } else {
                bytes[i]
            }
        }),
    decreases relocs.len(),
{
    if relocs.len() > 0 {
        let init = relocs.drop_last();
        let e = relocs.last();
        let len = bytes.len() as int;
        lemma_fixed(ctx, start, aside, init, bytes, i);
        let before = fixed_bytes(ctx, start, aside, init, bytes);
        lemma_cleared(before, e.0 - start, e.1.size as int, i);
        assert(relocs[relocs.len() - 1] == e);
        if exists|k: int|
            0 <= k < init.len() && !aside.contains((#[trigger] init[k]).0) && relocates(
                ctx,
                start,
                len,
                init[k],
            ) && in_field(init[k].0 - start, init[k].1.size as int, len, i) {
            let k = choose|k: int|
                0 <= k < init.len() && !aside.contains((#[trigger] init[k]).0) && relocates(
                    ctx,
                    start,
                    len,
                    init[k],
                ) && in_field(init[k].0 - start, init[k].1.size as int, len, i);
            assert(relocs[k] == init[k]);
        }
        if exists|k: int|
            0 <= k < relocs.len() && !aside.contains((#[trigger] relocs[k]).0) && relocates(
                ctx,
                start,
                len,
                relocs[k],
            ) && in_field(relocs[k].0 - start, relocs[k].1.size as int, len, i) {
            let k = choose|k: int|
                0 <= k < relocs.len() && !aside.contains((#[trigger] relocs[k]).0) && relocates(
                    ctx,
                    start,
                    len,
                    relocs[k],
                ) && in_field(relocs[k].0 - start, relocs[k].1.size as int, len, i);
            if k < init.len() {
                assert(relocs[k] == init[k]);
            }
        }
    }
}

/// Clearing the fields that fixups relocate clears these bytes and no other.
pub(crate) proof fn lemma_fixed_window(
    ctx: EmitView,
    start: u64,
    end: u64,
    aside: Set<u64>,
    bytes: Seq<u8>,
    i: int,
)
    requires
        keys_increase(ctx.symbols.relocs),
        start <= end,
        0 <= i < bytes.len(),
    ensures
        ({
            let after = fixed_bytes(ctx, start, aside, ctx.relocs(start, end), bytes);
            &&& after.len() == bytes.len()
            &&& after[i] == if in_fixup(ctx, start, end, bytes.len() as int, aside, i) {
                0u8
            } else {
                bytes[i]
            }
        }),
{
    let relocs = ctx.relocs(start, end);
    let len = bytes.len() as int;
    lemma_fixed(ctx, start, aside, relocs, bytes, i);
    assert forall|e: (u64, RelocView)| #[trigger] ctx.symbols.relocs.contains(e) && start <= e.0
        < end implies relocs.contains(e) by {
        lemma_window(ctx.symbols.relocs, start as int, end as int, e);
    }
    if in_fixup(ctx, start, end, len, aside, i) {
        let e = choose|e: (u64, RelocView)|
            #![trigger ctx.symbols.relocs.contains(e)]
            ctx.symbols.relocs.contains(e) && start <= e.0 < end && !aside.contains(e.0)
                && relocates(ctx, start, len, e) && in_field(
                e.0 - start,
                e.1.size as int,
                len,
                i,
            );
        let k = choose|k: int| 0 <= k < relocs.len() && relocs[k] == e;
        assert(!aside.contains(relocs[k].0));
    }
    if exists|k: int|
        0 <= k < relocs.len() && !aside.contains((#[trigger] relocs[k]).0) && relocates(
            ctx,
            start,
            len,
            relocs[k],
        ) && in_field(relocs[k].0 - start, relocs[k].1.size as int, len, i) {
        let k = choose|k: int|
            0 <= k < relocs.len() && !aside.contains((#[trigger] relocs[k]).0) && relocates(
                ctx,
                start,
                len,
                relocs[k],
            ) && in_field(relocs[k].0 - start, relocs[k].1.size as int, len, i);
        assert(relocs.contains(relocs[k]));
        lemma_window(ctx.symbols.relocs, start as int, end as int, relocs[k]);
    }
}

pub(crate) proof fn lemma_recovered_cleared(relocs: Seq<RecRelView>, bytes: Seq<u8>, i: int)
    requires
        0 <= i < bytes.len(),
    ensures
        recovered_bytes(relocs, bytes).len() == bytes.len(),
        recovered_bytes(relocs, bytes)[i] == if in_recovered(relocs, bytes.len() as int, i) {
            0u8
        } else {
            bytes[i]
        },
    decreases relocs.len(),
{
    if relocs.len() > 0 {
        let init = relocs.drop_last();
        let r = relocs.last();
        let len = bytes.len() as int;
        lemma_recovered_cleared(init, bytes, i);
        lemma_cleared(recovered_bytes(init, bytes), r.offset as int, 4, i);
        assert(relocs[relocs.len() - 1] == r);
        if in_recovered(init, len, i) {
            let k = choose|k: int|
                0 <= k < init.len() && in_field((#[trigger] init[k]).offset as int, 4, len, i);
            assert(relocs[k] == init[k]);
        }
        if in_recovered(relocs, len, i) {
            let k = choose|k: int|
                0 <= k < relocs.len() && in_field((#[trigger] relocs[k]).offset as int, 4, len, i);
            if k < init.len() {
                assert(relocs[k] == init[k]);
            }
        }
    }
}

proof fn lemma_dispatch_cleared(fields: Seq<u64>, start: u64, bytes: Seq<u8>, i: int)
    requires
        0 <= i < bytes.len(),
    ensures
        dispatch_cleared(fields, start, bytes).len() == bytes.len(),
        dispatch_cleared(fields, start, bytes)[i] == if in_dispatch(
            fields,
            start,
            bytes.len() as int,
            i,
        ) {
            0u8
        } else {
            bytes[i]
        },
    decreases fields.len(),
{
    if fields.len() > 0 {
        let init = fields.drop_last();
        let len = bytes.len() as int;
        lemma_dispatch_cleared(init, start, bytes, i);
        lemma_cleared(
            dispatch_cleared(init, start, bytes),
            wrap64(fields.last() - start),
            4,
            i,
        );
        assert(fields[fields.len() - 1] == fields.last());
        if in_dispatch(init, start, len, i) {
            let k = choose|k: int|
                0 <= k < init.len() && in_field(wrap64(#[trigger] init[k] - start), 4, len, i);
            assert(fields[k] == init[k]);
        }
        if in_dispatch(fields, start, len, i) {
            let k = choose|k: int|
                0 <= k < fields.len() && in_field(wrap64(#[trigger] fields[k] - start), 4, len, i);
            if k < init.len() {
                assert(fields[k] == init[k]);
            }
        }
    }
}

proof fn lemma_entries_cleared(
    entries: Seq<JumpTableEntry>,
    width: int,
    start: u64,
    bytes: Seq<u8>,
    i: int,
)
    requires
        0 <= i < bytes.len(),
    ensures
        entries_cleared(entries, width, start, bytes).len() == bytes.len(),
        entries_cleared(entries, width, start, bytes)[i] == if in_cases(
            entries,
            width,
            start,
            bytes.len() as int,
            i,
        ) {
            0u8
        } else {
            bytes[i]
        },
    decreases entries.len(),
{
    if entries.len() > 0 {
        let init = entries.drop_last();
        let len = bytes.len() as int;
        lemma_entries_cleared(init, width, start, bytes, i);
        lemma_cleared(
            entries_cleared(init, width, start, bytes),
            wrap64(entries.last().addr - start),
            width,
            i,
        );
        assert(entries[entries.len() - 1] == entries.last());
        if in_cases(init, width, start, len, i) {
            let k = choose|k: int|
                0 <= k < init.len() && in_field(
                    wrap64((#[trigger] init[k]).addr - start),
                    width,
                    len,
                    i,
                );
            assert(entries[k] == init[k]);
        }
        if in_cases(entries, width, start, len, i) {
            let k = choose|k: int|
                0 <= k < entries.len() && in_field(
                    wrap64((#[trigger] entries[k]).addr - start),
                    width,
                    len,
                    i,
                );
            if k < init.len() {
                assert(entries[k] == init[k]);
            }
        }
    }
}

pub(crate) proof fn lemma_tables_cleared(tables: Seq<TableView>, start: u64, bytes: Seq<u8>, i: int)
    requires
        0 <= i < bytes.len(),
    ensures
        tables_cleared(tables, start, bytes).len() == bytes.len(),
        tables_cleared(tables, start, bytes)[i] == if in_tables(
            tables,
            start,
            bytes.len() as int,
            i,
        ) {
            0u8
        } else {
            bytes[i]
        },
    decreases tables.len(),
{
    if tables.len() > 0 {
        let init = tables.drop_last();
        let t = tables.last();
        let len = bytes.len() as int;
        let before = tables_cleared(init, start, bytes);
        lemma_tables_cleared(init, start, bytes, i);
        lemma_dispatch_cleared(t.fields(), start, before, i);
        lemma_entries_cleared(
            t.entries,
            t.entry_size as int,
            start,
            dispatch_cleared(t.fields(), start, before),
            i,
        );
        assert(tables[tables.len() - 1] == t);
        if in_tables(init, start, len, i) {
            let k = choose|k: int|
                0 <= k < init.len() && (in_dispatch(
                    (#[trigger] init[k]).fields(),
                    start,
                    len,
                    i,
                ) || in_cases(init[k].entries, init[k].entry_size as int, start, len, i));
            assert(tables[k] == init[k]);
        }
        if in_tables(tables, start, len, i) {
            let k = choose|k: int|
                0 <= k < tables.len() && (in_dispatch(
                    (#[trigger] tables[k]).fields(),
                    start,
                    len,
                    i,
                ) || in_cases(tables[k].entries, tables[k].entry_size as int, start, len, i));
            if k < init.len() {
                assert(tables[k] == init[k]);
            }
        }
    }
}

/// Whether an address is that of a field or a case of one of the tables.
pub open spec fn in_switch(tables: Seq<TableView>, a: u64) -> bool {
    exists|k: int|
        0 <= k < tables.len() && ((#[trigger] tables[k]).fields().contains(a) || exists|m: int|
            0 <= m < tables[k].entries.len() && (#[trigger] tables[k].entries[m]).addr == a)
}

pub(crate) proof fn lemma_switch_fields(tables: Seq<TableView>, a: u64)
    ensures
        switch_fields(tables).contains(a) == in_switch(tables, a),
    decreases tables.len(),
{
    if tables.len() > 0 {
        let init = tables.drop_last();
        let t = tables.last();
        lemma_switch_fields(init, a);
        assert(tables[tables.len() - 1] == t);
        assert(table_fields(t).contains(a) == (t.fields().contains(a) || exists|m: int|
            0 <= m < t.entries.len() && (#[trigger] t.entries[m]).addr == a));
        if in_switch(init, a) {
            let k = choose|k: int|
                0 <= k < init.len() && ((#[trigger] init[k]).fields().contains(a) || exists|m: int|
                    0 <= m < init[k].entries.len() && (#[trigger] init[k].entries[m]).addr == a);
            assert(tables[k] == init[k]);
        }
        if in_switch(tables, a) {
            let k = choose|k: int|
                0 <= k < tables.len() && ((#[trigger] tables[k]).fields().contains(a)
                    || exists|m: int|
                    0 <= m < tables[k].entries.len() && (#[trigger] tables[k].entries[m]).addr
                        == a);
            if k < init.len() {
                assert(tables[k] == init[k]);
            }
        }
    }
}

// ---------------------------------------------------------------------------
// Relocations
// ---------------------------------------------------------------------------

/// Whether a relocation is staged.
pub open spec fn staged(
    d: DraftView,
    section: int,
    offset: int,
    target: Seq<char>,
    addend: i64,
    flags: RelocType,
) -> bool {
    d.pending.contains(
        PendingView { section, offset: wrap64(offset) as u64, target, addend, flags },
    )
}

/// Whether every fixup from `start` up to `end` that is not set aside, has a type
/// and a target with a name and fits in the `len` bytes that stand at `base` of the
/// section is staged: at its place among the bytes, with that type, against that
/// name and addend.
pub open spec fn fixups_staged(
    ctx: EmitView,
    d: DraftView,
    section: int,
    base: u64,
    start: u64,
    end: u64,
    len: int,
    aside: Set<u64>,
) -> bool {
    forall|e: (u64, RelocView)| #[trigger]
        ctx.symbols.relocs.contains(e) && start <= e.0 < end && !aside.contains(e.0) && e.0 - start
            + e.1.size <= len ==> match (
            absolute_type(ctx.format, ctx.model.arch, e.1.size),
            ctx.target(e.1.target),
        ) {
            (Some(flags), Some((target, addend))) => staged(
                d,
                section,
                base + (e.0 - start),
                target,
                addend,
                flags,
            ),
            _ => true,
        }
}

/// Whether every recovered field is staged: a relative one with its addend
/// counted from the field, and an absolute one unless there is a fixup for it.
pub open spec fn recovered_staged(
    ctx: EmitView,
    d: DraftView,
    relocs: Seq<RecRelView>,
    section: int,
    base: u64,
    start: u64,
) -> bool {
    forall|k: int|
        0 <= k < relocs.len() ==> {
            let r = #[trigger] relocs[k];
            &&& !r.absolute ==> staged(
                d,
                section,
                base + r.offset,
                r.target,
                r.addend.wrapping_sub(4),
                relative_type(ctx.format, ctx.model.arch),
            )
            &&& r.absolute && (forall|e: (u64, RelocView)| #[trigger]
                ctx.symbols.relocs.contains(e) ==> e.0 != wrap64(start + r.offset)) ==> match absolute_type(
                ctx.format,
                ctx.model.arch,
                4,
            ) {
                Some(flags) => staged(d, section, base + r.offset, r.target, r.addend, flags),
                None => true,
            }
        }
}

/// Whether the fields of a table are staged against its name.
pub open spec fn dispatch_staged(
    ctx: EmitView,
    d: DraftView,
    fields: Seq<u64>,
    table: Seq<char>,
    place: Place,
    len: int,
) -> bool {
    forall|k: int|
        0 <= k < fields.len() && wrap64(#[trigger] fields[k] - place.start) + 4 <= len
            ==> match absolute_type(ctx.format, ctx.model.arch, 4) {
            Some(flags) => staged(
                d,
                place.section as int,
                place.base + (fields[k] - place.start),
                table,
                0,
                flags,
            ),
            None => true,
        }
}

/// Whether a case is staged: against the label of its target where that is in the
/// function, and against what its target resolves to where it is not.
pub open spec fn case_staged(
    ctx: EmitView,
    d: DraftView,
    entry: JumpTableEntry,
    width: u32,
    place: Place,
    len: int,
) -> bool {
    let offset = place.base + (entry.addr - place.start);
    let label = "$L_"@ + digits(entry.target as nat, 16, true);
    let inside = place.start <= entry.target < place.end;
    wrap64(entry.addr - place.start) + width <= len ==> {
        &&& inside ==> d.local.contains_key(label)
        &&& absolute_type(ctx.format, ctx.model.arch, width) matches Some(flags) ==> {
            &&& inside ==> staged(d, place.section as int, offset, label, 0, flags)
            &&& !inside ==> (ctx.symbols.code_target(entry.target) matches Some((target, addend))
                ==> staged(d, place.section as int, offset, target, addend, flags))
        }
    }
}

pub open spec fn cases_staged(
    ctx: EmitView,
    d: DraftView,
    entries: Seq<JumpTableEntry>,
    width: u32,
    place: Place,
    len: int,
) -> bool {
    forall|k: int|
        0 <= k < entries.len() ==> case_staged(ctx, d, #[trigger] entries[k], width, place, len)
}

/// Whether a table is staged: its fields and cases, and a label at its start.
pub open spec fn table_staged(
    ctx: EmitView,
    d: DraftView,
    t: TableView,
    place: Place,
    len: int,
) -> bool {
    &&& dispatch_staged(ctx, d, t.fields(), t.name, place, len)
    &&& cases_staged(ctx, d, t.entries, t.entry_size, place, len)
    &&& d.local.contains_key(t.name)
    &&& d.symbols.contains(
        DraftSymbolView {
            name: symbol_text(t.name),
            value: wrap64(place.base + (t.start - place.start)) as u64,
            size: 0,
            class: SymbolClass::Label,
            linkage: Linkage::Internal,
            section: place.section as int,
        },
    )
}

/// Whether the tables are staged.
pub open spec fn tables_staged(
    ctx: EmitView,
    d: DraftView,
    tables: Seq<TableView>,
    place: Place,
    len: int,
) -> bool {
    forall|k: int|
        0 <= k < tables.len() ==> table_staged(ctx, d, #[trigger] tables[k], place, len)
}

/// Whether the names from `start` up to `end` other than `own` are symbols that
/// other objects can refer to, at their places.
pub open spec fn names_placed(ctx: EmitView, d: DraftView, own: Seq<char>, place: Place) -> bool {
    forall|k: int|
        0 <= k < ctx.names.len() && place.start <= (#[trigger] ctx.names[k]).addr < place.end
            && ctx.names[k].name@ != own ==> {
            &&& d.local.contains_key(ctx.names[k].name@)
            &&& d.symbols.contains(
                DraftSymbolView {
                    name: symbol_text(ctx.names[k].name@),
                    value: wrap64(place.base + (ctx.names[k].addr - place.start)) as u64,
                    size: 0,
                    class: SymbolClass::Data,
                    linkage: Linkage::External,
                    section: place.section as int,
                },
            )
        }
}

/// Whether the variables of a span are symbols that other objects can refer to, at
/// their places in the section and with their sizes.
pub open spec fn variables_placed(
    ctx: EmitView,
    d: DraftView,
    section: int,
    start: u64,
    end: u64,
) -> bool {
    forall|e: (u64, VariableView)| #[trigger]
        ctx.symbols.variables.contains(e) && start <= e.0 < end ==> {
            &&& d.local.contains_key(e.1.name)
            &&& d.symbols.contains(
                DraftSymbolView {
                    name: symbol_text(e.1.name),
                    value: (e.0 - start) as u64,
                    size: e.1.size,
                    class: SymbolClass::Data,
                    linkage: Linkage::External,
                    section,
                },
            )
        }
}

/// Whether `b` has the names, symbols and relocations that `a` has.
pub open spec fn keeps(a: DraftView, b: DraftView) -> bool {
    &&& begins(a.symbols, b.symbols)
    &&& begins(a.pending, b.pending)
    &&& forall|name: Seq<char>| #[trigger]
        a.local.contains_key(name) ==> b.local.contains_key(name)
}

pub(crate) proof fn lemma_contains_on<T>(a: Seq<T>, b: Seq<T>, x: T)
    requires
        begins(a, b),
        a.contains(x),
    ensures
        b.contains(x),
{
    let k = choose|k: int| 0 <= k < a.len() && a[k] == x;
    lemma_begins_index(a, b, k);
    assert(b[k] == x);
}

pub(crate) proof fn lemma_staged_on(a: DraftView, b: DraftView)
    requires
        keeps(a, b),
    ensures
        forall|p: PendingView| #[trigger] a.pending.contains(p) ==> b.pending.contains(p),
        forall|s: DraftSymbolView| #[trigger] a.symbols.contains(s) ==> b.symbols.contains(s),
{
    assert forall|p: PendingView| #[trigger] a.pending.contains(p) implies b.pending.contains(
        p,
    ) by {
        lemma_contains_on(a.pending, b.pending, p);
    }
    assert forall|s: DraftSymbolView| #[trigger] a.symbols.contains(s) implies b.symbols.contains(
        s,
    ) by {
        lemma_contains_on(a.symbols, b.symbols, s);
    }
}

/// The fixups that apply are staged by staging what they come to.
pub(crate) proof fn lemma_fixups_staged(
    ctx: EmitView,
    d: DraftView,
    section: int,
    base: u64,
    start: u64,
    end: u64,
    len: int,
    aside: Set<u64>,
)
    requires
        keys_increase(ctx.symbols.relocs),
        start <= end,
        forall|p: PendingView| #[trigger]
            fixed_pending(
                ctx,
                section,
                base,
                start,
                len,
                aside,
                ctx.relocs(start, end),
            ).contains(p) ==> d.pending.contains(p),
    ensures
        fixups_staged(ctx, d, section, base, start, end, len, aside),
{
    let relocs = ctx.relocs(start, end);
    let all = fixed_pending(ctx, section, base, start, len, aside, relocs);
    assert forall|e: (u64, RelocView)| #[trigger] ctx.symbols.relocs.contains(e) && start <= e.0
        < end && !aside.contains(e.0) && e.0 - start + e.1.size <= len implies match (
        absolute_type(ctx.format, ctx.model.arch, e.1.size),
        ctx.target(e.1.target),
    ) {
        (Some(flags), Some((target, addend))) => staged(
            d,
            section,
            base + (e.0 - start),
            target,
            addend,
            flags,
        ),
        _ => true,
    } by {
        lemma_window(ctx.symbols.relocs, start as int, end as int, e);
        let k = choose|k: int| 0 <= k < relocs.len() && relocs[k] == e;
        if let (Some(flags), Some((target, addend))) = (
            absolute_type(ctx.format, ctx.model.arch, e.1.size),
            ctx.target(e.1.target),
        ) {
            let p = PendingView {
                section,
                offset: wrap64(base + (e.0 - start)) as u64,
                target,
                addend,
                flags,
            };
            lemma_fixed_pending(ctx, section, base, start, len, aside, relocs, k, p);
        }
    }
}

proof fn lemma_fixed_pending(
    ctx: EmitView,
    section: int,
    base: u64,
    start: u64,
    len: int,
    aside: Set<u64>,
    relocs: Seq<(u64, RelocView)>,
    k: int,
    p: PendingView,
)
    requires
        0 <= k < relocs.len(),
        !aside.contains(relocs[k].0),
        relocs[k].0 - start + relocs[k].1.size <= len,
        p.section == section,
        p.offset == wrap64(base + (relocs[k].0 - start)),
        ctx.target(relocs[k].1.target) == Some((p.target, p.addend)),
        absolute_type(ctx.format, ctx.model.arch, relocs[k].1.size) == Some(p.flags),
    ensures
        fixed_pending(ctx, section, base, start, len, aside, relocs).contains(p),
    decreases relocs.len(),
{
    let init = relocs.drop_last();
    let all = fixed_pending(ctx, section, base, start, len, aside, relocs);
    let before = fixed_pending(ctx, section, base, start, len, aside, init);
    if k < init.len() {
        lemma_fixed_pending(ctx, section, base, start, len, aside, init, k, p);
        let i = choose|i: int| 0 <= i < before.len() && before[i] == p;
        assert(all[i] == p);
    } else {
        assert(fixup_applies(ctx, start, len, aside, relocs.last()));
        assert(all[before.len() as int] == p);
    }
}

pub(crate) proof fn lemma_recovered_staged(
    d: DraftView,
    ctx: EmitView,
    relocs: Seq<RecRelView>,
    place: Place,
)
    requires
        keys_increase(ctx.symbols.relocs),
    ensures
        recovered_staged(
            ctx,
            with_recovered(d, ctx, relocs, place),
            relocs,
            place.section as int,
            place.base,
            place.start,
        ),
    decreases relocs.len(),
{
    if relocs.len() > 0 {
        let init = relocs.drop_last();
        let before = with_recovered(d, ctx, init, place);
        let after = with_recovered(d, ctx, relocs, place);
        lemma_recovered_staged(d, ctx, init, place);
        assert forall|p: PendingView| #[trigger] before.pending.contains(
            p,
        ) implies after.pending.contains(p) by {
            let k = choose|k: int| 0 <= k < before.pending.len() && before.pending[k] == p;
            assert(after.pending[k] == p);
        }
        let n = before.pending.len() as int;
        let r = relocs.last();
        let address = wrap64(place.start + r.offset) as u64;
        if r.absolute && (forall|e: (u64, RelocView)| #[trigger]
            ctx.symbols.relocs.contains(e) ==> e.0 != address) {
            lemma_no_value(ctx.symbols.relocs, address);
        }
        if after.pending.len() > n {
            assert(after.pending.contains(after.pending[n]));
        }
        assert forall|k: int| 0 <= k < relocs.len() implies {
            let r = #[trigger] relocs[k];
            &&& !r.absolute ==> staged(
                after,
                place.section as int,
                place.base + r.offset,
                r.target,
                r.addend.wrapping_sub(4),
                relative_type(ctx.format, ctx.model.arch),
            )
            &&& r.absolute && (forall|e: (u64, RelocView)| #[trigger]
                ctx.symbols.relocs.contains(e) ==> e.0 != wrap64(place.start + r.offset))
                ==> match absolute_type(ctx.format, ctx.model.arch, 4) {
                Some(flags) => staged(
                    after,
                    place.section as int,
                    place.base + r.offset,
                    r.target,
                    r.addend,
                    flags,
                ),
                None => true,
            }
        } by {
            if k < init.len() {
                assert(init[k] == relocs[k]);
            }
        }
    }
}

proof fn lemma_no_value<V>(s: Seq<(u64, V)>, key: u64)
    requires
        keys_increase(s),
        forall|e: (u64, V)| #[trigger] s.contains(e) ==> e.0 != key,
    ensures
        crate::addr_map::value_at(s, key) is None,
{
    lemma_below(s, key as int);
    let i = crate::addr_map::below(s, key as int);
    if i < s.len() {
        assert(s.contains(s[i]));
    }
}

proof fn lemma_dispatch_staged(
    d: DraftView,
    ctx: EmitView,
    fields: Seq<u64>,
    table: Seq<char>,
    place: Place,
    len: int,
)
    ensures
        dispatch_staged(
            ctx,
            with_dispatch(d, ctx, fields, table, place, len),
            fields,
            table,
            place,
            len,
        ),
    decreases fields.len(),
{
    if fields.len() > 0 {
        let init = fields.drop_last();
        let before = with_dispatch(d, ctx, init, table, place, len);
        let after = with_dispatch(d, ctx, fields, table, place, len);
        lemma_dispatch_staged(d, ctx, init, table, place, len);
        assert forall|p: PendingView| #[trigger] before.pending.contains(
            p,
        ) implies after.pending.contains(p) by {
            let k = choose|k: int| 0 <= k < before.pending.len() && before.pending[k] == p;
            assert(after.pending[k] == p);
        }
        let n = before.pending.len() as int;
        if after.pending.len() > n {
            assert(after.pending.contains(after.pending[n]));
        }
        assert forall|k: int|
            0 <= k < fields.len() && wrap64(#[trigger] fields[k] - place.start) + 4
                <= len implies match absolute_type(ctx.format, ctx.model.arch, 4) {
            Some(flags) => staged(
                after,
                place.section as int,
                place.base + (fields[k] - place.start),
                table,
                0,
                flags,
            ),
            None => true,
        } by {
            if k < init.len() {
                assert(init[k] == fields[k]);
            }
        }
    }
}

proof fn lemma_case_on(
    ctx: EmitView,
    a: DraftView,
    b: DraftView,
    entry: JumpTableEntry,
    width: u32,
    place: Place,
    len: int,
)
    requires
        keeps(a, b),
        case_staged(ctx, a, entry, width, place, len),
    ensures
        case_staged(ctx, b, entry, width, place, len),
{
    lemma_staged_on(a, b);
}

proof fn lemma_cases_staged(
    d: DraftView,
    ctx: EmitView,
    entries: Seq<JumpTableEntry>,
    width: u32,
    place: Place,
    len: int,
)
    ensures
        cases_staged(
            ctx,
            with_cases(d, ctx, entries, width, place, len),
            entries,
            width,
            place,
            len,
        ),
    decreases entries.len(),
{
    if entries.len() > 0 {
        let init = entries.drop_last();
        let before = with_cases(d, ctx, init, width, place, len);
        let after = with_cases(d, ctx, entries, width, place, len);
        lemma_cases_staged(d, ctx, init, width, place, len);
        crate::laws::lemma_with_case(before, ctx, entries.last(), width, place, len);
        assert(keeps(before, after));
        assert forall|k: int| 0 <= k < entries.len() implies case_staged(
            ctx,
            after,
            #[trigger] entries[k],
            width,
            place,
            len,
        ) by {
            if k < init.len() {
                assert(init[k] == entries[k]);
                lemma_case_on(ctx, before, after, entries[k], width, place, len);
            } else {
                let n = before.pending.len() as int;
                if after.pending.len() > n {
                    assert(after.pending.contains(after.pending[n]));
                }
            }
        }
    }
}

proof fn lemma_table_on(
    ctx: EmitView,
    a: DraftView,
    b: DraftView,
    t: TableView,
    place: Place,
    len: int,
)
    requires
        keeps(a, b),
        table_staged(ctx, a, t, place, len),
    ensures
        table_staged(ctx, b, t, place, len),
{
    lemma_staged_on(a, b);
    assert forall|m: int| 0 <= m < t.entries.len() implies case_staged(
        ctx,
        b,
        #[trigger] t.entries[m],
        t.entry_size,
        place,
        len,
    ) by {
        lemma_case_on(ctx, a, b, t.entries[m], t.entry_size, place, len);
    }
}

pub(crate) proof fn lemma_tables_on(
    ctx: EmitView,
    a: DraftView,
    b: DraftView,
    tables: Seq<TableView>,
    place: Place,
    len: int,
)
    requires
        keeps(a, b),
        tables_staged(ctx, a, tables, place, len),
    ensures
        tables_staged(ctx, b, tables, place, len),
{
    assert forall|k: int| 0 <= k < tables.len() implies table_staged(
        ctx,
        b,
        #[trigger] tables[k],
        place,
        len,
    ) by {
        lemma_table_on(ctx, a, b, tables[k], place, len);
    }
}

pub(crate) proof fn lemma_tables_staged(
    d: DraftView,
    ctx: EmitView,
    tables: Seq<TableView>,
    place: Place,
    len: int,
)
    ensures
        tables_staged(ctx, with_tables(d, ctx, tables, place, len), tables, place, len),
    decreases tables.len(),
{
    if tables.len() > 0 {
        let init = tables.drop_last();
        let before = with_tables(d, ctx, init, place, len);
        let after = with_tables(d, ctx, tables, place, len);
        let t = tables.last();
        let symbol = crate::function_code::local_label(t.name, t.start, place);
        let labelled = before.defining(t.name, symbol);
        let dispatched = with_dispatch(labelled, ctx, t.fields(), t.name, place, len);
        lemma_tables_staged(d, ctx, init, place, len);
        crate::laws::lemma_defining(before, t.name, symbol);
        crate::laws::lemma_with_dispatch(labelled, ctx, t.fields(), t.name, place, len);
        crate::laws::lemma_with_cases(dispatched, ctx, t.entries, t.entry_size, place, len);
        lemma_dispatch_staged(labelled, ctx, t.fields(), t.name, place, len);
        lemma_cases_staged(dispatched, ctx, t.entries, t.entry_size, place, len);
        assert(keeps(dispatched, after));
        crate::laws::lemma_begins_trans(before.symbols, labelled.symbols, dispatched.symbols);
        crate::laws::lemma_begins_trans(before.pending, labelled.pending, dispatched.pending);
        crate::laws::lemma_begins_trans(before.symbols, dispatched.symbols, after.symbols);
        crate::laws::lemma_begins_trans(before.pending, dispatched.pending, after.pending);
        crate::laws::lemma_begins_trans(labelled.symbols, dispatched.symbols, after.symbols);
        crate::laws::lemma_begins_trans(labelled.pending, dispatched.pending, after.pending);
        assert(keeps(before, after));
        assert(keeps(labelled, after));
        lemma_tables_on(ctx, before, after, init, place, len);
        lemma_staged_on(dispatched, after);
        lemma_staged_on(labelled, after);
        assert(labelled.symbols[before.symbols.len() as int] == symbol);
        assert(labelled.symbols.contains(symbol));
        assert(dispatch_staged(ctx, after, t.fields(), t.name, place, len));
        assert(after == with_cases(dispatched, ctx, t.entries, t.entry_size, place, len));
        assert(labelled.local.contains_key(t.name));
        assert(after.local.contains_key(t.name));
        assert(after.symbols.contains(symbol));
        assert(table_staged(ctx, after, t, place, len));
        assert forall|k: int| 0 <= k < tables.len() implies table_staged(
            ctx,
            after,
            #[trigger] tables[k],
            place,
            len,
        ) by {
            if k < init.len() {
                assert(init[k] == tables[k]);
            }
        }
    }
}

proof fn lemma_label_of(d: DraftView, names: Seq<Name>, own: Seq<char>, place: Place, k: int)
    requires
        0 <= k < names.len(),
        names[k].name@ != own,
    ensures
        with_labels(d, names, own, place).local.contains_key(names[k].name@),
        with_labels(d, names, own, place).symbols.contains(
            DraftSymbolView {
                name: symbol_text(names[k].name@),
                value: wrap64(place.base + (names[k].addr - place.start)) as u64,
                size: 0,
                class: SymbolClass::Data,
                linkage: Linkage::External,
                section: place.section as int,
            },
        ),
    decreases names.len(),
{
    let init = names.drop_last();
    let before = with_labels(d, init, own, place);
    let after = with_labels(d, names, own, place);
    let s = DraftSymbolView {
        name: symbol_text(names[k].name@),
        value: wrap64(place.base + (names[k].addr - place.start)) as u64,
        size: 0,
        class: SymbolClass::Data,
        linkage: Linkage::External,
        section: place.section as int,
    };
    if k < init.len() {
        lemma_label_of(d, init, own, place, k);
        let i = choose|i: int| 0 <= i < before.symbols.len() && before.symbols[i] == s;
        assert(after.symbols[i] == s);
    } else {
        assert(after.symbols[before.symbols.len() as int] == s);
    }
}

pub(crate) proof fn lemma_names_placed(d: DraftView, ctx: EmitView, own: Seq<char>, place: Place)
    requires
        crate::sorting::in_key_order(ctx.names),
        place.start <= place.end,
    ensures
        names_placed(
            ctx,
            with_labels(
                d,
                crate::sorting::key_window(ctx.names, place.start as int, place.end as int),
                own,
                place,
            ),
            own,
            place,
        ),
{
    let names = crate::sorting::key_window(ctx.names, place.start as int, place.end as int);
    let after = with_labels(d, names, own, place);
    let from = crate::sorting::place_before(ctx.names, place.start as int);
    crate::sorting::lemma_place_before(ctx.names, place.start as int);
    crate::sorting::lemma_place_before(ctx.names, place.end as int);
    assert forall|k: int|
        0 <= k < ctx.names.len() && place.start <= (#[trigger] ctx.names[k]).addr < place.end
            && ctx.names[k].name@ != own implies {
        &&& after.local.contains_key(ctx.names[k].name@)
        &&& after.symbols.contains(
            DraftSymbolView {
                name: symbol_text(ctx.names[k].name@),
                value: wrap64(place.base + (ctx.names[k].addr - place.start)) as u64,
                size: 0,
                class: SymbolClass::Data,
                linkage: Linkage::External,
                section: place.section as int,
            },
        )
    } by {
        assert(crate::sorting::HasKey::spec_key(&ctx.names[k]) == ctx.names[k].addr);
        assert(names[k - from] == ctx.names[k]);
        lemma_label_of(d, names, own, place, k - from);
    }
}

proof fn lemma_variable_of(
    d: DraftView,
    variables: Seq<(u64, VariableView)>,
    section: int,
    start: u64,
    k: int,
)
    requires
        0 <= k < variables.len(),
    ensures
        with_variables(d, variables, section, start).local.contains_key(variables[k].1.name),
        with_variables(d, variables, section, start).symbols.contains(
            DraftSymbolView {
                name: symbol_text(variables[k].1.name),
                value: (variables[k].0 - start) as u64,
                size: variables[k].1.size,
                class: SymbolClass::Data,
                linkage: Linkage::External,
                section,
            },
        ),
    decreases variables.len(),
{
    let init = variables.drop_last();
    let before = with_variables(d, init, section, start);
    let after = with_variables(d, variables, section, start);
    let s = DraftSymbolView {
        name: symbol_text(variables[k].1.name),
        value: (variables[k].0 - start) as u64,
        size: variables[k].1.size,
        class: SymbolClass::Data,
        linkage: Linkage::External,
        section,
    };
    if k < init.len() {
        lemma_variable_of(d, init, section, start, k);
        let i = choose|i: int| 0 <= i < before.symbols.len() && before.symbols[i] == s;
        assert(after.symbols[i] == s);
    } else {
        assert(after.symbols[before.symbols.len() as int] == s);
    }
}

pub(crate) proof fn lemma_variables_placed(
    d: DraftView,
    ctx: EmitView,
    section: int,
    start: u64,
    end: u64,
)
    requires
        keys_increase(ctx.symbols.variables),
        start <= end,
    ensures
        variables_placed(
            ctx,
            with_variables(
                d,
                window(ctx.symbols.variables, start as int, end as int),
                section,
                start,
            ),
            section,
            start,
            end,
        ),
{
    let variables = window(ctx.symbols.variables, start as int, end as int);
    assert forall|e: (u64, VariableView)| #[trigger]
        ctx.symbols.variables.contains(e) && start <= e.0 < end implies {
        &&& with_variables(d, variables, section, start).local.contains_key(e.1.name)
        &&& with_variables(d, variables, section, start).symbols.contains(
            DraftSymbolView {
                name: symbol_text(e.1.name),
                value: (e.0 - start) as u64,
                size: e.1.size,
                class: SymbolClass::Data,
                linkage: Linkage::External,
                section,
            },
        )
    } by {
        lemma_window(ctx.symbols.variables, start as int, end as int, e);
        let k = choose|k: int| 0 <= k < variables.len() && variables[k] == e;
        lemma_variable_of(d, variables, section, start, k);
    }
}

} // verus!
