//! Nothing is relocated that need not be: each relocation of a function is that of
//! one of its fields, and there is no more than one for each.

use crate::addr_map::keys_increase;
use crate::bytes::wrap64;
use crate::draft::{DraftView, PendingView};
use crate::emitter::{fixed_pending, EmitView};
use crate::format::{absolute_type, relative_type};
use crate::function_code::{
    end_with_tables, function_recovered, switch_fields, with_case, with_cases, with_dispatch,
    with_function_code, with_labels, with_recovered, with_tables, Place, RecRelView,
};
use crate::laws::lemma_end_with_tables;
use crate::model::{Function, JumpTableEntry, Name, RelocView, TableView};
use crate::reloc_laws::{in_switch, lemma_switch_fields, lemma_window};
use crate::text::digits;
use vstd::prelude::*;

verus! {

/// Whether a relocation is that of a fixup.
pub open spec fn of_fixup(
    ctx: EmitView,
    place: Place,
    len: int,
    p: PendingView,
    e: (u64, RelocView),
) -> bool {
    &&& ctx.symbols.relocs.contains(e)
    &&& place.start <= e.0 < place.end
    &&& e.0 - place.start + e.1.size <= len
    &&& p.section == place.section
    &&& p.offset == wrap64(place.base + (e.0 - place.start))
    &&& ctx.target(e.1.target) == Some((p.target, p.addend))
    &&& absolute_type(ctx.format, ctx.model.arch, e.1.size) == Some(p.flags)
}

/// Whether a relocation is that of a recovered field.
pub open spec fn of_recovered(ctx: EmitView, place: Place, p: PendingView, r: RecRelView) -> bool {
    &&& p.section == place.section
    &&& p.offset == wrap64(place.base + r.offset)
    &&& p.target == r.target
    &&& if r.absolute {
        p.addend == r.addend && Some(p.flags) == absolute_type(ctx.format, ctx.model.arch, 4)
    } else {
        p.addend == r.addend.wrapping_sub(4) && p.flags == relative_type(
            ctx.format,
            ctx.model.arch,
        )
    }
}

/// Whether a relocation is that of a field of a table.
pub open spec fn of_dispatch(
    ctx: EmitView,
    place: Place,
    p: PendingView,
    t: TableView,
    field: u64,
) -> bool {
    &&& p.section == place.section
    &&& p.offset == wrap64(place.base + (field - place.start))
    &&& p.target == t.name && p.addend == 0
    &&& Some(p.flags) == absolute_type(ctx.format, ctx.model.arch, 4)
}

/// Whether a relocation is that of a case.
pub open spec fn of_case(
    ctx: EmitView,
    place: Place,
    p: PendingView,
    width: u32,
    entry: JumpTableEntry,
) -> bool {
    &&& p.section == place.section
    &&& p.offset == wrap64(place.base + (entry.addr - place.start))
    &&& Some(p.flags) == absolute_type(ctx.format, ctx.model.arch, width)
    &&& if place.start <= entry.target < place.end {
        p.target == "$L_"@ + digits(entry.target as nat, 16, true) && p.addend == 0
    } else {
        ctx.symbols.code_target(entry.target) == Some((p.target, p.addend))
    }
}

/// Whether a relocation is that of a field or a case of a table.
pub open spec fn of_table(ctx: EmitView, place: Place, p: PendingView, t: TableView) -> bool {
    ||| exists|k: int|
        0 <= k < t.fields().len() && of_dispatch(ctx, place, p, t, #[trigger] t.fields()[k])
    ||| exists|k: int|
        0 <= k < t.entries.len() && of_case(ctx, place, p, t.entry_size, #[trigger] t.entries[k])
}

/// Whether the relocations from the `n`th on have a property.
pub open spec fn all_from(d: DraftView, n: int, q: spec_fn(PendingView) -> bool) -> bool {
    forall|i: int| n <= i < d.pending.len() ==> q(#[trigger] d.pending[i])
}

proof fn lemma_labels_stage_nothing(d: DraftView, names: Seq<Name>, own: Seq<char>, place: Place)
    ensures
        with_labels(d, names, own, place).pending == d.pending,
    decreases names.len(),
{
    if names.len() > 0 {
        lemma_labels_stage_nothing(d, names.drop_last(), own, place);
    }
}

proof fn lemma_dispatch(
    d: DraftView,
    ctx: EmitView,
    t: TableView,
    fields: Seq<u64>,
    place: Place,
    len: int,
    n: int,
    q: spec_fn(PendingView) -> bool,
)
    requires
        0 <= n,
        all_from(d, n, q),
        forall|p: PendingView, k: int|
            0 <= k < fields.len() && of_dispatch(ctx, place, p, t, #[trigger] fields[k])
                ==> #[trigger] q(p),
    ensures
        all_from(with_dispatch(d, ctx, fields, t.name, place, len), n, q),
        with_dispatch(d, ctx, fields, t.name, place, len).pending.len() <= d.pending.len()
            + fields.len(),
    decreases fields.len(),
{
    if fields.len() > 0 {
        let init = fields.drop_last();
        let before = with_dispatch(d, ctx, init, t.name, place, len);
        let after = with_dispatch(d, ctx, fields, t.name, place, len);
        assert forall|p: PendingView, k: int|
            0 <= k < init.len() && of_dispatch(
                ctx,
                place,
                p,
                t,
                #[trigger] init[k],
            ) implies #[trigger] q(p) by {
            assert(init[k] == fields[k]);
        }
        lemma_dispatch(d, ctx, t, init, place, len, n, q);
        if after.pending.len() > before.pending.len() {
            let p = after.pending.last();
            assert(of_dispatch(ctx, place, p, t, fields[fields.len() - 1]));
            assert(q(p));
        }
        assert forall|i: int| n <= i < after.pending.len() implies q(
            #[trigger] after.pending[i],
        ) by {
            if i < before.pending.len() {
                assert(after.pending[i] == before.pending[i]);
                assert(q(before.pending[i]));
            }
        }
    }
}

proof fn lemma_cases(
    d: DraftView,
    ctx: EmitView,
    entries: Seq<JumpTableEntry>,
    width: u32,
    place: Place,
    len: int,
    n: int,
    q: spec_fn(PendingView) -> bool,
)
    requires
        0 <= n,
        all_from(d, n, q),
        forall|p: PendingView, k: int|
            0 <= k < entries.len() && of_case(ctx, place, p, width, #[trigger] entries[k])
                ==> #[trigger] q(p),
    ensures
        all_from(with_cases(d, ctx, entries, width, place, len), n, q),
        with_cases(d, ctx, entries, width, place, len).pending.len() <= d.pending.len()
            + entries.len(),
    decreases entries.len(),
{
    if entries.len() > 0 {
        let init = entries.drop_last();
        let before = with_cases(d, ctx, init, width, place, len);
        let after = with_cases(d, ctx, entries, width, place, len);
        assert forall|p: PendingView, k: int|
            0 <= k < init.len() && of_case(
                ctx,
                place,
                p,
                width,
                #[trigger] init[k],
            ) implies #[trigger] q(p) by {
            assert(init[k] == entries[k]);
        }
        lemma_cases(d, ctx, init, width, place, len, n, q);
        assert(after == with_case(before, ctx, entries.last(), width, place, len));
        if after.pending.len() > before.pending.len() {
            let p = after.pending.last();
            assert(of_case(ctx, place, p, width, entries[entries.len() - 1]));
            assert(q(p));
        }
        assert forall|i: int| n <= i < after.pending.len() implies q(
            #[trigger] after.pending[i],
        ) by {
            if i < before.pending.len() {
                assert(after.pending[i] == before.pending[i]);
                assert(q(before.pending[i]));
            }
        }
    }
}

/// How many fields and cases tables have.
pub open spec fn field_count(tables: Seq<TableView>) -> nat
    decreases tables.len(),
{
    if tables.len() == 0 {
        0
    } else {
        field_count(tables.drop_last()) + tables.last().fields().len()
            + tables.last().entries.len()
    }
}

proof fn lemma_tables(
    d: DraftView,
    ctx: EmitView,
    tables: Seq<TableView>,
    place: Place,
    len: int,
    n: int,
    q: spec_fn(PendingView) -> bool,
)
    requires
        0 <= n,
        all_from(d, n, q),
        forall|p: PendingView, k: int|
            0 <= k < tables.len() && of_table(ctx, place, p, #[trigger] tables[k])
                ==> #[trigger] q(p),
    ensures
        all_from(with_tables(d, ctx, tables, place, len), n, q),
        with_tables(d, ctx, tables, place, len).pending.len() <= d.pending.len() + field_count(
            tables,
        ),
    decreases tables.len(),
{
    if tables.len() > 0 {
        let init = tables.drop_last();
        let t = tables.last();
        let before = with_tables(d, ctx, init, place, len);
        assert forall|p: PendingView, k: int|
            0 <= k < init.len() && of_table(ctx, place, p, #[trigger] init[k]) implies #[trigger] q(
            p,
        ) by {
            assert(init[k] == tables[k]);
        }
        lemma_tables(d, ctx, init, place, len, n, q);
        let labelled = before.defining(
            t.name,
            crate::function_code::local_label(t.name, t.start, place),
        );
        assert(tables[tables.len() - 1] == t);
        assert forall|p: PendingView, k: int|
            0 <= k < t.fields().len() && of_dispatch(
                ctx,
                place,
                p,
                t,
                #[trigger] t.fields()[k],
            ) implies #[trigger] q(p) by {
            assert(of_table(ctx, place, p, tables[tables.len() - 1]));
        }
        lemma_dispatch(labelled, ctx, t, t.fields(), place, len, n, q);
        let dispatched = with_dispatch(labelled, ctx, t.fields(), t.name, place, len);
        assert forall|p: PendingView, k: int|
            0 <= k < t.entries.len() && of_case(
                ctx,
                place,
                p,
                t.entry_size,
                #[trigger] t.entries[k],
            ) implies #[trigger] q(p) by {
            assert(of_table(ctx, place, p, tables[tables.len() - 1]));
        }
        lemma_cases(dispatched, ctx, t.entries, t.entry_size, place, len, n, q);
    }
}

proof fn lemma_recovered(
    d: DraftView,
    ctx: EmitView,
    relocs: Seq<RecRelView>,
    place: Place,
    n: int,
    q: spec_fn(PendingView) -> bool,
)
    requires
        0 <= n,
        all_from(d, n, q),
        forall|p: PendingView, k: int|
            0 <= k < relocs.len() && of_recovered(ctx, place, p, #[trigger] relocs[k])
                ==> #[trigger] q(p),
    ensures
        all_from(with_recovered(d, ctx, relocs, place), n, q),
        with_recovered(d, ctx, relocs, place).pending.len() <= d.pending.len() + relocs.len(),
    decreases relocs.len(),
{
    if relocs.len() > 0 {
        let init = relocs.drop_last();
        let before = with_recovered(d, ctx, init, place);
        let after = with_recovered(d, ctx, relocs, place);
        assert forall|p: PendingView, k: int|
            0 <= k < init.len() && of_recovered(
                ctx,
                place,
                p,
                #[trigger] init[k],
            ) implies #[trigger] q(p) by {
            assert(init[k] == relocs[k]);
        }
        lemma_recovered(d, ctx, init, place, n, q);
        if after.pending.len() > before.pending.len() {
            let p = after.pending.last();
            assert(of_recovered(ctx, place, p, relocs[relocs.len() - 1]));
            assert(q(p));
        }
        assert forall|i: int| n <= i < after.pending.len() implies q(
            #[trigger] after.pending[i],
        ) by {
            if i < before.pending.len() {
                assert(after.pending[i] == before.pending[i]);
                assert(q(before.pending[i]));
            }
        }
    }
}

proof fn lemma_fixed(
    ctx: EmitView,
    place: Place,
    len: int,
    aside: Set<u64>,
    relocs: Seq<(u64, RelocView)>,
    i: int,
)
    requires
        0 <= i < fixed_pending(
            ctx,
            place.section as int,
            place.base,
            place.start,
            len,
            aside,
            relocs,
        ).len(),
        forall|k: int|
            0 <= k < relocs.len() ==> ctx.symbols.relocs.contains(#[trigger] relocs[k])
                && place.start <= relocs[k].0 < place.end,
    ensures
        exists|e: (u64, RelocView)| #[trigger]
            of_fixup(
                ctx,
                place,
                len,
                fixed_pending(
                    ctx,
                    place.section as int,
                    place.base,
                    place.start,
                    len,
                    aside,
                    relocs,
                )[i],
                e,
            ) && !aside.contains(e.0),
    decreases relocs.len(),
{
    let section = place.section as int;
    let all = fixed_pending(ctx, section, place.base, place.start, len, aside, relocs);
    let init = relocs.drop_last();
    let before = fixed_pending(ctx, section, place.base, place.start, len, aside, init);
    if i < before.len() {
        assert forall|k: int| 0 <= k < init.len() implies ctx.symbols.relocs.contains(
            #[trigger] init[k],
        ) && place.start <= init[k].0 < place.end by {
            assert(init[k] == relocs[k]);
        }
        lemma_fixed(ctx, place, len, aside, init, i);
        assert(all[i] == before[i]);
    } else {
        let e = relocs[relocs.len() - 1];
        assert(ctx.symbols.relocs.contains(e));
        assert(of_fixup(ctx, place, len, all[i], e));
    }
}

proof fn lemma_fixed_count(
    ctx: EmitView,
    section: int,
    base: u64,
    start: u64,
    len: int,
    aside: Set<u64>,
    relocs: Seq<(u64, RelocView)>,
)
    ensures
        fixed_pending(ctx, section, base, start, len, aside, relocs).len() <= relocs.len(),
    decreases relocs.len(),
{
    if relocs.len() > 0 {
        lemma_fixed_count(ctx, section, base, start, len, aside, relocs.drop_last());
    }
}

/// Whether a relocation is that of a field of a function: of a table, of a fixup that
/// is no field of a table, or of one that was recovered.
pub open spec fn of_function(
    ctx: EmitView,
    f: Function,
    tables: Seq<TableView>,
    image: Seq<u8>,
    place: Place,
    p: PendingView,
) -> bool {
    let relocs = function_recovered(ctx, f, tables, image).relocs;
    ||| exists|k: int| 0 <= k < tables.len() && of_table(ctx, place, p, #[trigger] tables[k])
    ||| exists|e: (u64, RelocView)| #[trigger]
        of_fixup(ctx, place, image.len() as int, p, e) && !in_switch(tables, e.0)
    ||| exists|k: int| 0 <= k < relocs.len() && of_recovered(ctx, place, p, #[trigger] relocs[k])
}

/// Each relocation that drafting a function stages is that of one of its fields, and
/// there are no more of them than fields.
pub proof fn lemma_only_fields_are_relocated(
    d: DraftView,
    ctx: EmitView,
    section: usize,
    f: Function,
    tables: Seq<TableView>,
    image: Seq<u8>,
    i: int,
)
    requires
        keys_increase(ctx.symbols.relocs),
        f.start <= f.end,
        section < d.sections.len(),
        d.sections[section as int].data.len() <= u64::MAX,
        d.pending.len() <= i < with_function_code(
            d,
            ctx,
            section,
            f,
            tables,
            image,
        ).pending.len(),
    ensures
        ({
            let after = with_function_code(d, ctx, section, f, tables, image);
            let end = end_with_tables(f.end, tables);
            let place = Place {
                section,
                base: d.sections[section as int].data.len() as u64,
                start: f.start,
                end,
            };
            &&& of_function(ctx, f, tables, image, place, after.pending[i])
            &&& after.pending.len() <= d.pending.len() + field_count(tables) + ctx.relocs(
                f.start,
                end,
            ).len() + function_recovered(ctx, f, tables, image).relocs.len()
        }),
{
    reveal(with_function_code);
    let after = with_function_code(d, ctx, section, f, tables, image);
    let end = end_with_tables(f.end, tables);
    lemma_end_with_tables(f.end, tables);
    let place = Place {
        section,
        base: d.sections[section as int].data.len() as u64,
        start: f.start,
        end,
    };
    let len = image.len() as int;
    let n = d.pending.len() as int;
    let q = |p: PendingView| of_function(ctx, f, tables, image, place, p);
    let bytes = crate::function_code::function_bytes(ctx, f, tables, image);
    let defined = d.with_data(section as int, bytes).defining(
        f.name@,
        crate::function_code::function_symbol(f, place),
    );
    let names = crate::sorting::key_window(ctx.names, f.start as int, end as int);
    let labelled = with_labels(defined, names, f.name@, place);
    lemma_labels_stage_nothing(defined, names, f.name@, place);
    let switched = with_tables(labelled, ctx, tables, place, len);
    lemma_tables(labelled, ctx, tables, place, len, n, q);
    let relocs = ctx.relocs(f.start, end);
    let aside = switch_fields(tables);
    let staged = fixed_pending(ctx, section as int, place.base, f.start, len, aside, relocs);
    let fixed = switched.staging_all(staged);
    lemma_fixed_count(ctx, section as int, place.base, f.start, len, aside, relocs);
    assert forall|k: int| 0 <= k < relocs.len() implies ctx.symbols.relocs.contains(
        #[trigger] relocs[k],
    ) && place.start <= relocs[k].0 < place.end by {
        assert(relocs.contains(relocs[k]));
        lemma_window(ctx.symbols.relocs, f.start as int, end as int, relocs[k]);
    }
    assert forall|k: int| n <= k < fixed.pending.len() implies q(#[trigger] fixed.pending[k]) by {
        let m = switched.pending.len() as int;
        if k < m {
            assert(q(switched.pending[k]));
        } else {
            lemma_fixed(ctx, place, len, aside, relocs, k - m);
            let e = choose|e: (u64, RelocView)| #[trigger]
                of_fixup(ctx, place, len, staged[k - m], e) && !aside.contains(e.0);
            lemma_switch_fields(tables, e.0);
            assert(of_fixup(ctx, place, len, fixed.pending[k], e));
        }
    }
    let found = function_recovered(ctx, f, tables, image).relocs;
    lemma_recovered(fixed, ctx, found, place, n, q);
    assert(after == with_recovered(fixed, ctx, found, place));
    assert(q(after.pending[i]));
}

} // verus!
