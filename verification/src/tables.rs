//! Switch tables of 32-bit x86 code.

use crate::bytes::{get_u32, le32, wrap64};
use crate::model::{holds, Function, IdaModel, JumpTable, JumpTableEntry, Section, TableView};
use crate::pe::{image_bytes, PeImage, SectionView};
use crate::seqs::{first, views};
use crate::sorting::{count_up_to, place_behind, sort_stably, stable_sort, HasKey, Keyed};
use crate::text::{digits, format_digits};
use crate::x86::{
    control_of, decode_control, decode_memory_operand, memory_operand_of, Control, InsnKind,
    MemoryOperand, Operand,
};
use vstd::prelude::*;

verus! {

/// A `jmp [index*4 + table]`: the table, the address of the instruction, and the
/// address of the field that encodes the table.
#[derive(Debug, Clone, Copy)]
pub struct Dispatch {
    pub table: u64,
    pub ip: u64,
    pub field: u64,
}

impl HasKey for Dispatch {
    open spec fn spec_key(&self) -> u64 {
        self.table
    }
}

impl Keyed for Dispatch {
    fn key(&self) -> (k: u64) {
        self.table
    }
}

/// The smaller of two addresses.
pub open spec fn lower_of(a: u64, b: u64) -> u64 {
    if a <= b {
        a
    } else {
        b
    }
}

/// The end of the section that holds `start`, or `end` where none does.
pub open spec fn section_limit(sections: Seq<Section>, start: u64, end: u64) -> u64 {
    match first(sections, holds(start)) {
        Some(s) => s.end,
        None => end,
    }
}

/// The start of the function behind `start`, no further than the section.
pub open spec fn next_function(
    sections: Seq<Section>,
    functions: Seq<Function>,
    start: u64,
    end: u64,
) -> u64 {
    let limit = section_limit(sections, start, end);
    let n = place_behind(functions, start);
    if n < functions.len() {
        lower_of(functions[n].start, limit)
    } else {
        limit
    }
}

/// Whether an instruction jumps through a table that lies from `start` up to
/// `next`, with the table's address in a 32-bit field.
pub open spec fn is_dispatch(
    control: Control,
    operand: MemoryOperand,
    start: u64,
    next: u64,
) -> bool {
    &&& !control.invalid
    &&& control.kind == InsnKind::Jmp
    &&& operand.first == Operand::Memory
    &&& operand.scale == 4
    &&& start <= operand.displacement < next
    &&& operand.displacement_size == 4
}

/// The dispatch that an instruction at `ip` is.
pub open spec fn dispatch_at(
    control: Control,
    operand: MemoryOperand,
    ip: u64,
    start: u64,
    next: u64,
) -> Option<Dispatch> {
    if is_dispatch(control, operand, start, next) {
        Some(
            Dispatch {
                table: operand.displacement,
                ip,
                field: wrap64(ip + operand.displacement_offset) as u64,
            },
        )
    } else {
        None
    }
}

/// `found` with the dispatches from `at` on; a table ends the code that is read.
pub open spec fn dispatches_from(
    code: Seq<u8>,
    start: u64,
    next: u64,
    at: int,
    code_end: u64,
    found: Seq<Dispatch>,
) -> Seq<Dispatch>
    decreases code.len() - at,
{
    let ip = wrap64(start + at) as u64;
    let control = control_of(code.skip(at), ip);
    let operand = memory_operand_of(code.skip(at), ip);
    if at >= code.len() || control.len == 0 || at + control.len > code.len() || ip >= code_end {
        found
    } else {
        match dispatch_at(control, operand, ip, start, next) {
            Some(dispatch) => dispatches_from(
                code,
                start,
                next,
                at + control.len,
                lower_of(code_end, dispatch.table),
                found.push(dispatch),
            ),
            None => dispatches_from(code, start, next, at + control.len, code_end, found),
        }
    }
}

/// The case pointers from `addr` up to `limit`, as long as the image holds them
/// and they lead into the function.
pub open spec fn entries_from(
    sections: Seq<SectionView>,
    base: u64,
    start: u64,
    end: u64,
    addr: int,
    limit: u64,
) -> Seq<JumpTableEntry>
    decreases limit - addr,
{
    if addr + 4 > limit {
        Seq::empty()
    } else {
        match image_bytes(sections, wrap64(addr - base) as u64, 4) {
            None => Seq::empty(),
            Some(raw) => {
                let target = le32(raw, 0);
                if !(start <= target < end) {
                    Seq::empty()
                } else {
                    seq![JumpTableEntry { addr: addr as u64, target: target as u64 }]
                        + entries_from(sections, base, start, end, addr + 4, limit)
                }
            },
        }
    }
}

/// The end of the dispatches from `i` on that share the table of the `i`th.
pub open spec fn run_end(ds: Seq<Dispatch>, i: int, j: int) -> int
    decreases ds.len() - j,
{
    if j < 0 || j >= ds.len() || ds[j].table != ds[i].table {
        j
    } else {
        run_end(ds, i, j + 1)
    }
}

pub open spec fn dispatch_fields_of(ds: Seq<Dispatch>) -> Seq<u64> {
    ds.map_values(|d: Dispatch| d.field)
}

/// The table of the dispatches from `i` up to `j`.
pub open spec fn table_of(
    ds: Seq<Dispatch>,
    i: int,
    j: int,
    start: u64,
    entries: Seq<JumpTableEntry>,
) -> TableView {
    TableView {
        owner: start,
        dispatch: ds[i].ip,
        dispatch_addr: Some(ds[i].field),
        dispatch_addrs: dispatch_fields_of(ds.subrange(i + 1, j)),
        start: ds[i].table,
        entry_size: 4,
        entries,
        name: "jpt_"@ + digits(ds[i].table as nat, 16, true),
    }
}

/// The tables of the dispatches from `i` on: each ends where the next begins, and
/// one without a case is none.
pub open spec fn tables_from(
    sections: Seq<SectionView>,
    base: u64,
    start: u64,
    end: u64,
    next: u64,
    ds: Seq<Dispatch>,
    i: int,
) -> Seq<TableView>
    decreases ds.len() - i,
{
    if i < 0 || i >= ds.len() {
        Seq::empty()
    } else {
        let j = run_end(ds, i, i + 1);
        let limit = if j < ds.len() {
            lower_of(ds[j].table, next)
        } else {
            next
        };
        let entries = entries_from(sections, base, start, end, ds[i].table as int, limit);
        if i < j <= ds.len() {
            let rest = tables_from(sections, base, start, end, next, ds, j);
            if entries.len() == 0 {
                rest
            } else {
                seq![table_of(ds, i, j, start, entries)] + rest
            }
        } else {
            Seq::empty()
        }
    }
}

/// The tables that the code of a function dispatches through.
pub open spec fn discovered_tables(
    code: Seq<u8>,
    start: u64,
    end: u64,
    model: IdaModel,
    sections: Seq<SectionView>,
) -> Seq<TableView> {
    let next = next_function(model.sections@, model.functions@, start, end);
    let ds = stable_sort(dispatches_from(code, start, next, 0, end, Seq::empty()));
    tables_from(sections, model.image_base, start, end, next, ds, 0)
}

/// The dispatch that an instruction at `ip`, decoded to `control` and `operand`,
/// is: a `jmp [index*4 + table]` whose table lies from `start` up to `next`.
pub fn dispatch_of(
    control: &Control,
    operand: &MemoryOperand,
    ip: u64,
    start: u64,
    next: u64,
) -> (r: Option<Dispatch>)
    ensures
        r == dispatch_at(*control, *operand, ip, start, next),
{
    if !control.invalid && control.kind == InsnKind::Jmp && operand.first == Operand::Memory
        && operand.scale == 4 && start <= operand.displacement && operand.displacement < next
        && operand.displacement_size == 4 {
        Some(
            Dispatch {
                table: operand.displacement,
                ip,
                field: ip.wrapping_add(operand.displacement_offset as u64),
            },
        )
    } else {
        None
    }
}

fn find_dispatches(code: &[u8], start: u64, end: u64, next: u64) -> (r: Vec<Dispatch>)
    ensures
        r@ == dispatches_from(code@, start, next, 0, end, Seq::empty()),
{
    let ghost all = dispatches_from(code@, start, next, 0, end, Seq::empty());
    let mut found: Vec<Dispatch> = Vec::new();
    let mut code_end: u64 = end;
    let mut at: usize = 0;
    while at < code.len()
        invariant_except_break
            at <= code@.len(),
            all == dispatches_from(code@, start, next, at as int, code_end, found@),
        ensures
            all == found@,
        decreases code@.len() - at,
    {
        let rest = vstd::slice::slice_subrange(code, at, code.len());
        assert(rest@ =~= code@.skip(at as int));
        let ip: u64 = start.wrapping_add(at as u64);
        let control = decode_control(rest, ip);
        if ip >= code_end {
            break;
        }
        let operand = decode_memory_operand(rest, ip);
        if let Some(dispatch) = dispatch_of(&control, &operand, ip, start, next) {
            found.push(dispatch);
            if dispatch.table < code_end {
                code_end = dispatch.table;
            }
        }
        at += control.len;
    }
    found
}

fn read_entries(pe: &PeImage, base: u64, start: u64, end: u64, table: u64, limit: u64) -> (r: Vec<
    JumpTableEntry,
>)
    ensures
        r@ == entries_from(pe.spec_sections(), base, start, end, table as int, limit),
{
    let ghost sections = pe.spec_sections();
    let ghost all = entries_from(sections, base, start, end, table as int, limit);
    let mut entries: Vec<JumpTableEntry> = Vec::new();
    let mut addr: u64 = table;
    assert(entries@ + all =~= all);
    while limit >= 4 && addr <= limit - 4
        invariant_except_break
            sections == pe.spec_sections(),
            all == entries@ + entries_from(sections, base, start, end, addr as int, limit),
        ensures
            all == entries@,
        decreases limit - addr,
    {
        let raw = match pe.data_at_rva(addr.wrapping_sub(base), 4) {
            Some(raw) => raw,
            None => {
                assert(entries@ =~= all);
                break;
            },
        };
        let target: u64 = get_u32(raw, 0) as u64;
        if target < start || target >= end {
            assert(entries@ =~= all);
            break;
        }
        let ghost before = entries@;
        let entry = JumpTableEntry { addr, target };
        entries.push(entry);
        assert(before + (seq![entry] + entries_from(
            sections,
            base,
            start,
            end,
            addr + 4,
            limit,
        )) =~= entries@ + entries_from(sections, base, start, end, addr + 4, limit));
        addr += 4;
    }
    assert(entries@ =~= all);
    entries
}

/// The tables that dispatches, in the order of their tables, lead to.
pub fn read_tables(
    pe: &PeImage,
    base: u64,
    start: u64,
    end: u64,
    next: u64,
    ds: &Vec<Dispatch>,
) -> (r: Vec<JumpTable>)
    ensures
        views(r@) == tables_from(pe.spec_sections(), base, start, end, next, ds@, 0),
{
    let ghost sections = pe.spec_sections();
    let ghost all = tables_from(sections, base, start, end, next, ds@, 0);
    let mut tables: Vec<JumpTable> = Vec::new();
    let mut i: usize = 0;
    assert(views(tables@) + all =~= all);
    while i < ds.len()
        invariant
            i <= ds@.len(),
            sections == pe.spec_sections(),
            all == views(tables@) + tables_from(
                sections,
                base,
                start,
                end,
                next,
                ds@,
                i as int,
            ),
        decreases ds@.len() - i,
    {
        let head = ds[i];
        let mut dispatch_addrs: Vec<u64> = Vec::new();
        let mut j: usize = i + 1;
        assert(dispatch_fields_of(ds@.subrange(i + 1, j as int)) =~= dispatch_addrs@);
        while j < ds.len() && ds[j].table == head.table
            invariant
                i < j <= ds@.len(),
                head == ds@[i as int],
                run_end(ds@, i as int, i + 1) == run_end(ds@, i as int, j as int),
                dispatch_addrs@ == dispatch_fields_of(ds@.subrange(i + 1, j as int)),
            decreases ds@.len() - j,
        {
            dispatch_addrs.push(ds[j].field);
            j += 1;
            assert(dispatch_addrs@ =~= dispatch_fields_of(ds@.subrange(i + 1, j as int)));
        }
        let table_limit: u64 = if j < ds.len() && ds[j].table <= next {
            ds[j].table
        } else {
            next
        };
        let entries = read_entries(pe, base, start, end, head.table, table_limit);
        let ghost rest = tables_from(sections, base, start, end, next, ds@, j as int);
        if entries.len() > 0 {
            let ghost before = tables@;
            let digits = format_digits(head.table, 16, true);
            let table = JumpTable {
                owner: start,
                dispatch: head.ip,
                dispatch_addr: Some(head.field),
                dispatch_addrs,
                start: head.table,
                entry_size: 4,
                entries,
                name: "jpt_".to_owned().concat(digits.as_str()),
            };
            tables.push(table);
            assert(table@ =~= table_of(ds@, i as int, j as int, start, entries@));
            assert(views(tables@) =~= views(before).push(table@));
            assert(views(before) + (seq![table@] + rest) =~= views(tables@) + rest);
        }
        i = j;
    }
    assert(views(tables@) =~= all);
    tables
}

/// Backward compatibility for exports without switch metadata: recognize the
/// conventional x86 `jmp [index*4 + table]` form and scan its absolute case
/// pointers.
pub fn discover_x86_jump_tables(
    bytes: &[u8],
    start: u64,
    end: u64,
    model: &IdaModel,
    pe: &PeImage,
) -> (r: Vec<JumpTable>)
    requires
        model.wf(),
    ensures
        views(r@) == discovered_tables(bytes@, start, end, *model, pe.spec_sections()),
{
    let limit: u64 = match model.section_for(start) {
        Some(section) => section.end,
        None => end,
    };
    let n: usize = count_up_to(&model.functions, start);
    let next: u64 = if n < model.functions.len() && model.functions[n].start <= limit {
        model.functions[n].start
    } else {
        limit
    };
    let found = find_dispatches(bytes, start, end, next);
    read_tables(pe, model.image_base, start, end, next, &sort_stably(found))
}

// ---------------------------------------------------------------------------
// Laws
// ---------------------------------------------------------------------------

proof fn lemma_entries_from(
    sections: Seq<SectionView>,
    base: u64,
    start: u64,
    end: u64,
    addr: int,
    limit: u64,
    k: int,
)
    requires
        0 <= addr,
        0 <= k < entries_from(sections, base, start, end, addr, limit).len(),
    ensures
        ({
            let e = entries_from(sections, base, start, end, addr, limit)[k];
            &&& e.addr == addr + 4 * k
            &&& addr + 4 * k + 4 <= limit
            &&& start <= e.target < end
        }),
    decreases limit - addr,
{
    if k > 0 {
        let entries = entries_from(sections, base, start, end, addr, limit);
        let rest = entries_from(sections, base, start, end, addr + 4, limit);
        assert(entries[k] == rest[k - 1]);
        lemma_entries_from(sections, base, start, end, addr + 4, limit, k - 1);
    }
}

/// Whether a table is sound: its owner is the function, it has cases, they stand
/// one behind the other up to `next`, and each leads into the function.
pub open spec fn is_sound(t: TableView, start: u64, end: u64, next: u64) -> bool {
    &&& t.owner == start
    &&& t.entry_size == 4
    &&& t.entries.len() > 0
    &&& t.name == "jpt_"@ + digits(t.start as nat, 16, true)
    &&& forall|k: int|
        0 <= k < t.entries.len() ==> (#[trigger] t.entries[k]).addr == t.start + 4 * k
            && t.entries[k].addr + 4 <= next && start <= t.entries[k].target < end
}

proof fn lemma_tables_from(
    sections: Seq<SectionView>,
    base: u64,
    start: u64,
    end: u64,
    next: u64,
    ds: Seq<Dispatch>,
    i: int,
    n: int,
)
    requires
        0 <= n < tables_from(sections, base, start, end, next, ds, i).len(),
    ensures
        is_sound(tables_from(sections, base, start, end, next, ds, i)[n], start, end, next),
    decreases ds.len() - i,
{
    let tables = tables_from(sections, base, start, end, next, ds, i);
    let j = run_end(ds, i, i + 1);
    let limit = if j < ds.len() {
        lower_of(ds[j].table, next)
    } else {
        next
    };
    let entries = entries_from(sections, base, start, end, ds[i].table as int, limit);
    let rest = tables_from(sections, base, start, end, next, ds, j);
    if entries.len() == 0 {
        lemma_tables_from(sections, base, start, end, next, ds, j, n);
    } else if n > 0 {
        assert(tables[n] == rest[n - 1]);
        lemma_tables_from(sections, base, start, end, next, ds, j, n - 1);
    } else {
        let t = tables[0];
        assert forall|k: int| 0 <= k < t.entries.len() implies (#[trigger] t.entries[k]).addr
            == t.start + 4 * k && t.entries[k].addr + 4 <= next && start <= t.entries[k].target
            < end by {
            lemma_entries_from(sections, base, start, end, ds[i].table as int, limit, k);
        }
    }
}

/// Every table that is discovered in a function has cases, one behind the other
/// and none behind the next function, that lead into the function.
pub proof fn lemma_discovered_tables_are_sound(
    code: Seq<u8>,
    start: u64,
    end: u64,
    model: IdaModel,
    sections: Seq<SectionView>,
    n: int,
)
    requires
        0 <= n < discovered_tables(code, start, end, model, sections).len(),
    ensures
        is_sound(
            discovered_tables(code, start, end, model, sections)[n],
            start,
            end,
            next_function(model.sections@, model.functions@, start, end),
        ),
{
    let next = next_function(model.sections@, model.functions@, start, end);
    let ds = stable_sort(dispatches_from(code, start, next, 0, end, Seq::empty()));
    lemma_tables_from(sections, model.image_base, start, end, next, ds, 0, n);
}

} // verus!
