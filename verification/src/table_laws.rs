//! What discovery finds: the table of every switch of a function, with every case,
//! and nothing else.

use crate::bytes::wrap64;
use crate::fixup_laws::value_of;
use crate::model::{Function, IdaModel, JumpTableEntry, Section, TableView};
use crate::pe::{image_bytes, SectionView};
use crate::sorting::{
    in_key_order, lemma_place_behind, lemma_stable_sort_contains, lemma_stable_sort_orders,
    place_behind, stable_sort, HasKey,
};
use crate::tables::{
    discovered_tables, dispatch_fields_of, dispatches_from, entries_from, lower_of, next_function,
    run_end, table_of, tables_from, Dispatch,
};
use crate::x86::{control_of, memory_operand_of, Control, InsnKind, MemoryOperand, Operand};
use vstd::prelude::*;

verus! {

// ---------------------------------------------------------------------------
// Switches
// ---------------------------------------------------------------------------

/// The address of the byte `at` bytes into the code at `start`.
pub open spec fn address_at(start: u64, at: int) -> u64 {
    wrap64(start + at) as u64
}

pub open spec fn control_at(code: Seq<u8>, start: u64, at: int) -> Control {
    control_of(code.skip(at), address_at(start, at))
}

pub open spec fn operand_at(code: Seq<u8>, start: u64, at: int) -> MemoryOperand {
    memory_operand_of(code.skip(at), address_at(start, at))
}

/// Where the instructions of the code begin, from `from` on one behind the other,
/// as far as they fit.
pub open spec fn places(code: Seq<u8>, start: u64, from: int) -> Seq<int>
    decreases code.len() - from,
{
    let len = control_at(code, start, from).len;
    if from < code.len() && 1 <= len && from + len <= code.len() {
        seq![from] + places(code, start, from + len)
    } else {
        Seq::empty()
    }
}

/// Whether an instruction is a `jmp [index*4 + table]` with the table in a field
/// of 32 bits, for a table from `start` up to `next`.
pub open spec fn jumps_through(code: Seq<u8>, start: u64, next: u64, at: int) -> bool {
    let operand = operand_at(code, start, at);
    &&& !control_at(code, start, at).invalid
    &&& control_at(code, start, at).kind == InsnKind::Jmp
    &&& operand.first == Operand::Memory
    &&& operand.scale == 4
    &&& operand.displacement_size == 4
    &&& start <= operand.displacement < next
}

/// The table that an instruction jumps through.
pub open spec fn table_at(code: Seq<u8>, start: u64, at: int) -> u64 {
    operand_at(code, start, at).displacement
}

/// The address of the field that holds the table's address.
pub open spec fn field_at(code: Seq<u8>, start: u64, at: int) -> u64 {
    wrap64(address_at(start, at) + operand_at(code, start, at).displacement_offset) as u64
}

/// Whether the instructions up to the `k`th are code: they stand below `end`, and
/// below every table that one before them jumps through.
pub open spec fn is_code(
    code: Seq<u8>,
    start: u64,
    end: u64,
    next: u64,
    all: Seq<int>,
    k: int,
) -> bool {
    forall|m: int|
        0 <= m <= k ==> address_at(start, #[trigger] all[m]) < end && forall|q: int|
            0 <= q < m && jumps_through(code, start, next, #[trigger] all[q]) ==> address_at(
                start,
                all[m],
            ) < table_at(code, start, all[q])
}

/// Whether the `k`th instruction is a switch.
pub open spec fn is_switch(
    code: Seq<u8>,
    start: u64,
    end: u64,
    next: u64,
    all: Seq<int>,
    k: int,
) -> bool {
    &&& 0 <= k < all.len()
    &&& is_code(code, start, end, next, all, k)
    &&& jumps_through(code, start, next, all[k])
}

pub open spec fn dispatch_of_switch(code: Seq<u8>, start: u64, at: int) -> Dispatch {
    Dispatch {
        table: table_at(code, start, at),
        ip: address_at(start, at),
        field: field_at(code, start, at),
    }
}

/// The dispatches from `at` on are `found` and those of the switches.
#[verifier::spinoff_prover]
#[verifier::rlimit(50)]
proof fn lemma_dispatches(
    code: Seq<u8>,
    start: u64,
    next: u64,
    at: int,
    code_end: u64,
    found: Seq<Dispatch>,
    d: Dispatch,
)
    requires
        0 <= at <= code.len(),
    ensures
        dispatches_from(code, start, next, at, code_end, found).contains(d) <==> found.contains(d)
            || exists|k: int| #[trigger]
            is_switch(code, start, code_end, next, places(code, start, at), k) && d
                == dispatch_of_switch(code, start, places(code, start, at)[k]),
    decreases code.len() - at,
{
    let all = places(code, start, at);
    let ds = dispatches_from(code, start, next, at, code_end, found);
    let control = control_at(code, start, at);
    let ip = address_at(start, at);
    if all.len() == 0 {
        assert(ds == found);
    } else if ip >= code_end {
        assert(ds == found);
        assert forall|k: int| !#[trigger] is_switch(code, start, code_end, next, all, k) by {
            if is_switch(code, start, code_end, next, all, k) {
                assert(address_at(start, all[0]) < code_end);
            }
        }
    } else {
        let rest = places(code, start, at + control.len);
        let is_jump = jumps_through(code, start, next, at);
        let first = dispatch_of_switch(code, start, at);
        let table = table_at(code, start, at);
        let later_end = if is_jump {
            lower_of(code_end, table)
        } else {
            code_end
        };
        let later_found = if is_jump {
            found.push(first)
        } else {
            found
        };
        lemma_dispatches(code, start, next, at + control.len, later_end, later_found, d);
        assert(ds == dispatches_from(
            code,
            start,
            next,
            at + control.len,
            later_end,
            later_found,
        ));
        assert(all[0] == at);
        assert forall|k: int| 0 <= k < rest.len() implies #[trigger] rest[k] == all[k + 1] by {}
        assert forall|k: int| #[trigger] is_switch(
            code,
            start,
            later_end,
            next,
            rest,
            k,
        ) implies is_switch(code, start, code_end, next, all, k + 1) by {
            assert(rest[k] == all[k + 1]);
            assert forall|m: int| 0 <= m <= k + 1 implies address_at(start, #[trigger] all[m])
                < code_end && forall|q: int|
                0 <= q < m && jumps_through(code, start, next, #[trigger] all[q]) ==> address_at(
                    start,
                    all[m],
                ) < table_at(code, start, all[q]) by {
                if m > 0 {
                    assert(rest[m - 1] == all[m]);
                    assert(address_at(start, rest[m - 1]) < later_end);
                    assert forall|q: int|
                        0 <= q < m && jumps_through(
                            code,
                            start,
                            next,
                            #[trigger] all[q],
                        ) implies address_at(start, all[m]) < table_at(code, start, all[q]) by {
                        if q > 0 {
                            assert(rest[q - 1] == all[q]);
                        }
                    }
                }
            }
        }
        assert forall|k: int| k > 0 && #[trigger] is_switch(
            code,
            start,
            code_end,
            next,
            all,
            k,
        ) implies is_switch(code, start, later_end, next, rest, k - 1) by {
            assert(rest[k - 1] == all[k]);
            assert forall|m: int| 0 <= m <= k - 1 implies address_at(start, #[trigger] rest[m])
                < later_end && forall|q: int|
                0 <= q < m && jumps_through(code, start, next, #[trigger] rest[q]) ==> address_at(
                    start,
                    rest[m],
                ) < table_at(code, start, rest[q]) by {
                assert(rest[m] == all[m + 1]);
                assert(address_at(start, all[m + 1]) < code_end);
                if is_jump {
                    assert(address_at(start, all[m + 1]) < table_at(code, start, all[0]));
                }
                assert forall|q: int|
                    0 <= q < m && jumps_through(
                        code,
                        start,
                        next,
                        #[trigger] rest[q],
                    ) implies address_at(start, rest[m]) < table_at(code, start, rest[q]) by {
                    assert(rest[q] == all[q + 1]);
                }
            }
        }
        if is_jump {
            assert(is_switch(code, start, code_end, next, all, 0));
            assert(later_found[found.len() as int] == first);
            if found.contains(d) {
                let i = choose|i: int| 0 <= i < found.len() && found[i] == d;
                assert(later_found[i] == d);
            }
            if later_found.contains(d) && d != first {
                let i = choose|i: int| 0 <= i < later_found.len() && later_found[i] == d;
                assert(found[i] == d);
            }
        }
        if ds.contains(d) && !found.contains(d) {
            if is_jump && d == first {
                assert(is_switch(code, start, code_end, next, all, 0));
            } else {
                let k = choose|k: int| #[trigger]
                    is_switch(code, start, later_end, next, rest, k) && d == dispatch_of_switch(
                        code,
                        start,
                        rest[k],
                    );
                assert(is_switch(code, start, code_end, next, all, k + 1));
            }
        }
        if exists|k: int| #[trigger]
            is_switch(code, start, code_end, next, all, k) && d == dispatch_of_switch(
                code,
                start,
                all[k],
            ) {
            let k = choose|k: int| #[trigger]
                is_switch(code, start, code_end, next, all, k) && d == dispatch_of_switch(
                    code,
                    start,
                    all[k],
                );
            if k > 0 {
                assert(is_switch(code, start, later_end, next, rest, k - 1));
                assert(d == dispatch_of_switch(code, start, rest[k - 1]));
            }
        }
    }
}

// ---------------------------------------------------------------------------
// Cases
// ---------------------------------------------------------------------------

/// The case that the image has at an address: a pointer of four bytes into the
/// function.
pub open spec fn case_at(
    sections: Seq<SectionView>,
    base: u64,
    start: u64,
    end: u64,
    address: int,
) -> Option<u64> {
    match image_bytes(sections, wrap64(address - base) as u64, 4) {
        None => None,
        Some(bytes) => if start <= value_of(bytes, 4) < end {
            Some(value_of(bytes, 4) as u64)
        } else {
            None
        },
    }
}

proof fn lemma_case_at(
    sections: Seq<SectionView>,
    base: u64,
    start: u64,
    end: u64,
    address: int,
)
    ensures
        match image_bytes(sections, wrap64(address - base) as u64, 4) {
            None => case_at(sections, base, start, end, address) is None,
            Some(raw) => {
                let target = crate::bytes::le32(raw, 0);
                case_at(sections, base, start, end, address) == if start <= target < end {
                    Some(target as u64)
                } else {
                    None
                }
            },
        },
{
    reveal_with_fuel(value_of, 5);
    if let Some(raw) = image_bytes(sections, wrap64(address - base) as u64, 4) {
        let s1 = raw.skip(1);
        let s2 = s1.skip(1);
        let s3 = s2.skip(1);
        assert(raw.len() == 4);
        assert(s1[0] == raw[1] && s2[0] == raw[2] && s3[0] == raw[3]);
    }
}

proof fn lemma_entries(
    sections: Seq<SectionView>,
    base: u64,
    start: u64,
    end: u64,
    addr: int,
    limit: u64,
)
    requires
        0 <= addr,
    ensures
        ({
            let entries = entries_from(sections, base, start, end, addr, limit);
            let n = entries.len() as int;
            &&& forall|k: int|
                0 <= k < n ==> {
                    &&& (#[trigger] entries[k]).addr == addr + 4 * k
                    &&& addr + 4 * k + 4 <= limit
                    &&& case_at(sections, base, start, end, addr + 4 * k) == Some(
                        entries[k].target,
                    )
                }
            &&& addr + 4 * n + 4 > limit || case_at(sections, base, start, end, addr + 4 * n)
                is None
        }),
    decreases limit - addr,
{
    let entries = entries_from(sections, base, start, end, addr, limit);
    lemma_case_at(sections, base, start, end, addr);
    if addr + 4 <= limit && case_at(sections, base, start, end, addr) is Some {
        let rest = entries_from(sections, base, start, end, addr + 4, limit);
        lemma_entries(sections, base, start, end, addr + 4, limit);
        assert forall|k: int| 0 <= k < entries.len() implies {
            &&& (#[trigger] entries[k]).addr == addr + 4 * k
            &&& addr + 4 * k + 4 <= limit
            &&& case_at(sections, base, start, end, addr + 4 * k) == Some(entries[k].target)
        } by {
            if k > 0 {
                assert(entries[k] == rest[k - 1]);
                assert(addr + 4 + 4 * (k - 1) == addr + 4 * k);
            }
        }
        assert(addr + 4 + 4 * rest.len() == addr + 4 * entries.len());
    } else {
        assert(entries.len() == 0);
    }
}

proof fn lemma_run_end(ds: Seq<Dispatch>, i: int, j: int)
    requires
        0 <= i < j <= ds.len(),
        forall|k: int| i <= k < j ==> (#[trigger] ds[k]).table == ds[i].table,
    ensures
        j <= run_end(ds, i, j) <= ds.len(),
        forall|k: int| i <= k < run_end(ds, i, j) ==> (#[trigger] ds[k]).table == ds[i].table,
        run_end(ds, i, j) < ds.len() ==> ds[run_end(ds, i, j)].table != ds[i].table,
    decreases ds.len() - j,
{
    if j < ds.len() && ds[j].table == ds[i].table {
        lemma_run_end(ds, i, j + 1);
    }
}

/// Whether a table is that of the dispatches with its start: it has all of their
/// fields and no other, all the cases that stand one behind the other up to
/// `next` and to the next table, and no other.
pub open spec fn is_table_of(
    t: TableView,
    sections: Seq<SectionView>,
    base: u64,
    start: u64,
    end: u64,
    next: u64,
    ds: Seq<Dispatch>,
) -> bool {
    let n = t.entries.len() as int;
    &&& forall|m: int|
        0 <= m < ds.len() && (#[trigger] ds[m]).table == t.start ==> t.fields().contains(
            ds[m].field,
        )
    &&& forall|f: u64| #[trigger]
        t.fields().contains(f) ==> exists|m: int|
            0 <= m < ds.len() && (#[trigger] ds[m]).table == t.start && ds[m].field == f
    &&& exists|m: int|
        0 <= m < ds.len() && (#[trigger] ds[m]).table == t.start && ds[m].ip == t.dispatch
            && Some(ds[m].field) == t.dispatch_addr
    &&& n > 0
    &&& forall|k: int|
        0 <= k < n ==> {
            &&& (#[trigger] t.entries[k]).addr == t.start + 4 * k
            &&& case_at(sections, base, start, end, t.start + 4 * k) == Some(t.entries[k].target)
        }
    &&& t.start + 4 * n <= next
    &&& forall|m: int|
        0 <= m < ds.len() && (#[trigger] ds[m]).table > t.start ==> t.start + 4 * n <= ds[m].table
    &&& {
        ||| t.start + 4 * n + 4 > next
        ||| exists|m: int|
            0 <= m < ds.len() && t.start < (#[trigger] ds[m]).table < t.start + 4 * n + 4
        ||| case_at(sections, base, start, end, t.start + 4 * n) is None
    }
}

/// Whether a dispatch leads to a case: the image has one at the start of the
/// table, below `next` and the next table.
pub open spec fn leads_to_case(
    sections: Seq<SectionView>,
    base: u64,
    start: u64,
    end: u64,
    next: u64,
    ds: Seq<Dispatch>,
    table: u64,
) -> bool {
    &&& case_at(sections, base, start, end, table as int) is Some
    &&& table + 4 <= next
    &&& forall|m: int|
        0 <= m < ds.len() && (#[trigger] ds[m]).table > table ==> table + 4 <= ds[m].table
}

/// Whether the tables are those of the dispatches from `i` on, in address order.
pub open spec fn are_tables_of(
    tables: Seq<TableView>,
    sections: Seq<SectionView>,
    base: u64,
    start: u64,
    end: u64,
    next: u64,
    ds: Seq<Dispatch>,
    i: int,
) -> bool {
    &&& forall|n: int|
        0 <= n < tables.len() ==> is_table_of(
            #[trigger] tables[n],
            sections,
            base,
            start,
            end,
            next,
            ds,
        )
    &&& forall|n: int|
        0 <= n < tables.len() ==> exists|m: int|
            i <= m < ds.len() && (#[trigger] ds[m]).table == (#[trigger] tables[n]).start
    &&& forall|m: int|
        i <= m < ds.len() && leads_to_case(
            sections,
            base,
            start,
            end,
            next,
            ds,
            (#[trigger] ds[m]).table,
        ) ==> exists|n: int| 0 <= n < tables.len() && (#[trigger] tables[n]).start == ds[m].table
    &&& forall|a: int, b: int|
        0 <= a < b < tables.len() ==> (#[trigger] tables[a]).start < (#[trigger] tables[b]).start
}

#[verifier::spinoff_prover]
#[verifier::rlimit(50)]
proof fn lemma_tables(
    sections: Seq<SectionView>,
    base: u64,
    start: u64,
    end: u64,
    next: u64,
    ds: Seq<Dispatch>,
    i: int,
)
    requires
        in_key_order(ds),
        0 <= i <= ds.len(),
        forall|a: int, b: int|
            0 <= a < i <= b < ds.len() ==> (#[trigger] ds[a]).table < (#[trigger] ds[b]).table,
    ensures
        are_tables_of(
            tables_from(sections, base, start, end, next, ds, i),
            sections,
            base,
            start,
            end,
            next,
            ds,
            i,
        ),
    decreases ds.len() - i,
{
    let tables = tables_from(sections, base, start, end, next, ds, i);
    if i < ds.len() {
        lemma_run_end(ds, i, i + 1);
        let j = run_end(ds, i, i + 1);
        let limit = if j < ds.len() {
            lower_of(ds[j].table, next)
        } else {
            next
        };
        let table = ds[i].table;
        let entries = entries_from(sections, base, start, end, table as int, limit);
        let rest = tables_from(sections, base, start, end, next, ds, j);
        lemma_entries(sections, base, start, end, table as int, limit);
        assert forall|a: int, b: int| 0 <= a < j <= b < ds.len() implies (#[trigger] ds[a]).table
            < (#[trigger] ds[b]).table by {
            assert(ds[j].table != ds[i].table);
            assert(ds[i].spec_key() <= ds[j].spec_key());
            if b > j {
                assert(ds[j].spec_key() <= ds[b].spec_key());
            }
        }
        lemma_tables(sections, base, start, end, next, ds, j);
        assert forall|m: int| 0 <= m < ds.len() && (#[trigger] ds[m]).table == table implies i <= m
            < j by {
            if m >= j {
                assert(ds[i].table < ds[m].table);
            }
        }
        assert forall|m: int| 0 <= m < ds.len() && (#[trigger] ds[m]).table > table implies limit
            <= ds[m].table by {
            if m < i {
                assert(ds[m].table < ds[i].table);
            }
            assert(m >= j);
            if m > j {
                assert(ds[j].spec_key() <= ds[m].spec_key());
            }
        }
        assert forall|m: int| i <= m < ds.len() && leads_to_case(
            sections,
            base,
            start,
            end,
            next,
            ds,
            (#[trigger] ds[m]).table,
        ) implies exists|n: int|
            0 <= n < tables.len() && (#[trigger] tables[n]).start == ds[m].table by {
            if m < j {
                assert(ds[m].table == table);
                if j < ds.len() {
                    assert(ds[i].table < ds[j].table);
                }
                assert(table + 4 <= limit);
                assert(table + 4 * 0 == table);
                assert(entries.len() > 0);
                assert(tables[0].start == table);
            } else {
                let n = choose|n: int|
                    0 <= n < rest.len() && (#[trigger] rest[n]).start == ds[m].table;
                if entries.len() == 0 {
                    assert(tables[n].start == ds[m].table);
                } else {
                    assert(tables[n + 1] == rest[n]);
                }
            }
        }
        if entries.len() > 0 {
            let t = table_of(ds, i, j, start, entries);
            assert(tables == seq![t] + rest);
            lemma_table_fields(ds, i, j, start, entries);
            let n = entries.len() as int;
            assert(entries[n - 1].addr == table + 4 * (n - 1));
            assert(table + 4 * (n - 1) + 4 <= limit);
            assert forall|k: int| 0 <= k < n implies {
                &&& (#[trigger] t.entries[k]).addr == t.start + 4 * k
                &&& case_at(sections, base, start, end, t.start + 4 * k) == Some(
                    t.entries[k].target,
                )
            } by {
                assert(entries[k].addr == table + 4 * k);
            }
            assert forall|m: int| 0 <= m < ds.len() && (#[trigger] ds[m]).table
                == t.start implies t.fields().contains(ds[m].field) by {
                assert(i <= m < j);
            }
            assert(ds[i].table == t.start && ds[i].ip == t.dispatch && Some(ds[i].field)
                == t.dispatch_addr);
            if t.start + 4 * n + 4 <= next && case_at(
                sections,
                base,
                start,
                end,
                t.start + 4 * n,
            ) is Some {
                assert(t.start < ds[j].table < t.start + 4 * n + 4);
            }
            assert(is_table_of(t, sections, base, start, end, next, ds));
            assert forall|k: int| 0 <= k < tables.len() implies is_table_of(
                #[trigger] tables[k],
                sections,
                base,
                start,
                end,
                next,
                ds,
            ) by {
                if k > 0 {
                    assert(tables[k] == rest[k - 1]);
                }
            }
            assert forall|k: int| 0 <= k < tables.len() implies exists|m: int|
                i <= m < ds.len() && (#[trigger] ds[m]).table == (
                #[trigger] tables[k]).start by {
                if k > 0 {
                    assert(tables[k] == rest[k - 1]);
                    let m = choose|m: int|
                        j <= m < ds.len() && (#[trigger] ds[m]).table == rest[k - 1].start;
                    assert(ds[m].table == tables[k].start);
                } else {
                    assert(ds[i].table == tables[0].start);
                }
            }
            assert forall|a: int, b: int| 0 <= a < b < tables.len() implies (
            #[trigger] tables[a]).start < (#[trigger] tables[b]).start by {
                assert(tables[b] == rest[b - 1]);
                if a > 0 {
                    assert(tables[a] == rest[a - 1]);
                } else {
                    let m = choose|m: int|
                        j <= m < ds.len() && (#[trigger] ds[m]).table == rest[b - 1].start;
                    assert(ds[i].table < ds[m].table);
                }
            }
        } else {
            assert(tables == rest);
            assert forall|n: int| 0 <= n < tables.len() implies exists|m: int|
                i <= m < ds.len() && (#[trigger] ds[m]).table == (
                #[trigger] tables[n]).start by {
                let m = choose|m: int|
                    j <= m < ds.len() && (#[trigger] ds[m]).table == rest[n].start;
                assert(ds[m].table == tables[n].start);
            }
        }
    }
}

proof fn lemma_table_fields(
    ds: Seq<Dispatch>,
    i: int,
    j: int,
    start: u64,
    entries: Seq<JumpTableEntry>,
)
    requires
        0 <= i < j <= ds.len(),
        forall|k: int| i <= k < j ==> (#[trigger] ds[k]).table == ds[i].table,
    ensures
        ({
            let fields = table_of(ds, i, j, start, entries).fields();
            &&& forall|m: int| i <= m < j ==> fields.contains((#[trigger] ds[m]).field)
            &&& forall|f: u64| #[trigger]
                fields.contains(f) ==> exists|m: int|
                    0 <= m < ds.len() && (#[trigger] ds[m]).table == ds[i].table && ds[m].field
                        == f
        }),
{
    let t = table_of(ds, i, j, start, entries);
    let fields = t.fields();
    let more = dispatch_fields_of(ds.subrange(i + 1, j));
    assert(fields == seq![ds[i].field] + more);
    assert forall|m: int| i <= m < j implies fields.contains((#[trigger] ds[m]).field) by {
        if m > i {
            assert(more[m - i - 1] == ds.subrange(i + 1, j)[m - i - 1].field);
        }
        assert(fields[m - i] == ds[m].field);
    }
    assert forall|f: u64| #[trigger] fields.contains(f) implies exists|m: int|
        0 <= m < ds.len() && (#[trigger] ds[m]).table == ds[i].table && ds[m].field == f by {
        let k = choose|k: int| 0 <= k < fields.len() && fields[k] == f;
        if k > 0 {
            assert(more[k - 1] == ds.subrange(i + 1, j)[k - 1].field);
        }
        assert(ds[i + k].field == f);
        assert(ds[i + k].table == ds[i].table);
    }
}

// ---------------------------------------------------------------------------
// Laws
// ---------------------------------------------------------------------------

#[verifier::spinoff_prover]
#[verifier::rlimit(50)]
proof fn lemma_discovered(
    code: Seq<u8>,
    start: u64,
    end: u64,
    model: IdaModel,
    sections: Seq<SectionView>,
)
    ensures
        ({
            let next = next_function(model.sections@, model.functions@, start, end);
            are_tables_of(
                discovered_tables(code, start, end, model, sections),
                sections,
                model.image_base,
                start,
                end,
                next,
                stable_sort(dispatches_from(code, start, next, 0, end, Seq::empty())),
                0,
            )
        }),
{
    let next = next_function(model.sections@, model.functions@, start, end);
    let found = dispatches_from(code, start, next, 0, end, Seq::empty());
    lemma_stable_sort_orders(found);
    lemma_tables(sections, model.image_base, start, end, next, stable_sort(found), 0);
}

proof fn lemma_sorted_dispatches(
    code: Seq<u8>,
    start: u64,
    end: u64,
    next: u64,
    d: Dispatch,
)
    ensures
        stable_sort(dispatches_from(code, start, next, 0, end, Seq::empty())).contains(d)
            <==> exists|k: int| #[trigger]
            is_switch(code, start, end, next, places(code, start, 0), k) && d
                == dispatch_of_switch(code, start, places(code, start, 0)[k]),
{
    lemma_stable_sort_contains(dispatches_from(code, start, next, 0, end, Seq::empty()), d);
    lemma_dispatches(code, start, next, 0, end, Seq::empty(), d);
}

/// Every switch of a function is discovered: where the image has a case at the
/// start of the table that it jumps through, below the next function and every
/// other table behind it, there is a table with that start, and the field of the
/// switch is one of its fields.
#[verifier::spinoff_prover]
#[verifier::rlimit(50)]
pub proof fn lemma_every_switch_is_discovered(
    code: Seq<u8>,
    start: u64,
    end: u64,
    model: IdaModel,
    sections: Seq<SectionView>,
    k: int,
)
    requires
        ({
            let next = next_function(model.sections@, model.functions@, start, end);
            let all = places(code, start, 0);
            let table = table_at(code, start, all[k]);
            &&& is_switch(code, start, end, next, all, k)
            &&& case_at(sections, model.image_base, start, end, table as int) is Some
            &&& table + 4 <= next
            &&& forall|m: int| #[trigger]
                is_switch(code, start, end, next, all, m) && table < table_at(code, start, all[m])
                    ==> table + 4 <= table_at(code, start, all[m])
        }),
    ensures
        exists|n: int|
            0 <= n < discovered_tables(code, start, end, model, sections).len() && (
            #[trigger] discovered_tables(code, start, end, model, sections)[n]).start == table_at(
                code,
                start,
                places(code, start, 0)[k],
            ) && discovered_tables(code, start, end, model, sections)[n].fields().contains(
                field_at(code, start, places(code, start, 0)[k]),
            ),
{
    let next = next_function(model.sections@, model.functions@, start, end);
    let all = places(code, start, 0);
    let ds = stable_sort(dispatches_from(code, start, next, 0, end, Seq::empty()));
    let tables = discovered_tables(code, start, end, model, sections);
    let d = dispatch_of_switch(code, start, all[k]);
    lemma_discovered(code, start, end, model, sections);
    lemma_sorted_dispatches(code, start, end, next, d);
    let i = choose|i: int| 0 <= i < ds.len() && ds[i] == d;
    assert forall|m: int| 0 <= m < ds.len() && (#[trigger] ds[m]).table > d.table implies d.table
        + 4 <= ds[m].table by {
        lemma_sorted_dispatches(code, start, end, next, ds[m]);
        assert(ds.contains(ds[m]));
        let q = choose|q: int| #[trigger]
            is_switch(code, start, end, next, all, q) && ds[m] == dispatch_of_switch(
                code,
                start,
                all[q],
            );
        assert(is_switch(code, start, end, next, all, q));
    }
    assert(leads_to_case(sections, model.image_base, start, end, next, ds, ds[i].table));
    let n = choose|n: int| 0 <= n < tables.len() && (#[trigger] tables[n]).start == ds[i].table;
    assert(is_table_of(tables[n], sections, model.image_base, start, end, next, ds));
    assert(tables[n].fields().contains(ds[i].field));
}

/// Every table that is discovered is one that a switch of the function jumps
/// through: its fields are those of such switches, its first field that of the
/// switch at its dispatch.
#[verifier::spinoff_prover]
#[verifier::rlimit(50)]
pub proof fn lemma_tables_stem_from_switches(
    code: Seq<u8>,
    start: u64,
    end: u64,
    model: IdaModel,
    sections: Seq<SectionView>,
    n: int,
    field: u64,
)
    requires
        0 <= n < discovered_tables(code, start, end, model, sections).len(),
        discovered_tables(code, start, end, model, sections)[n].fields().contains(field),
    ensures
        ({
            let t = discovered_tables(code, start, end, model, sections)[n];
            let next = next_function(model.sections@, model.functions@, start, end);
            let all = places(code, start, 0);
            &&& exists|k: int| #[trigger]
                is_switch(code, start, end, next, all, k) && table_at(code, start, all[k])
                    == t.start && field_at(code, start, all[k]) == field
            &&& exists|k: int| #[trigger]
                is_switch(code, start, end, next, all, k) && table_at(code, start, all[k])
                    == t.start && address_at(start, all[k]) == t.dispatch && Some(
                    field_at(code, start, all[k]),
                ) == t.dispatch_addr
        }),
{
    let next = next_function(model.sections@, model.functions@, start, end);
    let all = places(code, start, 0);
    let ds = stable_sort(dispatches_from(code, start, next, 0, end, Seq::empty()));
    let t = discovered_tables(code, start, end, model, sections)[n];
    lemma_discovered(code, start, end, model, sections);
    assert(is_table_of(t, sections, model.image_base, start, end, next, ds));
    let m = choose|m: int|
        0 <= m < ds.len() && (#[trigger] ds[m]).table == t.start && ds[m].field == field;
    assert(ds.contains(ds[m]));
    lemma_sorted_dispatches(code, start, end, next, ds[m]);
    let h = choose|m: int|
        0 <= m < ds.len() && (#[trigger] ds[m]).table == t.start && ds[m].ip == t.dispatch
            && Some(ds[m].field) == t.dispatch_addr;
    assert(ds.contains(ds[h]));
    lemma_sorted_dispatches(code, start, end, next, ds[h]);
}

/// The cases of a table are what the image has there: pointers into the function,
/// one behind the other from the start of the table, up to the first that is none
/// or reaches behind the next function or the next table.
#[verifier::spinoff_prover]
#[verifier::rlimit(50)]
pub proof fn lemma_every_case_is_read(
    code: Seq<u8>,
    start: u64,
    end: u64,
    model: IdaModel,
    sections: Seq<SectionView>,
    i: int,
)
    requires
        0 <= i < discovered_tables(code, start, end, model, sections).len(),
    ensures
        ({
            let t = discovered_tables(code, start, end, model, sections)[i];
            let next = next_function(model.sections@, model.functions@, start, end);
            let all = places(code, start, 0);
            let base = model.image_base;
            let n = t.entries.len() as int;
            &&& n > 0
            &&& forall|k: int|
                0 <= k < n ==> {
                    &&& (#[trigger] t.entries[k]).addr == t.start + 4 * k
                    &&& case_at(sections, base, start, end, t.start + 4 * k) == Some(
                        t.entries[k].target,
                    )
                }
            &&& t.start + 4 * n <= next
            &&& forall|k: int| #[trigger]
                is_switch(code, start, end, next, all, k) && t.start < table_at(
                    code,
                    start,
                    all[k],
                ) ==> t.start + 4 * n <= table_at(code, start, all[k])
            &&& {
                ||| t.start + 4 * n + 4 > next
                ||| exists|k: int| #[trigger]
                    is_switch(code, start, end, next, all, k) && t.start < table_at(
                        code,
                        start,
                        all[k],
                    ) < t.start + 4 * n + 4
                ||| case_at(sections, base, start, end, t.start + 4 * n) is None
            }
        }),
{
    let next = next_function(model.sections@, model.functions@, start, end);
    let all = places(code, start, 0);
    let ds = stable_sort(dispatches_from(code, start, next, 0, end, Seq::empty()));
    let t = discovered_tables(code, start, end, model, sections)[i];
    let n = t.entries.len() as int;
    lemma_discovered(code, start, end, model, sections);
    assert(is_table_of(t, sections, model.image_base, start, end, next, ds));
    assert forall|k: int| #[trigger]
        is_switch(code, start, end, next, all, k) && t.start < table_at(
            code,
            start,
            all[k],
        ) implies t.start + 4 * n <= table_at(code, start, all[k]) by {
        let d = dispatch_of_switch(code, start, all[k]);
        lemma_sorted_dispatches(code, start, end, next, d);
        let m = choose|m: int| 0 <= m < ds.len() && ds[m] == d;
        assert(ds[m].table > t.start);
    }
    if exists|m: int|
        0 <= m < ds.len() && t.start < (#[trigger] ds[m]).table < t.start + 4 * n + 4 {
        let m = choose|m: int|
            0 <= m < ds.len() && t.start < (#[trigger] ds[m]).table < t.start + 4 * n + 4;
        assert(ds.contains(ds[m]));
        lemma_sorted_dispatches(code, start, end, next, ds[m]);
    }
}

/// No two tables that are discovered begin at the same address, and they come in
/// address order.
pub proof fn lemma_tables_come_in_order(
    code: Seq<u8>,
    start: u64,
    end: u64,
    model: IdaModel,
    sections: Seq<SectionView>,
    a: int,
    b: int,
)
    requires
        0 <= a < b < discovered_tables(code, start, end, model, sections).len(),
    ensures
        discovered_tables(code, start, end, model, sections)[a].start < discovered_tables(
            code,
            start,
            end,
            model,
            sections,
        )[b].start,
{
    lemma_discovered(code, start, end, model, sections);
}

/// Where the next function begins: no further than the section that holds the
/// function reaches, at no function behind it is passed over, and where none of
/// them is nearer, there.
pub proof fn lemma_next_function(
    sections: Seq<Section>,
    functions: Seq<Function>,
    start: u64,
    end: u64,
    s: int,
)
    requires
        in_key_order(functions),
        0 <= s < sections.len(),
        sections[s].start <= start < sections[s].end,
        forall|j: int|
            0 <= j < s ==> !((#[trigger] sections[j]).start <= start < sections[j].end),
    ensures
        ({
            let next = next_function(sections, functions, start, end);
            &&& next <= sections[s].end
            &&& forall|i: int|
                0 <= i < functions.len() && (#[trigger] functions[i]).start > start ==> next
                    <= functions[i].start
            &&& next == sections[s].end || exists|i: int|
                0 <= i < functions.len() && (#[trigger] functions[i]).start == next && next > start
        }),
{
    let p = crate::model::holds(start);
    crate::seqs::lemma_first_index_is(sections, p, s);
    lemma_place_behind(functions, start);
    let n = place_behind(functions, start);
    assert forall|i: int| 0 <= i < functions.len() && (#[trigger] functions[i]).start
        > start implies next_function(sections, functions, start, end) <= functions[i].start by {
        if i < n {
            assert(functions[i].spec_key() <= start);
        }
        if n < i {
            assert(functions[n].spec_key() <= functions[i].spec_key());
        }
    }
    if n < functions.len() {
        assert(functions[n].spec_key() > start);
    }
}

} // verus!
