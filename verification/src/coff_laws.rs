//! What becomes of a COFF file that gets auxiliary records: every function says its
//! size, every other record stays, and every relocation keeps its symbol.

use crate::bytes::{le32, lemma_le32_round_trip};
use crate::coff::{
    aux_count, aux_record, function_auxes, function_of_symbol, function_sizes, grown_from, indices,
    layout_of, no_records, records_of, remapped, section_relocs, sections_remapped, size_at,
    with_symbol, with_table, with_u32, FunctionSize, Grown, Layout, ParsedView,
};
use crate::fixup_laws::value_of;
use crate::model::Function;
use crate::seqs::lemma_first_index_is;
use crate::sorting::lemma_stable_sort_contains;
use vstd::prelude::*;

verus! {

// ---------------------------------------------------------------------------
// The functions of the symbols
// ---------------------------------------------------------------------------

/// Whether a symbol stands for a function: it is defined, is code and has the name
/// of the function, and no function before it has.
pub open spec fn stands_for(functions: Seq<Function>, s: ParsedView, k: int) -> bool {
    &&& s.is_text && !s.is_undefined
    &&& 0 <= k < functions.len()
    &&& s.name == Some(functions[k].name@)
    &&& forall|j: int| 0 <= j < k ==> (#[trigger] functions[j]).name@ != functions[k].name@
}

proof fn lemma_stands_for(functions: Seq<Function>, s: ParsedView, k: int)
    requires
        stands_for(functions, s, k),
    ensures
        function_of_symbol(functions, s) == Some(functions[k]),
{
    lemma_first_index_is(functions, crate::coff::called(functions[k].name@), k);
}

proof fn lemma_function_sizes(
    d: Seq<u8>,
    layout: Layout,
    functions: Seq<Function>,
    symbols: Seq<ParsedView>,
    i: int,
    k: int,
)
    requires
        0 <= i < symbols.len(),
        stands_for(functions, symbols[i], k),
        functions[k].start < functions[k].end,
    ensures
        function_sizes(d, layout, functions, symbols) matches Ok(found) ==> found.contains(
            FunctionSize {
                index: symbols[i].index,
                size: (functions[k].end - functions[k].start) as u32,
            },
        ) && functions[k].end - functions[k].start <= u32::MAX,
    decreases symbols.len(),
{
    let init = symbols.drop_last();
    let x = FunctionSize {
        index: symbols[i].index,
        size: (functions[k].end - functions[k].start) as u32,
    };
    if let Ok(found) = function_sizes(d, layout, functions, symbols) {
        let before = function_sizes(d, layout, functions, init)->Ok_0;
        if i < init.len() {
            lemma_function_sizes(d, layout, functions, init, i, k);
            let m = choose|m: int| 0 <= m < before.len() && before[m] == x;
            assert(found[m] == x);
        } else {
            lemma_stands_for(functions, symbols[i], k);
            assert(found[before.len() as int] == x);
        }
    }
}

/// Every symbol of a file that stands for a function gets a record with the
/// function's size.
pub proof fn lemma_every_function_symbol_gets_its_size(
    d: Seq<u8>,
    functions: Seq<Function>,
    symbols: Seq<ParsedView>,
    i: int,
    k: int,
)
    requires
        0 <= i < symbols.len(),
        stands_for(functions, symbols[i], k),
        functions[k].start < functions[k].end,
    ensures
        function_auxes(d, functions, symbols) matches Ok(auxes) ==> auxes.contains(
            FunctionSize {
                index: symbols[i].index,
                size: (functions[k].end - functions[k].start) as u32,
            },
        ) && functions[k].end - functions[k].start <= u32::MAX,
{
    if let Ok(auxes) = function_auxes(d, functions, symbols) {
        let layout = layout_of(d)->Ok_0;
        let found = function_sizes(d, layout, functions, symbols)->Ok_0;
        lemma_function_sizes(d, layout, functions, symbols, i, k);
        lemma_stable_sort_contains(
            found,
            FunctionSize {
                index: symbols[i].index,
                size: (functions[k].end - functions[k].start) as u32,
            },
        );
    }
}

// ---------------------------------------------------------------------------
// Records
// ---------------------------------------------------------------------------

/// Whether record `i` is a symbol's own, counted from record `from` on: no auxiliary
/// record of one before it.
pub open spec fn is_own(d: Seq<u8>, layout: Layout, from: int, i: int) -> bool
    decreases i - from,
{
    let next = from + 1 + aux_count(d, layout, from);
    from == i || from < next <= i && is_own(d, layout, next, i)
}

/// Whether the records say the size of a function at record `new`: it counts one
/// auxiliary record, and that has the size in its second field and nothing else.
pub open spec fn says_size(records: Seq<u8>, new: int, size: u32) -> bool {
    let aux = new * 18 + 18;
    &&& 0 <= new
    &&& aux + 18 <= records.len()
    &&& records[aux - 1] == 1
    &&& value_of(records.subrange(aux + 4, aux + 8), 4) == size
    &&& forall|b: int|
        0 <= b < 18 && !(4 <= b < 8) ==> #[trigger] records[aux + b] == 0
}

/// Whether the records have record `old` at `new` as it was, its count of auxiliary
/// records included.
pub open spec fn is_whole(
    d: Seq<u8>,
    layout: Layout,
    old: int,
    records: Seq<u8>,
    new: int,
) -> bool {
    &&& 0 <= new
    &&& new * 18 + 18 <= records.len()
    &&& records[new * 18 + 17] == d[layout.symbol_offset + old * 18 + 17]
}

/// What is asked of record `i` of the file in the grown table.
pub open spec fn record_done(
    d: Seq<u8>,
    layout: Layout,
    auxes: Seq<FunctionSize>,
    g: Grown,
    i: int,
) -> bool {
    &&& i < g.map.len()
    &&& match size_at(auxes, i) {
        Some(size) => says_size(g.records, g.map[i] as int, size),
        None => is_whole(d, layout, i, g.records, g.map[i] as int),
    }
}

proof fn lemma_aux_record(size: u32)
    ensures
        aux_record(size).len() == 18,
        value_of(aux_record(size).subrange(4, 8), 4) == size,
        forall|b: int| 0 <= b < 18 && !(4 <= b < 8) ==> #[trigger] aux_record(size)[b] == 0,
{
    let r = aux_record(size);
    let f = r.subrange(4, 8);
    lemma_le32_round_trip(size as int);
    assert(f =~= crate::bytes::le32_bytes(size as int));
    reveal_with_fuel(value_of, 5);
    let s1 = f.skip(1);
    let s2 = s1.skip(1);
    let s3 = s2.skip(1);
    assert(s1[0] == f[1] && s2[0] == f[2] && s3[0] == f[3]);
    assert(value_of(f, 4) == le32(f, 0));
}

/// A record that is done stays done when records are added.
proof fn lemma_done_stays(
    d: Seq<u8>,
    layout: Layout,
    auxes: Seq<FunctionSize>,
    g: Grown,
    next: Grown,
    more: Seq<u8>,
    map: Seq<u64>,
    i: int,
)
    requires
        0 <= i,
        record_done(d, layout, auxes, g, i),
        next.records == g.records + more,
        next.map == g.map + map,
    ensures
        record_done(d, layout, auxes, next, i),
{
    let new = g.map[i] as int;
    if size_at(auxes, i) is Some {
        let aux = new * 18 + 18;
        assert(next.records.subrange(aux + 4, aux + 8) =~= g.records.subrange(aux + 4, aux + 8));
        assert forall|b: int| 0 <= b < 18 && !(4 <= b < 8) implies #[trigger] next.records[aux + b]
            == 0 by {
            assert(g.records[aux + b] == 0);
        }
    }
}

proof fn lemma_with_symbol_does(
    d: Seq<u8>,
    layout: Layout,
    auxes: Seq<FunctionSize>,
    g: Grown,
    i: int,
)
    requires
        layout.fits(d.len()),
        0 <= i < layout.symbol_count,
        crate::coff::keeps_records(d, layout, g, i),
    ensures
        with_symbol(d, layout, auxes, g, i) matches Ok(next) ==> record_done(
            d,
            layout,
            auxes,
            next,
            i,
        ),
{
    let aux = aux_count(d, layout, i);
    let new = g.records.len() as int / 18;
    if let Ok(next) = with_symbol(d, layout, auxes, g, i) {
        assert(new * 18 == g.records.len());
        assert(new <= u64::MAX);
        if let Some(size) = size_at(auxes, i) {
            lemma_aux_record(size);
            let first = records_of(d, layout, i, i + 1).update(17, 1);
            let record = aux_record(size);
            assert(first.len() == 18);
            assert(next.map[i] == indices(new, 1)[0]);
            let at = new * 18 + 18;
            assert(next.records[at - 1] == first[17]);
            assert(next.records.subrange(at + 4, at + 8) =~= record.subrange(4, 8));
            assert forall|b: int| 0 <= b < 18 && !(4 <= b < 8) implies #[trigger] next.records[at
                + b] == 0 by {
                assert(next.records[at + b] == record[b]);
            }
        } else {
            let more = records_of(d, layout, i, i + 1 + aux);
            assert(next.map[i] == indices(new, 1 + aux)[0]);
            assert(next.records[new * 18 + 17] == more[17]);
        }
    }
}

proof fn lemma_grown_does(
    d: Seq<u8>,
    layout: Layout,
    auxes: Seq<FunctionSize>,
    g: Grown,
    from: int,
    i: int,
)
    requires
        layout.fits(d.len()),
        0 <= from <= layout.symbol_count,
        crate::coff::keeps_records(d, layout, g, from),
        0 <= i < layout.symbol_count,
        is_own(d, layout, from, i) || i < from && record_done(d, layout, auxes, g, i),
    ensures
        grown_from(d, layout, auxes, g, from) matches Ok(all) ==> record_done(
            d,
            layout,
            auxes,
            all,
            i,
        ),
    decreases layout.symbol_count - from,
{
    if from < layout.symbol_count {
        let aux = aux_count(d, layout, from);
        crate::coff::lemma_with_symbol_keeps_records(d, layout, auxes, g, from);
        lemma_with_symbol_does(d, layout, auxes, g, from);
        if let Ok(next) = with_symbol(d, layout, auxes, g, from) {
            if i < from && record_done(d, layout, auxes, g, i) {
                let new = g.records.len() as int / 18;
                let (more, map) = match size_at(auxes, from) {
                    Some(size) => (
                        records_of(d, layout, from, from + 1).update(17, 1) + aux_record(size),
                        indices(new, 1),
                    ),
                    None => (
                        records_of(d, layout, from, from + 1 + aux),
                        indices(new, 1 + aux),
                    ),
                };
                assert(next.records =~= g.records + more);
                lemma_done_stays(d, layout, auxes, g, next, more, map, i);
            }
            lemma_grown_does(d, layout, auxes, next, from + 1 + aux, i);
        }
    }
}

/// In the grown table every function's symbol is followed by a record with the
/// function's size, and every other symbol keeps its count of auxiliary records.
pub proof fn lemma_functions_say_their_size(
    d: Seq<u8>,
    layout: Layout,
    auxes: Seq<FunctionSize>,
    i: int,
)
    requires
        layout_of(d) == Ok::<Layout, Seq<char>>(layout),
        0 <= i < layout.symbol_count,
        is_own(d, layout, 0, i),
    ensures
        grown_from(d, layout, auxes, no_records(), 0) matches Ok(g) ==> {
            &&& forall|k: int|
                0 <= k < auxes.len() && (#[trigger] auxes[k]).index == i && (forall|j: int|
                    0 <= j < k ==> (#[trigger] auxes[j]).index != i) ==> says_size(
                    g.records,
                    g.map[i] as int,
                    auxes[k].size,
                )
            &&& (forall|k: int| 0 <= k < auxes.len() ==> (#[trigger] auxes[k]).index != i)
                ==> is_whole(d, layout, i, g.records, g.map[i] as int)
        },
{
    lemma_grown_does(d, layout, auxes, no_records(), 0, i);
    if let Ok(g) = grown_from(d, layout, auxes, no_records(), 0) {
        let p = crate::coff::at_index(i);
        assert forall|k: int|
            0 <= k < auxes.len() && (#[trigger] auxes[k]).index == i && (forall|j: int|
                0 <= j < k ==> (#[trigger] auxes[j]).index != i) implies says_size(
            g.records,
            g.map[i] as int,
            auxes[k].size,
        ) by {
            lemma_first_index_is(auxes, p, k);
        }
        if forall|k: int| 0 <= k < auxes.len() ==> (#[trigger] auxes[k]).index != i {
            crate::seqs::lemma_first_index_none(auxes, p);
        }
    }
}

// ---------------------------------------------------------------------------
// Relocations
// ---------------------------------------------------------------------------

/// The symbol index of the relocation record at `at`.
pub open spec fn index_at(d: Seq<u8>, at: int) -> int {
    value_of(d.subrange(at + 4, at + 8), 4)
}

proof fn lemma_index_at(d: Seq<u8>, at: int)
    requires
        0 <= at,
        at + 8 <= d.len(),
    ensures
        index_at(d, at) == le32(d, at + 4),
{
    let f = d.subrange(at + 4, at + 8);
    reveal_with_fuel(value_of, 5);
    let s1 = f.skip(1);
    let s2 = s1.skip(1);
    let s3 = s2.skip(1);
    assert(f[0] == d[at + 4]);
    assert(s1[0] == d[at + 5] && s2[0] == d[at + 6] && s3[0] == d[at + 7]);
}

/// Whether a byte belongs to the symbol index of one of `n` relocations.
pub open spec fn in_an_index(first: int, n: int, x: int) -> bool {
    exists|k: int| 0 <= k < n && #[trigger] (first + 10 * k) + 4 <= x < first + 10 * k + 8
}

/// Relocations that are mapped keep all but their symbol: each has the new index of
/// the symbol that it had, and no other byte of the file changes.
pub proof fn lemma_relocations_keep_their_symbols(
    d: Seq<u8>,
    first: int,
    n: nat,
    map: Seq<u64>,
)
    requires
        0 <= first,
        first + 10 * n <= d.len(),
    ensures
        remapped(d, first, n, map) matches Ok(out) ==> {
            &&& out.len() == d.len()
            &&& forall|k: int|
                0 <= k < n ==> {
                    let old = index_at(d, #[trigger] (first + 10 * k));
                    0 <= old < map.len() && index_at(out, first + 10 * k) == map[old]
                }
            &&& forall|x: int|
                0 <= x < d.len() && !in_an_index(first, n as int, x) ==> #[trigger] out[x] == d[x]
        },
    decreases n,
{
    if n > 0 {
        let m = (n - 1) as nat;
        lemma_relocations_keep_their_symbols(d, first, m, map);
        if let Ok(out) = remapped(d, first, n, map) {
            let before = remapped(d, first, m, map)->Ok_0;
            let at = first + 10 * m;
            assert(first + (n - 1) * 10 + 4 == at + 4);
            lemma_index_at(d, at);
            lemma_index_at(before, at);
            lemma_index_at(out, at);
            let old = le32(before, at + 4);
            let field = crate::bytes::le32_bytes(map[old] as int);
            assert(out == with_u32(before, at + 4, map[old] as int));
            lemma_le32_round_trip(map[old] as int);
            assert(field.len() == 4);
            assert forall|x: int| 0 <= x < d.len() && !(at + 4 <= x < at
                + 8) implies #[trigger] out[x] == before[x] by {}
            assert forall|b: int| 0 <= b < 4 implies #[trigger] out[at + 4 + b] == field[b] by {}
            assert(le32(out, at + 4) == le32(field, 0)) by {
                assert(out[at + 4 + 0] == field[0]);
                assert(out[at + 4 + 1] == field[1]);
                assert(out[at + 4 + 2] == field[2]);
                assert(out[at + 4 + 3] == field[3]);
            }
            assert forall|b: int| 4 <= b < 8 implies #[trigger] before[at + b] == d[at + b] by {
                if in_an_index(first, m as int, at + b) {
                    let k = choose|k: int|
                        0 <= k < m && #[trigger] (first + 10 * k) + 4 <= at + b < first + 10 * k
                            + 8;
                }
            }
            assert(le32(before, at + 4) == le32(d, at + 4)) by {
                assert(before[at + 4] == d[at + 4]);
                assert(before[at + 5] == d[at + 5]);
                assert(before[at + 6] == d[at + 6]);
                assert(before[at + 7] == d[at + 7]);
            }
            assert forall|k: int| 0 <= k < n implies {
                let old = index_at(d, #[trigger] (first + 10 * k));
                0 <= old < map.len() && index_at(out, first + 10 * k) == map[old]
            } by {
                if k < m {
                    let p = first + 10 * k;
                    assert(index_at(before, p) == map[index_at(d, p)]);
                    assert(out.subrange(p + 4, p + 8) =~= before.subrange(p + 4, p + 8));
                }
            }
            assert forall|x: int|
                0 <= x < d.len() && !in_an_index(first, n as int, x) implies #[trigger] out[x]
                == d[x] by {
                if at + 4 <= x < at + 8 {
                    assert((first + 10 * m) + 4 <= x);
                    assert(in_an_index(first, n as int, x));
                }
                if in_an_index(first, m as int, x) {
                    let k = choose|k: int|
                        0 <= k < m && #[trigger] (first + 10 * k) + 4 <= x < first + 10 * k + 8;
                    assert(in_an_index(first, n as int, x));
                }
                assert(before[x] == d[x]);
            }
        }
    }
}

/// The relocation records of a section: where they begin, with the record that
/// counts them where there is one, where the first of them is, and how many there
/// are.
pub struct RelocArea {
    pub begin: int,
    pub first: int,
    pub count: int,
}

/// The header of a section.
pub open spec fn header_of(layout: Layout, i: int) -> int {
    layout.section_offset + 40 * i
}

/// Whether the areas are those of the sections of a file, each behind the section
/// headers and apart from the others.
pub open spec fn are_areas(d: Seq<u8>, layout: Layout, areas: Seq<RelocArea>) -> bool {
    &&& areas.len() == layout.section_count
    &&& forall|i: int|
        0 <= i < areas.len() ==> {
            let a = #[trigger] areas[i];
            &&& a.begin == le32(d, header_of(layout, i) + 24)
            &&& section_relocs(d, header_of(layout, i)) == Ok::<(int, int), Seq<char>>(
                (a.first, a.count),
            )
            &&& header_of(layout, layout.section_count as int) <= a.begin
            &&& a.begin <= a.first
            &&& a.first + 10 * a.count <= d.len()
            &&& a.begin + 10 <= d.len()
            &&& a.begin < a.first ==> a.begin + 10 == a.first
        }
    &&& forall|i: int, j: int|
        0 <= i < j < areas.len() ==> (#[trigger] areas[i]).first + 10 * areas[i].count <= (
        #[trigger] areas[j]).begin || areas[j].first + 10 * areas[j].count <= areas[i].begin
}

/// Whether a byte lies in one of the first `n` areas.
pub open spec fn in_areas(areas: Seq<RelocArea>, n: int, x: int) -> bool {
    exists|i: int|
        0 <= i < n && (#[trigger] areas[i]).begin <= x < areas[i].first + 10 * areas[i].count
}

/// Whether every relocation of an area has the new index of its symbol.
pub open spec fn area_mapped(d: Seq<u8>, out: Seq<u8>, a: RelocArea, map: Seq<u64>) -> bool {
    forall|k: int|
        0 <= k < a.count ==> {
            let old = index_at(d, #[trigger] (a.first + 10 * k));
            0 <= old < map.len() && index_at(out, a.first + 10 * k) == map[old]
        }
}

proof fn lemma_area_mapped_on(
    d: Seq<u8>,
    before: Seq<u8>,
    out: Seq<u8>,
    a: RelocArea,
    map: Seq<u64>,
)
    requires
        area_mapped(d, before, a, map),
        before.len() == d.len(),
        out.len() == d.len(),
        0 <= a.first,
        a.first + 10 * a.count <= d.len(),
        forall|x: int| a.first <= x < a.first + 10 * a.count ==> #[trigger] out[x] == before[x],
    ensures
        area_mapped(d, out, a, map),
{
    assert forall|k: int| 0 <= k < a.count implies {
        let old = index_at(d, #[trigger] (a.first + 10 * k));
        0 <= old < map.len() && index_at(out, a.first + 10 * k) == map[old]
    } by {
        let p = a.first + 10 * k;
        assert(out.subrange(p + 4, p + 8) =~= before.subrange(p + 4, p + 8));
    }
}

proof fn lemma_same_header(d: Seq<u8>, before: Seq<u8>, layout: Layout, a: RelocArea, n: int)
    requires
        0 <= n < layout.section_count,
        before.len() == d.len(),
        header_of(layout, layout.section_count as int) <= d.len(),
        a.begin == le32(d, header_of(layout, n) + 24),
        a.begin + 10 <= d.len(),
        forall|x: int|
            0 <= x < header_of(layout, layout.section_count as int) ==> #[trigger] before[x]
                == d[x],
        section_relocs(d, header_of(layout, n)) == Ok::<(int, int), Seq<char>>((a.first, a.count)),
        a.begin <= a.first,
        forall|x: int|
            a.begin <= x < a.begin + 4 && a.begin < a.first ==> #[trigger] before[x] == d[x],
    ensures
        section_relocs(before, header_of(layout, n)) == section_relocs(d, header_of(layout, n)),
{
    let h = header_of(layout, n);
    assert(h + 40 <= header_of(layout, layout.section_count as int));
    assert(before[h + 24] == d[h + 24] && before[h + 25] == d[h + 25] && before[h + 26] == d[h + 26]
        && before[h + 27] == d[h + 27]);
    assert(before[h + 32] == d[h + 32] && before[h + 33] == d[h + 33]);
    assert(before[h + 36] == d[h + 36] && before[h + 37] == d[h + 37] && before[h + 38] == d[h + 38]
        && before[h + 39] == d[h + 39]);
    if a.begin < a.first {
        let b = a.begin;
        assert(before[b] == d[b] && before[b + 1] == d[b + 1] && before[b + 2] == d[b + 2]
            && before[b + 3] == d[b + 3]);
    }
}

proof fn lemma_sections_mapped(
    d: Seq<u8>,
    layout: Layout,
    areas: Seq<RelocArea>,
    n: nat,
    map: Seq<u64>,
)
    requires
        are_areas(d, layout, areas),
        header_of(layout, layout.section_count as int) <= d.len(),
        n <= areas.len(),
    ensures
        sections_remapped(d, layout, n, map) matches Ok(out) ==> {
            &&& out.len() == d.len()
            &&& forall|i: int| 0 <= i < n ==> area_mapped(d, out, #[trigger] areas[i], map)
            &&& forall|x: int|
                0 <= x < d.len() && !in_areas(areas, n as int, x) ==> #[trigger] out[x] == d[x]
        },
    decreases n,
{
    if n > 0 {
        let m = (n - 1) as nat;
        lemma_sections_mapped(d, layout, areas, m, map);
        if let Ok(out) = sections_remapped(d, layout, n, map) {
            let before = sections_remapped(d, layout, m, map)->Ok_0;
            let a = areas[m as int];
            assert(layout.section_offset + (n - 1) * 40 == header_of(layout, m as int));
            assert forall|x: int| 0 <= x < d.len() && (x < header_of(
                layout,
                layout.section_count as int,
            ) || a.begin <= x < a.first + 10 * a.count) implies #[trigger] before[x] == d[x] by {
                if in_areas(areas, m as int, x) {
                    let i = choose|i: int|
                        0 <= i < m && (#[trigger] areas[i]).begin <= x < areas[i].first + 10
                            * areas[i].count;
                    assert(areas[i].first + 10 * areas[i].count <= areas[m as int].begin
                        || areas[m as int].first + 10 * areas[m as int].count <= areas[i].begin);
                }
            }
            lemma_same_header(d, before, layout, a, m as int);
            lemma_relocations_keep_their_symbols(before, a.first, a.count as nat, map);
            assert(out == remapped(before, a.first, a.count as nat, map)->Ok_0);
            assert forall|x: int| 0 <= x < d.len() && !(a.begin <= x < a.first + 10
                * a.count) implies #[trigger] out[x] == before[x] by {
                if in_an_index(a.first, a.count, x) {
                    let k = choose|k: int|
                        0 <= k < a.count && #[trigger] (a.first + 10 * k) + 4 <= x < a.first + 10
                            * k + 8;
                }
            }
            assert(area_mapped(d, out, a, map)) by {
                assert forall|k: int| 0 <= k < a.count implies {
                    let old = index_at(d, #[trigger] (a.first + 10 * k));
                    0 <= old < map.len() && index_at(out, a.first + 10 * k) == map[old]
                } by {
                    let p = a.first + 10 * k;
                    assert(before.subrange(p + 4, p + 8) =~= d.subrange(p + 4, p + 8));
                }
            }
            assert forall|i: int| 0 <= i < n implies area_mapped(d, out, #[trigger] areas[i], map) by {
                if i < m {
                    let other = areas[i];
                    assert(other.first + 10 * other.count <= areas[m as int].begin
                        || areas[m as int].first + 10 * areas[m as int].count <= other.begin);
                    lemma_area_mapped_on(d, before, out, other, map);
                }
            }
            assert forall|x: int|
                0 <= x < d.len() && !in_areas(areas, n as int, x) implies #[trigger] out[x]
                == d[x] by {
                if a.begin <= x < a.first + 10 * a.count {
                    assert(areas[m as int].begin <= x);
                    assert(in_areas(areas, n as int, x));
                }
                if in_areas(areas, m as int, x) {
                    let i = choose|i: int|
                        0 <= i < m && (#[trigger] areas[i]).begin <= x < areas[i].first + 10
                            * areas[i].count;
                    assert(in_areas(areas, n as int, x));
                }
                assert(before[x] == d[x]);
            }
        }
    }
}

/// Every relocation of every section keeps its symbol, and no byte outside the
/// relocation records changes.
pub proof fn lemma_every_section_keeps_its_symbols(
    d: Seq<u8>,
    layout: Layout,
    areas: Seq<RelocArea>,
    map: Seq<u64>,
)
    requires
        layout_of(d) == Ok::<Layout, Seq<char>>(layout),
        are_areas(d, layout, areas),
    ensures
        sections_remapped(d, layout, layout.section_count as nat, map) matches Ok(out) ==> {
            &&& out.len() == d.len()
            &&& forall|i: int|
                0 <= i < areas.len() ==> area_mapped(d, out, #[trigger] areas[i], map)
            &&& forall|x: int|
                0 <= x < d.len() && !in_areas(areas, areas.len() as int, x) ==> #[trigger] out[x]
                    == d[x]
        },
{
    lemma_sections_mapped(d, layout, areas, layout.section_count as nat, map);
}

/// The file with another symbol table has its records in place of the old ones,
/// counts them in its header, and is otherwise the same.
pub proof fn lemma_table_is_replaced(d: Seq<u8>, layout: Layout, records: Seq<u8>, x: int)
    requires
        layout.fits(d.len()),
        layout.symbol_offset >= 20,
        records.len() / 18 <= u32::MAX,
    ensures
        ({
            let out = with_table(d, layout, records);
            let from = layout.symbol_offset as int;
            let end = from + 18 * layout.symbol_count;
            &&& out.len() == d.len() - 18 * layout.symbol_count + records.len()
            &&& value_of(out.subrange(12, 16), 4) == records.len() / 18
            &&& 0 <= x < from && !(12 <= x < 16) ==> out[x] == d[x]
            &&& 0 <= x < records.len() ==> out[from + x] == records[x]
            &&& end <= x < d.len() ==> out[from + records.len() + (x - end)] == d[x]
        }),
{
    let out = with_table(d, layout, records);
    let n = records.len() as int / 18;
    let f = out.subrange(12, 16);
    assert(layout.symbol_count * 18 == 18 * layout.symbol_count);
    assert(f =~= crate::bytes::le32_bytes(n));
    lemma_le32_round_trip(n);
    reveal_with_fuel(value_of, 5);
    let s1 = f.skip(1);
    let s2 = s1.skip(1);
    let s3 = s2.skip(1);
    assert(s1[0] == f[1] && s2[0] == f[2] && s3[0] == f[3]);
    assert(value_of(f, 4) == le32(f, 0));
}

} // verus!
