//! COFF symbol tables: function sizes and the records that carry them.

use crate::bytes::{get_u16, get_u32, le16, le32, le32_bytes, push_u32};
use crate::model::{Function, IdaModel};
use crate::seqs::{lemma_first_index_is, lemma_first_index_none, views};
use crate::sorting::{sort_stably, stable_sort, HasKey, Keyed};
use crate::text::{dec_text, hex_text, same_text, Error};
use std::collections::HashMap;
use vstd::prelude::*;

verus! {

pub const COFF_HEADER_SIZE: u64 = 20;

pub const COFF_SECTION_HEADER_SIZE: u64 = 40;

pub const COFF_SYMBOL_SIZE: u64 = 18;

pub const COFF_RELOCATION_SIZE: u64 = 10;

pub const COFF_SCN_LNK_NRELOC_OVFL: u32 = 0x0100_0000;

/// The 16-bit field at `offset`, or an error that names the place.
pub open spec fn u16_at(d: Seq<u8>, offset: int) -> Result<int, Seq<char>> {
    if offset + 2 <= d.len() {
        Ok(le16(d, offset))
    } else {
        Err("truncated COFF u16 at "@ + hex_text(offset))
    }
}

/// The 32-bit field at `offset`, or an error that names the place.
pub open spec fn u32_at(d: Seq<u8>, offset: int) -> Result<int, Seq<char>> {
    if offset + 4 <= d.len() {
        Ok(le32(d, offset))
    } else {
        Err("truncated COFF u32 at "@ + hex_text(offset))
    }
}

pub fn coff_u16(bytes: &[u8], offset: u64) -> (r: Result<u16, Error>)
    ensures
        match r {
            Ok(v) => u16_at(bytes@, offset as int) == Ok::<int, Seq<char>>(v as int),
            Err(e) => u16_at(bytes@, offset as int) == Err::<int, Seq<char>>(e@),
        },
{
    let total: u64 = bytes.len() as u64;
    if total < 2 || offset > total - 2 {
        return Err(Error::new("truncated COFF u16 at ").hex(offset));
    }
    Ok(get_u16(bytes, offset as usize))
}

pub fn coff_u32(bytes: &[u8], offset: u64) -> (r: Result<u32, Error>)
    ensures
        match r {
            Ok(v) => u32_at(bytes@, offset as int) == Ok::<int, Seq<char>>(v as int),
            Err(e) => u32_at(bytes@, offset as int) == Err::<int, Seq<char>>(e@),
        },
{
    let total: u64 = bytes.len() as u64;
    if total < 4 || offset > total - 4 {
        return Err(Error::new("truncated COFF u32 at ").hex(offset));
    }
    Ok(get_u32(bytes, offset as usize))
}

/// Where a COFF file keeps its section headers and its symbols.
#[derive(Debug, Clone, Copy)]
pub struct Layout {
    pub section_offset: u64,
    pub section_count: u64,
    pub symbol_offset: u64,
    pub symbol_count: u64,
}

impl Layout {
    /// The tables lie within a file of `len` bytes.
    pub open spec fn fits(self, len: nat) -> bool {
        &&& 20 <= len
        &&& 20 <= self.section_offset
        &&& self.section_offset + self.section_count * 40 <= len
        &&& 0 < self.symbol_offset
        &&& self.symbol_offset + self.symbol_count * 18 <= len
        &&& self.section_count <= 0xffff
        &&& self.symbol_count <= 0xffff_ffff
        &&& self.section_offset <= 20 + 0xffff
        &&& self.symbol_offset <= 0xffff_ffff
    }
}

/// The layout of a COFF file, or what is wrong with it.
pub open spec fn layout_of(d: Seq<u8>) -> Result<Layout, Seq<char>> {
    let sections = 20 + le16(d, 16);
    let section_count = le16(d, 2);
    let symbols = le32(d, 8);
    let symbol_count = le32(d, 12);
    if d.len() < 20 {
        Err("truncated COFF file header"@)
    } else if sections + section_count * 40 > d.len() {
        Err("truncated COFF section table"@)
    } else if symbols == 0 || symbols + symbol_count * 18 > d.len() {
        Err("invalid COFF symbol table bounds"@)
    } else {
        Ok(
            Layout {
                section_offset: sections as u64,
                section_count: section_count as u64,
                symbol_offset: symbols as u64,
                symbol_count: symbol_count as u64,
            },
        )
    }
}

pub fn coff_symbol_layout(bytes: &[u8]) -> (r: Result<Layout, Error>)
    ensures
        match r {
            Ok(l) => layout_of(bytes@) == Ok::<Layout, Seq<char>>(l) && l.fits(bytes@.len()),
            Err(e) => layout_of(bytes@) == Err::<Layout, Seq<char>>(e@),
        },
{
    let total: u64 = bytes.len() as u64;
    if total < COFF_HEADER_SIZE {
        return Err(Error::new("truncated COFF file header"));
    }
    let section_count: u64 = get_u16(bytes, 2) as u64;
    let symbol_offset: u64 = get_u32(bytes, 8) as u64;
    let symbol_count: u64 = get_u32(bytes, 12) as u64;
    let optional_size: u64 = get_u16(bytes, 16) as u64;
    let section_offset: u64 = COFF_HEADER_SIZE + optional_size;
    if section_offset + section_count * COFF_SECTION_HEADER_SIZE > total {
        return Err(Error::new("truncated COFF section table"));
    }
    if symbol_offset == 0 || symbol_offset + symbol_count * COFF_SYMBOL_SIZE > total {
        return Err(Error::new("invalid COFF symbol table bounds"));
    }
    Ok(Layout { section_offset, section_count, symbol_offset, symbol_count })
}

// ---------------------------------------------------------------------------
// Which symbols are functions
// ---------------------------------------------------------------------------

/// A symbol as it was read back from an object.
#[derive(Debug)]
pub struct ParsedSymbol {
    pub index: u64,
    /// `None` where the name is not text.
    pub name: Option<String>,
    pub is_text: bool,
    pub is_undefined: bool,
}

#[verifier::ext_equal]
pub struct ParsedView {
    pub index: u64,
    pub name: Option<Seq<char>>,
    pub is_text: bool,
    pub is_undefined: bool,
}

impl View for ParsedSymbol {
    type V = ParsedView;

    open spec fn view(&self) -> ParsedView {
        ParsedView {
            index: self.index,
            name: crate::seqs::opt_text(self.name),
            is_text: self.is_text,
            is_undefined: self.is_undefined,
        }
    }
}

/// A function symbol and the size of its function.
#[derive(Debug, Clone, Copy)]
pub struct FunctionSize {
    pub index: u64,
    pub size: u32,
}

impl HasKey for FunctionSize {
    open spec fn spec_key(&self) -> u64 {
        self.index
    }
}

impl Keyed for FunctionSize {
    fn key(&self) -> (k: u64) {
        self.index
    }
}

/// Functions called `name`.
pub open spec fn called(name: Seq<char>) -> spec_fn(Function) -> bool {
    |f: Function| f.name@ == name
}

/// The function that a symbol read back from an object stands for.
pub open spec fn function_of_symbol(functions: Seq<Function>, s: ParsedView) -> Option<Function> {
    if !s.is_text || s.is_undefined {
        None
    } else {
        match s.name {
            Some(name) => crate::seqs::first(functions, called(name)),
            None => None,
        }
    }
}

/// The number of auxiliary records behind symbol `index`.
pub open spec fn aux_count(d: Seq<u8>, layout: Layout, index: int) -> int {
    d[layout.symbol_offset + index * 18 + 17] as int
}

/// `found` with the function of a symbol.
pub open spec fn with_function_size(
    d: Seq<u8>,
    layout: Layout,
    found: Seq<FunctionSize>,
    f: Function,
    index: u64,
) -> Result<Seq<FunctionSize>, Seq<char>> {
    if index >= layout.symbol_count {
        Err("COFF function symbol index is out of bounds"@)
    } else if aux_count(d, layout, index as int) != 0 {
        Err(
            "COFF function '"@ + f.name@ + "' already has "@ + dec_text(
                aux_count(d, layout, index as int),
            ) + " auxiliary symbols"@,
        )
    } else if f.spec_size() > u32::MAX {
        Err(
            "COFF function size exceeds the auxiliary record limit: "@
                + "out of range integral type conversion attempted"@,
        )
    } else if f.spec_size() == 0 {
        Ok(found)
    } else {
        Ok(found.push(FunctionSize { index, size: f.spec_size() as u32 }))
    }
}

/// The functions of the symbols, in their order.
pub open spec fn function_sizes(
    d: Seq<u8>,
    layout: Layout,
    functions: Seq<Function>,
    symbols: Seq<ParsedView>,
) -> Result<Seq<FunctionSize>, Seq<char>>
    decreases symbols.len(),
{
    if symbols.len() == 0 {
        Ok(Seq::empty())
    } else {
        match function_sizes(d, layout, functions, symbols.drop_last()) {
            Err(e) => Err(e),
            Ok(found) => match function_of_symbol(functions, symbols.last()) {
                Some(f) => with_function_size(d, layout, found, f, symbols.last().index),
                None => Ok(found),
            },
        }
    }
}

/// The functions of an object whose sizes belong in auxiliary records, by symbol
/// index.
pub open spec fn function_auxes(
    d: Seq<u8>,
    functions: Seq<Function>,
    symbols: Seq<ParsedView>,
) -> Result<Seq<FunctionSize>, Seq<char>> {
    match layout_of(d) {
        Err(e) => Err(e),
        Ok(layout) => match function_sizes(d, layout, functions, symbols) {
            Err(e) => Err(e),
            Ok(found) => Ok(stable_sort(found)),
        },
    }
}

proof fn lemma_function_sizes_err(
    d: Seq<u8>,
    layout: Layout,
    functions: Seq<Function>,
    symbols: Seq<ParsedView>,
    n: int,
)
    requires
        0 <= n <= symbols.len(),
        function_sizes(d, layout, functions, symbols.take(n)) is Err,
    ensures
        function_sizes(d, layout, functions, symbols) == function_sizes(
            d,
            layout,
            functions,
            symbols.take(n),
        ),
    decreases symbols.len(),
{
    if n < symbols.len() {
        assert(symbols.drop_last().take(n) =~= symbols.take(n));
        lemma_function_sizes_err(d, layout, functions, symbols.drop_last(), n);
    } else {
        assert(symbols.take(n) =~= symbols);
    }
}

/// The first function called `name`.
pub fn find_function<'a>(functions: &'a Vec<Function>, name: &str) -> (r: Option<&'a Function>)
    ensures
        match r {
            Some(f) => crate::seqs::first(functions@, called(name@)) == Some(*f),
            None => crate::seqs::first(functions@, called(name@)) is None,
        },
{
    let mut i: usize = 0;
    while i < functions.len()
        invariant
            i <= functions@.len(),
            forall|j: int| 0 <= j < i ==> !called(name@)(#[trigger] functions@[j]),
        decreases functions@.len() - i,
    {
        if same_text(functions[i].name.as_str(), name) {
            proof {
                lemma_first_index_is(functions@, called(name@), i as int);
            }
            return Some(&functions[i]);
        }
        i += 1;
    }
    proof {
        lemma_first_index_none(functions@, called(name@));
    }
    None
}

fn add_function_size(
    bytes: &[u8],
    layout: Layout,
    found: &mut Vec<FunctionSize>,
    f: &Function,
    index: u64,
) -> (r: Result<(), Error>)
    requires
        layout.fits(bytes@.len()),
    ensures
        match r {
            Ok(_) => with_function_size(bytes@, layout, old(found)@, *f, index) == Ok::<
                Seq<FunctionSize>,
                Seq<char>,
            >(final(found)@),
            Err(e) => with_function_size(bytes@, layout, old(found)@, *f, index) == Err::<
                Seq<FunctionSize>,
                Seq<char>,
            >(e@),
        },
{
    if index >= layout.symbol_count {
        return Err(Error::new("COFF function symbol index is out of bounds"));
    }
    assert(bytes@.len() == bytes.len());
    let raw: usize = (layout.symbol_offset + index * COFF_SYMBOL_SIZE) as usize;
    let aux: u8 = bytes[raw + 17];
    if aux != 0 {
        return Err(
            Error::new("COFF function '").text(f.name.as_str()).text("' already has ").dec(
                aux as u64,
            ).text(" auxiliary symbols"),
        );
    }
    let size: u64 = f.size();
    if size > u32::MAX as u64 {
        return Err(
            Error::new("COFF function size exceeds the auxiliary record limit: ").text(
                "out of range integral type conversion attempted",
            ),
        );
    }
    if size != 0 {
        found.push(FunctionSize { index, size: size as u32 });
    }
    Ok(())
}

/// Find emitted function symbols whose size should be recorded in a COFF
/// function auxiliary record. The object writer omits these records, even though
/// readers use them to recover function sizes.
pub fn coff_function_auxes(bytes: &[u8], symbols: &Vec<ParsedSymbol>, model: &IdaModel) -> (r:
    Result<Vec<FunctionSize>, Error>)
    ensures
        match r {
            Ok(found) => function_auxes(bytes@, model.functions@, views(symbols@)) == Ok::<
                Seq<FunctionSize>,
                Seq<char>,
            >(found@),
            Err(e) => function_auxes(bytes@, model.functions@, views(symbols@)) == Err::<
                Seq<FunctionSize>,
                Seq<char>,
            >(e@),
        },
{
    let layout = match coff_symbol_layout(bytes) {
        Ok(layout) => layout,
        Err(e) => {
            return Err(e);
        },
    };
    let ghost v = views(symbols@);
    let ghost fs = model.functions@;
    let mut found: Vec<FunctionSize> = Vec::new();
    let mut i: usize = 0;
    assert(v.take(0) =~= Seq::<ParsedView>::empty());
    while i < symbols.len()
        invariant
            i <= symbols@.len(),
            v == views(symbols@),
            fs == model.functions@,
            layout_of(bytes@) == Ok::<Layout, Seq<char>>(layout),
            layout.fits(bytes@.len()),
            function_sizes(bytes@, layout, fs, v.take(i as int)) == Ok::<
                Seq<FunctionSize>,
                Seq<char>,
            >(found@),
        decreases symbols@.len() - i,
    {
        assert(v.take(i + 1).drop_last() =~= v.take(i as int));
        let s = &symbols[i];
        assert(v[i as int] == s@);
        proof {
            if function_sizes(bytes@, layout, fs, v.take(i + 1)) is Err {
                lemma_function_sizes_err(bytes@, layout, fs, v, i + 1);
            }
        }
        if s.is_text && !s.is_undefined {
            if let Some(name) = &s.name {
                if let Some(f) = find_function(&model.functions, name.as_str()) {
                    if let Err(e) = add_function_size(bytes, layout, &mut found, f, s.index) {
                        return Err(e);
                    }
                }
            }
        }
        i += 1;
    }
    assert(v.take(v.len() as int) =~= v);
    Ok(sort_stably(found))
}

// ---------------------------------------------------------------------------
// Auxiliary records of functions
// ---------------------------------------------------------------------------

/// Whether every symbol index exists and none occurs twice.
pub open spec fn auxes_valid(auxes: Seq<FunctionSize>, count: int) -> bool {
    &&& forall|i: int| 0 <= i < auxes.len() ==> (#[trigger] auxes[i]).index < count
    &&& forall|i: int, j: int|
        0 <= i < j < auxes.len() ==> (#[trigger] auxes[i]).index != (#[trigger] auxes[j]).index
}

pub open spec fn at_index(index: int) -> spec_fn(FunctionSize) -> bool {
    |a: FunctionSize| a.index == index
}

/// The size of the function of symbol `index`.
pub open spec fn size_at(auxes: Seq<FunctionSize>, index: int) -> Option<u32> {
    match crate::seqs::first(auxes, at_index(index)) {
        Some(a) => Some(a.size),
        None => None,
    }
}

/// Symbol records `from` up to `to`.
pub open spec fn records_of(d: Seq<u8>, layout: Layout, from: int, to: int) -> Seq<u8> {
    d.subrange(layout.symbol_offset + from * 18, layout.symbol_offset + to * 18)
}

/// The auxiliary record of a function of `size` bytes.
pub open spec fn aux_record(size: u32) -> Seq<u8> {
    Seq::new(4, |i: int| 0u8) + le32_bytes(size as int) + Seq::new(10, |i: int| 0u8)
}

/// A symbol table with records added, and the new index of each old record.
#[verifier::ext_equal]
pub struct Grown {
    pub records: Seq<u8>,
    pub map: Seq<u64>,
}

/// The indices from `first` on, `n` of them.
pub open spec fn indices(first: int, n: int) -> Seq<u64> {
    Seq::new(n as nat, |k: int| (first + k) as u64)
}

/// `g` with symbol `i` and the auxiliary records behind it. A function gets an
/// auxiliary record of its own.
pub open spec fn with_symbol(
    d: Seq<u8>,
    layout: Layout,
    auxes: Seq<FunctionSize>,
    g: Grown,
    i: int,
) -> Result<Grown, Seq<char>> {
    let aux = aux_count(d, layout, i);
    let new = g.records.len() as int / 18;
    if i + 1 + aux > layout.symbol_count {
        Err("invalid COFF auxiliary symbol count"@)
    } else {
        match size_at(auxes, i) {
            Some(size) => if aux != 0 {
                Err("function symbol unexpectedly has auxiliary records"@)
            } else {
                Ok(
                    Grown {
                        records: g.records + records_of(d, layout, i, i + 1).update(17, 1)
                            + aux_record(size),
                        map: g.map + indices(new, 1),
                    },
                )
            },
            None => Ok(
                Grown {
                    records: g.records + records_of(d, layout, i, i + 1 + aux),
                    map: g.map + indices(new, 1 + aux),
                },
            ),
        }
    }
}

/// `g` with the symbols from `i` on.
pub open spec fn grown_from(
    d: Seq<u8>,
    layout: Layout,
    auxes: Seq<FunctionSize>,
    g: Grown,
    i: int,
) -> Result<Grown, Seq<char>>
    decreases layout.symbol_count - i,
{
    if i >= layout.symbol_count {
        Ok(g)
    } else {
        match with_symbol(d, layout, auxes, g, i) {
            Err(e) => Err(e),
            Ok(next) => if i + 1 + aux_count(d, layout, i) <= layout.symbol_count {
                grown_from(d, layout, auxes, next, i + 1 + aux_count(d, layout, i))
            } else {
                Ok(next)
            },
        }
    }
}

pub open spec fn no_records() -> Grown {
    Grown { records: Seq::empty(), map: Seq::empty() }
}

/// `d` with the 32-bit field at `at` set to `n`.
pub open spec fn with_u32(d: Seq<u8>, at: int, n: int) -> Seq<u8> {
    d.subrange(0, at) + le32_bytes(n) + d.subrange(at + 4, d.len() as int)
}

/// `d` with the symbol index at `at` mapped.
pub open spec fn remapped_at(d: Seq<u8>, at: int, map: Seq<u64>) -> Result<Seq<u8>, Seq<char>> {
    match u32_at(d, at) {
        Err(e) => Err(e),
        Ok(old) => if old >= map.len() {
            Err("COFF relocation symbol index is out of bounds"@)
        } else if map[old] > u32::MAX {
            Err(
                "COFF symbol index exceeds relocation field limit: "@
                    + "out of range integral type conversion attempted"@,
            )
        } else {
            Ok(with_u32(d, at, map[old] as int))
        },
    }
}

/// `d` with the symbol indices of the first `n` relocations from `first` on
/// mapped.
pub open spec fn remapped(d: Seq<u8>, first: int, n: nat, map: Seq<u64>) -> Result<
    Seq<u8>,
    Seq<char>,
>
    decreases n,
{
    if n == 0 {
        Ok(d)
    } else {
        match remapped(d, first, (n - 1) as nat, map) {
            Err(e) => Err(e),
            Ok(before) => remapped_at(before, first + (n - 1) * 10 + 4, map),
        }
    }
}

/// The place and number of the relocations of a section; where they are too many
/// for the header, the first record gives their number.
pub open spec fn section_relocs(d: Seq<u8>, header: int) -> Result<(int, int), Seq<char>> {
    let offset = le32(d, header + 24);
    let count = le16(d, header + 32);
    let flags = le32(d, header + 36) as u32;
    if count == 0xffff && flags & COFF_SCN_LNK_NRELOC_OVFL != 0 {
        match u32_at(d, offset) {
            Err(e) => Err(e),
            Ok(total) => if total == 0 {
                Err("invalid COFF relocation overflow count"@)
            } else {
                Ok((offset + 10, total - 1))
            },
        }
    } else {
        Ok((offset, count))
    }
}

/// `d` with the relocations of the first `n` sections mapped.
pub open spec fn sections_remapped(d: Seq<u8>, layout: Layout, n: nat, map: Seq<u64>) -> Result<
    Seq<u8>,
    Seq<char>,
>
    decreases n,
{
    if n == 0 {
        Ok(d)
    } else {
        match sections_remapped(d, layout, (n - 1) as nat, map) {
            Err(e) => Err(e),
            Ok(before) => match section_relocs(before, layout.section_offset + (n - 1) * 40) {
                Err(e) => Err(e),
                Ok((first, count)) => remapped(before, first, count as nat, map),
            },
        }
    }
}

/// The file with the symbol table `records` in place of its own.
pub open spec fn with_table(d: Seq<u8>, layout: Layout, records: Seq<u8>) -> Seq<u8> {
    let end = layout.symbol_offset + layout.symbol_count * 18;
    with_u32(
        d.subrange(0, layout.symbol_offset as int) + records + d.subrange(end, d.len() as int),
        12,
        records.len() as int / 18,
    )
}

/// A COFF file with auxiliary records for its functions, and its relocations
/// mapped to the new symbol indices.
pub open spec fn with_auxes(d: Seq<u8>, auxes: Seq<FunctionSize>) -> Result<Seq<u8>, Seq<char>> {
    if auxes.len() == 0 {
        Ok(d)
    } else {
        match layout_of(d) {
            Err(e) => Err(e),
            Ok(layout) => if !auxes_valid(auxes, layout.symbol_count as int) {
                Err("invalid or duplicate COFF function symbol index"@)
            } else {
                match grown_from(d, layout, auxes, no_records(), 0) {
                    Err(e) => Err(e),
                    Ok(g) => match sections_remapped(
                        d,
                        layout,
                        layout.section_count as nat,
                        g.map,
                    ) {
                        Err(e) => Err(e),
                        Ok(bytes) => if g.records.len() / 18 > u32::MAX {
                            Err(
                                "COFF symbol table exceeds file header limit: "@
                                    + "out of range integral type conversion attempted"@,
                            )
                        } else {
                            Ok(with_table(bytes, layout, g.records))
                        },
                    },
                }
            },
        }
    }
}

/// Sets a 32-bit field.
fn set_u32(bytes: &mut Vec<u8>, at: usize, n: u32)
    requires
        at + 4 <= old(bytes)@.len(),
    ensures
        final(bytes)@ == with_u32(old(bytes)@, at as int, n as int),
        final(bytes)@.len() == old(bytes)@.len(),
{
    let ghost before = bytes@;
    let mut field: Vec<u8> = Vec::new();
    push_u32(&mut field, n);
    proof {
        assert(field@ =~= le32_bytes(n as int));
    }
    let mut i: usize = 0;
    while i < 4
        invariant
            i <= 4,
            at + 4 <= bytes@.len(),
            field@.len() == 4,
            bytes@.len() == before.len(),
            forall|k: int| 0 <= k < before.len() ==> #[trigger] bytes@[k] == if at <= k < at + i {
                field@[k - at]
            } else {
                before[k]
            },
        decreases 4 - i,
    {
        assert(bytes@.len() == bytes.len());
        bytes.set(at + i, field[i]);
        i += 1;
    }
    assert(bytes@ =~= with_u32(before, at as int, n as int));
}

fn collect_sizes(auxes: &Vec<FunctionSize>, count: u64) -> (r: Option<HashMap<u64, u32>>)
    ensures
        match r {
            Some(m) => {
                &&& auxes_valid(auxes@, count as int)
                &&& forall|k: u64|
                    (#[trigger] m@.contains_key(k) ==> size_at(auxes@, k as int) == Some(m@[k])) && (
                    !m@.contains_key(k) ==> size_at(auxes@, k as int) is None)
            },
            None => !auxes_valid(auxes@, count as int),
        },
{
    broadcast use vstd::std_specs::hash::group_hash_axioms;

    let ghost a = auxes@;
    let mut sizes: HashMap<u64, u32> = HashMap::new();
    let mut i: usize = 0;
    while i < auxes.len()
        invariant
            i <= a.len(),
            a == auxes@,
            forall|k: int| 0 <= k < i ==> (#[trigger] a[k]).index < count,
            forall|k: int, m: int|
                0 <= k < m < i ==> (#[trigger] a[k]).index != (#[trigger] a[m]).index,
            forall|k: int| 0 <= k < i ==> sizes@.contains_key((#[trigger] a[k]).index) && sizes@[
            a[k].index] == a[k].size,
            forall|x: u64| #[trigger]
                sizes@.contains_key(x) ==> exists|k: int| 0 <= k < i && (#[trigger] a[k]).index == x,
        decreases a.len() - i,
    {
        broadcast use vstd::std_specs::hash::group_hash_axioms;

        let entry = auxes[i];
        if entry.index >= count {
            assert(a[i as int].index >= count);
            return None;
        }
        if sizes.contains_key(&entry.index) {
            let ghost k = choose|k: int| 0 <= k < i && (#[trigger] a[k]).index == entry.index;
            assert(a[k].index == a[i as int].index);
            return None;
        }
        let ghost before = sizes@;
        sizes.insert(entry.index, entry.size);
        assert forall|x: u64| #[trigger] sizes@.contains_key(x) implies exists|k: int|
            0 <= k < i + 1 && (#[trigger] a[k]).index == x by {
            if x == entry.index {
                assert(a[i as int].index == x);
            } else {
                assert(before.contains_key(x));
                let k = choose|k: int| 0 <= k < i && (#[trigger] a[k]).index == x;
                assert(a[k].index == x);
            }
        }
        i += 1;
    }
    proof {
        assert forall|k: u64|
            (#[trigger] sizes@.contains_key(k) ==> size_at(a, k as int) == Some(sizes@[k])) && (
            !sizes@.contains_key(k) ==> size_at(a, k as int) is None) by {
            if sizes@.contains_key(k) {
                let j = choose|j: int| 0 <= j < a.len() && (#[trigger] a[j]).index == k;
                assert forall|m: int| 0 <= m < j implies !at_index(k as int)(#[trigger] a[m]) by {
                    assert(a[m].index != a[j].index);
                }
                lemma_first_index_is(a, at_index(k as int), j);
            } else {
                assert forall|m: int| 0 <= m < a.len() implies !at_index(k as int)(
                    #[trigger] a[m],
                ) by {
                    if a[m].index == k {
                        assert(sizes@.contains_key(a[m].index));
                    }
                }
                lemma_first_index_none(a, at_index(k as int));
            }
        }
    }
    Some(sizes)
}

fn push_aux_record(records: &mut Vec<u8>, size: u32)
    ensures
        final(records)@ == old(records)@ + aux_record(size),
{
    let ghost before = records@;
    let mut aux: Vec<u8> = Vec::new();
    aux.resize(4, 0);
    assert(aux@ =~= Seq::new(4, |i: int| 0u8));
    push_u32(&mut aux, size);
    let ghost head = aux@;
    assert(head.len() == 8);
    aux.resize(18, 0);
    assert(aux@ =~= head + Seq::new(10, |i: int| 0u8));
    records.extend_from_slice(aux.as_slice());
    assert(records@ =~= before + aux_record(size));
}

fn push_indices(map: &mut Vec<u64>, first: u64, n: u64)
    requires
        first + n <= u64::MAX,
    ensures
        final(map)@ == old(map)@ + indices(first as int, n as int),
{
    let ghost before = map@;
    let mut k: u64 = 0;
    assert(before + indices(first as int, 0) =~= before);
    while k < n
        invariant
            k <= n,
            first + n <= u64::MAX,
            map@ == before + indices(first as int, k as int),
        decreases n - k,
    {
        map.push(first + k);
        k += 1;
        assert(map@ =~= before + indices(first as int, k as int));
    }
}

/// The view of a symbol table under construction.
pub open spec fn grown_view(records: Vec<u8>, map: Vec<u64>) -> Grown {
    Grown { records: records@, map: map@ }
}

fn grow_symbol(
    bytes: &[u8],
    layout: Layout,
    size: Option<u32>,
    records: &mut Vec<u8>,
    map: &mut Vec<u64>,
    i: u64,
    Ghost(auxes): Ghost<Seq<FunctionSize>>,
) -> (r: Result<u64, Error>)
    requires
        layout.fits(bytes@.len()),
        i < layout.symbol_count,
        size == size_at(auxes, i as int),
    ensures
        match r {
            Ok(next) => {
                &&& with_symbol(
                    bytes@,
                    layout,
                    auxes,
                    grown_view(*old(records), *old(map)),
                    i as int,
                ) == Ok::<Grown, Seq<char>>(grown_view(*final(records), *final(map)))
                &&& next == i + 1 + aux_count(bytes@, layout, i as int)
                &&& next <= layout.symbol_count
            },
            Err(e) => with_symbol(
                bytes@,
                layout,
                auxes,
                grown_view(*old(records), *old(map)),
                i as int,
            ) == Err::<Grown, Seq<char>>(e@),
        },
{
    assert(bytes@.len() == bytes.len());
    let ghost before = grown_view(*records, *map);
    let raw: usize = (layout.symbol_offset + i * COFF_SYMBOL_SIZE) as usize;
    let aux: u64 = bytes[raw + 17] as u64;
    if i + 1 + aux > layout.symbol_count {
        return Err(Error::new("invalid COFF auxiliary symbol count"));
    }
    let new: u64 = records.len() as u64 / COFF_SYMBOL_SIZE;
    match size {
        Some(size) => {
            if aux != 0 {
                return Err(Error::new("function symbol unexpectedly has auxiliary records"));
            }
            let mut record = vstd::slice::slice_to_vec(
                vstd::slice::slice_subrange(bytes, raw, raw + 18),
            );
            record.set(17, 1);
            records.extend_from_slice(record.as_slice());
            push_aux_record(records, size);
            push_indices(map, new, 1);
            assert(grown_view(*records, *map) =~= (Grown {
                records: before.records + records_of(bytes@, layout, i as int, i + 1).update(17, 1)
                    + aux_record(size),
                map: before.map + indices(new as int, 1),
            }));
        },
        None => {
            let end: usize = (layout.symbol_offset + (i + 1 + aux) * COFF_SYMBOL_SIZE) as usize;
            records.extend_from_slice(vstd::slice::slice_subrange(bytes, raw, end));
            push_indices(map, new, 1 + aux);
            assert(grown_view(*records, *map) =~= (Grown {
                records: before.records + records_of(bytes@, layout, i as int, i + 1 + aux),
                map: before.map + indices(new as int, 1 + aux),
            }));
        },
    }
    Ok(i + 1 + aux)
}

fn grow_symbols(bytes: &[u8], layout: Layout, auxes: &Vec<FunctionSize>) -> (r: Result<
    (Vec<u8>, Vec<u64>),
    Error,
>)
    requires
        layout.fits(bytes@.len()),
    ensures
        match r {
            Ok((records, map)) => {
                &&& auxes_valid(auxes@, layout.symbol_count as int)
                &&& grown_from(bytes@, layout, auxes@, no_records(), 0) == Ok::<Grown, Seq<char>>(
                    grown_view(records, map),
                )
            },
            Err(e) => if auxes_valid(auxes@, layout.symbol_count as int) {
                grown_from(bytes@, layout, auxes@, no_records(), 0) == Err::<Grown, Seq<char>>(e@)
            } else {
                e@ == "invalid or duplicate COFF function symbol index"@
            },
        },
{
    let sizes = match collect_sizes(auxes, layout.symbol_count) {
        Some(sizes) => sizes,
        None => {
            return Err(Error::new("invalid or duplicate COFF function symbol index"));
        },
    };
    let ghost all = grown_from(bytes@, layout, auxes@, no_records(), 0);
    let mut records: Vec<u8> = Vec::new();
    let mut map: Vec<u64> = Vec::new();
    let mut i: u64 = 0;
    assert(grown_view(records, map) =~= no_records());
    while i < layout.symbol_count
        invariant
            layout.fits(bytes@.len()),
            i <= layout.symbol_count,
            auxes_valid(auxes@, layout.symbol_count as int),
            all == grown_from(bytes@, layout, auxes@, no_records(), 0),
            all == grown_from(bytes@, layout, auxes@, grown_view(records, map), i as int),
            forall|k: u64|
                (#[trigger] sizes@.contains_key(k) ==> size_at(auxes@, k as int) == Some(sizes@[k]))
                    && (!sizes@.contains_key(k) ==> size_at(auxes@, k as int) is None),
        decreases layout.symbol_count - i,
    {
        broadcast use vstd::std_specs::hash::group_hash_axioms;

        assert(sizes@.contains_key(i) || !sizes@.contains_key(i));
        let size: Option<u32> = match sizes.get(&i) {
            Some(size) => Some(*size),
            None => None,
        };
        match grow_symbol(bytes, layout, size, &mut records, &mut map, i, Ghost(auxes@)) {
            Ok(next) => {
                i = next;
            },
            Err(e) => {
                return Err(e);
            },
        }
    }
    Ok((records, map))
}

proof fn lemma_remapped_err(d: Seq<u8>, first: int, m: nat, n: nat, map: Seq<u64>)
    requires
        m <= n,
        remapped(d, first, m, map) is Err,
    ensures
        remapped(d, first, n, map) == remapped(d, first, m, map),
    decreases n,
{
    if m < n {
        lemma_remapped_err(d, first, m, (n - 1) as nat, map);
    }
}

proof fn lemma_sections_remapped_err(d: Seq<u8>, layout: Layout, m: nat, n: nat, map: Seq<u64>)
    requires
        m <= n,
        sections_remapped(d, layout, m, map) is Err,
    ensures
        sections_remapped(d, layout, n, map) == sections_remapped(d, layout, m, map),
    decreases n,
{
    if m < n {
        lemma_sections_remapped_err(d, layout, m, (n - 1) as nat, map);
    }
}

fn remap_relocations(bytes: &mut Vec<u8>, first: u64, count: u64, map: &Vec<u64>) -> (r: Result<
    (),
    Error,
>)
    requires
        first <= 0x1_0000_0009,
        count <= 0xffff_ffff,
    ensures
        match r {
            Ok(_) => {
                &&& remapped(old(bytes)@, first as int, count as nat, map@) == Ok::<
                    Seq<u8>,
                    Seq<char>,
                >(final(bytes)@)
                &&& final(bytes)@.len() == old(bytes)@.len()
            },
            Err(e) => remapped(old(bytes)@, first as int, count as nat, map@) == Err::<
                Seq<u8>,
                Seq<char>,
            >(e@),
        },
{
    let ghost start = bytes@;
    let mut i: u64 = 0;
    while i < count
        invariant
            i <= count <= 0xffff_ffff,
            first <= 0x1_0000_0009,
            bytes@.len() == start.len(),
            start == old(bytes)@,
            remapped(start, first as int, i as nat, map@) == Ok::<Seq<u8>, Seq<char>>(bytes@),
        decreases count - i,
    {
        let at: u64 = first + i * COFF_RELOCATION_SIZE + 4;
        proof {
            if remapped(start, first as int, (i + 1) as nat, map@) is Err {
                lemma_remapped_err(start, first as int, (i + 1) as nat, count as nat, map@);
            }
        }
        let old_symbol: u32 = match coff_u32(bytes.as_slice(), at) {
            Ok(v) => v,
            Err(e) => {
                return Err(e);
            },
        };
        if old_symbol as u64 >= map.len() as u64 {
            return Err(Error::new("COFF relocation symbol index is out of bounds"));
        }
        let new_symbol: u64 = map[old_symbol as usize];
        if new_symbol > u32::MAX as u64 {
            return Err(
                Error::new("COFF symbol index exceeds relocation field limit: ").text(
                    "out of range integral type conversion attempted",
                ),
            );
        }
        assert(bytes@.len() == bytes.len());
        set_u32(bytes, at as usize, new_symbol as u32);
        i += 1;
    }
    Ok(())
}

fn find_relocations(bytes: &[u8], header: u64) -> (r: Result<(u64, u64), Error>)
    requires
        header + 40 <= bytes@.len(),
    ensures
        match r {
            Ok((first, count)) => {
                &&& section_relocs(bytes@, header as int) == Ok::<(int, int), Seq<char>>(
                    (first as int, count as int),
                )
                &&& first <= 0x1_0000_0009
                &&& count <= 0xffff_ffff
            },
            Err(e) => section_relocs(bytes@, header as int) == Err::<(int, int), Seq<char>>(e@),
        },
{
    assert(bytes@.len() == bytes.len());
    let offset: u64 = get_u32(bytes, (header + 24) as usize) as u64;
    let count: u64 = get_u16(bytes, (header + 32) as usize) as u64;
    let flags: u32 = get_u32(bytes, (header + 36) as usize);
    if count == 0xffff && flags & COFF_SCN_LNK_NRELOC_OVFL != 0 {
        let total: u64 = match coff_u32(bytes, offset) {
            Ok(v) => v as u64,
            Err(e) => {
                return Err(e);
            },
        };
        if total == 0 {
            return Err(Error::new("invalid COFF relocation overflow count"));
        }
        Ok((offset + COFF_RELOCATION_SIZE, total - 1))
    } else {
        Ok((offset, count))
    }
}

fn remap_sections(bytes: &mut Vec<u8>, layout: Layout, map: &Vec<u64>) -> (r: Result<(), Error>)
    requires
        layout.fits(old(bytes)@.len()),
    ensures
        match r {
            Ok(_) => {
                &&& sections_remapped(
                    old(bytes)@,
                    layout,
                    layout.section_count as nat,
                    map@,
                ) == Ok::<Seq<u8>, Seq<char>>(final(bytes)@)
                &&& final(bytes)@.len() == old(bytes)@.len()
            },
            Err(e) => sections_remapped(
                old(bytes)@,
                layout,
                layout.section_count as nat,
                map@,
            ) == Err::<Seq<u8>, Seq<char>>(e@),
        },
{
    let ghost start = bytes@;
    let mut k: u64 = 0;
    while k < layout.section_count
        invariant
            layout.fits(start.len()),
            k <= layout.section_count,
            bytes@.len() == start.len(),
            start == old(bytes)@,
            sections_remapped(start, layout, k as nat, map@) == Ok::<Seq<u8>, Seq<char>>(bytes@),
        decreases layout.section_count - k,
    {
        proof {
            if sections_remapped(start, layout, (k + 1) as nat, map@) is Err {
                lemma_sections_remapped_err(
                    start,
                    layout,
                    (k + 1) as nat,
                    layout.section_count as nat,
                    map@,
                );
            }
        }
        let header: u64 = layout.section_offset + k * COFF_SECTION_HEADER_SIZE;
        let (first, count) = match find_relocations(bytes.as_slice(), header) {
            Ok(found) => found,
            Err(e) => {
                return Err(e);
            },
        };
        if let Err(e) = remap_relocations(bytes, first, count, map) {
            return Err(e);
        }
        k += 1;
    }
    Ok(())
}

/// Add canonical COFF function auxiliary records and update relocation symbol
/// indices to account for the inserted raw symbol-table entries.
pub fn add_coff_function_auxes(bytes: Vec<u8>, auxes: &Vec<FunctionSize>) -> (r: Result<
    Vec<u8>,
    Error,
>)
    ensures
        match r {
            Ok(out) => with_auxes(bytes@, auxes@) == Ok::<Seq<u8>, Seq<char>>(out@),
            Err(e) => with_auxes(bytes@, auxes@) == Err::<Seq<u8>, Seq<char>>(e@),
        },
{
    if auxes.len() == 0 {
        return Ok(bytes);
    }
    let layout = match coff_symbol_layout(bytes.as_slice()) {
        Ok(layout) => layout,
        Err(e) => {
            return Err(e);
        },
    };
    let (records, map) = match grow_symbols(bytes.as_slice(), layout, auxes) {
        Ok(grown) => grown,
        Err(e) => {
            return Err(e);
        },
    };
    let ghost original = bytes@;
    let mut bytes = bytes;
    if let Err(e) = remap_sections(&mut bytes, layout, &map) {
        return Err(e);
    }
    let count: u64 = records.len() as u64 / COFF_SYMBOL_SIZE;
    if count > u32::MAX as u64 {
        return Err(
            Error::new("COFF symbol table exceeds file header limit: ").text(
                "out of range integral type conversion attempted",
            ),
        );
    }
    assert(bytes@.len() == bytes.len());
    let total: usize = bytes.len();
    let from: usize = layout.symbol_offset as usize;
    let to: usize = (layout.symbol_offset + layout.symbol_count * COFF_SYMBOL_SIZE) as usize;
    let mut result = vstd::slice::slice_to_vec(
        vstd::slice::slice_subrange(bytes.as_slice(), 0, from),
    );
    result.extend_from_slice(records.as_slice());
    result.extend_from_slice(vstd::slice::slice_subrange(bytes.as_slice(), to, total));
    proof {
        lemma_grown_length(original, layout, auxes@, no_records(), 0);
    }
    let ghost joined = result@;
    set_u32(&mut result, 12, count as u32);
    proof {
        assert(joined =~= bytes@.subrange(0, layout.symbol_offset as int) + records@
            + bytes@.subrange(to as int, bytes@.len() as int));
        assert(result@ == with_table(bytes@, layout, records@));
    }
    Ok(result)
}

/// A grown symbol table is no shorter than the records that it was made from.
proof fn lemma_grown_length(
    d: Seq<u8>,
    layout: Layout,
    auxes: Seq<FunctionSize>,
    g: Grown,
    i: int,
)
    requires
        layout.fits(d.len()),
        0 <= i <= layout.symbol_count,
    ensures
        grown_from(d, layout, auxes, g, i) matches Ok(all) ==> all.records.len() >= g.records.len()
            + (layout.symbol_count - i) * 18,
    decreases layout.symbol_count - i,
{
    if i < layout.symbol_count {
        let aux = aux_count(d, layout, i);
        if let Ok(next) = with_symbol(d, layout, auxes, g, i) {
            if i + 1 + aux <= layout.symbol_count {
                lemma_grown_length(d, layout, auxes, next, i + 1 + aux);
            }
        }
    }
}

/// Whether the record at index `new` of `records` is record `old` of the file,
/// but for the count of auxiliary records in its last byte.
pub open spec fn same_record(
    d: Seq<u8>,
    layout: Layout,
    old: int,
    records: Seq<u8>,
    new: int,
) -> bool {
    &&& 0 <= new
    &&& new * 18 + 18 <= records.len()
    &&& forall|b: int|
        0 <= b < 17 ==> #[trigger] records[new * 18 + b] == d[layout.symbol_offset + old * 18 + b]
}

/// Whether `g` holds the first `i` records of the file, each where the map says.
pub open spec fn keeps_records(d: Seq<u8>, layout: Layout, g: Grown, i: int) -> bool {
    &&& g.map.len() == i
    &&& g.records.len() % 18 == 0
    &&& g.records.len() <= 36 * i
    &&& forall|k: int| 0 <= k < i ==> same_record(d, layout, k, g.records, #[trigger] g.map[k] as int)
}

proof fn lemma_same_record_stays(
    d: Seq<u8>,
    layout: Layout,
    old: int,
    records: Seq<u8>,
    new: int,
    more: Seq<u8>,
)
    requires
        same_record(d, layout, old, records, new),
    ensures
        same_record(d, layout, old, records + more, new),
{
    assert forall|b: int| 0 <= b < 17 implies #[trigger] (records + more)[new * 18 + b] == d[
    layout.symbol_offset + old * 18 + b] by {
        assert(records[new * 18 + b] == (records + more)[new * 18 + b]);
    }
}

pub(crate) proof fn lemma_with_symbol_keeps_records(
    d: Seq<u8>,
    layout: Layout,
    auxes: Seq<FunctionSize>,
    g: Grown,
    i: int,
)
    requires
        layout.fits(d.len()),
        0 <= i < layout.symbol_count,
        keeps_records(d, layout, g, i),
    ensures
        with_symbol(d, layout, auxes, g, i) matches Ok(next) ==> keeps_records(
            d,
            layout,
            next,
            i + 1 + aux_count(d, layout, i),
        ),
{
    let aux = aux_count(d, layout, i);
    let new = g.records.len() as int / 18;
    if let Ok(next) = with_symbol(d, layout, auxes, g, i) {
        let n = if size_at(auxes, i) is Some {
            1
        } else {
            1 + aux
        };
        let more = if size_at(auxes, i) is Some {
            records_of(d, layout, i, i + 1).update(17, 1) + aux_record(size_at(auxes, i)->0)
        } else {
            records_of(d, layout, i, i + 1 + aux)
        };
        assert(next.records =~= g.records + more);
        assert(aux_record(0).len() == 18);
        assert forall|k: int| 0 <= k < i + n implies same_record(
            d,
            layout,
            k,
            next.records,
            #[trigger] next.map[k] as int,
        ) by {
            if k < i {
                assert(next.map[k] == g.map[k]);
                assert(same_record(d, layout, k, g.records, g.map[k] as int));
                lemma_same_record_stays(d, layout, k, g.records, g.map[k] as int, more);
            } else {
                assert(next.map[k] == indices(new, n)[k - i]);
                assert(next.map[k] == new + (k - i));
                assert forall|b: int| 0 <= b < 17 implies #[trigger] next.records[(new + (k - i))
                    * 18 + b] == d[layout.symbol_offset + k * 18 + b] by {
                    assert((new + (k - i)) * 18 + b == g.records.len() + (k - i) * 18 + b);
                    assert(next.records[g.records.len() + (k - i) * 18 + b] == more[(k - i) * 18
                        + b]);
                }
            }
        }
    }
}

proof fn lemma_grown_keeps_records(
    d: Seq<u8>,
    layout: Layout,
    auxes: Seq<FunctionSize>,
    g: Grown,
    i: int,
)
    requires
        layout.fits(d.len()),
        0 <= i <= layout.symbol_count,
        keeps_records(d, layout, g, i),
    ensures
        grown_from(d, layout, auxes, g, i) matches Ok(all) ==> keeps_records(
            d,
            layout,
            all,
            layout.symbol_count as int,
        ),
    decreases layout.symbol_count - i,
{
    if i < layout.symbol_count {
        let aux = aux_count(d, layout, i);
        lemma_with_symbol_keeps_records(d, layout, auxes, g, i);
        if let Ok(next) = with_symbol(d, layout, auxes, g, i) {
            lemma_grown_keeps_records(d, layout, auxes, next, i + 1 + aux);
        }
    }
}

/// Adding records loses none: every symbol record of the file stands, but for
/// its count of auxiliary records, at the index that relocations are mapped to.
pub proof fn lemma_mapped_symbols_are_the_same(
    d: Seq<u8>,
    layout: Layout,
    auxes: Seq<FunctionSize>,
    old: int,
)
    requires
        layout_of(d) == Ok::<Layout, Seq<char>>(layout),
        0 <= old < layout.symbol_count,
    ensures
        grown_from(d, layout, auxes, no_records(), 0) matches Ok(g) ==> {
            &&& g.map.len() == layout.symbol_count
            &&& same_record(d, layout, old, g.records, g.map[old] as int)
        },
{
    lemma_grown_keeps_records(d, layout, auxes, no_records(), 0);
}

} // verus!
