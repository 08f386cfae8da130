//! Split metadata: the original address of every symbol of an object.

use crate::bytes::{le32_bytes, le64_bytes, push_u32, push_u64};
use crate::coff::{called, find_function, FunctionSize, ParsedSymbol, ParsedView};
use crate::model::{IdaModel, JumpTable, Name, SegClass, TableView};
use crate::resolver::{
    find_class, of_class, SYM_BSS_START, SYM_CONST_START, SYM_DATA_START,
};
use crate::seqs::{first, lemma_first_index_is, lemma_first_index_none, views};
use crate::sorting::{in_key_order, place_before};
use crate::text::{
    after_prefix, begins_with, chars_of, parse_hex, parse_hex_chars, same_text, Error,
};
use vstd::prelude::*;

verus! {

// ---------------------------------------------------------------------------
// Original addresses
// ---------------------------------------------------------------------------

/// Names that read `name`.
pub open spec fn reads(name: Seq<char>) -> spec_fn(Name) -> bool {
    |n: Name| n.name@ == name
}

/// Tables called `name`.
pub open spec fn table_called(name: Seq<char>) -> spec_fn(TableView) -> bool {
    |t: TableView| t.name == name
}

/// The address that the name of a case label or discovered table gives.
pub open spec fn label_address(name: Seq<char>) -> Option<u64> {
    match after_prefix(name, "$L_"@) {
        Some(rest) => parse_hex(rest),
        None => match after_prefix(name, "jpt_"@) {
            Some(rest) => parse_hex(rest),
            None => None,
        },
    }
}

/// The place behind the last underscore of `s`.
pub open spec fn behind_last_underscore(s: Seq<char>) -> Option<int>
    decreases s.len(),
{
    if s.len() == 0 {
        None
    } else if s.last() == '_' {
        Some(s.len() as int)
    } else {
        behind_last_underscore(s.drop_last())
    }
}

/// The address that the name of a data-range anchor gives.
pub open spec fn anchor_address(name: Seq<char>) -> Option<u64> {
    match after_prefix(name, "__delink_ida_"@) {
        Some(rest) => match behind_last_underscore(rest) {
            Some(i) => parse_hex(rest.skip(i)),
            None => None,
        },
        None => None,
    }
}

/// The start of the first section of a class.
pub open spec fn class_address(model: IdaModel, class: SegClass) -> Option<u64> {
    match first(model.sections@, of_class(class)) {
        Some(s) => Some(s.start),
        None => None,
    }
}

/// The address that the name of a section start gives.
pub open spec fn start_address(model: IdaModel, name: Seq<char>) -> Option<u64> {
    if name == SYM_CONST_START@ {
        class_address(model, SegClass::Const)
    } else if name == SYM_DATA_START@ {
        class_address(model, SegClass::Data)
    } else if name == SYM_BSS_START@ {
        class_address(model, SegClass::Bss)
    } else {
        None
    }
}

/// `a`, or else `b`.
pub open spec fn either(a: Option<u64>, b: Option<u64>) -> Option<u64> {
    match a {
        Some(v) => Some(v),
        None => b,
    }
}

/// The address of a function, name or table that the model lists.
pub open spec fn listed_address(model: IdaModel, name: Seq<char>) -> Option<u64> {
    match first(model.functions@, called(name)) {
        Some(f) => Some(f.start),
        None => match first(model.names@, reads(name)) {
            Some(n) => Some(n.addr),
            None => match first(views(model.jump_tables@), table_called(name)) {
                Some(t) => Some(t.start),
                None => None,
            },
        },
    }
}

/// The original address of a symbol: that of what the model lists under its
/// name, or the one that a name made up for an address gives.
pub open spec fn symbol_address(model: IdaModel, name: Seq<char>) -> Option<u64> {
    either(
        listed_address(model, name),
        either(label_address(name), either(anchor_address(name), start_address(model, name))),
    )
}

fn find_name(names: &Vec<Name>, name: &str) -> (r: Option<u64>)
    ensures
        r == match first(names@, reads(name@)) {
            Some(n) => Some(n.addr),
            None => None,
        },
{
    let mut i: usize = 0;
    while i < names.len()
        invariant
            i <= names@.len(),
            forall|j: int| 0 <= j < i ==> !reads(name@)(#[trigger] names@[j]),
        decreases names@.len() - i,
    {
        if same_text(names[i].name.as_str(), name) {
            proof {
                lemma_first_index_is(names@, reads(name@), i as int);
            }
            return Some(names[i].addr);
        }
        i += 1;
    }
    proof {
        lemma_first_index_none(names@, reads(name@));
    }
    None
}

fn find_table(tables: &Vec<JumpTable>, name: &str) -> (r: Option<u64>)
    ensures
        r == match first(views(tables@), table_called(name@)) {
            Some(t) => Some(t.start),
            None => None,
        },
{
    let ghost v = views(tables@);
    let mut i: usize = 0;
    while i < tables.len()
        invariant
            i <= tables@.len(),
            v == views(tables@),
            forall|j: int| 0 <= j < i ==> !table_called(name@)(#[trigger] v[j]),
        decreases tables@.len() - i,
    {
        assert(v[i as int] == tables@[i as int]@);
        if same_text(tables[i].name.as_str(), name) {
            proof {
                lemma_first_index_is(v, table_called(name@), i as int);
            }
            return Some(tables[i].start);
        }
        i += 1;
    }
    proof {
        lemma_first_index_none(v, table_called(name@));
    }
    None
}

fn find_listed(model: &IdaModel, name: &str) -> (r: Option<u64>)
    ensures
        r == listed_address(*model, name@),
{
    if let Some(f) = find_function(&model.functions, name) {
        return Some(f.start);
    }
    if let Some(address) = find_name(&model.names, name) {
        return Some(address);
    }
    find_table(&model.jump_tables, name)
}

fn parse_label(chars: &[char]) -> (r: Option<u64>)
    ensures
        r == label_address(chars@),
{
    proof {
        reveal_strlit("$L_");
        reveal_strlit("jpt_");
    }
    if begins_with(chars, "$L_") {
        parse_hex_chars(chars, 3)
    } else if begins_with(chars, "jpt_") {
        parse_hex_chars(chars, 4)
    } else {
        None
    }
}

fn parse_anchor(chars: &[char]) -> (r: Option<u64>)
    ensures
        r == anchor_address(chars@),
{
    proof {
        reveal_strlit("__delink_ida_");
    }
    if !begins_with(chars, "__delink_ida_") {
        return None;
    }
    let ghost rest = chars@.skip(13);
    let mut n: usize = chars.len();
    assert(rest.take(rest.len() as int) =~= rest);
    while n > 13 && chars[n - 1] != '_'
        invariant
            13 <= n <= chars@.len(),
            rest == chars@.skip(13),
            behind_last_underscore(rest) == behind_last_underscore(rest.take(n - 13)),
        decreases n,
    {
        assert(rest.take(n - 13).drop_last() =~= rest.take(n - 14));
        n -= 1;
    }
    if n == 13 {
        return None;
    }
    assert(rest.skip(n - 13) =~= chars@.skip(n as int));
    parse_hex_chars(chars, n)
}

fn class_start_address(model: &IdaModel, class: SegClass) -> (r: Option<u64>)
    ensures
        r == class_address(*model, class),
{
    match find_class(&model.sections, class) {
        Some(s) => Some(s.start),
        None => None,
    }
}

fn find_start(model: &IdaModel, name: &str) -> (r: Option<u64>)
    ensures
        r == start_address(*model, name@),
{
    if same_text(name, SYM_CONST_START) {
        class_start_address(model, SegClass::Const)
    } else if same_text(name, SYM_DATA_START) {
        class_start_address(model, SegClass::Data)
    } else if same_text(name, SYM_BSS_START) {
        class_start_address(model, SegClass::Bss)
    } else {
        None
    }
}

/// The original address of a symbol.
pub fn original_symbol_va(model: &IdaModel, name: &str) -> (r: Option<u64>)
    ensures
        r == symbol_address(*model, name@),
{
    if let Some(address) = find_listed(model, name) {
        return Some(address);
    }
    let chars = chars_of(name);
    if let Some(address) = parse_label(chars.as_slice()) {
        return Some(address);
    }
    if let Some(address) = parse_anchor(chars.as_slice()) {
        return Some(address);
    }
    find_start(model, name)
}

// ---------------------------------------------------------------------------
// The note
// ---------------------------------------------------------------------------

/// One address of the note: eight bytes, or the low four.
pub open spec fn address_bytes(address: u64, wide: bool) -> Seq<u8> {
    if wide {
        le64_bytes(address as int)
    } else {
        le32_bytes((address % 0x1_0000_0000) as int)
    }
}

pub open spec fn addresses_bytes(addresses: Seq<u64>, wide: bool) -> Seq<u8>
    decreases addresses.len(),
{
    if addresses.len() == 0 {
        Seq::empty()
    } else {
        addresses_bytes(addresses.drop_last(), wide) + address_bytes(addresses.last(), wide)
    }
}

/// The bytes of `Split` with its terminator and padding.
pub open spec fn owner_bytes() -> Seq<u8> {
    seq![0x53u8, 0x70, 0x6c, 0x69, 0x74, 0, 0, 0]
}

pub open spec fn address_width(wide: bool) -> int {
    if wide {
        8
    } else {
        4
    }
}

/// The note that gives the addresses: the lengths of its owner's name and of
/// its contents, its type, the name, and the contents.
pub open spec fn note_bytes(addresses: Seq<u64>, wide: bool) -> Result<Seq<u8>, Seq<char>> {
    let size = addresses.len() * address_width(wide);
    if size > u32::MAX {
        Err(
            "split metadata is too large: "@ + "out of range integral type conversion attempted"@,
        )
    } else {
        Ok(
            le32_bytes(6) + le32_bytes(size) + le32_bytes(0x56495254) + owner_bytes()
                + addresses_bytes(addresses, wide),
        )
    }
}

/// The note that gives the virtual addresses of an object's symbols.
pub fn split_meta_note(virtual_addresses: &Vec<u64>, is_64: bool) -> (r: Result<Vec<u8>, Error>)
    ensures
        match r {
            Ok(note) => note_bytes(virtual_addresses@, is_64) == Ok::<Seq<u8>, Seq<char>>(note@),
            Err(e) => note_bytes(virtual_addresses@, is_64) == Err::<Seq<u8>, Seq<char>>(e@),
        },
{
    let width: u128 = if is_64 {
        8
    } else {
        4
    };
    let size: u128 = virtual_addresses.len() as u128 * width;
    if size > u32::MAX as u128 {
        return Err(
            Error::new("split metadata is too large: ").text(
                "out of range integral type conversion attempted",
            ),
        );
    }
    let mut note: Vec<u8> = Vec::new();
    push_u32(&mut note, 6);
    push_u32(&mut note, size as u32);
    push_u32(&mut note, 0x56495254);
    let owner: [u8; 8] = [0x53, 0x70, 0x6c, 0x69, 0x74, 0, 0, 0];
    let mut k: usize = 0;
    let ghost head = note@;
    proof {
        assert(head =~= le32_bytes(6) + le32_bytes(size as int) + le32_bytes(0x56495254));
        assert(owner@ =~= owner_bytes());
        assert(head + owner_bytes().take(0) =~= head);
    }
    while k < 8
        invariant
            k <= 8,
            owner@ == owner_bytes(),
            note@ == head + owner_bytes().take(k as int),
        decreases 8 - k,
    {
        note.push(owner[k]);
        k += 1;
        assert(note@ =~= head + owner_bytes().take(k as int));
    }
    let ghost front = head + owner_bytes();
    assert(note@ =~= front);
    let ghost vs = virtual_addresses@;
    let mut i: usize = 0;
    assert(vs.take(0) =~= Seq::<u64>::empty());
    assert(front + addresses_bytes(vs.take(0), is_64) =~= front);
    while i < virtual_addresses.len()
        invariant
            i <= vs.len(),
            vs == virtual_addresses@,
            note@ == front + addresses_bytes(vs.take(i as int), is_64),
        decreases vs.len() - i,
    {
        assert(vs.take(i + 1).drop_last() =~= vs.take(i as int));
        let ghost before = note@;
        let address: u64 = virtual_addresses[i];
        if is_64 {
            push_u64(&mut note, address);
        } else {
            push_u32(&mut note, (address % 0x1_0000_0000) as u32);
        }
        proof {
            crate::bytes::lemma_concat_assoc(
                front,
                addresses_bytes(vs.take(i as int), is_64),
                address_bytes(address, is_64),
            );
        }
        i += 1;
    }
    assert(vs.take(vs.len() as int) =~= vs);
    Ok(note)
}

// ---------------------------------------------------------------------------
// Addresses by symbol index
// ---------------------------------------------------------------------------

/// `addresses` with that of a symbol at its index.
pub open spec fn with_address(model: IdaModel, addresses: Seq<u64>, s: ParsedView) -> Seq<u64> {
    if s.is_undefined || s.name is None {
        addresses
    } else {
        match symbol_address(model, s.name->0) {
            Some(a) => if s.index < addresses.len() {
                addresses.update(s.index as int, a)
            } else {
                addresses
            },
            None => addresses,
        }
    }
}

/// The original addresses of the symbols, by index; zero for a symbol without.
pub open spec fn addresses_of(model: IdaModel, symbols: Seq<ParsedView>, count: nat) -> Seq<u64>
    decreases symbols.len(),
{
    if symbols.len() == 0 {
        Seq::new(count, |i: int| 0u64)
    } else {
        with_address(model, addresses_of(model, symbols.drop_last(), count), symbols.last())
    }
}

/// The number of functions before symbol `index`.
pub open spec fn records_before(auxes: Seq<FunctionSize>, index: int) -> int {
    place_before(auxes, index)
}

/// `out` with the first addresses at the indices that their symbols have once
/// functions have auxiliary records.
pub open spec fn spread(auxes: Seq<FunctionSize>, addresses: Seq<u64>, out: Seq<u64>) -> Seq<u64>
    decreases addresses.len(),
{
    if addresses.len() == 0 {
        out
    } else {
        let i = addresses.len() - 1;
        spread(auxes, addresses.drop_last(), out).update(
            i + records_before(auxes, i),
            addresses.last(),
        )
    }
}

/// The addresses by symbol index, with room for the auxiliary records of
/// functions.
pub open spec fn spread_addresses(auxes: Seq<FunctionSize>, addresses: Seq<u64>) -> Seq<u64> {
    spread(
        auxes,
        addresses,
        Seq::new((addresses.len() + auxes.len()) as nat, |i: int| 0u64),
    )
}

pub fn collect_addresses(model: &IdaModel, symbols: &Vec<ParsedSymbol>, count: usize) -> (r: Vec<
    u64,
>)
    ensures
        r@ == addresses_of(*model, views(symbols@), count as nat),
        r@.len() == count,
{
    let ghost v = views(symbols@);
    let mut addresses: Vec<u64> = Vec::new();
    addresses.resize(count, 0);
    let mut i: usize = 0;
    assert(v.take(0) =~= Seq::<ParsedView>::empty());
    assert(addresses@ =~= Seq::new(count as nat, |i: int| 0u64));
    while i < symbols.len()
        invariant
            i <= symbols@.len(),
            v == views(symbols@),
            addresses@ == addresses_of(*model, v.take(i as int), count as nat),
            addresses@.len() == count,
        decreases symbols@.len() - i,
    {
        assert(v.take(i + 1).drop_last() =~= v.take(i as int));
        let s = &symbols[i];
        assert(v[i as int] == s@);
        if !s.is_undefined {
            if let Some(name) = &s.name {
                if let Some(address) = original_symbol_va(model, name.as_str()) {
                    if s.index < count as u64 {
                        addresses.set(s.index as usize, address);
                    }
                }
            }
        }
        i += 1;
    }
    assert(v.take(v.len() as int) =~= v);
    addresses
}

pub fn spread_out(auxes: &Vec<FunctionSize>, addresses: &Vec<u64>) -> (r: Vec<u64>)
    requires
        in_key_order(auxes@),
        addresses@.len() + auxes@.len() <= usize::MAX,
    ensures
        r@ == spread_addresses(auxes@, addresses@),
{
    let ghost all = addresses@;
    let total: usize = addresses.len() + auxes.len();
    let mut out: Vec<u64> = Vec::new();
    out.resize(total, 0);
    let ghost blank = out@;
    assert(blank =~= Seq::new((all.len() + auxes@.len()) as nat, |i: int| 0u64));
    let mut i: usize = 0;
    assert(all.take(0) =~= Seq::<u64>::empty());
    while i < addresses.len()
        invariant
            i <= all.len(),
            all == addresses@,
            in_key_order(auxes@),
            total == all.len() + auxes@.len(),
            out@ == spread(auxes@, all.take(i as int), blank),
            out@.len() == total,
        decreases all.len() - i,
    {
        assert(all.take(i + 1).drop_last() =~= all.take(i as int));
        let before: usize = crate::sorting::count_below(auxes, i as u64);
        out.set(i + before, addresses[i]);
        i += 1;
    }
    assert(all.take(all.len() as int) =~= all);
    out
}

} // verus!
