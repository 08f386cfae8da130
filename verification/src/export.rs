//! The exported analysis and the model that it decodes to.

use crate::model::{
    find_section, holds, Function, IdaArch, IdaModel, JumpTable, JumpTableEntry, Name, Reloc, SegClass,
    Section, TableView,
};
use crate::seqs::{
    first, first_index, keep, lemma_first_index, lemma_first_index_is, lemma_first_index_none,
    lemma_keep_contains, lemma_keep_step, views,
};
use crate::sorting::{
    in_key_order, lemma_stable_sort_contains, lemma_stable_sort_orders, sort_stably, stable_sort, HasKey,
};
use crate::text::{
    after_prefix, begins_with, chars_of, hex_text, parse_hex, parse_hex_chars, same_text, Error,
};
use vstd::prelude::*;

verus! {

/// A size as the export writes it: a hexadecimal string, an integer, or
/// something else.
#[derive(Debug)]
pub enum SizeValue {
    Text(String),
    Unsigned(u64),
    /// A number that is negative, fractional or too large.
    OtherNumber,
    Other,
}

/// The size that a value stands for.
pub open spec fn size_of(value: SizeValue) -> Result<u64, Seq<char>> {
    match value {
        SizeValue::Text(text) => {
            let digits = match after_prefix(text@, "0x"@) {
                Some(rest) => Some(rest),
                None => after_prefix(text@, "0X"@),
            };
            match digits {
                None => Err("size must be a hexadecimal string such as 0x4"@),
                Some(rest) => match parse_hex(rest) {
                    Some(v) => Ok(v),
                    None => Err("invalid hexadecimal size"@),
                },
            }
        },
        SizeValue::Unsigned(v) => Ok(v),
        SizeValue::OtherNumber => Err("size must be nonnegative"@),
        SizeValue::Other => Err("size must be a hexadecimal string or integer"@),
    }
}

/// The size that a value stands for.
pub fn parse_size(value: &SizeValue) -> (r: Result<u64, Error>)
    ensures
        match r {
            Ok(v) => size_of(*value) == Ok::<u64, Seq<char>>(v),
            Err(e) => size_of(*value) == Err::<u64, Seq<char>>(e@),
        },
{
    match value {
        SizeValue::Text(text) => {
            let chars = chars_of(text.as_str());
            proof {
                reveal_strlit("0x");
                reveal_strlit("0X");
            }
            if begins_with(chars.as_slice(), "0x") || begins_with(chars.as_slice(), "0X") {
                match parse_hex_chars(chars.as_slice(), 2) {
                    Some(v) => Ok(v),
                    None => Err(Error::new("invalid hexadecimal size")),
                }
            } else {
                Err(Error::new("size must be a hexadecimal string such as 0x4"))
            }
        },
        SizeValue::Unsigned(v) => Ok(*v),
        SizeValue::OtherNumber => Err(Error::new("size must be nonnegative")),
        SizeValue::Other => Err(Error::new("size must be a hexadecimal string or integer")),
    }
}

/// Sections of variables that hold `va`.
pub open spec fn data_holds(va: u64) -> spec_fn(Section) -> bool {
    |s: Section| s.has(va) && s.class.spec_is_data()
}

/// Whether `va` lies in a section of variables.
pub open spec fn in_data(sections: Seq<Section>, va: u64) -> bool {
    first_index(sections, data_holds(va)) is Some
}

/// Names of variables.
pub open spec fn is_data_name(sections: Seq<Section>) -> spec_fn(Name) -> bool {
    |n: Name| !n.is_func && in_data(sections, n.addr)
}

/// The names of variables in address order.
pub open spec fn data_names(sections: Seq<Section>, names: Seq<Name>) -> Seq<Name> {
    stable_sort(keep(names, is_data_name(sections)))
}

/// What is wrong with the variables from `i` on: one that does not fit in the
/// address space or its section, or reaches into the next.
pub open spec fn data_fault(sections: Seq<Section>, data: Seq<Name>, i: int) -> Option<Seq<char>>
    decreases data.len() - i,
{
    if i < 0 || i >= data.len() {
        None
    } else {
        let name = data[i];
        let end = name.addr + name.size;
        let section = first(sections, holds(name.addr));
        if end > u64::MAX {
            Some("data size overflows address space"@)
        } else if section is Some && end > section->0.end {
            Some(
                "data symbol "@ + name.name@ + " at "@ + hex_text(name.addr as int)
                    + " extends beyond section "@ + hex_text(section->0.end as int),
            )
        } else if i + 1 < data.len() && end > data[i + 1].addr {
            Some(
                "data symbols "@ + name.name@ + " at "@ + hex_text(name.addr as int) + " and "@
                    + data[i + 1].name@ + " at "@ + hex_text(data[i + 1].addr as int)
                    + " overlap"@,
            )
        } else {
            data_fault(sections, data, i + 1)
        }
    }
}

/// Whether `va` lies in a section of variables.
pub fn address_is_data(sections: &Vec<Section>, va: u64) -> (r: bool)
    ensures
        r == in_data(sections@, va),
{
    let mut i: usize = 0;
    while i < sections.len()
        invariant
            i <= sections@.len(),
            forall|j: int| 0 <= j < i ==> !data_holds(va)(#[trigger] sections@[j]),
        decreases sections@.len() - i,
    {
        if sections[i].contains(va) && sections[i].class.is_data() {
            proof {
                lemma_first_index_is(sections@, data_holds(va), i as int);
            }
            return true;
        }
        i += 1;
    }
    proof {
        lemma_first_index_none(sections@, data_holds(va));
    }
    false
}

/// Checks that every variable fits in its section and that no two overlap.
pub fn validate_data_symbols(sections: &Vec<Section>, names: &Vec<Name>) -> (r: Result<(), Error>)
    ensures
        match r {
            Ok(_) => data_fault(sections@, data_names(sections@, names@), 0) is None,
            Err(e) => data_fault(sections@, data_names(sections@, names@), 0) == Some(e@),
        },
{
    let mut kept: Vec<Name> = Vec::new();
    let mut k: usize = 0;
    let ghost p = is_data_name(sections@);
    assert(names@.take(0) =~= Seq::<Name>::empty());
    while k < names.len()
        invariant
            k <= names@.len(),
            p == is_data_name(sections@),
            kept@ == keep(names@.take(k as int), p),
        decreases names@.len() - k,
    {
        proof {
            lemma_keep_step(names@, p, k as int);
        }
        if !names[k].is_func && address_is_data(sections, names[k].addr) {
            kept.push(names[k].clone());
        }
        k += 1;
    }
    assert(names@.take(names@.len() as int) =~= names@);
    let data = sort_stably(kept);
    let mut i: usize = 0;
    while i < data.len()
        invariant
            i <= data@.len(),
            data@ == data_names(sections@, names@),
            data_fault(sections@, data@, 0) == data_fault(sections@, data@, i as int),
        decreases data@.len() - i,
    {
        let name = &data[i];
        if name.size > u64::MAX - name.addr {
            return Err(Error::new("data size overflows address space"));
        }
        let end: u64 = name.addr + name.size;
        if let Some(section) = find_section(sections, name.addr) {
            if end > section.end {
                return Err(
                    Error::new("data symbol ").text(name.name.as_str()).text(" at ").hex(
                        name.addr,
                    ).text(" extends beyond section ").hex(section.end),
                );
            }
        }
        if i + 1 < data.len() {
            let next = &data[i + 1];
            if end > next.addr {
                return Err(
                    Error::new("data symbols ").text(name.name.as_str()).text(" at ").hex(
                        name.addr,
                    ).text(" and ").text(next.name.as_str()).text(" at ").hex(next.addr).text(
                        " overlap",
                    ),
                );
            }
        }
        i += 1;
    }
    Ok(())
}

/// In a model without a fault every variable lies within its section, and of
/// two variables the later starts behind the end of the earlier.
pub proof fn lemma_sound_data_is_disjoint(sections: Seq<Section>, names: Seq<Name>, i: int, j: int)
    requires
        data_fault(sections, data_names(sections, names), 0) is None,
        0 <= i < data_names(sections, names).len(),
    ensures
        ({
            let data = data_names(sections, names);
            &&& first(sections, holds(data[i].addr)) matches Some(s) && data[i].addr + data[i].size
                <= s.end
            &&& i < j < data.len() ==> data[i].addr + data[i].size <= data[j].addr
        }),
{
    let data = data_names(sections, names);
    lemma_no_fault_at(sections, data, 0, i);
    lemma_stable_sort_orders(keep(names, is_data_name(sections)));
    if i + 1 < j < data.len() {
        assert(data[i + 1].spec_key() <= data[j].spec_key());
    }
    lemma_stable_sort_contains(keep(names, is_data_name(sections)), data[i]);
    assert(data.contains(data[i]));
    lemma_keep_contains(names, is_data_name(sections), data[i]);
    let va = data[i].addr;
    lemma_first_index(sections, data_holds(va));
    lemma_first_index(sections, holds(va));
    let k = first_index(sections, data_holds(va))->0;
    assert(holds(va)(sections[k]));
}

proof fn lemma_no_fault_at(sections: Seq<Section>, data: Seq<Name>, from: int, i: int)
    requires
        data_fault(sections, data, from) is None,
        0 <= from <= i < data.len(),
    ensures
        data_fault(sections, data, i) is None,
    decreases i - from,
{
    if from < i {
        lemma_no_fault_at(sections, data, from + 1, i);
    }
}

// ---------------------------------------------------------------------------
// The exported records
// ---------------------------------------------------------------------------

pub struct RawMeta {
    pub arch: String,
    pub procname: String,
    pub bits: u32,
    pub endian: String,
    pub image_base: u64,
    pub filetype: String,
    pub input_file: String,
}

pub struct RawSegment {
    pub name: String,
    pub start: u64,
    pub end: u64,
    pub perm_r: bool,
    pub perm_w: bool,
    pub perm_x: bool,
    pub class: String,
}

pub struct RawFunction {
    pub start: u64,
    pub end: Option<u64>,
    pub size: Option<SizeValue>,
    pub name: String,
    pub thunk: bool,
    pub lib: bool,
    pub is_static: bool,
    pub public: bool,
}

pub struct RawName {
    pub addr: u64,
    pub size: Option<SizeValue>,
    pub name: String,
    pub public: bool,
    pub weak: bool,
    pub is_func: bool,
}

pub struct RawJumpTable {
    pub owner: u64,
    pub dispatch: u64,
    pub dispatch_addr: Option<u64>,
    pub start: u64,
    pub entry_size: u32,
    pub entries: Vec<JumpTableEntry>,
    pub name: String,
}

/// An export as it was read.
pub struct RawModel {
    pub meta: RawMeta,
    pub segments: Vec<RawSegment>,
    pub functions: Vec<RawFunction>,
    pub names: Vec<RawName>,
    pub relocations: Vec<Reloc>,
    pub jump_tables: Vec<RawJumpTable>,
}

/// The section of an exported segment.
pub open spec fn section_of(raw: RawSegment) -> Section {
    Section {
        name: raw.name,
        start: raw.start,
        end: raw.end,
        read: raw.perm_r,
        write: raw.perm_w,
        execute: raw.perm_x,
        class: SegClass::named(raw.class@),
    }
}

pub open spec fn sections_of(raw: Seq<RawSegment>) -> Seq<Section> {
    raw.map_values(|s: RawSegment| section_of(s))
}

/// The end of an exported function, which gives its size or its end but not
/// both.
pub open spec fn function_end(raw: RawFunction) -> Result<u64, Seq<char>> {
    match (raw.size, raw.end) {
        (Some(size), None) => match size_of(size) {
            Err(e) => Err(e),
            Ok(v) => if raw.start + v > u64::MAX {
                Err("function size overflows address space"@)
            } else {
                Ok((raw.start + v) as u64)
            },
        },
        (None, Some(end)) => Ok(end),
        _ => Err("function "@ + raw.name@ + " needs exactly one of size or end"@),
    }
}

/// The function of an exported record.
pub open spec fn function_of(raw: RawFunction) -> Result<Function, Seq<char>> {
    match function_end(raw) {
        Err(e) => Err(e),
        Ok(end) => if end <= raw.start {
            Err("function "@ + raw.name@ + " has invalid size"@)
        } else {
            Ok(
                Function {
                    start: raw.start,
                    end,
                    name: raw.name,
                    thunk: raw.thunk,
                    lib: raw.lib,
                    is_static: raw.is_static,
                    public: raw.public,
                },
            )
        },
    }
}

/// The functions of the first records, up to the first fault.
pub open spec fn functions_of(raw: Seq<RawFunction>) -> Result<Seq<Function>, Seq<char>>
    decreases raw.len(),
{
    if raw.len() == 0 {
        Ok(Seq::empty())
    } else {
        match functions_of(raw.drop_last()) {
            Err(e) => Err(e),
            Ok(before) => match function_of(raw.last()) {
                Err(e) => Err(e),
                Ok(f) => Ok(before.push(f)),
            },
        }
    }
}

/// The name of an exported record: a variable with a size has a positive one.
pub open spec fn name_of(sections: Seq<Section>, raw: RawName) -> Result<Name, Seq<char>> {
    let size = match raw.size {
        Some(value) => size_of(value),
        None => Ok::<u64, Seq<char>>(0),
    };
    match size {
        Err(e) => Err(e),
        Ok(size) => if raw.size is Some && !raw.is_func && in_data(sections, raw.addr) && size
            == 0 {
            Err(
                "data symbol "@ + raw.name@ + " at "@ + hex_text(raw.addr as int)
                    + " has zero size"@,
            )
        } else {
            Ok(
                Name {
                    addr: raw.addr,
                    size,
                    name: raw.name,
                    public: raw.public,
                    weak: raw.weak,
                    is_func: raw.is_func,
                },
            )
        },
    }
}

/// The names of the first records, up to the first fault.
pub open spec fn names_of(sections: Seq<Section>, raw: Seq<RawName>) -> Result<
    Seq<Name>,
    Seq<char>,
>
    decreases raw.len(),
{
    if raw.len() == 0 {
        Ok(Seq::empty())
    } else {
        match names_of(sections, raw.drop_last()) {
            Err(e) => Err(e),
            Ok(before) => match name_of(sections, raw.last()) {
                Err(e) => Err(e),
                Ok(n) => Ok(before.push(n)),
            },
        }
    }
}

/// The functions in address order and the names of an export without a fault.
pub open spec fn decoded(raw: RawModel) -> Result<(Seq<Function>, Seq<Name>), Seq<char>> {
    let sections = sections_of(raw.segments@);
    match functions_of(raw.functions@) {
        Err(e) => Err(e),
        Ok(functions) => match names_of(sections, raw.names@) {
            Err(e) => Err(e),
            Ok(names) => match data_fault(sections, data_names(sections, names), 0) {
                Some(e) => Err(e),
                None => Ok((stable_sort(functions), names)),
            },
        },
    }
}

proof fn lemma_functions_of_err(raw: Seq<RawFunction>, n: int)
    requires
        0 <= n <= raw.len(),
        functions_of(raw.take(n)) is Err,
    ensures
        functions_of(raw) == functions_of(raw.take(n)),
    decreases raw.len(),
{
    if n < raw.len() {
        assert(raw.drop_last().take(n) =~= raw.take(n));
        lemma_functions_of_err(raw.drop_last(), n);
    } else {
        assert(raw.take(n) =~= raw);
    }
}

proof fn lemma_names_of_err(sections: Seq<Section>, raw: Seq<RawName>, n: int)
    requires
        0 <= n <= raw.len(),
        names_of(sections, raw.take(n)) is Err,
    ensures
        names_of(sections, raw) == names_of(sections, raw.take(n)),
    decreases raw.len(),
{
    if n < raw.len() {
        assert(raw.drop_last().take(n) =~= raw.take(n));
        lemma_names_of_err(sections, raw.drop_last(), n);
    } else {
        assert(raw.take(n) =~= raw);
    }
}

fn decode_function(raw: &RawFunction) -> (r: Result<Function, Error>)
    ensures
        match r {
            Ok(f) => function_of(*raw) == Ok::<Function, Seq<char>>(f),
            Err(e) => function_of(*raw) == Err::<Function, Seq<char>>(e@),
        },
{
    let end: u64 = match (&raw.size, raw.end) {
        (Some(size), None) => match parse_size(size) {
            Ok(v) => {
                if v > u64::MAX - raw.start {
                    return Err(Error::new("function size overflows address space"));
                }
                raw.start + v
            },
            Err(e) => {
                return Err(e);
            },
        },
        (None, Some(end)) => end,
        _ => {
            return Err(
                Error::new("function ").text(raw.name.as_str()).text(
                    " needs exactly one of size or end",
                ),
            );
        },
    };
    if end <= raw.start {
        return Err(Error::new("function ").text(raw.name.as_str()).text(" has invalid size"));
    }
    Ok(
        Function {
            start: raw.start,
            end,
            name: raw.name.clone(),
            thunk: raw.thunk,
            lib: raw.lib,
            is_static: raw.is_static,
            public: raw.public,
        },
    )
}

fn decode_name(sections: &Vec<Section>, raw: &RawName) -> (r: Result<Name, Error>)
    ensures
        match r {
            Ok(n) => name_of(sections@, *raw) == Ok::<Name, Seq<char>>(n),
            Err(e) => name_of(sections@, *raw) == Err::<Name, Seq<char>>(e@),
        },
{
    let size: u64 = match &raw.size {
        Some(value) => match parse_size(value) {
            Ok(v) => {
                if v == 0 && !raw.is_func && address_is_data(sections, raw.addr) {
                    return Err(
                        Error::new("data symbol ").text(raw.name.as_str()).text(" at ").hex(
                            raw.addr,
                        ).text(" has zero size"),
                    );
                }
                v
            },
            Err(e) => {
                return Err(e);
            },
        },
        None => 0,
    };
    Ok(
        Name {
            addr: raw.addr,
            size,
            name: raw.name.clone(),
            public: raw.public,
            weak: raw.weak,
            is_func: raw.is_func,
        },
    )
}

fn decode_sections(raw: &Vec<RawSegment>) -> (r: Vec<Section>)
    ensures
        r@ == sections_of(raw@),
{
    let mut sections: Vec<Section> = Vec::new();
    let mut i: usize = 0;
    while i < raw.len()
        invariant
            i <= raw@.len(),
            sections@ == sections_of(raw@).take(i as int),
        decreases raw@.len() - i,
    {
        let s = &raw[i];
        sections.push(
            Section {
                name: s.name.clone(),
                start: s.start,
                end: s.end,
                read: s.perm_r,
                write: s.perm_w,
                execute: s.perm_x,
                class: SegClass::from_str(s.class.as_str()),
            },
        );
        i += 1;
        assert(sections@ =~= sections_of(raw@).take(i as int));
    }
    assert(sections@ =~= sections_of(raw@));
    sections
}

fn decode_functions(raw: &Vec<RawFunction>) -> (r: Result<Vec<Function>, Error>)
    ensures
        match r {
            Ok(f) => functions_of(raw@) == Ok::<Seq<Function>, Seq<char>>(f@),
            Err(e) => functions_of(raw@) == Err::<Seq<Function>, Seq<char>>(e@),
        },
{
    let mut functions: Vec<Function> = Vec::new();
    let mut i: usize = 0;
    assert(raw@.take(0) =~= Seq::<RawFunction>::empty());
    while i < raw.len()
        invariant
            i <= raw@.len(),
            functions_of(raw@.take(i as int)) == Ok::<Seq<Function>, Seq<char>>(functions@),
        decreases raw@.len() - i,
    {
        assert(raw@.take(i + 1).drop_last() =~= raw@.take(i as int));
        match decode_function(&raw[i]) {
            Ok(f) => {
                functions.push(f);
            },
            Err(e) => {
                proof {
                    lemma_functions_of_err(raw@, i + 1);
                }
                return Err(e);
            },
        }
        i += 1;
    }
    assert(raw@.take(raw@.len() as int) =~= raw@);
    Ok(functions)
}

fn decode_names(sections: &Vec<Section>, raw: &Vec<RawName>) -> (r: Result<Vec<Name>, Error>)
    ensures
        match r {
            Ok(n) => names_of(sections@, raw@) == Ok::<Seq<Name>, Seq<char>>(n@),
            Err(e) => names_of(sections@, raw@) == Err::<Seq<Name>, Seq<char>>(e@),
        },
{
    let mut names: Vec<Name> = Vec::new();
    let mut i: usize = 0;
    assert(raw@.take(0) =~= Seq::<RawName>::empty());
    while i < raw.len()
        invariant
            i <= raw@.len(),
            names_of(sections@, raw@.take(i as int)) == Ok::<Seq<Name>, Seq<char>>(names@),
        decreases raw@.len() - i,
    {
        assert(raw@.take(i + 1).drop_last() =~= raw@.take(i as int));
        match decode_name(sections, &raw[i]) {
            Ok(n) => {
                names.push(n);
            },
            Err(e) => {
                proof {
                    lemma_names_of_err(sections@, raw@, i + 1);
                }
                return Err(e);
            },
        }
        i += 1;
    }
    assert(raw@.take(raw@.len() as int) =~= raw@);
    Ok(names)
}

/// The table of an exported switch, which has one dispatch.
pub open spec fn table_of(raw: RawJumpTable) -> TableView {
    TableView {
        owner: raw.owner,
        dispatch: raw.dispatch,
        dispatch_addr: raw.dispatch_addr,
        dispatch_addrs: Seq::empty(),
        start: raw.start,
        entry_size: raw.entry_size,
        entries: raw.entries@,
        name: raw.name@,
    }
}

pub open spec fn tables_of(raw: Seq<RawJumpTable>) -> Seq<TableView> {
    raw.map_values(|t: RawJumpTable| table_of(t))
}

fn decode_table(raw: &RawJumpTable) -> (r: JumpTable)
    ensures
        r@ == table_of(*raw),
{
    let mut entries: Vec<JumpTableEntry> = Vec::new();
    let mut i: usize = 0;
    while i < raw.entries.len()
        invariant
            i <= raw.entries@.len(),
            entries@ == raw.entries@.take(i as int),
        decreases raw.entries@.len() - i,
    {
        entries.push(raw.entries[i]);
        i += 1;
        assert(entries@ =~= raw.entries@.take(i as int));
    }
    let r = JumpTable {
        owner: raw.owner,
        dispatch: raw.dispatch,
        dispatch_addr: raw.dispatch_addr,
        dispatch_addrs: Vec::new(),
        start: raw.start,
        entry_size: raw.entry_size,
        entries,
        name: raw.name.clone(),
    };
    assert(r@ =~= table_of(*raw));
    r
}

fn decode_tables(raw: &Vec<RawJumpTable>) -> (r: Vec<JumpTable>)
    ensures
        views(r@) == tables_of(raw@),
{
    let mut tables: Vec<JumpTable> = Vec::new();
    let mut i: usize = 0;
    while i < raw.len()
        invariant
            i <= raw@.len(),
            views(tables@) =~= tables_of(raw@).take(i as int),
        decreases raw@.len() - i,
    {
        let ghost before = tables@;
        let table = decode_table(&raw[i]);
        tables.push(table);
        i += 1;
        assert(views(tables@) =~= views(before).push(table@));
    }
    assert(views(tables@) =~= tables_of(raw@));
    tables
}

/// Decode an export: check its records and put the functions in address
/// order.
pub fn load(raw: RawModel) -> (r: Result<IdaModel, Error>)
    ensures
        match r {
            Ok(m) => {
                &&& m.wf()
                &&& decoded(raw) == Ok::<(Seq<Function>, Seq<Name>), Seq<char>>(
                    (m.functions@, m.names@),
                )
                &&& m.arch == IdaArch::named(raw.meta.arch@)
                &&& m.procname == raw.meta.procname
                &&& m.bits == raw.meta.bits
                &&& m.little_endian == (raw.meta.endian@ != "big"@)
                &&& m.image_base == raw.meta.image_base
                &&& m.filetype == raw.meta.filetype
                &&& m.input_file == raw.meta.input_file
                &&& m.sections@ == sections_of(raw.segments@)
                &&& m.relocations == raw.relocations
                &&& views(m.jump_tables@) == tables_of(raw.jump_tables@)
                &&& forall|i: int|
                    0 <= i < m.jump_tables@.len() ==> (
                    #[trigger] m.jump_tables@[i]).dispatch_addrs@.len() == 0
            },
            Err(e) => decoded(raw) == Err::<(Seq<Function>, Seq<Name>), Seq<char>>(e@),
        },
{
    let sections = decode_sections(&raw.segments);
    let functions = match decode_functions(&raw.functions) {
        Ok(functions) => functions,
        Err(e) => {
            return Err(e);
        },
    };
    proof {
        lemma_stable_sort_orders(functions@);
    }
    let functions = sort_stably(functions);
    let names = match decode_names(&sections, &raw.names) {
        Ok(names) => names,
        Err(e) => {
            return Err(e);
        },
    };
    if let Err(e) = validate_data_symbols(&sections, &names) {
        return Err(e);
    }
    let jump_tables = decode_tables(&raw.jump_tables);
    proof {
        assert forall|i: int| 0 <= i < jump_tables@.len() implies (
        #[trigger] jump_tables@[i]).dispatch_addrs@.len() == 0 by {
            assert(views(jump_tables@).len() == jump_tables@.len());
            assert(views(jump_tables@)[i] == jump_tables@[i]@);
            assert(tables_of(raw.jump_tables@)[i].dispatch_addrs == Seq::<u64>::empty());
        }
    }
    Ok(
        IdaModel {
            arch: IdaArch::from_meta(raw.meta.arch.as_str()),
            procname: raw.meta.procname,
            bits: raw.meta.bits,
            little_endian: !same_text(raw.meta.endian.as_str(), "big"),
            image_base: raw.meta.image_base,
            filetype: raw.meta.filetype,
            input_file: raw.meta.input_file,
            sections,
            functions,
            names,
            relocations: raw.relocations,
            jump_tables,
        },
    )
}

proof fn lemma_functions_of_nonempty(raw: Seq<RawFunction>)
    ensures
        functions_of(raw) matches Ok(fs) ==> forall|i: int|
            0 <= i < fs.len() ==> (#[trigger] fs[i]).start < fs[i].end,
    decreases raw.len(),
{
    if raw.len() > 0 {
        lemma_functions_of_nonempty(raw.drop_last());
    }
}

/// In a decoded model the functions stand in address order and none is empty.
pub proof fn lemma_decoded_functions(raw: RawModel)
    ensures
        decoded(raw) matches Ok((functions, _)) ==> in_key_order(functions) && forall|i: int|
            0 <= i < functions.len() ==> (#[trigger] functions[i]).start < functions[i].end,
{
    if let Ok((functions, _)) = decoded(raw) {
        let unsorted = functions_of(raw.functions@)->Ok_0;
        lemma_functions_of_nonempty(raw.functions@);
        lemma_stable_sort_orders(unsorted);
        assert forall|i: int| 0 <= i < functions.len() implies (#[trigger] functions[i]).start
            < functions[i].end by {
            assert(functions.contains(functions[i]));
            lemma_stable_sort_contains(unsorted, functions[i]);
            let j = choose|j: int| 0 <= j < unsorted.len() && unsorted[j] == functions[i];
            assert(unsorted[j].start < unsorted[j].end);
        }
    }
}

} // verus!
