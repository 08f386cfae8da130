//! Writing finished objects with the `object` crate.

use crate::coff::{
    add_coff_function_auxes, coff_function_auxes, coff_symbol_layout, function_auxes,
    function_sizes, layout_of, with_auxes, FunctionSize, ParsedSymbol, ParsedView,
};
use crate::draft::{
    DraftSection, DraftSectionView, DraftSymbol, DraftSymbolView, Linkage, SymbolClass,
};
use crate::format::{Contents, OutputFormat, RelocType};
use crate::limits::{
    addend_fits, addend_growth, coff_end, name_fits, plan_shape, relocs_in, shape_fault, Shape,
    ShapeView,
};
use crate::model::{Function, IdaArch, IdaModel};
use crate::plan::{BoundReloc, Plan, PlanView};
use crate::readobj::{read_symbols, symbols_read, ReadSymbolView};
use crate::seqs::views;
use crate::sorting::{in_key_order, lemma_place_before, lemma_stable_sort_orders};
use crate::split_meta::{
    addresses_of, collect_addresses, note_bytes, split_meta_note, spread, spread_addresses,
    spread_out,
};
use crate::text::{hex_text, Error};
use object::write::{Mangling, Object, Relocation, SectionId, Symbol, SymbolId, SymbolSection};
use object::{
    Architecture, BinaryFormat, Endianness, RelocationFlags, SectionKind, SymbolFlags, SymbolKind,
    SymbolScope,
};
use vstd::prelude::*;

verus! {

/// An object file under construction.
#[verifier::external_type_specification]
#[verifier::external_body]
pub struct ExObject<'a>(object::write::Object<'a>);

/// A section of an object file under construction.
#[verifier::external_type_specification]
#[verifier::external_body]
pub struct ExSectionId(object::write::SectionId);

/// A symbol of an object file under construction.
#[verifier::external_type_specification]
#[verifier::external_body]
pub struct ExSymbolId(object::write::SymbolId);

/// A section as the object file holds it.
#[verifier::ext_equal]
pub struct FileSection {
    pub name: Seq<char>,
    pub contents: Contents,
    pub data: Seq<u8>,
    /// Bytes, with those of a zero-filled section.
    pub size: u64,
    pub align: u64,
}

#[derive(Debug, Clone, Copy, PartialEq, Eq, Structural)]
pub enum FileSymbolKind {
    Text,
    Data,
    Label,
    Unknown,
}

#[derive(Debug, Clone, Copy, PartialEq, Eq, Structural)]
pub enum FileSymbolPlace {
    Undefined,
    Absolute,
    Section,
}

/// A symbol as the object file holds it; `section` counts where the place is a
/// section.
#[verifier::ext_equal]
pub struct FileSymbol {
    pub name: Seq<char>,
    pub value: u64,
    pub size: u64,
    pub kind: FileSymbolKind,
    pub external: bool,
    pub place: FileSymbolPlace,
    pub section: int,
}

/// What an object file under construction holds.
#[verifier::ext_equal]
pub struct FileContents {
    pub format: OutputFormat,
    pub arch: IdaArch,
    pub little_endian: bool,
    /// Whether symbol names go into the file without a prefix.
    pub plain_names: bool,
    pub sections: Seq<FileSection>,
    pub symbols: Seq<FileSymbol>,
    pub relocs: Seq<BoundReloc>,
}

/// What an object file under construction holds.
pub uninterp spec fn file_contents(o: Object<'static>) -> FileContents;

/// The index of a section in its object file.
pub uninterp spec fn section_number(id: SectionId) -> int;

/// The index of a symbol in its object file.
pub uninterp spec fn symbol_number(id: SymbolId) -> int;

/// `object::write::Object::new`: an object file without sections or symbols.
#[verifier::external_body]
fn new_file(format: OutputFormat, arch: IdaArch, little_endian: bool) -> (r: Object<'static>)
    ensures
        file_contents(r) == (FileContents {
            format,
            arch,
            little_endian,
            plain_names: !(format == OutputFormat::Coff && arch == IdaArch::X86),
            sections: Seq::empty(),
            symbols: Seq::empty(),
            relocs: Seq::empty(),
        }),
{
    let format = match format {
        OutputFormat::Coff => BinaryFormat::Coff,
        OutputFormat::Elf => BinaryFormat::Elf,
    };
    let arch = match arch {
        IdaArch::X86 => Architecture::I386,
        IdaArch::X86_64 => Architecture::X86_64,
        IdaArch::Other => Architecture::Unknown,
    };
    Object::new(format, arch, if little_endian { Endianness::Little } else { Endianness::Big })
}

/// `object::write::Object::set_mangling` to `Mangling::Coff`: names go into the
/// file without a prefix.
#[verifier::external_body]
fn set_plain_names(o: &mut Object<'static>)
    requires
        file_contents(*old(o)).symbols.len() == 0,
    ensures
        file_contents(*final(o)) == (FileContents {
            plain_names: true,
            ..file_contents(*old(o))
        }),
{
    o.set_mangling(Mangling::Coff);
}

/// `object::write::Object::add_section`: a new last section, empty and aligned
/// to one byte, which the identifier stands for.
#[verifier::external_body]
fn add_file_section(o: &mut Object<'static>, name: &str, contents: Contents) -> (r: SectionId)
    ensures
        section_number(r) == file_contents(*old(o)).sections.len(),
        file_contents(*final(o)) == (FileContents {
            sections: file_contents(*old(o)).sections.push(
                FileSection { name: name@, contents, data: Seq::empty(), size: 0, align: 1 },
            ),
            ..file_contents(*old(o))
        }),
{
    let kind = match contents {
        Contents::Text => SectionKind::Text,
        Contents::Data => SectionKind::Data,
        Contents::ReadOnly => SectionKind::ReadOnlyData,
        Contents::Zeroed => SectionKind::UninitializedData,
        Contents::Linker => SectionKind::Linker,
        Contents::Note => SectionKind::Other,
    };
    o.add_section(Vec::new(), name.as_bytes().to_vec(), kind)
}

/// `s` brought to a multiple of `align` bytes with zeros behind it.
pub open spec fn aligned(s: Seq<u8>, align: int) -> Seq<u8> {
    if s.len() as int % align == 0 {
        s
    } else {
        s + Seq::new((align - s.len() as int % align) as nat, |i: int| 0u8)
    }
}

/// A section with bytes appended at an alignment.
pub open spec fn with_file_data(s: FileSection, data: Seq<u8>, align: u64) -> FileSection {
    let all = aligned(s.data, align as int) + data;
    FileSection {
        data: all,
        size: all.len() as u64,
        align: if s.align < align {
            align
        } else {
            s.align
        },
        ..s
    }
}

/// `object::write::Object::append_section_data`: the section's bytes are brought
/// to the alignment, which the section takes over where it is greater, and
/// `data` comes behind them.
#[verifier::external_body]
fn append_file_data(o: &mut Object<'static>, id: SectionId, data: &[u8], align: u64)
    requires
        0 <= section_number(id) < file_contents(*old(o)).sections.len(),
        file_contents(*old(o)).sections[section_number(id)].contents != Contents::Zeroed,
        align == 1 || align == 4,
    ensures
        file_contents(*final(o)) == (FileContents {
            sections: file_contents(*old(o)).sections.update(
                section_number(id),
                with_file_data(
                    file_contents(*old(o)).sections[section_number(id)],
                    data@,
                    align,
                ),
            ),
            ..file_contents(*old(o))
        }),
{
    o.append_section_data(id, data, align);
}

/// `object::write::Object::append_section_bss` at an alignment of one byte: the
/// zero-filled section is `size` bytes longer.
#[verifier::external_body]
fn append_file_zeroed(o: &mut Object<'static>, id: SectionId, size: u64)
    requires
        0 <= section_number(id) < file_contents(*old(o)).sections.len(),
        file_contents(*old(o)).sections[section_number(id)].contents == Contents::Zeroed,
        file_contents(*old(o)).sections[section_number(id)].size + size <= u64::MAX,
    ensures
        file_contents(*final(o)) == (FileContents {
            sections: file_contents(*old(o)).sections.update(
                section_number(id),
                FileSection {
                    size: (file_contents(*old(o)).sections[section_number(id)].size + size) as u64,
                    ..file_contents(*old(o)).sections[section_number(id)]
                },
            ),
            ..file_contents(*old(o))
        }),
{
    o.append_section_bss(id, size, 1);
}

/// The place of a symbol in the section that `id` stands for, or outside any.
pub open spec fn place_of_symbol(id: Option<SectionId>, absolute: bool) -> (FileSymbolPlace, int) {
    match id {
        Some(id) => (FileSymbolPlace::Section, section_number(id)),
        None => if absolute {
            (FileSymbolPlace::Absolute, 0)
        } else {
            (FileSymbolPlace::Undefined, 0)
        },
    }
}

/// `object::write::Object::add_symbol`: a new last symbol, which the identifier
/// stands for.
#[verifier::external_body]
fn add_file_symbol(
    o: &mut Object<'static>,
    name: &str,
    extent: (u64, u64),
    kind: FileSymbolKind,
    external: bool,
    place: (Option<SectionId>, bool),
) -> (r: SymbolId)
    requires
        place.0 matches Some(id) ==> 0 <= section_number(id) < file_contents(
            *old(o),
        ).sections.len(),
    ensures
        symbol_number(r) == file_contents(*old(o)).symbols.len(),
        file_contents(*final(o)) == (FileContents {
            symbols: file_contents(*old(o)).symbols.push(
                FileSymbol {
                    name: name@,
                    value: extent.0,
                    size: extent.1,
                    kind,
                    external,
                    place: place_of_symbol(place.0, place.1).0,
                    section: place_of_symbol(place.0, place.1).1,
                },
            ),
            ..file_contents(*old(o))
        }),
{
    let name = name.as_bytes().to_vec();
    let kind = match kind {
        FileSymbolKind::Text => SymbolKind::Text,
        FileSymbolKind::Data => SymbolKind::Data,
        FileSymbolKind::Label => SymbolKind::Label,
        FileSymbolKind::Unknown => SymbolKind::Unknown,
    };
    let scope = if external { SymbolScope::Dynamic } else { SymbolScope::Compilation };
    let outside = if place.1 { SymbolSection::Absolute } else { SymbolSection::Undefined };
    let section = place.0.map_or(outside, SymbolSection::Section);
    let (value, size) = extent;
    o.add_symbol(Symbol { name, value, size, kind, scope, weak: false, section, flags: SymbolFlags::None })
}

/// What `object::write::Object::add_relocation` makes of an object file.
pub uninterp spec fn relocated(c: FileContents, r: BoundReloc) -> Result<FileContents, Seq<char>>;

/// Whether two object files have the same symbols, and the same sections but
/// for what their bytes are.
pub open spec fn same_tables(a: FileContents, b: FileContents) -> bool {
    &&& a.format == b.format
    &&& a.arch == b.arch
    &&& a.plain_names == b.plain_names
    &&& a.symbols == b.symbols
    &&& a.sections.len() == b.sections.len()
    &&& forall|i: int|
        0 <= i < a.sections.len() ==> {
            &&& (#[trigger] a.sections[i]).name == b.sections[i].name
            &&& a.sections[i].contents == b.sections[i].contents
            &&& a.sections[i].data.len() == b.sections[i].data.len()
        }
}

/// Whether `b` has the relocations of `a`, and those in `more`, as many in each
/// section.
pub open spec fn has_more_relocs(b: FileContents, a: FileContents, more: Seq<BoundReloc>) -> bool {
    forall|i: int| #[trigger]
        relocs_in(b.relocs, i) == relocs_in(a.relocs, i) + relocs_in(more, i)
}

/// The shape of an object file.
pub open spec fn file_shape(c: FileContents) -> ShapeView {
    ShapeView {
        format: c.format,
        names_fit: {
            &&& forall|i: int|
                0 <= i < c.sections.len() ==> name_fits(c.format, (#[trigger] c.sections[i]).name)
            &&& forall|i: int|
                0 <= i < c.symbols.len() ==> name_fits(c.format, (#[trigger] c.symbols[i]).name)
        },
        sections: Seq::new(
            c.sections.len(),
            |i: int| (c.sections[i].data.len(), relocs_in(c.relocs, i)),
        ),
        symbols: c.symbols.len(),
    }
}

/// `object::write::Object::add_relocation`: a relocation of a field of the
/// section against the symbol. Which relocations the format takes, and where it
/// keeps the addend, is left to the name; symbols stay, and sections but for what
/// their bytes are, and the section gets one more relocation.
#[verifier::external_body]
fn add_file_relocation(o: &mut Object<'static>, ids: (SectionId, SymbolId), r: BoundReloc) -> (e:
    Result<(), String>)
    requires
        section_number(ids.0) == r.section,
        symbol_number(ids.1) == r.symbol,
        r.section < file_contents(*old(o)).sections.len(),
        file_contents(*old(o)).sections[r.section as int].contents != Contents::Zeroed,
        r.symbol < file_contents(*old(o)).symbols.len(),
        r.addend + addend_growth(
            file_contents(*old(o)).format,
            file_contents(*old(o)).arch,
            r.flags,
        ) <= i64::MAX,
    ensures
        match e {
            Ok(_) => {
                &&& relocated(file_contents(*old(o)), r) == Ok::<FileContents, Seq<char>>(
                    file_contents(*final(o)),
                )
                &&& same_tables(file_contents(*final(o)), file_contents(*old(o)))
                &&& has_more_relocs(file_contents(*final(o)), file_contents(*old(o)), seq![r])
            },
            Err(e) => relocated(file_contents(*old(o)), r) == Err::<FileContents, Seq<char>>(e@),
        },
{
    let flags = match r.flags {
        RelocType::Coff(t) => RelocationFlags::Coff { typ: object::pe::RelocationType(t) },
        RelocType::Elf(t) => RelocationFlags::Elf { r_type: object::elf::RelocationType(t) },
    };
    let relocation = Relocation { offset: r.offset, symbol: ids.1, addend: r.addend, flags };
    o.add_relocation(ids.0, relocation).map_err(|e| e.to_string())
}

/// What `object::write::Object::write` makes of an object file.
pub uninterp spec fn written(c: FileContents) -> Result<Seq<u8>, Seq<char>>;

/// `object::write::Object::write`: the bytes of the object file. It asserts that
/// no name in a string table holds a zero byte and that a COFF string table is
/// where the headers were counted to end, and counts in fixed widths; contents on
/// which that fails are left out. What the bytes are for other contents, and
/// which of those the format cannot hold, is left to the name.
#[verifier::external_body]
fn write_file(o: &Object<'static>) -> (r: Result<Vec<u8>, String>)
    requires
        file_contents(*o).plain_names,
        shape_fault(file_shape(file_contents(*o))) is None,
    ensures
        match r {
            Ok(bytes) => written(file_contents(*o)) == Ok::<Seq<u8>, Seq<char>>(bytes@),
            Err(e) => written(file_contents(*o)) == Err::<Seq<u8>, Seq<char>>(e@),
        },
{
    o.write().map_err(|e| e.to_string())
}

/// The bytes of an object file, or why there are none.
pub open spec fn stored(c: FileContents) -> Result<Seq<u8>, Seq<char>> {
    match shape_fault(file_shape(c)) {
        Some(e) => Err(e),
        None => written(c),
    }
}

fn store_file(o: &Object<'static>, shape: &Shape) -> (r: Result<Vec<u8>, String>)
    requires
        file_contents(*o).plain_names,
        shape@ == file_shape(file_contents(*o)),
    ensures
        match r {
            Ok(bytes) => stored(file_contents(*o)) == Ok::<Seq<u8>, Seq<char>>(bytes@),
            Err(e) => stored(file_contents(*o)) == Err::<Seq<u8>, Seq<char>>(e@),
        },
{
    match shape.fault() {
        Some(e) => Err(e.to_owned()),
        None => write_file(o),
    }
}

// ---------------------------------------------------------------------------
// Reading back
// ---------------------------------------------------------------------------

/// What the split metadata needs of a symbol.
pub open spec fn parsed_symbol(s: ReadSymbolView) -> ParsedView {
    ParsedView { index: s.index, name: s.name, is_text: s.is_text, is_undefined: s.is_undefined }
}

/// The symbols of a written file.
pub open spec fn parsed(bytes: Seq<u8>) -> Result<Seq<ParsedView>, Seq<char>> {
    match symbols_read(bytes) {
        Ok(symbols) => Ok(symbols.map_values(|s: ReadSymbolView| parsed_symbol(s))),
        Err(e) => Err(e),
    }
}

fn parse_symbols(bytes: &[u8]) -> (r: Result<Vec<ParsedSymbol>, String>)
    ensures
        match r {
            Ok(symbols) => parsed(bytes@) == Ok::<Seq<ParsedView>, Seq<char>>(views(symbols@)),
            Err(e) => parsed(bytes@) == Err::<Seq<ParsedView>, Seq<char>>(e@),
        },
{
    let read = match read_symbols(bytes) {
        Ok(read) => read,
        Err(e) => {
            return Err(e);
        },
    };
    let ghost all = views(read@).map_values(|s: ReadSymbolView| parsed_symbol(s));
    let mut symbols: Vec<ParsedSymbol> = Vec::new();
    let mut i: usize = 0;
    while i < read.len()
        invariant
            i <= read@.len(),
            all == views(read@).map_values(|s: ReadSymbolView| parsed_symbol(s)),
            views(symbols@) =~= all.take(i as int),
        decreases read@.len() - i,
    {
        let s = &read[i];
        let ghost before = symbols@;
        let symbol = ParsedSymbol {
            index: s.index,
            name: match &s.name {
                Some(name) => Some(name.clone()),
                None => None,
            },
            is_text: s.is_text,
            is_undefined: s.is_undefined,
        };
        assert(symbol@ =~= parsed_symbol(s@));
        symbols.push(symbol);
        i += 1;
        assert(views(symbols@) =~= views(before).push(symbol@));
    }
    assert(views(symbols@) =~= all);
    Ok(symbols)
}

// ---------------------------------------------------------------------------
// A finished object as a file
// ---------------------------------------------------------------------------

/// A section of a finished object in its file.
pub open spec fn file_section(s: DraftSectionView) -> FileSection {
    if s.contents == Contents::Zeroed {
        FileSection {
            name: s.name,
            contents: s.contents,
            data: Seq::empty(),
            size: s.zeroed,
            align: 1,
        }
    } else {
        FileSection {
            name: s.name,
            contents: s.contents,
            data: s.data,
            size: s.data.len() as u64,
            align: 1,
        }
    }
}

/// The kind of a symbol in a file. COFF has none for undefined symbols of an
/// unknown kind: they count as data.
pub open spec fn file_kind(format: OutputFormat, class: SymbolClass) -> FileSymbolKind {
    match class {
        SymbolClass::Function => FileSymbolKind::Text,
        SymbolClass::Data => FileSymbolKind::Data,
        SymbolClass::Label => FileSymbolKind::Label,
        SymbolClass::Undefined => match format {
            OutputFormat::Coff => FileSymbolKind::Data,
            OutputFormat::Elf => FileSymbolKind::Unknown,
        },
    }
}

/// A symbol of a finished object in its file.
pub open spec fn file_symbol(format: OutputFormat, s: DraftSymbolView) -> FileSymbol {
    FileSymbol {
        name: s.name,
        value: s.value,
        size: s.size,
        kind: file_kind(format, s.class),
        external: s.linkage == Linkage::External,
        place: if s.class == SymbolClass::Undefined {
            FileSymbolPlace::Undefined
        } else {
            FileSymbolPlace::Section
        },
        section: if s.class == SymbolClass::Undefined {
            0
        } else {
            s.section
        },
    }
}

pub open spec fn file_sections(sections: Seq<DraftSectionView>) -> Seq<FileSection> {
    sections.map_values(|s: DraftSectionView| file_section(s))
}

pub open spec fn file_symbols(format: OutputFormat, symbols: Seq<DraftSymbolView>) -> Seq<
    FileSymbol,
> {
    symbols.map_values(|s: DraftSymbolView| file_symbol(format, s))
}

/// The file of a finished object before its relocations.
pub open spec fn unrelocated(
    format: OutputFormat,
    arch: IdaArch,
    little_endian: bool,
    plan: PlanView,
) -> FileContents {
    FileContents {
        format,
        arch,
        little_endian,
        plain_names: true,
        sections: file_sections(plan.sections),
        symbols: file_symbols(format, plan.symbols),
        relocs: Seq::empty(),
    }
}

/// The file with a relocation, or the fault.
pub open spec fn with_relocation(c: FileContents, r: BoundReloc, action: Seq<char>) -> Result<
    FileContents,
    Seq<char>,
> {
    let here = action + hex_text(r.offset as int) + ": "@;
    if r.addend + addend_growth(c.format, c.arch, r.flags) > i64::MAX {
        Err(here + "relocation addend is out of range"@)
    } else {
        match relocated(c, r) {
            Err(e) => Err(here + e),
            Ok(next) => Ok(next),
        }
    }
}

/// The file with the relocations, one after the other.
pub open spec fn with_relocations(
    c: FileContents,
    relocs: Seq<BoundReloc>,
    action: Seq<char>,
) -> Result<FileContents, Seq<char>>
    decreases relocs.len(),
{
    if relocs.len() == 0 {
        Ok(c)
    } else {
        match with_relocations(c, relocs.drop_last(), action) {
            Err(e) => Err(e),
            Ok(before) => with_relocation(before, relocs.last(), action),
        }
    }
}

proof fn lemma_with_relocations_err(
    c: FileContents,
    relocs: Seq<BoundReloc>,
    action: Seq<char>,
    n: int,
)
    requires
        0 <= n <= relocs.len(),
        with_relocations(c, relocs.take(n), action) is Err,
    ensures
        with_relocations(c, relocs, action) == with_relocations(c, relocs.take(n), action),
    decreases relocs.len(),
{
    if n < relocs.len() {
        assert(relocs.drop_last().take(n) =~= relocs.take(n));
        lemma_with_relocations_err(c, relocs.drop_last(), action, n);
    } else {
        assert(relocs.take(n) =~= relocs);
    }
}

/// The identifiers of the sections stand for them in order.
pub open spec fn numbered(ids: Seq<SectionId>, n: nat) -> bool {
    &&& ids.len() == n
    &&& forall|i: int| 0 <= i < n ==> section_number(#[trigger] ids[i]) == i
}

/// The identifiers of the symbols stand for them in order.
pub open spec fn symbols_numbered(ids: Seq<SymbolId>, n: nat) -> bool {
    &&& ids.len() == n
    &&& forall|i: int| 0 <= i < n ==> symbol_number(#[trigger] ids[i]) == i
}

fn start_file(format: OutputFormat, arch: IdaArch, little_endian: bool) -> (r: Object<'static>)
    ensures
        file_contents(r) == (FileContents {
            format,
            arch,
            little_endian,
            plain_names: true,
            sections: Seq::empty(),
            symbols: Seq::empty(),
            relocs: Seq::empty(),
        }),
{
    let mut o = new_file(format, arch, little_endian);
    if format == OutputFormat::Coff && arch == IdaArch::X86 {
        set_plain_names(&mut o);
    }
    o
}

fn add_plan_section(o: &mut Object<'static>, s: &DraftSection) -> (r: SectionId)
    ensures
        section_number(r) == file_contents(*old(o)).sections.len(),
        file_contents(*final(o)) == (FileContents {
            sections: file_contents(*old(o)).sections.push(file_section(s@)),
            ..file_contents(*old(o))
        }),
{
    let ghost before = file_contents(*o);
    let id = add_file_section(o, s.name.as_str(), s.contents);
    let ghost n = before.sections.len() as int;
    if s.contents == Contents::Zeroed {
        append_file_zeroed(o, id, s.zeroed);
    } else {
        append_file_data(o, id, s.data.as_slice(), 1);
        proof {
            assert(aligned(Seq::<u8>::empty(), 1) + s.data@ =~= s.data@);
        }
    }
    proof {
        assert(file_contents(*o).sections =~= before.sections.push(file_section(s@)));
    }
    id
}

fn add_sections(o: &mut Object<'static>, sections: &Vec<DraftSection>) -> (r: Vec<SectionId>)
    requires
        file_contents(*old(o)).sections.len() == 0,
    ensures
        numbered(r@, sections@.len()),
        file_contents(*final(o)) == (FileContents {
            sections: file_sections(views(sections@)),
            ..file_contents(*old(o))
        }),
{
    let ghost start = file_contents(*o);
    let ghost all = file_sections(views(sections@));
    let mut ids: Vec<SectionId> = Vec::new();
    let mut i: usize = 0;
    assert(start.sections =~= all.take(0));
    while i < sections.len()
        invariant
            i <= sections@.len(),
            all == file_sections(views(sections@)),
            numbered(ids@, i as nat),
            file_contents(*o) == (FileContents { sections: all.take(i as int), ..start }),
        decreases sections@.len() - i,
    {
        let id = add_plan_section(o, &sections[i]);
        ids.push(id);
        assert(all.take(i + 1) =~= all.take(i as int).push(file_section(sections@[i as int]@)));
        i += 1;
    }
    assert(all.take(all.len() as int) =~= all);
    ids
}

fn kind_in_file(format: OutputFormat, class: SymbolClass) -> (r: FileSymbolKind)
    ensures
        r == file_kind(format, class),
{
    match class {
        SymbolClass::Function => FileSymbolKind::Text,
        SymbolClass::Data => FileSymbolKind::Data,
        SymbolClass::Label => FileSymbolKind::Label,
        SymbolClass::Undefined => match format {
            OutputFormat::Coff => FileSymbolKind::Data,
            OutputFormat::Elf => FileSymbolKind::Unknown,
        },
    }
}

fn add_symbols(
    o: &mut Object<'static>,
    format: OutputFormat,
    symbols: &Vec<DraftSymbol>,
    sections: &Vec<SectionId>,
) -> (r: Vec<SymbolId>)
    requires
        file_contents(*old(o)).symbols.len() == 0,
        numbered(sections@, file_contents(*old(o)).sections.len()),
        forall|i: int|
            0 <= i < symbols@.len() ==> {
                ||| (#[trigger] symbols@[i]).class == SymbolClass::Undefined
                ||| symbols@[i].section < sections@.len()
            },
    ensures
        symbols_numbered(r@, symbols@.len()),
        file_contents(*final(o)) == (FileContents {
            symbols: file_symbols(format, views(symbols@)),
            ..file_contents(*old(o))
        }),
{
    let ghost start = file_contents(*o);
    let ghost all = file_symbols(format, views(symbols@));
    let mut ids: Vec<SymbolId> = Vec::new();
    let mut i: usize = 0;
    assert(start.symbols =~= all.take(0));
    while i < symbols.len()
        invariant
            i <= symbols@.len(),
            all == file_symbols(format, views(symbols@)),
            numbered(sections@, start.sections.len()),
            symbols_numbered(ids@, i as nat),
            forall|k: int|
                0 <= k < symbols@.len() ==> {
                    ||| (#[trigger] symbols@[k]).class == SymbolClass::Undefined
                    ||| symbols@[k].section < sections@.len()
                },
            file_contents(*o) == (FileContents { symbols: all.take(i as int), ..start }),
        decreases symbols@.len() - i,
    {
        let s = &symbols[i];
        let section: Option<SectionId> = if s.class == SymbolClass::Undefined {
            None
        } else {
            Some(sections[s.section])
        };
        assert(s.class != SymbolClass::Undefined ==> section_number(sections@[s.section as int])
            == s.section);
        let id = add_file_symbol(
            o,
            s.name.as_str(),
            (s.value, s.size),
            kind_in_file(format, s.class),
            s.linkage == Linkage::External,
            (section, false),
        );
        ids.push(id);
        assert(all.take(i + 1) =~= all.take(i as int).push(file_symbol(format, s@)));
        i += 1;
    }
    assert(all.take(all.len() as int) =~= all);
    ids
}

proof fn lemma_one_reloc(r: BoundReloc)
    ensures
        forall|i: int| #[trigger]
            relocs_in(seq![r], i) == if r.section == i {
                1nat
            } else {
                0
            },
{
    assert(seq![r].drop_last() =~= Seq::<BoundReloc>::empty());
    assert forall|i: int| #[trigger]
        relocs_in(seq![r], i) == if r.section == i {
            1nat
        } else {
            0
        } by {
        assert(relocs_in(seq![r].drop_last(), i) == 0);
    }
}

fn add_relocations(
    o: &mut Object<'static>,
    machine: (OutputFormat, IdaArch),
    relocs: &Vec<BoundReloc>,
    sections: &Vec<SectionId>,
    symbols: &Vec<SymbolId>,
    action: &str,
) -> (r: Result<(), Error>)
    requires
        machine == (file_contents(*old(o)).format, file_contents(*old(o)).arch),
        numbered(sections@, file_contents(*old(o)).sections.len()),
        symbols_numbered(symbols@, file_contents(*old(o)).symbols.len()),
        forall|i: int|
            0 <= i < relocs@.len() ==> {
                &&& (#[trigger] relocs@[i]).section < sections@.len()
                &&& file_contents(*old(o)).sections[relocs@[i].section as int].contents
                    != Contents::Zeroed
                &&& relocs@[i].symbol < symbols@.len()
            },
    ensures
        match r {
            Ok(_) => {
                &&& with_relocations(file_contents(*old(o)), relocs@, action@) == Ok::<
                    FileContents,
                    Seq<char>,
                >(file_contents(*final(o)))
                &&& same_tables(file_contents(*final(o)), file_contents(*old(o)))
                &&& has_more_relocs(file_contents(*final(o)), file_contents(*old(o)), relocs@)
            },
            Err(e) => with_relocations(file_contents(*old(o)), relocs@, action@) == Err::<
                FileContents,
                Seq<char>,
            >(e@),
        },
{
    let ghost start = file_contents(*o);
    let mut i: usize = 0;
    assert(relocs@.take(0) =~= Seq::<BoundReloc>::empty());
    while i < relocs.len()
        invariant
            i <= relocs@.len(),
            start == file_contents(*old(o)),
            machine == (start.format, start.arch),
            numbered(sections@, start.sections.len()),
            symbols_numbered(symbols@, start.symbols.len()),
            forall|k: int|
                0 <= k < relocs@.len() ==> {
                    &&& (#[trigger] relocs@[k]).section < sections@.len()
                    &&& start.sections[relocs@[k].section as int].contents != Contents::Zeroed
                    &&& relocs@[k].symbol < symbols@.len()
                },
            same_tables(file_contents(*o), start),
            has_more_relocs(file_contents(*o), start, relocs@.take(i as int)),
            with_relocations(start, relocs@.take(i as int), action@) == Ok::<
                FileContents,
                Seq<char>,
            >(file_contents(*o)),
        decreases relocs@.len() - i,
    {
        assert(relocs@.take(i + 1).drop_last() =~= relocs@.take(i as int));
        let r = relocs[i];
        proof {
            if with_relocations(start, relocs@.take(i + 1), action@) is Err {
                lemma_with_relocations_err(start, relocs@, action@, i + 1);
            }
        }
        if !addend_fits(machine.0, machine.1, r.flags, r.addend) {
            return Err(
                Error::new(action).hex(r.offset).text(": ").text(
                    "relocation addend is out of range",
                ),
            );
        }
        assert(relocs@[i as int].section < sections@.len());
        assert(file_contents(*o).sections[r.section as int].contents
            == start.sections[r.section as int].contents);
        let ids = (sections[r.section], symbols[r.symbol]);
        if let Err(e) = add_file_relocation(o, ids, r) {
            return Err(Error::new(action).hex(r.offset).text(": ").text(e.as_str()));
        }
        proof {
            lemma_one_reloc(r);
        }
        i += 1;
    }
    assert(relocs@.take(relocs@.len() as int) =~= relocs@);
    Ok(())
}

proof fn lemma_no_relocs(relocs: Seq<BoundReloc>, n: int)
    requires
        forall|i: int| 0 <= i < relocs.len() ==> (#[trigger] relocs[i]).section != n,
    ensures
        relocs_in(relocs, n) == 0,
    decreases relocs.len(),
{
    if relocs.len() > 0 {
        assert forall|i: int| 0 <= i < relocs.drop_last().len() implies (
        #[trigger] relocs.drop_last()[i]).section != n by {
            assert(relocs.drop_last()[i] == relocs[i]);
        }
        lemma_no_relocs(relocs.drop_last(), n);
    }
}

proof fn lemma_plan_shape(
    format: OutputFormat,
    start: FileContents,
    c: FileContents,
    plan: PlanView,
)
    requires
        plan.wf(),
        start.format == format,
        start.sections == file_sections(plan.sections),
        start.symbols == file_symbols(format, plan.symbols),
        start.relocs.len() == 0,
        same_tables(c, start),
        has_more_relocs(c, start, plan.relocs),
    ensures
        file_shape(c) == plan_shape(format, plan),
        relocs_in(c.relocs, c.sections.len() as int) == 0,
{
    let n = plan.sections.len() as int;
    lemma_no_relocs(plan.relocs, n);
    assert(relocs_in(c.relocs, n) == relocs_in(start.relocs, n) + relocs_in(plan.relocs, n));
    let shape = plan_shape(format, plan);
    let made = file_shape(c);
    assert(made.sections =~= shape.sections) by {
        assert forall|i: int| 0 <= i < made.sections.len() implies made.sections[i]
            == shape.sections[i] by {
            assert(start.sections[i] == file_section(plan.sections[i]));
            assert(c.sections[i].data.len() == start.sections[i].data.len());
            assert(relocs_in(c.relocs, i) == relocs_in(start.relocs, i) + relocs_in(
                plan.relocs,
                i,
            ));
        }
    }
    assert forall|i: int| 0 <= i < c.sections.len() implies (#[trigger] c.sections[i]).name
        == plan.sections[i].name by {
        assert(start.sections[i] == file_section(plan.sections[i]));
    }
    assert forall|i: int| 0 <= i < c.symbols.len() implies (#[trigger] c.symbols[i]).name
        == plan.symbols[i].name by {
        assert(start.symbols[i] == file_symbol(format, plan.symbols[i]));
    }
    assert(made.names_fit == shape.names_fit) by {
        if made.names_fit {
            assert forall|i: int| 0 <= i < plan.sections.len() implies name_fits(
                format,
                (#[trigger] plan.sections[i]).name,
            ) by {
                assert(name_fits(c.format, c.sections[i].name));
            }
            assert forall|i: int| 0 <= i < plan.symbols.len() implies name_fits(
                format,
                (#[trigger] plan.symbols[i]).name,
            ) by {
                assert(name_fits(c.format, c.symbols[i].name));
            }
        }
    }
}

/// Builds the file of a finished object.
fn build_file(
    format: OutputFormat,
    model: &IdaModel,
    plan: &Plan,
    action: &str,
) -> (r: Result<Object<'static>, Error>)
    requires
        plan@.wf(),
    ensures
        match r {
            Ok(o) => {
                &&& with_relocations(
                    unrelocated(format, model.arch, model.little_endian, plan@),
                    plan@.relocs,
                    action@,
                ) == Ok::<FileContents, Seq<char>>(file_contents(o))
                &&& file_contents(o).format == format
                &&& file_contents(o).plain_names
                &&& file_shape(file_contents(o)) == plan_shape(format, plan@)
                &&& relocs_in(file_contents(o).relocs, file_contents(o).sections.len() as int) == 0
            },
            Err(e) => with_relocations(
                unrelocated(format, model.arch, model.little_endian, plan@),
                plan@.relocs,
                action@,
            ) == Err::<FileContents, Seq<char>>(e@),
        },
{
    let mut o = start_file(format, model.arch, model.little_endian);
    let sections = add_sections(&mut o, &plan.sections);
    assert forall|i: int| 0 <= i < plan.symbols@.len() implies {
        ||| (#[trigger] plan.symbols@[i]).class == SymbolClass::Undefined
        ||| plan.symbols@[i].section < sections@.len()
    } by {
        assert(plan@.symbols[i] == plan.symbols@[i]@);
    }
    let symbols = add_symbols(&mut o, format, &plan.symbols, &sections);
    proof {
        assert(file_contents(o) =~= unrelocated(format, model.arch, model.little_endian, plan@));
        assert forall|i: int| 0 <= i < plan.relocs@.len() implies {
            &&& (#[trigger] plan.relocs@[i]).section < sections@.len()
            &&& file_contents(o).sections[plan.relocs@[i].section as int].contents
                != Contents::Zeroed
            &&& plan.relocs@[i].symbol < symbols@.len()
        } by {
            assert(plan@.relocs[i] == plan.relocs@[i]);
        }
    }
    let ghost start = file_contents(o);
    let machine = (format, model.arch);
    if let Err(e) = add_relocations(&mut o, machine, &plan.relocs, &sections, &symbols, action) {
        return Err(e);
    }
    proof {
        lemma_plan_shape(format, start, file_contents(o), plan@);
    }
    Ok(o)
}

// ---------------------------------------------------------------------------
// Split metadata
// ---------------------------------------------------------------------------

/// What the section of the split metadata is: information that the linker leaves
/// out of the image. A discardable COFF data section would be copied into it.
pub open spec fn note_contents(format: OutputFormat) -> Contents {
    match format {
        OutputFormat::Coff => Contents::Linker,
        OutputFormat::Elf => Contents::Note,
    }
}

/// The file with an empty section for the split metadata.
pub open spec fn with_note_section(c: FileContents) -> FileContents {
    FileContents {
        sections: c.sections.push(
            FileSection {
                name: ".note.split"@,
                contents: note_contents(c.format),
                data: Seq::empty(),
                size: 0,
                align: 1,
            },
        ),
        ..c
    }
}

/// The file with the split metadata in its last section.
pub open spec fn with_note(c: FileContents, note: Seq<u8>) -> FileContents {
    let n = c.sections.len() - 1;
    FileContents {
        sections: c.sections.update(n, with_file_data(c.sections[n], note, 4)),
        ..c
    }
}

/// One more than the greatest index of a symbol.
pub open spec fn symbol_slots(symbols: Seq<ParsedView>) -> nat
    decreases symbols.len(),
{
    if symbols.len() == 0 {
        0
    } else {
        let before = symbol_slots(symbols.drop_last());
        if before >= symbols.last().index + 1 {
            before
        } else {
            (symbols.last().index + 1) as nat
        }
    }
}

/// The functions that get auxiliary records, and the original addresses by
/// symbol index, of a file that was written as `bytes` and read back as
/// `symbols`.
pub open spec fn metadata_of(
    format: OutputFormat,
    model: IdaModel,
    bytes: Seq<u8>,
    symbols: Seq<ParsedView>,
) -> Result<(Seq<FunctionSize>, Seq<u64>), Seq<char>> {
    match format {
        OutputFormat::Coff => match layout_of(bytes) {
            Err(e) => Err(e),
            Ok(layout) => match function_auxes(bytes, model.functions@, symbols) {
                Err(e) => Err(e),
                Ok(auxes) => {
                    let addresses = addresses_of(model, symbols, layout.symbol_count as nat);
                    Ok(
                        (
                            auxes,
                            if auxes.len() == 0 {
                                addresses
                            } else {
                                spread_addresses(auxes, addresses)
                            },
                        ),
                    )
                },
            },
        },
        OutputFormat::Elf => Ok(
            (Seq::empty(), addresses_of(model, symbols, symbol_slots(symbols))),
        ),
    }
}

/// The functions that get auxiliary records, and the note.
pub open spec fn note_of(
    format: OutputFormat,
    model: IdaModel,
    bytes: Seq<u8>,
    symbols: Seq<ParsedView>,
) -> Result<(Seq<FunctionSize>, Seq<u8>), Seq<char>> {
    match metadata_of(format, model, bytes, symbols) {
        Err(e) => Err(e),
        Ok((auxes, addresses)) => match note_bytes(addresses, model.bits == 64) {
            Err(e) => Err(e),
            Ok(note) => Ok((auxes, note)),
        },
    }
}

/// The bytes of the file with its note, given that it was written as `bytes`
/// without and read back as `symbols`.
pub open spec fn annotated(
    model: IdaModel,
    c: FileContents,
    bytes: Seq<u8>,
    symbols: Seq<ParsedView>,
) -> Result<Seq<u8>, Seq<char>> {
    match note_of(c.format, model, bytes, symbols) {
        Err(e) => Err(e),
        Ok((auxes, note)) => match stored(with_note(c, note)) {
            Err(e) => Err("serialize object: "@ + e),
            Ok(out) => match c.format {
                OutputFormat::Coff => with_auxes(out, auxes),
                OutputFormat::Elf => Ok(out),
            },
        },
    }
}

/// The bytes of an object file with its split metadata: the file is written
/// once to see its symbol table, and again with the note.
pub open spec fn serialized(model: IdaModel, c: FileContents) -> Result<Seq<u8>, Seq<char>> {
    let noted = with_note_section(c);
    match stored(noted) {
        Err(e) => Err("serialize object for split metadata: "@ + e),
        Ok(bytes) => match parsed(bytes) {
            Err(e) => Err("parse object for split metadata: "@ + e),
            Ok(symbols) => annotated(model, noted, bytes, symbols),
        },
    }
}

/// The greatest index of a symbol, where there is one.
fn greatest_index(symbols: &Vec<ParsedSymbol>) -> (r: Option<u64>)
    ensures
        match r {
            Some(i) => symbol_slots(views(symbols@)) == i + 1,
            None => symbol_slots(views(symbols@)) == 0,
        },
{
    let ghost v = views(symbols@);
    let mut best: Option<u64> = None;
    let mut i: usize = 0;
    assert(v.take(0) =~= Seq::<ParsedView>::empty());
    while i < symbols.len()
        invariant
            i <= symbols@.len(),
            v == views(symbols@),
            match best {
                Some(b) => symbol_slots(v.take(i as int)) == b + 1,
                None => symbol_slots(v.take(i as int)) == 0,
            },
        decreases symbols@.len() - i,
    {
        assert(v.take(i + 1).drop_last() =~= v.take(i as int));
        assert(v[i as int] == symbols@[i as int]@);
        let index: u64 = symbols[i].index;
        match best {
            Some(b) => {
                if b < index {
                    best = Some(index);
                }
            },
            None => {
                best = Some(index);
            },
        }
        i += 1;
    }
    assert(v.take(v.len() as int) =~= v);
    best
}

fn too_large() -> (r: Error)
    ensures
        r@ == "split metadata is too large: "@ + "out of range integral type conversion attempted"@,
{
    Error::new("split metadata is too large: ").text(
        "out of range integral type conversion attempted",
    )
}

proof fn lemma_addresses_of_len(model: IdaModel, symbols: Seq<ParsedView>, count: nat)
    ensures
        addresses_of(model, symbols, count).len() == count,
    decreases symbols.len(),
{
    if symbols.len() > 0 {
        lemma_addresses_of_len(model, symbols.drop_last(), count);
    }
}

proof fn lemma_spread_len(auxes: Seq<FunctionSize>, addresses: Seq<u64>, out: Seq<u64>)
    requires
        in_key_order(auxes),
        out.len() >= addresses.len() + auxes.len(),
    ensures
        spread(auxes, addresses, out).len() == out.len(),
    decreases addresses.len(),
{
    if addresses.len() > 0 {
        lemma_spread_len(auxes, addresses.drop_last(), out);
        lemma_place_before(auxes, addresses.len() - 1);
    }
}

fn coff_note(model: &IdaModel, bytes: &Vec<u8>, symbols: &Vec<ParsedSymbol>) -> (r: Result<
    (Vec<FunctionSize>, Vec<u8>),
    Error,
>)
    ensures
        match r {
            Ok((auxes, note)) => note_of(OutputFormat::Coff, *model, bytes@, views(symbols@)) == Ok::<
                (Seq<FunctionSize>, Seq<u8>),
                Seq<char>,
            >((auxes@, note@)),
            Err(e) => note_of(OutputFormat::Coff, *model, bytes@, views(symbols@)) == Err::<
                (Seq<FunctionSize>, Seq<u8>),
                Seq<char>,
            >(e@),
        },
{
    let layout = match coff_symbol_layout(bytes.as_slice()) {
        Ok(layout) => layout,
        Err(e) => {
            return Err(e);
        },
    };
    let auxes = match coff_function_auxes(bytes.as_slice(), symbols, model) {
        Ok(auxes) => auxes,
        Err(e) => {
            return Err(e);
        },
    };
    let count: usize = layout.symbol_count as usize;
    let addresses = collect_addresses(model, symbols, count);
    let addresses = if auxes.len() == 0 {
        addresses
    } else {
        proof {
            lemma_auxes_sorted(bytes@, model.functions@, views(symbols@));
            lemma_spread_len(
                auxes@,
                addresses@,
                Seq::new((addresses@.len() + auxes@.len()) as nat, |i: int| 0u64),
            );
        }
        if auxes.len() > 0xffff_ffff - count {
            return Err(too_large());
        }
        spread_out(&auxes, &addresses)
    };
    match split_meta_note(&addresses, model.bits == 64) {
        Ok(note) => Ok((auxes, note)),
        Err(e) => Err(e),
    }
}

proof fn lemma_auxes_sorted(d: Seq<u8>, functions: Seq<Function>, symbols: Seq<ParsedView>)
    ensures
        function_auxes(d, functions, symbols) matches Ok(auxes) ==> in_key_order(auxes),
{
    if let Ok(layout) = layout_of(d) {
        if let Ok(found) = function_sizes(d, layout, functions, symbols) {
            lemma_stable_sort_orders(found);
        }
    }
}

fn elf_note(model: &IdaModel, symbols: &Vec<ParsedSymbol>) -> (r: Result<Vec<u8>, Error>)
    ensures
        ({
            let v = views(symbols@);
            let addresses = addresses_of(*model, v, symbol_slots(v));
            match r {
                Ok(note) => note_bytes(addresses, model.bits == 64) == Ok::<Seq<u8>, Seq<char>>(
                    note@,
                ),
                Err(e) => note_bytes(addresses, model.bits == 64) == Err::<Seq<u8>, Seq<char>>(e@),
            }
        }),
{
    let count: usize = match greatest_index(symbols) {
        Some(index) => {
            if index >= 0xffff_ffff {
                proof {
                    lemma_addresses_of_len(
                        *model,
                        views(symbols@),
                        symbol_slots(views(symbols@)),
                    );
                }
                return Err(too_large());
            }
            (index + 1) as usize
        },
        None => 0,
    };
    let addresses = collect_addresses(model, symbols, count);
    split_meta_note(&addresses, model.bits == 64)
}

/// The functions that get auxiliary records, and the note, of a file that was
/// written as `bytes` and read back as `symbols`.
pub fn note_for(
    format: OutputFormat,
    model: &IdaModel,
    bytes: &Vec<u8>,
    symbols: &Vec<ParsedSymbol>,
) -> (r: Result<(Vec<FunctionSize>, Vec<u8>), Error>)
    ensures
        match r {
            Ok((auxes, note)) => note_of(format, *model, bytes@, views(symbols@)) == Ok::<
                (Seq<FunctionSize>, Seq<u8>),
                Seq<char>,
            >((auxes@, note@)),
            Err(e) => note_of(format, *model, bytes@, views(symbols@)) == Err::<
                (Seq<FunctionSize>, Seq<u8>),
                Seq<char>,
            >(e@),
        },
{
    match format {
        OutputFormat::Coff => coff_note(model, bytes, symbols),
        OutputFormat::Elf => match elf_note(model, symbols) {
            Ok(note) => {
                let auxes: Vec<FunctionSize> = Vec::new();
                assert(auxes@ =~= Seq::<FunctionSize>::empty());
                Ok((auxes, note))
            },
            Err(e) => Err(e),
        },
    }
}

/// A last section without relocations adds its bytes to a file's shape.
proof fn lemma_longer_shape(c: FileContents, s: FileSection)
    requires
        relocs_in(c.relocs, c.sections.len() as int) == 0,
        name_fits(c.format, s.name),
    ensures
        file_shape(FileContents { sections: c.sections.push(s), ..c }) == (ShapeView {
            sections: file_shape(c).sections.push((s.data.len(), 0)),
            ..file_shape(c)
        }),
{
    let longer = FileContents { sections: c.sections.push(s), ..c };
    assert(file_shape(longer).sections =~= file_shape(c).sections.push((s.data.len(), 0)));
    if file_shape(longer).names_fit {
        assert forall|i: int| 0 <= i < c.sections.len() implies name_fits(
            c.format,
            (#[trigger] c.sections[i]).name,
        ) by {
            assert(name_fits(c.format, longer.sections[i].name));
        }
    }
}

/// The section of the split metadata adds the note to a file's shape, and
/// nothing before the note is there.
proof fn lemma_noted_shape(c: FileContents, note: Seq<u8>)
    requires
        relocs_in(c.relocs, c.sections.len() as int) == 0,
    ensures
        file_shape(with_note_section(c)) == (ShapeView {
            sections: file_shape(c).sections.push((0, 0)),
            ..file_shape(c)
        }),
        file_shape(with_note(with_note_section(c), note)) == (ShapeView {
            sections: file_shape(c).sections.push((note.len(), 0)),
            ..file_shape(c)
        }),
{
    reveal_strlit(".note.split");
    vstd::utf8::is_ascii_chars_encode_utf8(".note.split"@);
    assert(name_fits(c.format, ".note.split"@));
    let n = c.sections.len() as int;
    let noted = with_note_section(c);
    lemma_longer_shape(c, noted.sections[n]);
    assert(aligned(Seq::<u8>::empty(), 4) + note =~= note);
    let filled = with_note(noted, note);
    assert(filled.sections =~= c.sections.push(filled.sections[n]));
    lemma_longer_shape(c, filled.sections[n]);
}

/// Attach objdiff/decomp-toolkit split metadata and write the file. The VIRT
/// array is indexed by the raw object symbol-table index, including any COFF
/// auxiliary-symbol gaps.
fn write_object_with_split_meta(o: Object<'static>, shape: Shape, model: &IdaModel) -> (r: Result<
    Vec<u8>,
    Error,
>)
    requires
        file_contents(o).plain_names,
        shape@ == file_shape(file_contents(o)),
        relocs_in(file_contents(o).relocs, file_contents(o).sections.len() as int) == 0,
    ensures
        match r {
            Ok(bytes) => serialized(*model, file_contents(o)) == Ok::<Seq<u8>, Seq<char>>(bytes@),
            Err(e) => serialized(*model, file_contents(o)) == Err::<Seq<u8>, Seq<char>>(e@),
        },
{
    let ghost c = file_contents(o);
    let format = shape.format;
    let mut shape = shape;
    let mut o = o;
    let contents = match format {
        OutputFormat::Coff => Contents::Linker,
        OutputFormat::Elf => Contents::Note,
    };
    let id = add_file_section(&mut o, ".note.split", contents);
    let ghost noted = with_note_section(c);
    assert(file_contents(o) == noted);
    let ghost bare = shape@;
    shape.sections.push((0, 0));
    proof {
        lemma_noted_shape(c, Seq::empty());
        assert(shape@.sections =~= bare.sections.push((0, 0)));
    }
    let provisional = match store_file(&o, &shape) {
        Ok(bytes) => bytes,
        Err(e) => {
            return Err(Error::new("serialize object for split metadata: ").text(e.as_str()));
        },
    };
    let symbols = match parse_symbols(provisional.as_slice()) {
        Ok(symbols) => symbols,
        Err(e) => {
            return Err(Error::new("parse object for split metadata: ").text(e.as_str()));
        },
    };
    let (auxes, note) = match note_for(format, model, &provisional, &symbols) {
        Ok(found) => found,
        Err(e) => {
            return Err(e);
        },
    };
    append_file_data(&mut o, id, note.as_slice(), 4);
    assert(file_contents(o) == with_note(noted, note@));
    let last: usize = shape.sections.len() - 1;
    shape.sections.set(last, (note.len(), 0));
    proof {
        lemma_noted_shape(c, note@);
        assert(shape@.sections =~= bare.sections.push((note@.len(), 0)));
    }
    match store_file(&o, &shape) {
        Ok(bytes) => match format {
            OutputFormat::Coff => add_coff_function_auxes(bytes, &auxes),
            OutputFormat::Elf => Ok(bytes),
        },
        Err(e) => Err(Error::new("serialize object: ").text(e.as_str())),
    }
}

/// The bytes of a finished object.
pub open spec fn plan_bytes(
    format: OutputFormat,
    model: IdaModel,
    plan: PlanView,
    action: Seq<char>,
) -> Result<Seq<u8>, Seq<char>> {
    match with_relocations(
        unrelocated(format, model.arch, model.little_endian, plan),
        plan.relocs,
        action,
    ) {
        Err(e) => Err(e),
        Ok(c) => serialized(model, c),
    }
}

/// Writes a finished object. `action` begins the message of a relocation that
/// the format does not take.
pub fn write_plan(format: OutputFormat, model: &IdaModel, plan: &Plan, action: &str) -> (r: Result<
    Vec<u8>,
    Error,
>)
    requires
        plan@.wf(),
    ensures
        match r {
            Ok(bytes) => plan_bytes(format, *model, plan@, action@) == Ok::<Seq<u8>, Seq<char>>(
                bytes@,
            ),
            Err(e) => plan_bytes(format, *model, plan@, action@) == Err::<Seq<u8>, Seq<char>>(e@),
        },
{
    match build_file(format, model, plan, action) {
        Ok(o) => write_object_with_split_meta(o, Shape::of_plan(format, plan), model),
        Err(e) => Err(e),
    }
}

/// The file of the absolute symbol `__except_list`.
pub open spec fn except_list_file() -> FileContents {
    FileContents {
        format: OutputFormat::Coff,
        arch: IdaArch::X86,
        little_endian: true,
        plain_names: true,
        sections: Seq::empty(),
        symbols: seq![
            FileSymbol {
                name: "__except_list"@,
                value: 0,
                size: 0,
                kind: FileSymbolKind::Data,
                external: true,
                place: FileSymbolPlace::Absolute,
                section: 0,
            },
        ],
        relocs: Seq::empty(),
    }
}

proof fn lemma_except_list_fits()
    ensures
        shape_fault(file_shape(except_list_file())) is None,
{
    reveal_strlit("__except_list");
    vstd::utf8::is_ascii_chars_encode_utf8("__except_list"@);
    assert(name_fits(OutputFormat::Coff, "__except_list"@));
    assert(coff_end(20, file_shape(except_list_file()).sections) == 20);
}

/// Emit the MSVC x86 absolute `__except_list = 0` symbol as a sectionless COFF
/// object. `FS:[0]` references are represented as relocations to this symbol in
/// split objects; defining it here lets link.exe resolve them without adding
/// bytes or sections to the linked image.
pub fn emit_except_list_symbol() -> (r: Result<Vec<u8>, Error>)
    ensures
        match r {
            Ok(bytes) => written(except_list_file()) == Ok::<Seq<u8>, Seq<char>>(bytes@),
            Err(e) => written(except_list_file()) matches Err(inner) && e@
                == "serialize __except_list object: "@ + inner,
        },
{
    let mut o = start_file(OutputFormat::Coff, IdaArch::X86, true);
    let _ = add_file_symbol(
        &mut o,
        "__except_list",
        (0, 0),
        FileSymbolKind::Data,
        true,
        (None, true),
    );
    proof {
        assert(file_contents(o) =~= except_list_file());
        lemma_except_list_fits();
    }
    match write_file(&o) {
        Ok(bytes) => Ok(bytes),
        Err(e) => Err(Error::new("serialize __except_list object: ").text(e.as_str())),
    }
}

} // verus!
