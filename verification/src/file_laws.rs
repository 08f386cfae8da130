//! What goes into a file: the sections, symbols and relocations of the finished
//! object, of the types that the format has for them.

use crate::draft::{Linkage, SymbolClass};
use crate::format::{
    absolute_type, relative_type, section_name, Contents, OutputFormat, RelocType,
};
use crate::limits::addend_growth;
use crate::model::{IdaArch, IdaModel};
use crate::plan::{BoundReloc, PlanView};
use crate::writer::{
    annotated, plan_bytes, relocated, serialized, stored, unrelocated, with_note,
    with_note_section, with_relocations, FileContents, FileSymbolKind, FileSymbolPlace,
};
use vstd::prelude::*;

verus! {

/// The relocation types, by their numbers: for COFF on x86, 6 for an address and 20
/// for a distance, and on x86-64, 1 and 2 for an address of eight and of four bytes
/// and 4 for a distance; for ELF on x86, 1 and 2, and on x86-64, 1, 10 and 2. There
/// is no other type of an address.
pub proof fn lemma_relocation_types(format: OutputFormat, arch: IdaArch, size: u32)
    ensures
        absolute_type(format, arch, size) == match (format, arch) {
            (OutputFormat::Coff, IdaArch::X86) => if size == 4 {
                Some(RelocType::Coff(6))
            } else {
                None
            },
            (OutputFormat::Coff, IdaArch::X86_64) => if size == 8 {
                Some(RelocType::Coff(1))
            } else if size == 4 {
                Some(RelocType::Coff(2))
            } else {
                None
            },
            (OutputFormat::Elf, IdaArch::X86) => if size == 4 {
                Some(RelocType::Elf(1))
            } else {
                None
            },
            (OutputFormat::Elf, IdaArch::X86_64) => if size == 8 {
                Some(RelocType::Elf(1))
            } else if size == 4 {
                Some(RelocType::Elf(10))
            } else {
                None
            },
            _ => None,
        },
        arch != IdaArch::Other ==> relative_type(format, arch) == match (format, arch) {
            (OutputFormat::Coff, IdaArch::X86_64) => RelocType::Coff(4),
            (OutputFormat::Coff, _) => RelocType::Coff(20),
            (OutputFormat::Elf, _) => RelocType::Elf(2),
        },
{
}

/// What sections are called.
pub proof fn lemma_section_names(format: OutputFormat)
    ensures
        section_name(format, Contents::Text) == ".text"@,
        section_name(format, Contents::Data) == ".data"@,
        section_name(format, Contents::Zeroed) == ".bss"@,
        section_name(format, Contents::ReadOnly) == if format == OutputFormat::Coff {
            ".rdata"@
        } else {
            ".rodata"@
        },
{
}

/// The file of a finished object has its sections, in order: the bytes of each, or
/// as many zeros as it has.
pub proof fn lemma_file_has_the_sections(
    format: OutputFormat,
    arch: IdaArch,
    little_endian: bool,
    plan: PlanView,
    i: int,
)
    requires
        0 <= i < plan.sections.len(),
        plan.sections[i].data.len() <= u64::MAX,
    ensures
        ({
            let c = unrelocated(format, arch, little_endian, plan);
            let s = plan.sections[i];
            let zeroed = s.contents == Contents::Zeroed;
            &&& c.format == format && c.arch == arch && c.little_endian == little_endian
            &&& c.plain_names
            &&& c.sections.len() == plan.sections.len()
            &&& c.sections[i].name == s.name
            &&& c.sections[i].contents == s.contents
            &&& c.sections[i].align == 1
            &&& zeroed ==> c.sections[i].data.len() == 0 && c.sections[i].size == s.zeroed
            &&& !zeroed ==> c.sections[i].data == s.data && c.sections[i].size == s.data.len()
        }),
{
}

/// The file of a finished object has its symbols, in order: with their names, places
/// and sizes, and visible to other objects where they are external.
pub proof fn lemma_file_has_the_symbols(
    format: OutputFormat,
    arch: IdaArch,
    little_endian: bool,
    plan: PlanView,
    i: int,
)
    requires
        0 <= i < plan.symbols.len(),
    ensures
        ({
            let c = unrelocated(format, arch, little_endian, plan);
            let s = plan.symbols[i];
            let f = c.symbols[i];
            &&& c.symbols.len() == plan.symbols.len()
            &&& f.name == s.name && f.value == s.value && f.size == s.size
            &&& f.external == (s.linkage == Linkage::External)
            &&& s.class == SymbolClass::Function ==> f.kind == FileSymbolKind::Text
            &&& s.class == SymbolClass::Data ==> f.kind == FileSymbolKind::Data
            &&& s.class == SymbolClass::Label ==> f.kind == FileSymbolKind::Label
            &&& s.class == SymbolClass::Undefined ==> f.place == FileSymbolPlace::Undefined
            &&& s.class != SymbolClass::Undefined ==> f.place == FileSymbolPlace::Section
                && f.section == s.section
        }),
{
}

/// The relocations of a finished object go into the file one by one, in order, and
/// each as it is; one that the format does not take, or whose addend it cannot move,
/// stops the file.
pub proof fn lemma_relocations_go_in_order(
    c: FileContents,
    relocs: Seq<BoundReloc>,
    r: BoundReloc,
    action: Seq<char>,
)
    ensures
        with_relocations(c, relocs.push(r), action) is Ok <==> {
            &&& with_relocations(c, relocs, action) matches Ok(before) && r.addend + addend_growth(
                before.format,
                before.arch,
                r.flags,
            ) <= i64::MAX && relocated(before, r) is Ok
        },
        with_relocations(c, relocs.push(r), action) matches Ok(after)
            ==> with_relocations(c, relocs, action) matches Ok(before) && relocated(before, r)
            == Ok::<FileContents, Seq<char>>(after),
{
    assert(relocs.push(r).drop_last() =~= relocs);
}

/// A file without relocations is the file itself.
pub proof fn lemma_no_relocations_change_nothing(c: FileContents, action: Seq<char>)
    ensures
        with_relocations(c, Seq::empty(), action) == Ok::<FileContents, Seq<char>>(c),
{
}

/// An ELF file that is written is that of the finished object with one section more,
/// `.note.split`, which holds the note that its symbols give.
pub proof fn lemma_written_file_has_its_note(model: IdaModel, c: FileContents)
    requires
        c.format == OutputFormat::Elf,
    ensures
        serialized(model, c) matches Ok(out) ==> exists|note: Seq<u8>| #[trigger]
            stored(with_note(with_note_section(c), note)) == Ok::<Seq<u8>, Seq<char>>(out),
{
    if let Ok(out) = serialized(model, c) {
        let noted = with_note_section(c);
        let bytes = stored(noted)->Ok_0;
        let symbols = crate::writer::parsed(bytes)->Ok_0;
        assert(annotated(model, noted, bytes, symbols) == Ok::<Seq<u8>, Seq<char>>(out));
        let (_, note) = crate::writer::note_of(noted.format, model, bytes, symbols)->Ok_0;
        assert(stored(with_note(noted, note)) == Ok::<Seq<u8>, Seq<char>>(out));
    }
}

/// A finished object is written as the file with its relocations.
pub proof fn lemma_plan_is_written(
    format: OutputFormat,
    model: IdaModel,
    plan: PlanView,
    action: Seq<char>,
)
    ensures
        plan_bytes(format, model, plan, action) matches Ok(out) ==> with_relocations(
            unrelocated(format, model.arch, model.little_endian, plan),
            plan.relocs,
            action,
        ) matches Ok(c) && serialized(model, c) == Ok::<Seq<u8>, Seq<char>>(out),
{
}

} // verus!
