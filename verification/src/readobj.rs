//! What a relocatable object holds: its sections, symbols and relocations.

use crate::bytes::{get_u16, le16};
use crate::seqs::{
    first, lemma_first_index_is, lemma_first_index_none, opt_text, views,
};
use crate::text::Error;
use object::{
    Object as _, ObjectSection as _, ObjectSymbol as _, RelocationFlags, RelocationTarget, SymbolKind,
};
use vstd::prelude::*;

verus! {

// ---------------------------------------------------------------------------
// Reading with the `object` crate
// ---------------------------------------------------------------------------

/// A section as it was read from an object.
#[derive(Debug)]
pub struct ReadSection {
    /// `None` where the name is not text.
    pub name: Option<String>,
    pub address: u64,
    pub size: u64,
    pub kind: String,
}

#[verifier::ext_equal]
pub struct ReadSectionView {
    pub name: Option<Seq<char>>,
    pub address: u64,
    pub size: u64,
    pub kind: Seq<char>,
}

impl View for ReadSection {
    type V = ReadSectionView;

    open spec fn view(&self) -> ReadSectionView {
        ReadSectionView {
            name: opt_text(self.name),
            address: self.address,
            size: self.size,
            kind: self.kind@,
        }
    }
}

/// A symbol as it was read from an object.
#[derive(Debug)]
pub struct ReadSymbol {
    pub index: u64,
    /// `None` where the name is not text.
    pub name: Option<String>,
    pub address: u64,
    pub size: u64,
    pub kind: String,
    pub scope: String,
    pub section: String,
    pub is_text: bool,
    pub is_undefined: bool,
}

#[verifier::ext_equal]
pub struct ReadSymbolView {
    pub index: u64,
    pub name: Option<Seq<char>>,
    pub address: u64,
    pub size: u64,
    pub kind: Seq<char>,
    pub scope: Seq<char>,
    pub section: Seq<char>,
    pub is_text: bool,
    pub is_undefined: bool,
}

impl View for ReadSymbol {
    type V = ReadSymbolView;

    open spec fn view(&self) -> ReadSymbolView {
        ReadSymbolView {
            index: self.index,
            name: opt_text(self.name),
            address: self.address,
            size: self.size,
            kind: self.kind@,
            scope: self.scope@,
            section: self.section@,
            is_text: self.is_text,
            is_undefined: self.is_undefined,
        }
    }
}

/// What a relocation points at: a symbol by index, or something else.
#[derive(Debug)]
pub enum ReadTarget {
    Symbol(u64),
    Other(String),
}

pub enum ReadTargetView {
    Symbol(u64),
    Other(Seq<char>),
}

impl View for ReadTarget {
    type V = ReadTargetView;

    open spec fn view(&self) -> ReadTargetView {
        match self {
            ReadTarget::Symbol(index) => ReadTargetView::Symbol(*index),
            ReadTarget::Other(text) => ReadTargetView::Other(text@),
        }
    }
}

/// The type of a relocation: an ELF type, or something else.
#[derive(Debug)]
pub enum ReadFlags {
    Elf(u32),
    Other(String),
}

pub enum ReadFlagsView {
    Elf(u32),
    Other(Seq<char>),
}

impl View for ReadFlags {
    type V = ReadFlagsView;

    open spec fn view(&self) -> ReadFlagsView {
        match self {
            ReadFlags::Elf(r_type) => ReadFlagsView::Elf(*r_type),
            ReadFlags::Other(text) => ReadFlagsView::Other(text@),
        }
    }
}

/// A relocation as it was read from an object.
#[derive(Debug)]
pub struct ReadReloc {
    pub offset: u64,
    pub target: ReadTarget,
    pub addend: i64,
    pub flags: ReadFlags,
}

pub struct ReadRelocView {
    pub offset: u64,
    pub target: ReadTargetView,
    pub addend: i64,
    pub flags: ReadFlagsView,
}

impl View for ReadReloc {
    type V = ReadRelocView;

    open spec fn view(&self) -> ReadRelocView {
        ReadRelocView {
            offset: self.offset,
            target: self.target@,
            addend: self.addend,
            flags: self.flags@,
        }
    }
}

/// The relocations of one section.
#[derive(Debug)]
pub struct RelocList {
    pub relocs: Vec<ReadReloc>,
}

impl View for RelocList {
    type V = Seq<ReadRelocView>;

    open spec fn view(&self) -> Seq<ReadRelocView> {
        views(self.relocs@)
    }
}

/// The sections that `object::File` reads in a file.
pub uninterp spec fn sections_read(bytes: Seq<u8>) -> Result<Seq<ReadSectionView>, Seq<char>>;

/// The symbols that `object::File` reads in a file.
pub uninterp spec fn symbols_read(bytes: Seq<u8>) -> Result<Seq<ReadSymbolView>, Seq<char>>;

/// The relocations that `object::File` reads in a file, by section.
pub uninterp spec fn relocs_read(bytes: Seq<u8>) -> Result<Seq<Seq<ReadRelocView>>, Seq<char>>;

/// `object::File::parse` and `sections`: the sections of an object file, their
/// kinds as `Debug` writes them. What these are for given bytes is left to the
/// name.
#[verifier::external_body]
fn read_sections(bytes: &[u8]) -> (r: Result<Vec<ReadSection>, String>)
    ensures
        match r {
            Ok(found) => sections_read(bytes@) == Ok::<Seq<ReadSectionView>, Seq<char>>(
                views(found@),
            ),
            Err(e) => sections_read(bytes@) == Err::<Seq<ReadSectionView>, Seq<char>>(e@),
        },
{
    let file = object::File::parse(bytes).map_err(|e| e.to_string())?;
    let plain = |s: object::Section<'_, '_>| ReadSection {
        name: s.name().ok().map(|n| n.to_string()),
        address: s.address(),
        size: s.size(),
        kind: format!("{:?}", s.kind()),
    };
    Ok(file.sections().map(plain).collect())
}

/// `object::File::parse` and `symbols`: the symbols of an object file, their
/// kinds, scopes and sections as `Debug` writes them, and whether they are code
/// or undefined. What these are for given bytes is left to the name.
#[verifier::external_body]
pub(crate) fn read_symbols(bytes: &[u8]) -> (r: Result<Vec<ReadSymbol>, String>)
    ensures
        match r {
            Ok(found) => symbols_read(bytes@) == Ok::<Seq<ReadSymbolView>, Seq<char>>(
                views(found@),
            ),
            Err(e) => symbols_read(bytes@) == Err::<Seq<ReadSymbolView>, Seq<char>>(e@),
        },
{
    let file = object::File::parse(bytes).map_err(|e| e.to_string())?;
    let plain = |s: object::Symbol<'_, '_>| ReadSymbol {
        index: s.index().0 as u64,
        name: s.name().ok().map(|n| n.to_string()),
        address: s.address(),
        size: s.size(),
        kind: format!("{:?}", s.kind()),
        scope: format!("{:?}", s.scope()),
        section: format!("{:?}", s.section()),
        is_text: matches!(s.kind(), SymbolKind::Text),
        is_undefined: s.is_undefined(),
    };
    Ok(file.symbols().map(plain).collect())
}

/// `object::File::parse`, `sections` and `relocations`: the relocations of each
/// section of an object file, targets and types of other kinds as `Debug` writes
/// them. What these are for given bytes is left to the name.
#[verifier::external_body]
fn read_relocs(bytes: &[u8]) -> (r: Result<Vec<RelocList>, String>)
    ensures
        match r {
            Ok(found) => relocs_read(bytes@) == Ok::<Seq<Seq<ReadRelocView>>, Seq<char>>(
                views(found@),
            ),
            Err(e) => relocs_read(bytes@) == Err::<Seq<Seq<ReadRelocView>>, Seq<char>>(e@),
        },
{
    let file = object::File::parse(bytes).map_err(|e| e.to_string())?;
    let plain = |(offset, r): (u64, object::Relocation)| {
        let target = match r.target() {
            RelocationTarget::Symbol(index) => ReadTarget::Symbol(index.0 as u64),
            other => ReadTarget::Other(format!("{other:?}")),
        };
        let flags = match r.flags() {
            RelocationFlags::Elf { r_type } => ReadFlags::Elf(r_type.0),
            other => ReadFlags::Other(format!("{other:?}")),
        };
        ReadReloc { offset, target, addend: r.addend(), flags }
    };
    Ok(file.sections().map(|s| RelocList { relocs: s.relocations().map(plain).collect() }).collect())
}

// ---------------------------------------------------------------------------
// The report
// ---------------------------------------------------------------------------

/// The type and the machine that an ELF header gives, zero where there is none.
pub open spec fn elf_fields(d: Seq<u8>) -> (int, int) {
    if d.len() >= 20 && d[0] == 0x7f && d[1] == 0x45 && d[2] == 0x4c && d[3] == 0x46 {
        (le16(d, 16), le16(d, 18))
    } else {
        (0, 0)
    }
}

/// The type and the machine that an ELF header gives, zero where there is none.
pub fn elf_header(data: &[u8]) -> (r: (u16, u16))
    ensures
        (r.0 as int, r.1 as int) == elf_fields(data@),
{
    if data.len() >= 20 && data[0] == 0x7f && data[1] == 0x45 && data[2] == 0x4c && data[3]
        == 0x46 {
        (get_u16(data, 16), get_u16(data, 18))
    } else {
        (0, 0)
    }
}

/// A name, or a sign that it could not be read.
pub open spec fn shown(name: Option<Seq<char>>) -> Seq<char> {
    match name {
        Some(name) => name,
        None => "<?>"@,
    }
}

/// A name, or a sign that it could not be read.
pub fn shown_name(name: &Option<String>) -> (r: String)
    ensures
        r@ == shown(opt_text(*name)),
{
    match name {
        Some(name) => name.clone(),
        None => "<?>".to_owned(),
    }
}

/// Symbols that are listed: those whose name is not empty.
pub open spec fn is_listed(s: ReadSymbolView) -> bool {
    shown(s.name).len() > 0
}

/// Whether a symbol is listed.
pub fn lists_symbol(s: &ReadSymbol) -> (r: bool)
    ensures
        r == is_listed(s@),
{
    proof {
        reveal_strlit("<?>");
    }
    match &s.name {
        Some(name) => name.as_str().unicode_len() > 0,
        None => true,
    }
}

pub open spec fn has_index(index: u64) -> spec_fn(ReadSymbolView) -> bool {
    |s: ReadSymbolView| s.index == index
}

/// What a relocation points at, as it is listed: the name of the symbol with
/// its index.
pub open spec fn target_text(symbols: Seq<ReadSymbolView>, target: ReadTargetView) -> Seq<char> {
    match target {
        ReadTargetView::Symbol(index) => match first(symbols, has_index(index)) {
            Some(s) => shown(s.name),
            None => "<?>"@,
        },
        ReadTargetView::Other(text) => text,
    }
}

/// What a relocation points at, as it is listed.
pub fn target_name(symbols: &Vec<ReadSymbol>, target: &ReadTarget) -> (r: String)
    ensures
        r@ == target_text(views(symbols@), target@),
{
    match target {
        ReadTarget::Symbol(index) => {
            let ghost v = views(symbols@);
            let mut i: usize = 0;
            while i < symbols.len()
                invariant
                    i <= symbols@.len(),
                    v == views(symbols@),
                    target@ == ReadTargetView::Symbol(*index),
                    forall|k: int| 0 <= k < i ==> (#[trigger] v[k]).index != *index,
                decreases symbols@.len() - i,
            {
                assert(v[i as int] == symbols@[i as int]@);
                if symbols[i].index == *index {
                    proof {
                        lemma_first_index_is(v, has_index(*index), i as int);
                    }
                    return shown_name(&symbols[i].name);
                }
                i += 1;
            }
            proof {
                lemma_first_index_none(v, has_index(*index));
            }
            "<?>".to_owned()
        },
        ReadTarget::Other(text) => text.clone(),
    }
}

/// What an object holds.
pub struct ObjectReport {
    pub e_type: u16,
    pub e_machine: u16,
    pub sections: Vec<ReadSection>,
    pub symbols: Vec<ReadSymbol>,
    /// The relocations of each section.
    pub relocs: Vec<RelocList>,
}

/// What an object holds.
pub fn read_object(data: &[u8]) -> (r: Result<ObjectReport, Error>)
    ensures
        match r {
            Ok(report) => {
                &&& (report.e_type as int, report.e_machine as int) == elf_fields(data@)
                &&& sections_read(data@) == Ok::<Seq<ReadSectionView>, Seq<char>>(
                    views(report.sections@),
                )
                &&& symbols_read(data@) == Ok::<Seq<ReadSymbolView>, Seq<char>>(
                    views(report.symbols@),
                )
                &&& relocs_read(data@) == Ok::<Seq<Seq<ReadRelocView>>, Seq<char>>(
                    views(report.relocs@),
                )
            },
            Err(e) => {
                ||| sections_read(data@) == Err::<Seq<ReadSectionView>, Seq<char>>(e@)
                ||| sections_read(data@) is Ok && symbols_read(data@) == Err::<
                    Seq<ReadSymbolView>,
                    Seq<char>,
                >(e@)
                ||| sections_read(data@) is Ok && symbols_read(data@) is Ok && relocs_read(data@)
                    == Err::<Seq<Seq<ReadRelocView>>, Seq<char>>(e@)
            },
        },
{
    let (e_type, e_machine) = elf_header(data);
    let sections = match read_sections(data) {
        Ok(found) => found,
        Err(e) => {
            return Err(Error { message: e });
        },
    };
    let symbols = match read_symbols(data) {
        Ok(found) => found,
        Err(e) => {
            return Err(Error { message: e });
        },
    };
    match read_relocs(data) {
        Ok(relocs) => Ok(ObjectReport { e_type, e_machine, sections, symbols, relocs }),
        Err(e) => Err(Error { message: e }),
    }
}

} // verus!
