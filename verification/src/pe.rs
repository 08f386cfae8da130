//! Windows PE and original Xbox XBE images: sections, base relocations and
//! imports.

use crate::bytes::{get_u16, get_u32, get_u64, le16, le32, le64, wrap64};
use crate::seqs::{
    copy_extended, first, first_index, lemma_first_index_is, lemma_first_index_none, opt_bytes,
    opt_text, views, zero_extend,
};
use crate::text::{
    dec_text, format_digits, hex4_text, hex_text, lossy_text, same_text, text_of_bytes, trim_end,
    trim_end_char, Error,
};
use std::collections::HashMap;
use vstd::prelude::*;

verus! {

/// Target architecture of the loaded PE.
#[derive(Debug, Clone, Copy, PartialEq, Eq, Structural)]
pub enum PeArch {
    /// AMD64 / x86-64 (machine = 0x8664, magic = 0x020B PE32+).
    X86_64,
    /// IA-32 / x86 (machine = 0x014C, magic = 0x010B PE32).
    X86,
}

/// A single PE section with its raw bytes and virtual-address metadata.
#[derive(Debug, Clone)]
pub struct PeSection {
    pub name: String,
    /// RVA (relative virtual address from image base).
    pub rva: u64,
    /// Absolute virtual address = image_base + rva.
    pub va: u64,
    /// Virtual size (may be larger than raw data due to BSS padding).
    pub virtual_size: u64,
    /// Raw bytes from the file, zero-extended to `virtual_size` if needed.
    pub data: Vec<u8>,
    pub characteristics: u32,
}

/// What a section holds.
#[verifier::ext_equal]
pub struct SectionView {
    pub name: Seq<char>,
    pub rva: u64,
    pub va: u64,
    pub virtual_size: u64,
    pub data: Seq<u8>,
    pub characteristics: u32,
}

impl View for PeSection {
    type V = SectionView;

    open spec fn view(&self) -> SectionView {
        SectionView {
            name: self.name@,
            rva: self.rva,
            va: self.va,
            virtual_size: self.virtual_size,
            data: self.data@,
            characteristics: self.characteristics,
        }
    }
}

impl SectionView {
    /// The data reaches to the end of the virtual range, which lies within
    /// the address space.
    pub open spec fn wf(self) -> bool {
        &&& self.virtual_size <= self.data.len()
        &&& self.rva + self.virtual_size <= u64::MAX
    }

    pub open spec fn has_rva(self, rva: u64) -> bool {
        self.rva <= rva < wrap64(self.rva + self.virtual_size)
    }

    pub open spec fn has_va(self, va: u64) -> bool {
        self.va <= va < wrap64(self.va + self.virtual_size)
    }

    /// The `len` bytes at `rva`, where the data holds them all.
    pub open spec fn bytes_at_rva(self, rva: int, len: int) -> Option<Seq<u8>> {
        let off = rva - self.rva;
        if 0 <= off && off + len <= self.data.len() {
            Some(self.data.subrange(off, off + len))
        } else {
            None
        }
    }

    /// The `len` bytes at the absolute address `va`.
    pub open spec fn bytes_at_va(self, va: int, len: int) -> Option<Seq<u8>> {
        if va < self.va {
            None
        } else {
            self.bytes_at_rva(wrap64(va - self.va + self.rva), len)
        }
    }
}

impl PeSection {
    pub fn contains_rva(&self, rva: u64) -> (r: bool)
        ensures
            r == self@.has_rva(rva),
    {
        rva >= self.rva && rva < self.rva.wrapping_add(self.virtual_size)
    }

    pub fn contains_va(&self, va: u64) -> (r: bool)
        ensures
            r == self@.has_va(va),
    {
        va >= self.va && va < self.va.wrapping_add(self.virtual_size)
    }

    /// Borrow the bytes at `rva` (RVA relative to image base) for `len` bytes.
    pub fn data_at_rva(&self, rva: u64, len: usize) -> (r: Option<&[u8]>)
        ensures
            opt_bytes(r) == self@.bytes_at_rva(rva as int, len as int),
    {
        if rva < self.rva {
            return None;
        }
        let off: u64 = rva - self.rva;
        let total: usize = self.data.len();
        if off > total as u64 || len > total - off as usize {
            return None;
        }
        let start: usize = off as usize;
        Some(vstd::slice::slice_subrange(self.data.as_slice(), start, start + len))
    }

    /// Borrow the bytes at an absolute VA for `len` bytes.
    pub fn data_at_va(&self, va: u64, len: usize) -> (r: Option<&[u8]>)
        ensures
            opt_bytes(r) == self@.bytes_at_va(va as int, len as int),
    {
        if va < self.va {
            return None;
        }
        let rva: u64 = (va - self.va).wrapping_add(self.rva);
        self.data_at_rva(rva, len)
    }
}

/// A base-relocation entry from the `.reloc` section.
#[derive(Debug, Clone)]
pub struct BaseReloc {
    pub va: u64,
    pub kind: BaseRelocKind,
}

#[derive(Debug, Clone, Copy, PartialEq, Eq, Structural)]
pub enum BaseRelocKind {
    /// `IMAGE_REL_BASED_DIR64` (10): 64-bit absolute pointer (PE32+).
    Dir64,
    /// `IMAGE_REL_BASED_HIGHLOW` (3): 32-bit absolute pointer (PE32).
    HighLow,
    /// Other type we don't handle.
    Other(u8),
}

/// Sections that hold `rva`.
pub open spec fn has_rva(rva: u64) -> spec_fn(SectionView) -> bool {
    |s: SectionView| s.has_rva(rva)
}

/// Sections that hold `va`.
pub open spec fn has_va(va: u64) -> spec_fn(SectionView) -> bool {
    |s: SectionView| s.has_va(va)
}

/// Sections named `name`.
pub open spec fn named(name: Seq<char>) -> spec_fn(SectionView) -> bool {
    |s: SectionView| s.name == name
}

/// The view of an optional borrowed section.
pub open spec fn opt_section(r: Option<&PeSection>) -> Option<SectionView> {
    match r {
        Some(s) => Some(s@),
        None => None,
    }
}

/// The `len` bytes at `rva` in the first section that holds it.
pub open spec fn image_bytes(sections: Seq<SectionView>, rva: u64, len: int) -> Option<Seq<u8>> {
    match first(sections, has_rva(rva)) {
        Some(s) => s.bytes_at_rva(rva as int, len),
        None => None,
    }
}

fn find_rva(sections: &Vec<PeSection>, rva: u64) -> (r: Option<&PeSection>)
    ensures
        opt_section(r) == first(views(sections@), has_rva(rva)),
{
    let ghost v = views(sections@);
    let mut i: usize = 0;
    while i < sections.len()
        invariant
            i <= sections@.len(),
            v == views(sections@),
            forall|j: int| 0 <= j < i ==> !has_rva(rva)(#[trigger] v[j]),
        decreases sections@.len() - i,
    {
        if sections[i].contains_rva(rva) {
            proof {
                lemma_first_index_is(v, has_rva(rva), i as int);
            }
            return Some(&sections[i]);
        }
        i += 1;
    }
    proof {
        lemma_first_index_none(v, has_rva(rva));
    }
    None
}

fn find_va(sections: &Vec<PeSection>, va: u64) -> (r: Option<&PeSection>)
    ensures
        opt_section(r) == first(views(sections@), has_va(va)),
{
    let ghost v = views(sections@);
    let mut i: usize = 0;
    while i < sections.len()
        invariant
            i <= sections@.len(),
            v == views(sections@),
            forall|j: int| 0 <= j < i ==> !has_va(va)(#[trigger] v[j]),
        decreases sections@.len() - i,
    {
        if sections[i].contains_va(va) {
            proof {
                lemma_first_index_is(v, has_va(va), i as int);
            }
            return Some(&sections[i]);
        }
        i += 1;
    }
    proof {
        lemma_first_index_none(v, has_va(va));
    }
    None
}

/// A PE image without debug info: just sections, image base, and the base
/// relocation table.
///
/// Lighter than [`PeContext`]; for callers (e.g. the IDA importer) that bring
/// their own function/symbol information and only need the original binary's
/// bytes and `.reloc` table.
pub struct PeImage {
    pub arch: PeArch,
    pub image_base: u64,
    pub sections: Vec<PeSection>,
    /// Base relocations from `.reloc` (empty for images without the table).
    pub base_relocations: Vec<BaseReloc>,
}

impl PeImage {
    /// What the sections hold, in order.
    pub open spec fn spec_sections(&self) -> Seq<SectionView> {
        views(self.sections@)
    }

    /// Every section's data reaches to the end of its virtual range.
    pub open spec fn wf(&self) -> bool {
        sections_wf(self.spec_sections())
    }

    pub fn section_for_rva(&self, rva: u64) -> (r: Option<&PeSection>)
        ensures
            opt_section(r) == first(self.spec_sections(), has_rva(rva)),
    {
        find_rva(&self.sections, rva)
    }

    /// Bytes at `rva` for `len` bytes (sections are zero-extended to virtual size).
    pub fn data_at_rva(&self, rva: u64, len: usize) -> (r: Option<&[u8]>)
        ensures
            opt_bytes(r) == image_bytes(self.spec_sections(), rva, len as int),
    {
        match self.section_for_rva(rva) {
            Some(section) => section.data_at_rva(rva, len),
            None => None,
        }
    }
}

pub open spec fn sections_wf(sections: Seq<SectionView>) -> bool {
    forall|i: int| 0 <= i < sections.len() ==> (#[trigger] sections[i]).wf()
}

// ---------------------------------------------------------------------------
// PE header parsing
// ---------------------------------------------------------------------------

/// The architecture, image base, offset of the section table and number of
/// sections that a PE header gives, or what is wrong with it.
pub open spec fn pe_header(d: Seq<u8>) -> Result<(PeArch, u64, int, int), Seq<char>> {
    let nt = le32(d, 0x3c);
    let coff = nt + 4;
    let opt = coff + 20;
    let machine = le16(d, coff);
    let magic = le16(d, opt);
    let table = opt + le16(d, coff + 16);
    let count = le16(d, coff + 2);
    if d.len() < 0x40 {
        Err("file too small for PE header"@)
    } else if !(d[0] == 0x4d && d[1] == 0x5a) {
        Err("not a PE file (no MZ signature)"@)
    } else if nt + 4 > d.len() {
        Err("e_lfanew out of bounds"@)
    } else if le32(d, nt) != 0x4550 {
        Err("PE signature not found"@)
    } else if coff + 20 > d.len() {
        Err("COFF header out of bounds"@)
    } else if machine != 0x8664 && machine != 0x014c {
        Err(
            "unsupported machine type "@ + hex4_text(machine)
                + " (only AMD64 and I386 supported)"@,
        )
    } else if opt + 2 > d.len() {
        Err("optional header offset out of bounds"@)
    } else if magic == 0x020b && opt + 32 > d.len() {
        Err("PE32+ optional header too short for ImageBase"@)
    } else if magic == 0x010b && opt + 32 > d.len() {
        Err("PE32 optional header too short for ImageBase"@)
    } else if magic != 0x020b && magic != 0x010b {
        Err("unsupported PE optional-header magic "@ + hex4_text(magic))
    } else if table + count * 40 > d.len() {
        Err("section headers out of bounds"@)
    } else {
        let arch = if machine == 0x8664 {
            PeArch::X86_64
        } else {
            PeArch::X86
        };
        let base = if magic == 0x020b {
            le64(d, opt + 24) as u64
        } else {
            le32(d, opt + 28) as u64
        };
        Ok((arch, base, table, count))
    }
}

/// The section that the PE section header at `h` describes.
pub open spec fn pe_section_at(d: Seq<u8>, base: u64, h: int) -> Result<SectionView, Seq<char>> {
    let name = trim_end(lossy_text(d.subrange(h, h + 8)), '\0');
    let virtual_size = le32(d, h + 8);
    let rva = le32(d, h + 12);
    let raw_size = le32(d, h + 16);
    let raw = le32(d, h + 20);
    if raw == 0 || raw_size == 0 {
        Ok(pe_section(d, base, h, name, Seq::<u8>::empty()))
    } else if raw + raw_size > d.len() {
        Err("section '"@ + name + "' raw data out of bounds"@)
    } else {
        Ok(pe_section(d, base, h, name, d.subrange(raw, raw + raw_size)))
    }
}

/// The section of the header at `h`, with the raw bytes `raw`.
pub open spec fn pe_section(
    d: Seq<u8>,
    base: u64,
    h: int,
    name: Seq<char>,
    raw: Seq<u8>,
) -> SectionView {
    SectionView {
        name,
        rva: le32(d, h + 12) as u64,
        va: wrap64(base + le32(d, h + 12)) as u64,
        virtual_size: le32(d, h + 8) as u64,
        data: zero_extend(raw, le32(d, h + 8)),
        characteristics: le32(d, h + 36) as u32,
    }
}

/// The first `n` sections of the table at `table`.
pub open spec fn pe_section_list(d: Seq<u8>, base: u64, table: int, n: nat) -> Result<
    Seq<SectionView>,
    Seq<char>,
>
    decreases n,
{
    if n == 0 {
        Ok(Seq::empty())
    } else {
        match pe_section_list(d, base, table, (n - 1) as nat) {
            Err(e) => Err(e),
            Ok(before) => match pe_section_at(d, base, table + (n - 1) * 40) {
                Err(e) => Err(e),
                Ok(section) => Ok(before.push(section)),
            },
        }
    }
}

/// The architecture, image base and sections of a PE file.
pub open spec fn pe_sections(d: Seq<u8>) -> Result<(PeArch, u64, Seq<SectionView>), Seq<char>> {
    match pe_header(d) {
        Err(e) => Err(e),
        Ok((arch, base, table, count)) => match pe_section_list(d, base, table, count as nat) {
            Err(e) => Err(e),
            Ok(sections) => Ok((arch, base, sections)),
        },
    }
}

fn parse_pe_header(exe_data: &[u8]) -> (r: Result<(PeArch, u64, usize, usize), Error>)
    ensures
        match r {
            Ok((arch, base, table, count)) => {
                &&& pe_header(exe_data@) == Ok::<(PeArch, u64, int, int), Seq<char>>(
                    (arch, base, table as int, count as int),
                )
                &&& table + count * 40 <= exe_data@.len()
            },
            Err(e) => pe_header(exe_data@) == Err::<(PeArch, u64, int, int), Seq<char>>(e@),
        },
{
    let total: u64 = exe_data.len() as u64;
    if total < 0x40 {
        return Err(Error::new("file too small for PE header"));
    }
    if exe_data[0] != 0x4d || exe_data[1] != 0x5a {
        return Err(Error::new("not a PE file (no MZ signature)"));
    }
    let e_lfanew: u64 = get_u32(exe_data, 0x3c) as u64;
    if e_lfanew + 4 > total {
        return Err(Error::new("e_lfanew out of bounds"));
    }
    if get_u32(exe_data, e_lfanew as usize) != 0x4550 {
        return Err(Error::new("PE signature not found"));
    }
    // COFF file header: 20 bytes behind the signature.
    if e_lfanew + 24 > total {
        return Err(Error::new("COFF header out of bounds"));
    }
    let coff_off: usize = (e_lfanew + 4) as usize;
    let machine: u16 = get_u16(exe_data, coff_off);
    let arch = match machine {
        0x8664 => PeArch::X86_64,
        0x014c => PeArch::X86,
        _ => {
            return Err(
                Error::new("unsupported machine type ").hex4(machine).text(
                    " (only AMD64 and I386 supported)",
                ),
            );
        },
    };
    let num_sections: u64 = get_u16(exe_data, coff_off + 2) as u64;
    let opt_header_size: u64 = get_u16(exe_data, coff_off + 16) as u64;

    // The optional header starts right after the COFF file header.
    let opt_off: u64 = e_lfanew + 24;
    if opt_off + 2 > total {
        return Err(Error::new("optional header offset out of bounds"));
    }
    let magic: u16 = get_u16(exe_data, opt_off as usize);

    // ImageBase offset and size differ between PE32 and PE32+.
    let image_base: u64 = match magic {
        0x020b => {
            if opt_off + 32 > total {
                return Err(Error::new("PE32+ optional header too short for ImageBase"));
            }
            get_u64(exe_data, (opt_off + 24) as usize)
        },
        0x010b => {
            if opt_off + 32 > total {
                return Err(Error::new("PE32 optional header too short for ImageBase"));
            }
            get_u32(exe_data, (opt_off + 28) as usize) as u64
        },
        _ => {
            return Err(Error::new("unsupported PE optional-header magic ").hex4(magic));
        },
    };

    // Section headers start after the optional header.
    let sections_off: u64 = opt_off + opt_header_size;
    if sections_off + num_sections * 40 > total {
        return Err(Error::new("section headers out of bounds"));
    }
    Ok((arch, image_base, sections_off as usize, num_sections as usize))
}

fn parse_pe_section(exe_data: &[u8], image_base: u64, hdr: usize) -> (r: Result<PeSection, Error>)
    requires
        hdr + 40 <= exe_data@.len(),
    ensures
        match r {
            Ok(s) => pe_section_at(exe_data@, image_base, hdr as int) == Ok::<
                SectionView,
                Seq<char>,
            >(s@),
            Err(e) => pe_section_at(exe_data@, image_base, hdr as int) == Err::<
                SectionView,
                Seq<char>,
            >(e@),
        },
{
    assert(exe_data@.len() == exe_data.len());
    let raw_name = text_of_bytes(vstd::slice::slice_subrange(exe_data, hdr, hdr + 8));
    let name = trim_end_char(raw_name.as_str(), '\0');
    let virtual_size: u32 = get_u32(exe_data, hdr + 8);
    let rva: u64 = get_u32(exe_data, hdr + 12) as u64;
    let size_of_raw_data: u64 = get_u32(exe_data, hdr + 16) as u64;
    let ptr_to_raw_data: u64 = get_u32(exe_data, hdr + 20) as u64;
    let characteristics: u32 = get_u32(exe_data, hdr + 36);

    let data = if ptr_to_raw_data == 0 || size_of_raw_data == 0 {
        let empty = copy_extended(exe_data, 0, 0, virtual_size as usize);
        assert(exe_data@.subrange(0, 0) =~= Seq::<u8>::empty());
        empty
    } else {
        let end: u64 = ptr_to_raw_data + size_of_raw_data;
        if end > exe_data.len() as u64 {
            return Err(
                Error::new("section '").text(name.as_str()).text("' raw data out of bounds"),
            );
        }
        copy_extended(exe_data, ptr_to_raw_data as usize, end as usize, virtual_size as usize)
    };
    Ok(
        PeSection {
            name,
            rva,
            va: image_base.wrapping_add(rva),
            virtual_size: virtual_size as u64,
            data,
            characteristics,
        },
    )
}

/// The architecture, image base and sections of a PE file.
pub fn parse_pe_sections(exe_data: &[u8]) -> (r: Result<(PeArch, u64, Vec<PeSection>), Error>)
    ensures
        match r {
            Ok((arch, base, sections)) => pe_sections(exe_data@) == Ok::<
                (PeArch, u64, Seq<SectionView>),
                Seq<char>,
            >((arch, base, views(sections@))),
            Err(e) => pe_sections(exe_data@) == Err::<(PeArch, u64, Seq<SectionView>), Seq<char>>(
                e@,
            ),
        },
{
    let (arch, image_base, table, count) = match parse_pe_header(exe_data) {
        Ok(header) => header,
        Err(e) => {
            return Err(e);
        },
    };
    let mut sections: Vec<PeSection> = Vec::new();
    let mut i: usize = 0;
    assert(views(sections@) =~= Seq::<SectionView>::empty());
    while i < count
        invariant
            i <= count,
            table + count * 40 <= exe_data@.len(),
            pe_header(exe_data@) == Ok::<(PeArch, u64, int, int), Seq<char>>(
                (arch, image_base, table as int, count as int),
            ),
            pe_section_list(exe_data@, image_base, table as int, i as nat) == Ok::<
                Seq<SectionView>,
                Seq<char>,
            >(views(sections@)),
        decreases count - i,
    {
        assert(exe_data@.len() == exe_data.len());
        match parse_pe_section(exe_data, image_base, table + i * 40) {
            Ok(section) => {
                let ghost before = sections@;
                sections.push(section);
                assert(views(sections@) =~= views(before).push(section@));
            },
            Err(e) => {
                proof {
                    lemma_pe_section_list_err(exe_data@, image_base, table as int, i as nat + 1, count as nat);
                }
                return Err(e);
            },
        }
        i += 1;
    }
    Ok((arch, image_base, sections))
}

/// An error in one of the first `m` sections is the error of any longer list.
proof fn lemma_pe_section_list_err(d: Seq<u8>, base: u64, table: int, m: nat, n: nat)
    requires
        m <= n,
        pe_section_list(d, base, table, m) is Err,
    ensures
        pe_section_list(d, base, table, n) == pe_section_list(d, base, table, m),
    decreases n,
{
    if m < n {
        lemma_pe_section_list_err(d, base, table, m, (n - 1) as nat);
    }
}

// ---------------------------------------------------------------------------
// Original Xbox images
// ---------------------------------------------------------------------------

/// The fields of an XBE header that the section table is read by.
pub struct XbeHeader {
    pub base: u64,
    pub size_of_headers: u64,
    pub size_of_image: u64,
    pub count: u64,
    /// File offset of the section table.
    pub table: u64,
}

/// The header of an XBE file, or what is wrong with it.
pub open spec fn xbe_header(d: Seq<u8>) -> Result<XbeHeader, Seq<char>> {
    let base = le32(d, 0x104);
    let size_of_headers = le32(d, 0x108);
    let size_of_image = le32(d, 0x10c);
    let count = le32(d, 0x11c);
    let address = le32(d, 0x120);
    let table = address - base;
    if d.len() < 0x178 {
        Err("file too small for XBE header"@)
    } else if le32(d, 0) != 0x48454258 {
        Err("not an XBE file (no XBEH signature)"@)
    } else if base == 0 {
        Err("XBE has a zero image base"@)
    } else if address < base || address >= base + size_of_headers {
        Err(
            "XBE section headers address "@ + hex_text(address)
                + " is outside the header image"@,
        )
    } else if table + count * 0x38 > d.len() || table + count * 0x38 > size_of_headers {
        Err("XBE section headers are out of bounds"@)
    } else {
        Ok(
            XbeHeader {
                base: base as u64,
                size_of_headers: size_of_headers as u64,
                size_of_image: size_of_image as u64,
                count: count as u64,
                table: table as u64,
            },
        )
    }
}

/// The place of the first zero byte from `from` on, or `limit` where none
/// comes before it.
pub open spec fn cstr_end(d: Seq<u8>, from: int, limit: int) -> int
    decreases limit - from,
{
    if from >= limit || d[from] == 0 {
        from
    } else {
        cstr_end(d, from + 1, limit)
    }
}

/// The zero-terminated text at a virtual address of the header image.
pub open spec fn xbe_cstr(d: Seq<u8>, base: int, size_of_headers: int, address: int) -> Option<
    Seq<char>,
> {
    let off = address - base;
    let limit = if size_of_headers < d.len() {
        size_of_headers
    } else {
        d.len() as int
    };
    if off < 0 || off >= limit {
        None
    } else {
        Some(lossy_text(d.subrange(off, cstr_end(d, off, limit))))
    }
}

/// The name of section `index`: what its header points at, or a name for its
/// flags where that is missing or empty; made unlike those before it.
pub open spec fn xbe_section_name(
    d: Seq<u8>,
    header: XbeHeader,
    before: Seq<SectionView>,
    index: int,
) -> Seq<char> {
    let h = header.table + index * 0x38;
    let flags = le32(d, h) as u32;
    let fallback = if flags & 0x04 != 0 {
        ".text"@
    } else if flags & 0x01 != 0 {
        ".data"@
    } else {
        ".rdata"@
    };
    let name = match xbe_cstr(d, header.base as int, header.size_of_headers as int, le32(d, h + 20)) {
        Some(text) => if text.len() == 0 {
            fallback
        } else {
            text
        },
        None => fallback,
    };
    if first_index(before, named(name)) is Some {
        name + "_"@ + dec_text(index)
    } else {
        name
    }
}

/// PE-style characteristics for XBE section flags, which stay in the low bits.
pub open spec fn xbe_characteristics(flags: u32, raw_size: int) -> u32 {
    let code = if flags & 0x04 != 0 {
        flags | (0x0000_0020u32 | 0x2000_0000u32)
    } else {
        flags
    };
    let writable = if flags & 0x01 != 0 {
        code | (0x4000_0000u32 | 0x8000_0000u32)
    } else {
        code
    };
    if raw_size == 0 {
        writable | 0x0000_0080u32
    } else {
        writable
    }
}

/// Section `index` of an XBE file, behind the sections `before`.
pub open spec fn xbe_section(
    d: Seq<u8>,
    header: XbeHeader,
    before: Seq<SectionView>,
    index: int,
) -> Result<SectionView, Seq<char>> {
    let h = header.table + index * 0x38;
    let flags = le32(d, h) as u32;
    let va = le32(d, h + 4);
    let virtual_size = le32(d, h + 8);
    let raw = le32(d, h + 12);
    let raw_size = le32(d, h + 16);
    let here = "XBE section "@ + dec_text(index);
    if header.size_of_image != 0 && (va < header.base || va + virtual_size > header.base
        + header.size_of_image) {
        Err(
            here + " virtual range "@ + hex_text(va) + ".."@ + hex_text(va + virtual_size)
                + " is outside the image"@,
        )
    } else if raw + raw_size > d.len() {
        Err(here + " raw data is out of bounds"@)
    } else if va < header.base {
        Err(here + " virtual address precedes image base"@)
    } else {
        Ok(
            SectionView {
                name: xbe_section_name(d, header, before, index),
                rva: (va - header.base) as u64,
                va: va as u64,
                virtual_size: virtual_size as u64,
                data: zero_extend(d.subrange(raw, raw + raw_size), virtual_size),
                characteristics: xbe_characteristics(flags, raw_size),
            },
        )
    }
}

/// The first `n` sections of an XBE file.
pub open spec fn xbe_section_list(d: Seq<u8>, header: XbeHeader, n: nat) -> Result<
    Seq<SectionView>,
    Seq<char>,
>
    decreases n,
{
    if n == 0 {
        Ok(Seq::empty())
    } else {
        match xbe_section_list(d, header, (n - 1) as nat) {
            Err(e) => Err(e),
            Ok(before) => match xbe_section(d, header, before, n - 1) {
                Err(e) => Err(e),
                Ok(section) => Ok(before.push(section)),
            },
        }
    }
}

/// The image base and sections of an XBE file.
pub open spec fn xbe_image(d: Seq<u8>) -> Result<(u64, Seq<SectionView>), Seq<char>> {
    match xbe_header(d) {
        Err(e) => Err(e),
        Ok(header) => match xbe_section_list(d, header, header.count as nat) {
            Err(e) => Err(e),
            Ok(sections) => Ok((header.base, sections)),
        },
    }
}

/// The 32-bit field at `offset`, or an error that names it.
pub fn read_u32(data: &[u8], offset: usize, field: &str) -> (r: Result<u32, Error>)
    ensures
        match r {
            Ok(v) => offset + 4 <= data@.len() && v == le32(data@, offset as int),
            Err(e) => offset + 4 > data@.len() && e@ == field@ + " is out of bounds"@,
        },
{
    if data.len() < 4 || offset > data.len() - 4 {
        return Err(Error::new(field).text(" is out of bounds"));
    }
    Ok(get_u32(data, offset))
}

fn find_nul(d: &[u8], from: usize, limit: usize) -> (r: usize)
    requires
        from <= limit <= d@.len(),
    ensures
        r == cstr_end(d@, from as int, limit as int),
        from <= r <= limit,
{
    let mut i: usize = from;
    while i < limit && d[i] != 0
        invariant
            from <= i <= limit <= d@.len(),
            cstr_end(d@, from as int, limit as int) == cstr_end(d@, i as int, limit as int),
        decreases limit - i,
    {
        i += 1;
    }
    i
}

/// Read an XBE virtual-addressed C string from the header image. Section
/// names are normally stored in the header area; keeping this helper limited
/// to that area avoids accidentally interpreting an invalid name pointer as a
/// section's code or data.
pub fn xbe_cstr_at_virtual(
    data: &[u8],
    image_base: u64,
    size_of_headers: u64,
    address: u64,
) -> (r: Option<String>)
    ensures
        opt_text(r) == xbe_cstr(
            data@,
            image_base as int,
            size_of_headers as int,
            address as int,
        ),
{
    if address < image_base {
        return None;
    }
    let total: u64 = data.len() as u64;
    let limit: u64 = if size_of_headers < total {
        size_of_headers
    } else {
        total
    };
    let offset: u64 = address - image_base;
    if offset >= limit {
        return None;
    }
    let end: usize = find_nul(data, offset as usize, limit as usize);
    Some(text_of_bytes(vstd::slice::slice_subrange(data, offset as usize, end)))
}

fn parse_xbe_header(data: &[u8]) -> (r: Result<XbeHeader, Error>)
    ensures
        match r {
            Ok(h) => {
                &&& xbe_header(data@) == Ok::<XbeHeader, Seq<char>>(h)
                &&& h.table + h.count * 0x38 <= data@.len()
                &&& h.count <= u32::MAX
                &&& h.base <= u32::MAX
                &&& h.size_of_image <= u32::MAX
            },
            Err(e) => xbe_header(data@) == Err::<XbeHeader, Seq<char>>(e@),
        },
{
    if data.len() < 0x178 {
        return Err(Error::new("file too small for XBE header"));
    }
    if get_u32(data, 0) != 0x48454258 {
        return Err(Error::new("not an XBE file (no XBEH signature)"));
    }
    // All addresses in the header are virtual addresses; section raw
    // addresses are file offsets.
    let base: u64 = match read_u32(data, 0x104, "XBE base address") {
        Ok(v) => v as u64,
        Err(e) => {
            return Err(e);
        },
    };
    let size_of_headers: u64 = match read_u32(data, 0x108, "XBE header size") {
        Ok(v) => v as u64,
        Err(e) => {
            return Err(e);
        },
    };
    let size_of_image: u64 = match read_u32(data, 0x10c, "XBE image size") {
        Ok(v) => v as u64,
        Err(e) => {
            return Err(e);
        },
    };
    let count: u64 = match read_u32(data, 0x11c, "XBE section count") {
        Ok(v) => v as u64,
        Err(e) => {
            return Err(e);
        },
    };
    let address: u64 = match read_u32(data, 0x120, "XBE section headers address") {
        Ok(v) => v as u64,
        Err(e) => {
            return Err(e);
        },
    };
    if base == 0 {
        return Err(Error::new("XBE has a zero image base"));
    }
    if address < base || address >= base + size_of_headers {
        return Err(
            Error::new("XBE section headers address ").hex(address).text(
                " is outside the header image",
            ),
        );
    }
    let table: u64 = address - base;
    let end: u64 = table + count * 0x38;
    if end > data.len() as u64 || end > size_of_headers {
        return Err(Error::new("XBE section headers are out of bounds"));
    }
    Ok(XbeHeader { base, size_of_headers, size_of_image, count, table })
}

fn name_taken(sections: &Vec<PeSection>, name: &String) -> (r: bool)
    ensures
        r == (first_index(views(sections@), named(name@)) is Some),
{
    let ghost v = views(sections@);
    let mut i: usize = 0;
    while i < sections.len()
        invariant
            i <= sections@.len(),
            v == views(sections@),
            forall|j: int| 0 <= j < i ==> !named(name@)(#[trigger] v[j]),
        decreases sections@.len() - i,
    {
        if sections[i].name == *name {
            proof {
                lemma_first_index_is(v, named(name@), i as int);
            }
            return true;
        }
        i += 1;
    }
    proof {
        lemma_first_index_none(v, named(name@));
    }
    false
}

fn choose_xbe_name(
    data: &[u8],
    header: &XbeHeader,
    sections: &Vec<PeSection>,
    index: u64,
    offset: usize,
) -> (r: String)
    requires
        offset == header.table + index * 0x38,
        offset + 0x38 <= data@.len(),
    ensures
        r@ == xbe_section_name(data@, *header, views(sections@), index as int),
{
    assert(data@.len() == data.len());
    let flags: u32 = get_u32(data, offset);
    let name_addr: u64 = get_u32(data, offset + 20) as u64;
    let fallback = if flags & 0x04 != 0 {
        ".text"
    } else if flags & 0x01 != 0 {
        ".data"
    } else {
        ".rdata"
    };
    let stored = xbe_cstr_at_virtual(data, header.base, header.size_of_headers, name_addr);
    let name = match stored {
        Some(text) => if text.as_str().unicode_len() == 0 {
            fallback.to_owned()
        } else {
            text
        },
        None => fallback.to_owned(),
    };
    if name_taken(sections, &name) {
        let digits = format_digits(index, 10, false);
        name.concat("_").concat(digits.as_str())
    } else {
        name
    }
}

fn parse_xbe_section(
    data: &[u8],
    header: &XbeHeader,
    sections: &Vec<PeSection>,
    index: u64,
) -> (r: Result<PeSection, Error>)
    requires
        header.table + index * 0x38 + 0x38 <= data@.len(),
        header.base <= u32::MAX,
        header.size_of_image <= u32::MAX,
    ensures
        match r {
            Ok(s) => xbe_section(data@, *header, views(sections@), index as int) == Ok::<
                SectionView,
                Seq<char>,
            >(s@),
            Err(e) => xbe_section(data@, *header, views(sections@), index as int) == Err::<
                SectionView,
                Seq<char>,
            >(e@),
        },
{
    assert(data@.len() == data.len());
    let offset: usize = (header.table + index * 0x38) as usize;
    let flags: u32 = get_u32(data, offset);
    let va: u64 = get_u32(data, offset + 4) as u64;
    let virtual_size: u32 = get_u32(data, offset + 8);
    let raw_address: u64 = get_u32(data, offset + 12) as u64;
    let raw_size: u64 = get_u32(data, offset + 16) as u64;

    let section_end: u64 = va + virtual_size as u64;
    if header.size_of_image != 0 {
        let image_end: u64 = header.base + header.size_of_image;
        if va < header.base || section_end > image_end {
            return Err(
                Error::new("XBE section ").dec(index).text(" virtual range ").hex(va).text("..").hex(
                    section_end,
                ).text(" is outside the image"),
            );
        }
    }
    let raw_end: u64 = raw_address + raw_size;
    if raw_end > data.len() as u64 {
        return Err(Error::new("XBE section ").dec(index).text(" raw data is out of bounds"));
    }
    let bytes = copy_extended(
        data,
        raw_address as usize,
        raw_end as usize,
        virtual_size as usize,
    );
    let name = choose_xbe_name(data, header, sections, index, offset);

    // Keep PE-style characteristics for callers that inspect them, while
    // retaining the original XBE flags in the low bits.
    let mut characteristics: u32 = flags;
    if flags & 0x04 != 0 {
        characteristics = characteristics | (0x0000_0020u32 | 0x2000_0000u32);
    }
    if flags & 0x01 != 0 {
        characteristics = characteristics | (0x4000_0000u32 | 0x8000_0000u32);
    }
    if raw_size == 0 {
        characteristics = characteristics | 0x0000_0080u32;
    }
    if va < header.base {
        return Err(
            Error::new("XBE section ").dec(index).text(" virtual address precedes image base"),
        );
    }
    Ok(
        PeSection {
            name,
            rva: va - header.base,
            va,
            virtual_size: virtual_size as u64,
            data: bytes,
            characteristics,
        },
    )
}

/// An error in one of the first `m` sections is the error of any longer list.
proof fn lemma_xbe_section_list_err(d: Seq<u8>, header: XbeHeader, m: nat, n: nat)
    requires
        m <= n,
        xbe_section_list(d, header, m) is Err,
    ensures
        xbe_section_list(d, header, n) == xbe_section_list(d, header, m),
    decreases n,
{
    if m < n {
        lemma_xbe_section_list_err(d, header, m, (n - 1) as nat);
    }
}

/// Parse an original Xbox executable into the image representation used by the
/// IDA importer.
///
/// XBE is not a PE file on disk: it has its own header and section table, but
/// the section contents are still mapped into a 32-bit x86 address space. An
/// XBE has no PE base-relocation directory, so absolute relocations are
/// supplied by IDA's fixup export instead.
pub fn load_xbe_image(xbe_data: &[u8]) -> (r: Result<PeImage, Error>)
    ensures
        match r {
            Ok(image) => {
                &&& xbe_image(xbe_data@) == Ok::<(u64, Seq<SectionView>), Seq<char>>(
                    (image.image_base, image.spec_sections()),
                )
                &&& image.arch == PeArch::X86
                &&& image.base_relocations@ == Seq::<BaseReloc>::empty()
            },
            Err(e) => xbe_image(xbe_data@) == Err::<(u64, Seq<SectionView>), Seq<char>>(e@),
        },
{
    let header = match parse_xbe_header(xbe_data) {
        Ok(header) => header,
        Err(e) => {
            return Err(e);
        },
    };
    let mut sections: Vec<PeSection> = Vec::new();
    let mut index: u64 = 0;
    assert(views(sections@) =~= Seq::<SectionView>::empty());
    while index < header.count
        invariant
            index <= header.count <= u32::MAX,
            header.base <= u32::MAX,
            header.size_of_image <= u32::MAX,
            header.table + header.count * 0x38 <= xbe_data@.len(),
            xbe_header(xbe_data@) == Ok::<XbeHeader, Seq<char>>(header),
            xbe_section_list(xbe_data@, header, index as nat) == Ok::<
                Seq<SectionView>,
                Seq<char>,
            >(views(sections@)),
        decreases header.count - index,
    {
        match parse_xbe_section(xbe_data, &header, &sections, index) {
            Ok(section) => {
                let ghost before = sections@;
                sections.push(section);
                assert(views(sections@) =~= views(before).push(section@));
            },
            Err(e) => {
                proof {
                    lemma_xbe_section_list_err(
                        xbe_data@,
                        header,
                        index as nat + 1,
                        header.count as nat,
                    );
                }
                return Err(e);
            },
        }
        index += 1;
    }
    Ok(
        PeImage {
            arch: PeArch::X86,
            image_base: header.base,
            sections,
            base_relocations: Vec::new(),
        },
    )
}

// ---------------------------------------------------------------------------
// Base relocations (.reloc section)
// ---------------------------------------------------------------------------

pub open spec fn reloc_kind(code: int) -> BaseRelocKind {
    if code == 3 {
        BaseRelocKind::HighLow
    } else if code == 10 {
        BaseRelocKind::Dir64
    } else {
        BaseRelocKind::Other(code as u8)
    }
}

/// The relocations of one block's 16-bit entries from `from` up to `to`: the
/// high four bits are the kind, the low twelve the offset in the page. Entries
/// of kind zero are padding.
pub open spec fn reloc_entries(d: Seq<u8>, from: int, to: int, page: int, base: int) -> Seq<
    BaseReloc,
>
    decreases to - from,
{
    if from + 2 > to {
        Seq::empty()
    } else {
        let entry = le16(d, from);
        let rest = reloc_entries(d, from + 2, to, page, base);
        if entry / 0x1000 == 0 {
            rest
        } else {
            seq![
                BaseReloc {
                    va: wrap64(base + page + entry % 0x1000) as u64,
                    kind: reloc_kind(entry / 0x1000),
                },
            ] + rest
        }
    }
}

/// The relocations of the blocks from `off` on, each of which begins with its
/// page and its size; a block that does not fit ends the table.
pub open spec fn reloc_blocks(d: Seq<u8>, off: int, base: int) -> Seq<BaseReloc>
    decreases d.len() - off,
{
    let size = le32(d, off + 4);
    if off + 8 > d.len() || size < 8 || off + size > d.len() {
        Seq::empty()
    } else {
        reloc_entries(d, off + 8, off + size, le32(d, off), base) + reloc_blocks(
            d,
            off + size,
            base,
        )
    }
}

/// The base relocations of an image, from its `.reloc` section.
pub open spec fn base_relocs(sections: Seq<SectionView>, base: u64) -> Seq<BaseReloc> {
    match first(sections, named(".reloc"@)) {
        Some(s) => reloc_blocks(s.data, 0, base as int),
        None => Seq::empty(),
    }
}

fn find_named<'a>(sections: &'a Vec<PeSection>, name: &str) -> (r: Option<&'a PeSection>)
    ensures
        opt_section(r) == first(views(sections@), named(name@)),
{
    let ghost v = views(sections@);
    let mut i: usize = 0;
    while i < sections.len()
        invariant
            i <= sections@.len(),
            v == views(sections@),
            forall|j: int| 0 <= j < i ==> !named(name@)(#[trigger] v[j]),
        decreases sections@.len() - i,
    {
        if same_text(sections[i].name.as_str(), name) {
            proof {
                lemma_first_index_is(v, named(name@), i as int);
            }
            return Some(&sections[i]);
        }
        i += 1;
    }
    proof {
        lemma_first_index_none(v, named(name@));
    }
    None
}

fn push_reloc_entries(
    relocs: &mut Vec<BaseReloc>,
    data: &[u8],
    from: usize,
    to: usize,
    page_rva: u64,
    image_base: u64,
)
    requires
        from <= to <= data@.len(),
        page_rva <= u32::MAX,
    ensures
        final(relocs)@ == old(relocs)@ + reloc_entries(
            data@,
            from as int,
            to as int,
            page_rva as int,
            image_base as int,
        ),
{
    let ghost start = relocs@;
    let ghost all = reloc_entries(data@, from as int, to as int, page_rva as int, image_base as int);
    let mut at: usize = from;
    while to - at >= 2
        invariant
            from <= at <= to <= data@.len(),
            page_rva <= u32::MAX,
            start + all == relocs@ + reloc_entries(
                data@,
                at as int,
                to as int,
                page_rva as int,
                image_base as int,
            ),
        decreases to - at,
    {
        let type_offset: u16 = get_u16(data, at);
        let reloc_type: u16 = type_offset / 0x1000;
        let page_offset: u64 = (type_offset % 0x1000) as u64;
        let ghost rest = reloc_entries(
            data@,
            at + 2,
            to as int,
            page_rva as int,
            image_base as int,
        );
        let ghost before = relocs@;
        // Padding entries have type 0 = IMAGE_REL_BASED_ABSOLUTE.
        if reloc_type != 0 {
            let kind = match reloc_type {
                3 => BaseRelocKind::HighLow,
                10 => BaseRelocKind::Dir64,
                _ => BaseRelocKind::Other(reloc_type as u8),
            };
            let va: u64 = image_base.wrapping_add(page_rva + page_offset);
            let reloc = BaseReloc { va, kind };
            relocs.push(reloc);
            assert(before + (seq![reloc] + rest) =~= relocs@ + rest);
        }
        at += 2;
    }
    assert(relocs@ =~= start + all);
}

/// The base relocations of an image, from its `.reloc` section.
pub fn parse_base_relocations(sections: &Vec<PeSection>, image_base: u64) -> (r: Vec<BaseReloc>)
    ensures
        r@ == base_relocs(views(sections@), image_base),
{
    let mut relocs: Vec<BaseReloc> = Vec::new();
    let data = match find_named(sections, ".reloc") {
        Some(section) => section.data.as_slice(),
        None => {
            return relocs;
        },
    };
    let mut offset: usize = 0;
    let ghost all = reloc_blocks(data@, 0, image_base as int);
    assert(relocs@ + all =~= all);
    while data.len() - offset >= 8
        invariant_except_break
            offset <= data@.len(),
            all == relocs@ + reloc_blocks(data@, offset as int, image_base as int),
        ensures
            all == relocs@,
        decreases data@.len() - offset,
    {
        let page_rva: u64 = get_u32(data, offset) as u64;
        let block_size: usize = get_u32(data, offset + 4) as usize;
        if block_size < 8 || block_size > data.len() - offset {
            assert(relocs@ =~= all);
            break;
        }
        let entries_end: usize = offset + block_size;
        let ghost before = relocs@;
        push_reloc_entries(&mut relocs, data, offset + 8, entries_end, page_rva, image_base);
        proof {
            crate::bytes::lemma_concat_assoc(
                before,
                reloc_entries(
                    data@,
                    offset + 8,
                    entries_end as int,
                    page_rva as int,
                    image_base as int,
                ),
                reloc_blocks(data@, entries_end as int, image_base as int),
            );
        }
        offset = entries_end;
    }
    relocs
}

// ---------------------------------------------------------------------------
// RVA helpers
// ---------------------------------------------------------------------------

/// Sections whose virtual range holds the `len` bytes at `rva`.
pub open spec fn spans_rva(rva: int, len: int) -> spec_fn(SectionView) -> bool {
    |s: SectionView| s.rva <= rva && rva + len <= s.rva + s.virtual_size
}

/// The `len` bytes at `rva`, from the first section whose virtual range holds
/// them.
pub open spec fn rva_bytes(sections: Seq<SectionView>, rva: int, len: int) -> Option<Seq<u8>> {
    match first(sections, spans_rva(rva, len)) {
        Some(s) => s.bytes_at_rva(rva, len),
        None => None,
    }
}

/// The zero-terminated text at `rva`, cut off at the end of its section.
pub open spec fn rva_text(sections: Seq<SectionView>, rva: int) -> Option<Seq<char>> {
    match first(sections, spans_rva(rva, 1)) {
        Some(s) => {
            let off = rva - s.rva;
            let len = s.data.len() as int;
            Some(lossy_text(s.data.subrange(off, cstr_end(s.data, off, len))))
        },
        None => None,
    }
}

pub(crate) fn rva_slice(sections: &Vec<PeSection>, rva: u64, len: usize) -> (r: Option<&[u8]>)
    requires
        sections_wf(views(sections@)),
    ensures
        opt_bytes(r) == rva_bytes(views(sections@), rva as int, len as int),
        r is Some ==> rva + len <= u64::MAX,
{
    let ghost v = views(sections@);
    let ghost p = spans_rva(rva as int, len as int);
    let mut i: usize = 0;
    while i < sections.len()
        invariant
            i <= sections@.len(),
            v == views(sections@),
            sections_wf(v),
            p == spans_rva(rva as int, len as int),
            forall|j: int| 0 <= j < i ==> !p(#[trigger] v[j]),
        decreases sections@.len() - i,
    {
        let s = &sections[i];
        assert(s@ == v[i as int]);
        if rva >= s.rva {
            let off: u64 = rva - s.rva;
            if off <= s.virtual_size && len as u64 <= s.virtual_size - off {
                proof {
                    lemma_first_index_is(v, p, i as int);
                }
                return s.data_at_rva(rva, len);
            }
        }
        i += 1;
    }
    proof {
        lemma_first_index_none(v, p);
    }
    None
}

pub(crate) fn rva_cstr(sections: &Vec<PeSection>, rva: u64) -> (r: Option<String>)
    requires
        sections_wf(views(sections@)),
    ensures
        opt_text(r) == rva_text(views(sections@), rva as int),
{
    let ghost v = views(sections@);
    let ghost p = spans_rva(rva as int, 1);
    let mut i: usize = 0;
    while i < sections.len()
        invariant
            i <= sections@.len(),
            v == views(sections@),
            sections_wf(v),
            p == spans_rva(rva as int, 1),
            forall|j: int| 0 <= j < i ==> !p(#[trigger] v[j]),
        decreases sections@.len() - i,
    {
        let s = &sections[i];
        assert(s@ == v[i as int]);
        if rva >= s.rva && rva - s.rva < s.virtual_size {
            proof {
                lemma_first_index_is(v, p, i as int);
            }
            let data = s.data.as_slice();
            let off: usize = (rva - s.rva) as usize;
            let end: usize = find_nul(data, off, data.len());
            return Some(text_of_bytes(vstd::slice::slice_subrange(data, off, end)));
        }
        i += 1;
    }
    proof {
        lemma_first_index_none(v, p);
    }
    None
}

// ---------------------------------------------------------------------------
// Import table (IAT) parsing
// ---------------------------------------------------------------------------

/// Width in bytes of a thunk entry.
pub open spec fn thunk_width(arch: PeArch) -> int {
    match arch {
        PeArch::X86_64 => 8,
        PeArch::X86 => 4,
    }
}

/// The value of a thunk entry.
pub open spec fn thunk_value(arch: PeArch, entry: Seq<u8>) -> int {
    match arch {
        PeArch::X86_64 => le64(entry, 0),
        PeArch::X86 => le32(entry, 0),
    }
}

/// The bit that marks an import by ordinal: the highest of the entry.
pub open spec fn ordinal_flag(arch: PeArch) -> int {
    match arch {
        PeArch::X86_64 => 0x8000_0000_0000_0000,
        PeArch::X86 => 0x8000_0000,
    }
}

pub open spec fn text_or_empty(text: Option<Seq<char>>) -> Seq<char> {
    match text {
        Some(t) => t,
        None => Seq::empty(),
    }
}

/// What a thunk imports: the name behind a two-byte hint, or the library's name
/// with the ordinal.
pub open spec fn import_name(
    sections: Seq<SectionView>,
    arch: PeArch,
    library: int,
    thunk: int,
) -> Seq<char> {
    if thunk >= ordinal_flag(arch) {
        text_or_empty(rva_text(sections, library)) + "#"@ + dec_text(thunk % 0x1_0000)
    } else {
        text_or_empty(rva_text(sections, thunk + 2))
    }
}

/// `acc` with the imports of the thunks from `at` on, up to the first that is
/// zero or outside the sections; the import of each goes to its slot.
pub open spec fn thunk_imports(
    sections: Seq<SectionView>,
    arch: PeArch,
    library: int,
    at: int,
    slot: int,
    acc: Map<u64, Seq<char>>,
) -> Map<u64, Seq<char>>
    decreases 0x2_0000_0000_0000_0000int - at,
{
    let w = thunk_width(arch);
    match rva_bytes(sections, at, w) {
        None => acc,
        Some(entry) => {
            let thunk = thunk_value(arch, entry);
            if thunk == 0 {
                acc
            } else {
                proof {
                    crate::seqs::lemma_first_index(sections, spans_rva(at, w));
                }
                let name = import_name(sections, arch, library, thunk);
                let next = if name.len() == 0 {
                    acc
                } else {
                    acc.insert(wrap64(slot) as u64, "__imp_"@ + name)
                };
                thunk_imports(sections, arch, library, at + w, slot + w, next)
            }
        },
    }
}

/// `acc` with the imports of the descriptors from `at` on, up to the first that
/// names no thunks or is outside the sections.
pub open spec fn descriptor_imports(
    sections: Seq<SectionView>,
    arch: PeArch,
    base: int,
    at: int,
    acc: Map<u64, Seq<char>>,
) -> Map<u64, Seq<char>>
    decreases 0x2_0000_0000_0000_0000int - at,
{
    match rva_bytes(sections, at, 20) {
        None => acc,
        Some(desc) => {
            let original = le32(desc, 0);
            let library = le32(desc, 12);
            let first_thunk = le32(desc, 16);
            let hints = if original != 0 {
                original
            } else {
                first_thunk
            };
            if original == 0 && first_thunk == 0 {
                acc
            } else {
                proof {
                    crate::seqs::lemma_first_index(sections, spans_rva(at, 20));
                }
                let next = thunk_imports(
                    sections,
                    arch,
                    library,
                    hints,
                    base + first_thunk,
                    acc,
                );
                descriptor_imports(sections, arch, base, at + 20, next)
            }
        },
    }
}

/// The import table of a PE file: import-address slot to symbol name.
pub open spec fn import_table(
    d: Seq<u8>,
    sections: Seq<SectionView>,
    base: u64,
    arch: PeArch,
) -> Map<u64, Seq<char>> {
    let directory = le32(d, 0x3c) + 24 + match arch {
        PeArch::X86_64 => 120int,
        PeArch::X86 => 104int,
    };
    if d.len() < 0x40 || directory + 8 > d.len() || le32(d, directory) == 0 {
        Map::empty()
    } else {
        descriptor_imports(sections, arch, base as int, le32(d, directory), Map::empty())
    }
}

/// The texts of a map of strings.
pub open spec fn text_map(m: Map<u64, String>) -> Map<u64, Seq<char>> {
    m.map_values(|s: String| s@)
}

fn or_empty(text: Option<String>) -> (r: String)
    ensures
        r@ == text_or_empty(opt_text(text)),
{
    match text {
        Some(t) => t,
        None => String::new(),
    }
}

fn name_of_import(sections: &Vec<PeSection>, arch: PeArch, library: u64, thunk: u64) -> (r: String)
    requires
        sections_wf(views(sections@)),
    ensures
        r@ == import_name(views(sections@), arch, library as int, thunk as int),
{
    let flag: u64 = match arch {
        PeArch::X86_64 => 0x8000_0000_0000_0000,
        PeArch::X86 => 0x8000_0000,
    };
    if thunk >= flag {
        let dll = or_empty(rva_cstr(sections, library));
        let ordinal = format_digits(thunk % 0x1_0000, 10, false);
        dll.concat("#").concat(ordinal.as_str())
    } else {
        // IMAGE_IMPORT_BY_NAME: 2-byte hint + name string.
        or_empty(rva_cstr(sections, thunk + 2))
    }
}

fn add_thunks(
    map: &mut HashMap<u64, String>,
    sections: &Vec<PeSection>,
    arch: PeArch,
    library: u64,
    hint_rva: u64,
    first_slot: u64,
)
    requires
        sections_wf(views(sections@)),
    ensures
        text_map(final(map)@) == thunk_imports(
            views(sections@),
            arch,
            library as int,
            hint_rva as int,
            first_slot as int,
            text_map(old(map)@),
        ),
{
    let width: u64 = match arch {
        PeArch::X86_64 => 8,
        PeArch::X86 => 4,
    };
    let ghost v = views(sections@);
    let ghost all = thunk_imports(
        v,
        arch,
        library as int,
        hint_rva as int,
        first_slot as int,
        text_map(map@),
    );
    let mut at: u64 = hint_rva;
    let mut slot: u64 = first_slot;
    let ghost mut high: int = first_slot as int;
    loop
        invariant_except_break
            v == views(sections@),
            sections_wf(v),
            width == thunk_width(arch),
            wrap64(high) == slot,
            all == thunk_imports(v, arch, library as int, at as int, high, text_map(map@)),
        ensures
            all == text_map(map@),
        decreases u64::MAX - at,
    {
        broadcast use vstd::std_specs::hash::group_hash_axioms;

        let entry = match rva_slice(sections, at, width as usize) {
            Some(entry) => entry,
            None => {
                break;
            },
        };
        proof {
            lemma_rva_bytes_len(v, at as int, width as int);
        }
        let thunk: u64 = match arch {
            PeArch::X86_64 => get_u64(entry, 0),
            PeArch::X86 => get_u32(entry, 0) as u64,
        };
        if thunk == 0 {
            break;
        }
        let name = name_of_import(sections, arch, library, thunk);
        if name.as_str().unicode_len() != 0 {
            let ghost before = map@;
            let symbol = "__imp_".to_owned().concat(name.as_str());
            map.insert(slot, symbol);
            assert(text_map(map@) =~= text_map(before).insert(slot, symbol@));
        }
        at += width;
        slot = slot.wrapping_add(width);
        proof {
            high = high + width;
        }
    }
}

/// Bytes found at an address are as many as were asked for.
proof fn lemma_rva_bytes_len(sections: Seq<SectionView>, rva: int, len: int)
    requires
        len >= 0,
    ensures
        rva_bytes(sections, rva, len) matches Some(b) ==> b.len() == len,
{
}

/// The import table of a PE file. An image whose table cannot be read has no
/// imports.
pub fn parse_imports(
    exe_data: &[u8],
    sections: &Vec<PeSection>,
    image_base: u64,
    arch: PeArch,
) -> (r: HashMap<u64, String>)
    requires
        sections_wf(views(sections@)),
    ensures
        text_map(r@) == import_table(exe_data@, views(sections@), image_base, arch),
{
    broadcast use vstd::std_specs::hash::group_hash_axioms;

    let mut map: HashMap<u64, String> = HashMap::new();
    assert(text_map(map@) =~= Map::<u64, Seq<char>>::empty());
    let total: u64 = exe_data.len() as u64;
    if total < 0x40 {
        return map;
    }
    let opt_off: u64 = get_u32(exe_data, 0x3c) as u64 + 24;
    // DataDirectory[1] of the optional header: PE32 at 104, PE32+ at 120.
    let import_dir_off: u64 = match arch {
        PeArch::X86_64 => opt_off + 120,
        PeArch::X86 => opt_off + 104,
    };
    if import_dir_off + 8 > total {
        return map;
    }
    let import_rva: u32 = get_u32(exe_data, import_dir_off as usize);
    if import_rva == 0 {
        return map;
    }
    let ghost v = views(sections@);
    let ghost all = descriptor_imports(v, arch, image_base as int, import_rva as int, text_map(map@));
    let mut desc_rva: u64 = import_rva as u64;
    loop
        invariant_except_break
            v == views(sections@),
            sections_wf(v),
            all == descriptor_imports(v, arch, image_base as int, desc_rva as int, text_map(map@)),
        ensures
            all == text_map(map@),
        decreases u64::MAX - desc_rva,
    {
        // IMAGE_IMPORT_DESCRIPTOR is 20 bytes.
        let desc = match rva_slice(sections, desc_rva, 20) {
            Some(desc) => desc,
            None => {
                break;
            },
        };
        proof {
            lemma_rva_bytes_len(v, desc_rva as int, 20);
        }
        let original_first_thunk: u64 = get_u32(desc, 0) as u64;
        let name_rva: u64 = get_u32(desc, 12) as u64;
        let first_thunk: u64 = get_u32(desc, 16) as u64;
        if original_first_thunk == 0 && first_thunk == 0 {
            break;
        }
        let hint_rva: u64 = if original_first_thunk != 0 {
            original_first_thunk
        } else {
            first_thunk
        };
        let slot: u64 = image_base.wrapping_add(first_thunk);
        proof {
            lemma_thunk_slots_wrap(
                v,
                arch,
                name_rva as int,
                hint_rva as int,
                image_base + first_thunk,
                slot as int,
                text_map(map@),
            );
        }
        add_thunks(&mut map, sections, arch, name_rva, hint_rva, slot);
        desc_rva += 20;
    }
    map
}

/// Slots that are equal in 64 bits take the same imports.
proof fn lemma_thunk_slots_wrap(
    sections: Seq<SectionView>,
    arch: PeArch,
    library: int,
    at: int,
    slot1: int,
    slot2: int,
    acc: Map<u64, Seq<char>>,
)
    requires
        wrap64(slot1) == wrap64(slot2),
    ensures
        thunk_imports(sections, arch, library, at, slot1, acc) == thunk_imports(
            sections,
            arch,
            library,
            at,
            slot2,
            acc,
        ),
    decreases 0x2_0000_0000_0000_0000int - at,
{
    let w = thunk_width(arch);
    if let Some(entry) = rva_bytes(sections, at, w) {
        let thunk = thunk_value(arch, entry);
        if thunk != 0 {
            crate::seqs::lemma_first_index(sections, spans_rva(at, w));
            let name = import_name(sections, arch, library, thunk);
            let next = if name.len() == 0 {
                acc
            } else {
                acc.insert(wrap64(slot1) as u64, "__imp_"@ + name)
            };
            lemma_thunk_slots_wrap(sections, arch, library, at + w, slot1 + w, slot2 + w, next);
        }
    }
}

// ---------------------------------------------------------------------------
// Whole images
// ---------------------------------------------------------------------------

/// Parse a PE executable or original Xbox XBE without a PDB: sections + image
/// base + base relocations. XBE images have an empty base-relocation list.
pub fn load_pe_image(exe_data: &[u8]) -> (r: Result<PeImage, Error>)
    ensures
        match r {
            Ok(image) => loaded_image(exe_data@) == Ok::<ImageView, Seq<char>>(image@),
            Err(e) => loaded_image(exe_data@) == Err::<ImageView, Seq<char>>(e@),
        },
        r matches Ok(image) ==> image.wf(),
{
    proof {
        lemma_loaded_sections_wf(exe_data@);
    }
    if exe_data.len() >= 4 && get_u32(exe_data, 0) == 0x48454258 {
        return load_xbe_image(exe_data);
    }
    match parse_pe_sections(exe_data) {
        Ok((arch, image_base, sections)) => {
            let base_relocations = parse_base_relocations(&sections, image_base);
            Ok(PeImage { arch, image_base, sections, base_relocations })
        },
        Err(e) => Err(e),
    }
}

/// What an image holds.
#[verifier::ext_equal]
pub struct ImageView {
    pub arch: PeArch,
    pub image_base: u64,
    pub sections: Seq<SectionView>,
    pub base_relocations: Seq<BaseReloc>,
}

impl View for PeImage {
    type V = ImageView;

    open spec fn view(&self) -> ImageView {
        ImageView {
            arch: self.arch,
            image_base: self.image_base,
            sections: self.spec_sections(),
            base_relocations: self.base_relocations@,
        }
    }
}

/// Whether a file begins with the XBE signature.
pub open spec fn is_xbe(d: Seq<u8>) -> bool {
    d.len() >= 4 && le32(d, 0) == 0x48454258
}

/// The image of a PE or XBE file.
pub open spec fn loaded_image(d: Seq<u8>) -> Result<ImageView, Seq<char>> {
    if is_xbe(d) {
        match xbe_image(d) {
            Err(e) => Err(e),
            Ok((image_base, sections)) => Ok(
                ImageView {
                    arch: PeArch::X86,
                    image_base,
                    sections,
                    base_relocations: Seq::empty(),
                },
            ),
        }
    } else {
        match pe_sections(d) {
            Err(e) => Err(e),
            Ok((arch, image_base, sections)) => Ok(
                ImageView {
                    arch,
                    image_base,
                    sections,
                    base_relocations: base_relocs(sections, image_base),
                },
            ),
        }
    }
}

/// All parsed data from a PE + PDB pair: `C` indexes the compilation units and
/// `S` resolves global symbols.
pub struct PeContext<C, S> {
    pub arch: PeArch,
    pub image_base: u64,
    pub sections: Vec<PeSection>,
    pub cu_index: C,
    pub symbols: S,
    /// Base relocations from `.reloc`: one entry per embedded absolute pointer.
    pub base_relocations: Vec<BaseReloc>,
    /// IAT slot VA to `"__imp_funcname"` symbol name.
    pub imports: HashMap<u64, String>,
    /// Mangled names of procedures the PDB marks as declared inline
    /// (`S_FRAMEPROC` `fInlSpec`), sorted and de-duplicated.
    pub inlined_functions: Vec<String>,
}

impl<C, S> PeContext<C, S> {
    /// Find the section that contains `va`.
    pub fn section_for_va(&self, va: u64) -> (r: Option<&PeSection>)
        ensures
            opt_section(r) == first(views(self.sections@), has_va(va)),
    {
        find_va(&self.sections, va)
    }

    /// Bytes at an absolute VA, spanning across a single section.
    pub fn data_at_va(&self, va: u64, len: usize) -> (r: Option<&[u8]>)
        ensures
            opt_bytes(r) == match first(views(self.sections@), has_va(va)) {
                Some(s) => s.bytes_at_va(va as int, len as int),
                None => None,
            },
    {
        match self.section_for_va(va) {
            Some(section) => section.data_at_va(va, len),
            None => None,
        }
    }
}

/// Load a PE executable together with what its PDB gave: the compilation-unit
/// index, the symbol table and the inlined functions.
///
/// Accepts both 32-bit (PE32, machine I386) and 64-bit (PE32+, machine AMD64).
pub fn load_pe_and_pdb<C, S>(
    exe_data: &[u8],
    cu_index: C,
    symbols: S,
    inlined_functions: Vec<String>,
) -> (r: Result<PeContext<C, S>, Error>)
    ensures
        match r {
            Ok(c) => {
                &&& pe_sections(exe_data@) == Ok::<(PeArch, u64, Seq<SectionView>), Seq<char>>(
                    (c.arch, c.image_base, views(c.sections@)),
                )
                &&& c.cu_index == cu_index
                &&& c.symbols == symbols
                &&& c.inlined_functions == inlined_functions
                &&& c.base_relocations@ == base_relocs(views(c.sections@), c.image_base)
                &&& text_map(c.imports@) == import_table(
                    exe_data@,
                    views(c.sections@),
                    c.image_base,
                    c.arch,
                )
            },
            Err(e) => pe_sections(exe_data@) == Err::<(PeArch, u64, Seq<SectionView>), Seq<char>>(
                e@,
            ),
        },
{
    let (arch, image_base, sections) = match parse_pe_sections(exe_data) {
        Ok(parsed) => parsed,
        Err(e) => {
            return Err(e);
        },
    };
    proof {
        lemma_pe_sections_wf(exe_data@);
    }
    let base_relocations = parse_base_relocations(&sections, image_base);
    let imports = parse_imports(exe_data, &sections, image_base, arch);
    Ok(
        PeContext {
            arch,
            image_base,
            sections,
            cu_index,
            symbols,
            base_relocations,
            imports,
            inlined_functions,
        },
    )
}

/// The data of every section of a PE file reaches to the end of its virtual
/// range.
pub proof fn lemma_pe_sections_wf(d: Seq<u8>)
    ensures
        pe_sections(d) matches Ok((_, _, sections)) ==> sections_wf(sections),
{
    if let Ok((_, base, table, count)) = pe_header(d) {
        lemma_pe_section_list_wf(d, base, table, count as nat);
    }
}

proof fn lemma_pe_section_list_wf(d: Seq<u8>, base: u64, table: int, n: nat)
    ensures
        pe_section_list(d, base, table, n) matches Ok(sections) ==> sections_wf(sections)
            && sections.len() == n,
    decreases n,
{
    if n > 0 {
        lemma_pe_section_list_wf(d, base, table, (n - 1) as nat);
    }
}

proof fn lemma_xbe_section_list_wf(d: Seq<u8>, header: XbeHeader, n: nat)
    ensures
        xbe_section_list(d, header, n) matches Ok(sections) ==> sections_wf(sections)
            && sections.len() == n,
    decreases n,
{
    if n > 0 {
        lemma_xbe_section_list_wf(d, header, (n - 1) as nat);
    }
}

/// The data of every section of a loaded image reaches to the end of its
/// virtual range: each address that a section holds has a byte.
pub proof fn lemma_loaded_sections_wf(d: Seq<u8>)
    ensures
        loaded_image(d) matches Ok(image) ==> sections_wf(image.sections),
{
    lemma_pe_sections_wf(d);
    if let Ok(header) = xbe_header(d) {
        lemma_xbe_section_list_wf(d, header, header.count as nat);
    }
}

/// In a loaded image every address of a section can be read, one byte at a
/// time, and an address of no section cannot.
pub proof fn lemma_loaded_image_reads(d: Seq<u8>, rva: u64)
    ensures
        loaded_image(d) matches Ok(image) ==> {
            (image_bytes(image.sections, rva, 1) is Some) == (first(image.sections, has_rva(rva))
                is Some)
        },
{
    lemma_loaded_sections_wf(d);
    if let Ok(image) = loaded_image(d) {
        crate::seqs::lemma_first_index(image.sections, has_rva(rva));
    }
}

/// A loaded XBE is an x86 image without base relocations.
pub proof fn lemma_xbe_image_has_no_relocations(d: Seq<u8>)
    requires
        is_xbe(d),
    ensures
        loaded_image(d) matches Ok(image) ==> image.arch == PeArch::X86
            && image.base_relocations.len() == 0,
{
}

} // verus!
