//! Output formats: section names and relocation types.

use crate::model::IdaArch;
use crate::text::same_text;
use vstd::prelude::*;

verus! {

#[derive(Debug, Clone, Copy, PartialEq, Eq, Structural)]
pub enum OutputFormat {
    Coff,
    Elf,
}

impl OutputFormat {
    pub open spec fn extension(self) -> Seq<char> {
        match self {
            OutputFormat::Coff => "obj"@,
            OutputFormat::Elf => "o"@,
        }
    }

    pub open spec fn of_filetype(filetype: Seq<char>) -> OutputFormat {
        if filetype == "ELF"@ || filetype == "MACHO"@ {
            OutputFormat::Elf
        } else {
            OutputFormat::Coff
        }
    }

    /// Default output object extension.
    pub fn ext(self) -> (r: &'static str)
        ensures
            r@ == self.extension(),
    {
        match self {
            OutputFormat::Coff => "obj",
            OutputFormat::Elf => "o",
        }
    }

    /// Pick a sensible default from IDA's reported file type.
    pub fn default_for_filetype(filetype: &str) -> (r: OutputFormat)
        ensures
            r == OutputFormat::of_filetype(filetype@),
    {
        if same_text(filetype, "ELF") || same_text(filetype, "MACHO") {
            OutputFormat::Elf
        } else {
            // PE / COFF / unknown
            OutputFormat::Coff
        }
    }
}

/// What a section of an object holds.
#[derive(Debug, Clone, Copy, PartialEq, Eq, Structural)]
pub enum Contents {
    Text,
    Data,
    ReadOnly,
    Zeroed,
    /// Information for the linker, left out of the image.
    Linker,
    /// Information that no program needs.
    Note,
}

/// The type of a relocation in its format.
#[derive(Debug, Clone, Copy, PartialEq, Eq, Structural)]
pub enum RelocType {
    Coff(u16),
    Elf(u32),
}

pub const IMAGE_REL_AMD64_ADDR64: u16 = 0x0001;

pub const IMAGE_REL_AMD64_ADDR32: u16 = 0x0002;

pub const IMAGE_REL_AMD64_REL32: u16 = 0x0004;

pub const IMAGE_REL_I386_DIR32: u16 = 0x0006;

pub const IMAGE_REL_I386_REL32: u16 = 0x0014;

pub const R_X86_64_64: u32 = 1;

pub const R_X86_64_PC32: u32 = 2;

pub const R_X86_64_32: u32 = 10;

pub const R_386_32: u32 = 1;

pub const R_386_PC32: u32 = 2;

/// The type of a 32-bit relative field.
pub open spec fn relative_type(format: OutputFormat, arch: IdaArch) -> RelocType {
    match (format, arch) {
        (OutputFormat::Coff, IdaArch::X86_64) => RelocType::Coff(IMAGE_REL_AMD64_REL32),
        (OutputFormat::Coff, _) => RelocType::Coff(IMAGE_REL_I386_REL32),
        (OutputFormat::Elf, IdaArch::X86_64) => RelocType::Elf(R_X86_64_PC32),
        (OutputFormat::Elf, _) => RelocType::Elf(R_386_PC32),
    }
}

/// The type of an absolute field of `size` bytes, where the format has one.
pub open spec fn absolute_type(format: OutputFormat, arch: IdaArch, size: u32) -> Option<
    RelocType,
> {
    match (format, arch) {
        (OutputFormat::Coff, IdaArch::X86_64) => if size == 8 {
            Some(RelocType::Coff(IMAGE_REL_AMD64_ADDR64))
        } else if size == 4 {
            Some(RelocType::Coff(IMAGE_REL_AMD64_ADDR32))
        } else {
            None
        },
        (OutputFormat::Coff, IdaArch::X86) => if size == 4 {
            Some(RelocType::Coff(IMAGE_REL_I386_DIR32))
        } else {
            None
        },
        (OutputFormat::Elf, IdaArch::X86_64) => if size == 8 {
            Some(RelocType::Elf(R_X86_64_64))
        } else if size == 4 {
            Some(RelocType::Elf(R_X86_64_32))
        } else {
            None
        },
        (OutputFormat::Elf, IdaArch::X86) => if size == 4 {
            Some(RelocType::Elf(R_386_32))
        } else {
            None
        },
        _ => None,
    }
}

pub fn rel32_flags(format: OutputFormat, arch: IdaArch) -> (r: RelocType)
    ensures
        r == relative_type(format, arch),
{
    match (format, arch) {
        (OutputFormat::Coff, IdaArch::X86_64) => RelocType::Coff(IMAGE_REL_AMD64_REL32),
        (OutputFormat::Coff, _) => RelocType::Coff(IMAGE_REL_I386_REL32),
        (OutputFormat::Elf, IdaArch::X86_64) => RelocType::Elf(R_X86_64_PC32),
        (OutputFormat::Elf, _) => RelocType::Elf(R_386_PC32),
    }
}

pub fn abs_flags(format: OutputFormat, arch: IdaArch, size: u32) -> (r: Option<RelocType>)
    ensures
        r == absolute_type(format, arch, size),
{
    match (format, arch, size) {
        (OutputFormat::Coff, IdaArch::X86_64, 8) => Some(RelocType::Coff(IMAGE_REL_AMD64_ADDR64)),
        (OutputFormat::Coff, IdaArch::X86_64, 4) => Some(RelocType::Coff(IMAGE_REL_AMD64_ADDR32)),
        (OutputFormat::Coff, IdaArch::X86, 4) => Some(RelocType::Coff(IMAGE_REL_I386_DIR32)),
        (OutputFormat::Elf, IdaArch::X86_64, 8) => Some(RelocType::Elf(R_X86_64_64)),
        (OutputFormat::Elf, IdaArch::X86_64, 4) => Some(RelocType::Elf(R_X86_64_32)),
        (OutputFormat::Elf, IdaArch::X86, 4) => Some(RelocType::Elf(R_386_32)),
        _ => None,
    }
}

/// The name of the sections of a format that hold `contents`.
pub open spec fn section_name(format: OutputFormat, contents: Contents) -> Seq<char> {
    match contents {
        Contents::Text => ".text"@,
        Contents::Data => ".data"@,
        Contents::ReadOnly => match format {
            OutputFormat::Coff => ".rdata"@,
            OutputFormat::Elf => ".rodata"@,
        },
        Contents::Zeroed => ".bss"@,
        _ => ".note.split"@,
    }
}

pub fn name_of_section(format: OutputFormat, contents: Contents) -> (r: &'static str)
    ensures
        r@ == section_name(format, contents),
{
    match contents {
        Contents::Text => ".text",
        Contents::Data => ".data",
        Contents::ReadOnly => match format {
            OutputFormat::Coff => ".rdata",
            OutputFormat::Elf => ".rodata",
        },
        Contents::Zeroed => ".bss",
        _ => ".note.split",
    }
}

/// Every relocation that recovery finds in 32-bit code has a type: relative
/// fields always, and absolute fields of four bytes.
pub proof fn lemma_x86_fields_have_types(format: OutputFormat)
    ensures
        absolute_type(format, IdaArch::X86, 4) is Some,
        absolute_type(format, IdaArch::X86, 4) != Some(relative_type(format, IdaArch::X86)),
{
}

} // verus!
