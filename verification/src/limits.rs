//! What a file format can hold.

use crate::format::{Contents, OutputFormat, RelocType};
use crate::model::IdaArch;
use crate::plan::{BoundReloc, Plan, PlanView};
use vstd::prelude::*;
use vstd::string::StringSliceAdditionalSpecFns;
use vstd::utf8::encode_utf8;

verus! {

/// Names end at their first zero byte in a string table, so none goes there with
/// one. COFF keeps names of up to eight bytes elsewhere.
pub open spec fn name_fits(format: OutputFormat, name: Seq<char>) -> bool {
    ||| !encode_utf8(name).contains(0u8)
    ||| format == OutputFormat::Coff && encode_utf8(name).len() <= 8
}

/// What the addend of a relocation grows by on its way into a COFF file, whose
/// relative fields count from the bytes behind them: four for the field, and up
/// to five more that the type names.
pub open spec fn addend_growth(format: OutputFormat, arch: IdaArch, flags: RelocType) -> int {
    match (format, arch, flags) {
        (OutputFormat::Coff, IdaArch::X86, RelocType::Coff(t)) => if t == 0x14 {
            4
        } else {
            0
        },
        (OutputFormat::Coff, IdaArch::X86_64, RelocType::Coff(t)) => if 4 <= t <= 9 {
            t as int
        } else {
            0
        },
        _ => 0,
    }
}

/// Whether the addend of a relocation can grow as the format asks.
pub fn addend_fits(format: OutputFormat, arch: IdaArch, flags: RelocType, addend: i64) -> (r: bool)
    ensures
        r == (addend + addend_growth(format, arch, flags) <= i64::MAX),
{
    let growth: i64 = match (format, arch, flags) {
        (OutputFormat::Coff, IdaArch::X86, RelocType::Coff(t)) => if t == 0x14 {
            4
        } else {
            0
        },
        (OutputFormat::Coff, IdaArch::X86_64, RelocType::Coff(t)) => if 4 <= t && t <= 9 {
            t as i64
        } else {
            0
        },
        _ => 0,
    };
    addend <= i64::MAX - growth
}

/// What decides whether a format can hold a file.
#[verifier::ext_equal]
pub struct ShapeView {
    pub format: OutputFormat,
    pub names_fit: bool,
    /// The bytes and the relocations of each section.
    pub sections: Seq<(nat, nat)>,
    pub symbols: nat,
}

/// The number of relocations of a section.
pub open spec fn relocs_in(relocs: Seq<BoundReloc>, section: int) -> nat
    decreases relocs.len(),
{
    if relocs.len() == 0 {
        0
    } else if relocs.last().section == section {
        relocs_in(relocs.drop_last(), section) + 1
    } else {
        relocs_in(relocs.drop_last(), section)
    }
}

/// The end of the COFF sections whose first one begins at `start`: the bytes of a
/// section, on a multiple of four where there are any, then ten for each
/// relocation, and ten more where the header cannot count the relocations.
pub open spec fn coff_end(start: int, sections: Seq<(nat, nat)>) -> int
    decreases sections.len(),
{
    if sections.len() == 0 {
        start
    } else {
        let before = coff_end(start, sections.drop_last());
        let (bytes, relocs) = sections.last();
        let filled = if bytes == 0 {
            before
        } else {
            (before + 3) / 4 * 4 + bytes
        };
        if relocs > 0xffff {
            filled + 10 * (relocs + 1)
        } else {
            filled + 10 * relocs
        }
    }
}

/// Where the string table of a COFF file stands: after the file's header, those
/// of the sections, the sections and the symbols.
pub open spec fn string_table_place(s: ShapeView) -> int {
    coff_end(20 + 40 * s.sections.len() as int, s.sections) + 18 * s.symbols
}

/// Why the format cannot hold a file, where it cannot. COFF counts sections in 16
/// bits, and has 32 for a place in the file; ELF counts sections and symbols in
/// 32 bits, and gives the relocations of a section one of their own.
pub open spec fn shape_fault(s: ShapeView) -> Option<Seq<char>> {
    if !s.names_fit {
        Some("string table entry contains null byte"@)
    } else {
        match s.format {
            OutputFormat::Coff => if s.sections.len() > 0xffff {
                Some("too many sections"@)
            } else if string_table_place(s) > u32::MAX {
                Some("file is too large"@)
            } else {
                None
            },
            OutputFormat::Elf => if s.sections.len() > 0x7fff_fff0 || s.symbols > 0xffff_fff0 {
                Some("too many sections or symbols"@)
            } else {
                None
            },
        }
    }
}

/// The shape of the file of a finished object.
pub open spec fn plan_shape(format: OutputFormat, plan: PlanView) -> ShapeView {
    ShapeView {
        format,
        names_fit: {
            &&& forall|i: int|
                0 <= i < plan.sections.len() ==> name_fits(
                    format,
                    (#[trigger] plan.sections[i]).name,
                )
            &&& forall|i: int|
                0 <= i < plan.symbols.len() ==> name_fits(
                    format,
                    (#[trigger] plan.symbols[i]).name,
                )
        },
        sections: Seq::new(
            plan.sections.len(),
            |i: int|
                (
                    if plan.sections[i].contents == Contents::Zeroed {
                        0
                    } else {
                        plan.sections[i].data.len()
                    },
                    relocs_in(plan.relocs, i),
                ),
        ),
        symbols: plan.symbols.len(),
    }
}

/// What decides whether a format can hold a file.
pub struct Shape {
    pub format: OutputFormat,
    pub names_fit: bool,
    /// The bytes and the relocations of each section.
    pub sections: Vec<(usize, usize)>,
    pub symbols: usize,
}

impl View for Shape {
    type V = ShapeView;

    open spec fn view(&self) -> ShapeView {
        ShapeView {
            format: self.format,
            names_fit: self.names_fit,
            sections: self.sections@.map_values(|s: (usize, usize)| (s.0 as nat, s.1 as nat)),
            symbols: self.symbols as nat,
        }
    }
}

fn fits(format: OutputFormat, name: &str) -> (r: bool)
    ensures
        r == name_fits(format, name@),
{
    let bytes = name.as_bytes();
    if format == OutputFormat::Coff && bytes.len() <= 8 {
        return true;
    }
    let mut i: usize = 0;
    while i < bytes.len()
        invariant
            i <= bytes@.len(),
            bytes@ == encode_utf8(name@),
            format != OutputFormat::Coff || bytes@.len() > 8,
            forall|k: int| 0 <= k < i ==> bytes@[k] != 0,
        decreases bytes@.len() - i,
    {
        if bytes[i] == 0 {
            assert(encode_utf8(name@)[i as int] == 0);
            return false;
        }
        i += 1;
    }
    true
}

proof fn lemma_relocs_in_bounded(relocs: Seq<BoundReloc>, section: int)
    ensures
        relocs_in(relocs, section) <= relocs.len(),
    decreases relocs.len(),
{
    if relocs.len() > 0 {
        lemma_relocs_in_bounded(relocs.drop_last(), section);
    }
}

/// The number of relocations of each of `n` sections.
fn count_relocs(relocs: &Vec<BoundReloc>, n: usize) -> (r: Vec<usize>)
    requires
        forall|i: int| 0 <= i < relocs@.len() ==> (#[trigger] relocs@[i]).section < n,
    ensures
        r@.len() == n,
        forall|k: int| 0 <= k < n ==> (#[trigger] r@[k]) == relocs_in(relocs@, k),
{
    let mut counts: Vec<usize> = Vec::new();
    while counts.len() < n
        invariant
            counts@.len() <= n,
            forall|k: int| 0 <= k < counts@.len() ==> (#[trigger] counts@[k]) == 0,
        decreases n - counts@.len(),
    {
        counts.push(0);
    }
    let mut i: usize = 0;
    while i < relocs.len()
        invariant
            i <= relocs@.len(),
            counts@.len() == n,
            forall|k: int| 0 <= k < relocs@.len() ==> (#[trigger] relocs@[k]).section < n,
            forall|k: int|
                0 <= k < n ==> (#[trigger] counts@[k]) == relocs_in(relocs@.take(i as int), k),
        decreases relocs@.len() - i,
    {
        let section: usize = relocs[i].section;
        let ghost before = counts@;
        proof {
            assert(relocs@.take(i + 1).drop_last() =~= relocs@.take(i as int));
            lemma_relocs_in_bounded(relocs@.take(i as int), section as int);
            assert(before[section as int] == relocs_in(relocs@.take(i as int), section as int));
        }
        let count: usize = counts[section];
        counts.set(section, count + 1);
        i += 1;
    }
    assert(relocs@.take(relocs@.len() as int) =~= relocs@);
    counts
}

impl Shape {
    /// The shape of the file of a finished object.
    pub fn of_plan(format: OutputFormat, plan: &Plan) -> (r: Shape)
        requires
            plan@.wf(),
        ensures
            r@ == plan_shape(format, plan@),
    {
        assert forall|i: int| 0 <= i < plan.relocs@.len() implies (#[trigger] plan.relocs@[i]).section
            < plan.sections@.len() by {
            assert(plan@.relocs[i] == plan.relocs@[i]);
        }
        let counts = count_relocs(&plan.relocs, plan.sections.len());
        let mut names_fit: bool = true;
        let mut sections: Vec<(usize, usize)> = Vec::new();
        let ghost shape = plan_shape(format, plan@);
        let mut i: usize = 0;
        while i < plan.sections.len()
            invariant
                i <= plan.sections@.len(),
                shape == plan_shape(format, plan@),
                counts@.len() == plan.sections@.len(),
                forall|k: int|
                    0 <= k < counts@.len() ==> (#[trigger] counts@[k]) == relocs_in(
                        plan.relocs@,
                        k,
                    ),
                names_fit == (forall|k: int|
                    0 <= k < i ==> name_fits(format, (#[trigger] plan@.sections[k]).name)),
                sections@.len() == i,
                forall|k: int|
                    0 <= k < i ==> shape.sections[k] == (
                        (#[trigger] sections@[k]).0 as nat,
                        sections@[k].1 as nat,
                    ),
            decreases plan.sections@.len() - i,
        {
            let s = &plan.sections[i];
            assert(plan@.sections[i as int] == s@);
            if !fits(format, s.name.as_str()) {
                names_fit = false;
            }
            let bytes: usize = if s.contents == Contents::Zeroed {
                0
            } else {
                s.data.len()
            };
            sections.push((bytes, counts[i]));
            i += 1;
        }
        let ghost sections_fit = names_fit;
        let mut i: usize = 0;
        while i < plan.symbols.len()
            invariant
                i <= plan.symbols@.len(),
                names_fit == (sections_fit && forall|k: int|
                    0 <= k < i ==> name_fits(format, (#[trigger] plan@.symbols[k]).name)),
            decreases plan.symbols@.len() - i,
        {
            let s = &plan.symbols[i];
            assert(plan@.symbols[i as int] == s@);
            if !fits(format, s.name.as_str()) {
                names_fit = false;
            }
            i += 1;
        }
        let r = Shape { format, names_fit, sections, symbols: plan.symbols.len() };
        assert(r@ =~= shape);
        r
    }

    /// Whether a COFF file has its string table where its header can say so.
    fn coff_fits(&self) -> (r: bool)
        requires
            self@.sections.len() <= 0xffff,
        ensures
            r == (string_table_place(self@) <= u32::MAX),
    {
        let start: u128 = 20 + 40 * self.sections.len() as u128;
        let mut end: u128 = start;
        let mut i: usize = 0;
        assert(self@.sections.take(0) =~= Seq::<(nat, nat)>::empty());
        while i < self.sections.len()
            invariant
                i <= self.sections@.len() <= 0xffff,
                self@.sections.len() == self.sections@.len(),
                start <= 0x40_0000,
                end == coff_end(start as int, self@.sections.take(i as int)),
                end <= 0x40_0000 + i * 0x10_0000_0000_0000_0000,
            decreases self.sections@.len() - i,
        {
            let (bytes, relocs) = self.sections[i];
            proof {
                assert(self@.sections[i as int] == (bytes as nat, relocs as nat));
                assert(self@.sections.take(i + 1).drop_last() =~= self@.sections.take(i as int));
                assert(self@.sections.take(i + 1).last() == self@.sections[i as int]);
            }
            let filled: u128 = if bytes == 0 {
                end
            } else {
                (end + 3) / 4 * 4 + bytes as u128
            };
            end = if relocs > 0xffff {
                filled + 10 * (relocs as u128 + 1)
            } else {
                filled + 10 * relocs as u128
            };
            i += 1;
        }
        assert(self@.sections.take(self@.sections.len() as int) =~= self@.sections);
        end + 18 * self.symbols as u128 <= u32::MAX as u128
    }

    /// Why the format cannot hold the file, where it cannot.
    pub fn fault(&self) -> (r: Option<&'static str>)
        ensures
            match r {
                Some(e) => shape_fault(self@) == Some(e@),
                None => shape_fault(self@) is None,
            },
    {
        if !self.names_fit {
            return Some("string table entry contains null byte");
        }
        match self.format {
            OutputFormat::Coff => if self.sections.len() > 0xffff {
                Some("too many sections")
            } else if !self.coff_fits() {
                Some("file is too large")
            } else {
                None
            },
            OutputFormat::Elf => if self.sections.len() as u64 > 0x7fff_fff0 || self.symbols as u64
                > 0xffff_fff0 {
                Some("too many sections or symbols")
            } else {
                None
            },
        }
    }
}

} // verus!
