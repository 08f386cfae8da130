//! The analysed program: segments, functions, names, fixups and switch tables.

use crate::bytes::wrap64;
use crate::seqs::{first, lemma_first_index_is, lemma_first_index_none};
use crate::sorting::{in_key_order, HasKey, Keyed};
use crate::text::same_text;
use vstd::prelude::*;

verus! {

/// Target architecture, as far as the importer cares.
#[derive(Debug, Clone, Copy, PartialEq, Eq, Structural)]
pub enum IdaArch {
    X86,
    X86_64,
    /// Anything else: drafted as raw bytes without instruction recovery. Neither
    /// format has relocation types for it, and no file of it can be written, so
    /// `split_by_groups` refuses it.
    Other,
}

impl IdaArch {
    pub open spec fn named(arch: Seq<char>) -> IdaArch {
        if arch == "x86"@ {
            IdaArch::X86
        } else if arch == "x86_64"@ {
            IdaArch::X86_64
        } else {
            IdaArch::Other
        }
    }

    pub fn from_meta(arch: &str) -> (r: Self)
        ensures
            r == IdaArch::named(arch@),
    {
        if same_text(arch, "x86") {
            IdaArch::X86
        } else if same_text(arch, "x86_64") {
            IdaArch::X86_64
        } else {
            IdaArch::Other
        }
    }
}

/// Segment class, derived from IDA's segment type + permissions.
#[derive(Debug, Clone, Copy, PartialEq, Eq, Structural)]
pub enum SegClass {
    Code,
    Data,
    Const,
    Bss,
    Xtrn,
    Other,
}

impl SegClass {
    pub open spec fn named(s: Seq<char>) -> SegClass {
        if s == "CODE"@ {
            SegClass::Code
        } else if s == "DATA"@ {
            SegClass::Data
        } else if s == "CONST"@ {
            SegClass::Const
        } else if s == "BSS"@ {
            SegClass::Bss
        } else if s == "XTRN"@ {
            SegClass::Xtrn
        } else {
            SegClass::Other
        }
    }

    /// Segments of variables: initialized, read-only or zero-filled.
    pub open spec fn spec_is_data(self) -> bool {
        self == SegClass::Data || self == SegClass::Const || self == SegClass::Bss
    }

    pub fn from_str(s: &str) -> (r: Self)
        ensures
            r == SegClass::named(s@),
    {
        if same_text(s, "CODE") {
            SegClass::Code
        } else if same_text(s, "DATA") {
            SegClass::Data
        } else if same_text(s, "CONST") {
            SegClass::Const
        } else if same_text(s, "BSS") {
            SegClass::Bss
        } else if same_text(s, "XTRN") {
            SegClass::Xtrn
        } else {
            SegClass::Other
        }
    }

    /// Whether this is a segment of variables.
    pub fn is_data(self) -> (r: bool)
        ensures
            r == self.spec_is_data(),
    {
        matches!(self, SegClass::Data | SegClass::Const | SegClass::Bss)
    }
}

/// A segment's metadata. The bytes live in the original input binary, not in
/// the export: they are read from the image by image-base-relative addresses
/// (PE RVAs or the equivalent XBE mapping).
#[derive(Debug, Clone)]
pub struct Section {
    pub name: String,
    pub start: u64,
    pub end: u64,
    pub read: bool,
    pub write: bool,
    pub execute: bool,
    pub class: SegClass,
}

impl Section {
    pub open spec fn has(self, va: u64) -> bool {
        self.start <= va < self.end
    }

    pub fn size(&self) -> (r: u64)
        ensures
            r == if self.start <= self.end {
                self.end - self.start
            } else {
                0
            },
    {
        self.end.saturating_sub(self.start)
    }

    pub fn contains(&self, va: u64) -> (r: bool)
        ensures
            r == self.has(va),
    {
        va >= self.start && va < self.end
    }
}

/// A function discovered by IDA.
#[derive(Debug)]
pub struct Function {
    pub start: u64,
    pub end: u64,
    pub name: String,
    pub thunk: bool,
    pub lib: bool,
    pub is_static: bool,
    pub public: bool,
}

impl Clone for Function {
    fn clone(&self) -> (r: Self)
        ensures
            r == *self,
    {
        Function {
            start: self.start,
            end: self.end,
            name: self.name.clone(),
            thunk: self.thunk,
            lib: self.lib,
            is_static: self.is_static,
            public: self.public,
        }
    }
}

impl HasKey for Function {
    open spec fn spec_key(&self) -> u64 {
        self.start
    }
}

impl Keyed for Function {
    fn key(&self) -> (k: u64) {
        self.start
    }
}

impl Function {
    pub open spec fn spec_size(self) -> int {
        if self.start <= self.end {
            self.end - self.start
        } else {
            0
        }
    }

    pub fn size(&self) -> (r: u64)
        ensures
            r == self.spec_size(),
    {
        self.end.saturating_sub(self.start)
    }
}

/// A named address.
#[derive(Debug)]
pub struct Name {
    pub addr: u64,
    /// Declared byte length of a data symbol (zero for code labels/legacy exports).
    pub size: u64,
    pub name: String,
    pub public: bool,
    pub weak: bool,
    pub is_func: bool,
}

impl Clone for Name {
    fn clone(&self) -> (r: Self)
        ensures
            r == *self,
    {
        Name {
            addr: self.addr,
            size: self.size,
            name: self.name.clone(),
            public: self.public,
            weak: self.weak,
            is_func: self.is_func,
        }
    }
}

impl HasKey for Name {
    open spec fn spec_key(&self) -> u64 {
        self.addr
    }
}

impl Keyed for Name {
    fn key(&self) -> (k: u64) {
        self.addr
    }
}

/// One entry of IDA's fixup table (an absolute address relocation).
#[derive(Debug)]
pub struct Reloc {
    pub addr: u64,
    pub kind: String,
    /// Width in bytes (4 or 8).
    pub size: u32,
    /// The address the relocation points at.
    pub target: u64,
}

impl Clone for Reloc {
    fn clone(&self) -> (r: Self)
        ensures
            r == *self,
    {
        Reloc {
            addr: self.addr,
            kind: self.kind.clone(),
            size: self.size,
            target: self.target,
        }
    }
}

/// What a fixup holds.
#[verifier::ext_equal]
pub struct RelocView {
    pub addr: u64,
    pub kind: Seq<char>,
    pub size: u32,
    pub target: u64,
}

impl View for Reloc {
    type V = RelocView;

    open spec fn view(&self) -> RelocView {
        RelocView { addr: self.addr, kind: self.kind@, size: self.size, target: self.target }
    }
}

#[derive(Debug, Clone, Copy)]
pub struct JumpTableEntry {
    pub addr: u64,
    pub target: u64,
}

#[derive(Debug)]
pub struct JumpTable {
    pub owner: u64,
    pub dispatch: u64,
    pub dispatch_addr: Option<u64>,
    /// Additional encoded fields when more than one dispatch uses this table.
    pub dispatch_addrs: Vec<u64>,
    pub start: u64,
    pub entry_size: u32,
    pub entries: Vec<JumpTableEntry>,
    pub name: String,
}

/// What a switch table holds.
#[verifier::ext_equal]
pub struct TableView {
    pub owner: u64,
    pub dispatch: u64,
    pub dispatch_addr: Option<u64>,
    pub dispatch_addrs: Seq<u64>,
    pub start: u64,
    pub entry_size: u32,
    pub entries: Seq<JumpTableEntry>,
    pub name: Seq<char>,
}

impl TableView {
    /// The address behind the last entry.
    pub open spec fn end(self) -> u64 {
        wrap64(self.start + self.entry_size * self.entries.len()) as u64
    }

    /// The encoded fields that hold the table's address.
    pub open spec fn fields(self) -> Seq<u64> {
        match self.dispatch_addr {
            Some(field) => seq![field] + self.dispatch_addrs,
            None => self.dispatch_addrs,
        }
    }
}

impl View for JumpTable {
    type V = TableView;

    open spec fn view(&self) -> TableView {
        TableView {
            owner: self.owner,
            dispatch: self.dispatch,
            dispatch_addr: self.dispatch_addr,
            dispatch_addrs: self.dispatch_addrs@,
            start: self.start,
            entry_size: self.entry_size,
            entries: self.entries@,
            name: self.name@,
        }
    }
}

impl HasKey for TableView {
    open spec fn spec_key(&self) -> u64 {
        self.start
    }
}

impl Clone for JumpTable {
    fn clone(&self) -> (r: Self)
        ensures
            r@ == self@,
    {
        let mut entries: Vec<JumpTableEntry> = Vec::new();
        let mut i: usize = 0;
        while i < self.entries.len()
            invariant
                i <= self.entries@.len(),
                entries@ == self.entries@.take(i as int),
            decreases self.entries@.len() - i,
        {
            entries.push(self.entries[i]);
            i += 1;
            assert(entries@ =~= self.entries@.take(i as int));
        }
        let mut dispatch_addrs: Vec<u64> = Vec::new();
        dispatch_addrs.extend_from_slice(self.dispatch_addrs.as_slice());
        let r = JumpTable {
            owner: self.owner,
            dispatch: self.dispatch,
            dispatch_addr: self.dispatch_addr,
            dispatch_addrs,
            start: self.start,
            entry_size: self.entry_size,
            entries,
            name: self.name.clone(),
        };
        assert(r@ =~= self@);
        r
    }
}

impl HasKey for JumpTable {
    open spec fn spec_key(&self) -> u64 {
        self.start
    }
}

impl Keyed for JumpTable {
    fn key(&self) -> (k: u64) {
        self.start
    }
}

impl JumpTable {
    pub fn end(&self) -> (r: u64)
        ensures
            r == self@.end(),
    {
        let count: u64 = self.entries.len() as u64;
        let size: u64 = (self.entry_size as u64).wrapping_mul(count);
        proof {
            lemma_wrapped_product(self.start as int, self.entry_size * count);
        }
        self.start.wrapping_add(size)
    }

    pub fn dispatch_fields(&self) -> (r: Vec<u64>)
        ensures
            r@ == self@.fields(),
    {
        let mut fields: Vec<u64> = Vec::new();
        if let Some(field) = self.dispatch_addr {
            fields.push(field);
        }
        fields.extend_from_slice(self.dispatch_addrs.as_slice());
        assert(fields@ =~= self@.fields());
        fields
    }
}

proof fn lemma_wrapped_product(start: int, product: int)
    requires
        0 <= start <= u64::MAX,
    ensures
        wrap64(start + wrap64(product)) == wrap64(start + product),
{
}

/// The fully decoded model.
pub struct IdaModel {
    pub arch: IdaArch,
    pub procname: String,
    pub bits: u32,
    pub little_endian: bool,
    pub image_base: u64,
    pub filetype: String,
    pub input_file: String,
    pub sections: Vec<Section>,
    pub functions: Vec<Function>,
    pub names: Vec<Name>,
    pub relocations: Vec<Reloc>,
    pub jump_tables: Vec<JumpTable>,
}

/// Sections that hold `va`.
pub open spec fn holds(va: u64) -> spec_fn(Section) -> bool {
    |s: Section| s.has(va)
}

/// The view of an optional borrowed section.
pub open spec fn deref_section(r: Option<&Section>) -> Option<Section> {
    match r {
        Some(s) => Some(*s),
        None => None,
    }
}

/// The first section that holds `va`.
pub fn find_section(sections: &Vec<Section>, va: u64) -> (r: Option<&Section>)
    ensures
        deref_section(r) == first(sections@, holds(va)),
{
    let mut i: usize = 0;
    while i < sections.len()
        invariant
            i <= sections@.len(),
            forall|j: int| 0 <= j < i ==> !holds(va)(#[trigger] sections@[j]),
        decreases sections@.len() - i,
    {
        if sections[i].contains(va) {
            proof {
                lemma_first_index_is(sections@, holds(va), i as int);
            }
            return Some(&sections[i]);
        }
        i += 1;
    }
    proof {
        lemma_first_index_none(sections@, holds(va));
    }
    None
}

impl IdaModel {
    /// The functions stand in address order.
    pub open spec fn wf(&self) -> bool {
        in_key_order(self.functions@)
    }

    pub fn section_for(&self, va: u64) -> (r: Option<&Section>)
        ensures
            deref_section(r) == first(self.sections@, holds(va)),
    {
        find_section(&self.sections, va)
    }
}

} // verus!
