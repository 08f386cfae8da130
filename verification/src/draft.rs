//! An object under construction.

use crate::bytes::wrap64;
use crate::format::{name_of_section, section_name, Contents, OutputFormat, RelocType};
use crate::seqs::views;
use vstd::hash_map::StringHashMap;
use vstd::prelude::*;

verus! {

/// A section: its bytes, or the size of one that is zero-filled.
#[derive(Debug)]
pub struct DraftSection {
    pub name: String,
    pub contents: Contents,
    pub data: Vec<u8>,
    pub zeroed: u64,
}

#[verifier::ext_equal]
pub struct DraftSectionView {
    pub name: Seq<char>,
    pub contents: Contents,
    pub data: Seq<u8>,
    pub zeroed: u64,
}

impl View for DraftSection {
    type V = DraftSectionView;

    open spec fn view(&self) -> DraftSectionView {
        DraftSectionView {
            name: self.name@,
            contents: self.contents,
            data: self.data@,
            zeroed: self.zeroed,
        }
    }
}

#[derive(Debug, Clone, Copy, PartialEq, Eq, Structural)]
pub enum SymbolClass {
    Function,
    Data,
    Label,
    Undefined,
}

#[derive(Debug, Clone, Copy, PartialEq, Eq, Structural)]
pub enum Linkage {
    /// Visible to other objects.
    External,
    /// Local to the object.
    Internal,
}

/// A symbol; the section of an undefined one has no meaning.
#[derive(Debug)]
pub struct DraftSymbol {
    pub name: String,
    pub value: u64,
    pub size: u64,
    pub class: SymbolClass,
    pub linkage: Linkage,
    pub section: usize,
}

#[verifier::ext_equal]
pub struct DraftSymbolView {
    pub name: Seq<char>,
    pub value: u64,
    pub size: u64,
    pub class: SymbolClass,
    pub linkage: Linkage,
    pub section: int,
}

impl View for DraftSymbol {
    type V = DraftSymbolView;

    open spec fn view(&self) -> DraftSymbolView {
        DraftSymbolView {
            name: self.name@,
            value: self.value,
            size: self.size,
            class: self.class,
            linkage: self.linkage,
            section: self.section as int,
        }
    }
}

/// A relocation whose target is still a name.
#[derive(Debug)]
pub struct Pending {
    pub section: usize,
    pub offset: u64,
    pub target: String,
    pub addend: i64,
    pub flags: RelocType,
}

#[verifier::ext_equal]
pub struct PendingView {
    pub section: int,
    pub offset: u64,
    pub target: Seq<char>,
    pub addend: i64,
    pub flags: RelocType,
}

impl View for Pending {
    type V = PendingView;

    open spec fn view(&self) -> PendingView {
        PendingView {
            section: self.section as int,
            offset: self.offset,
            target: self.target@,
            addend: self.addend,
            flags: self.flags,
        }
    }
}

/// Sections, symbols and staged relocations. Relocations are staged by target
/// name and bound when every symbol of the object exists, so that a forward
/// reference finds the local definition.
pub struct Draft {
    pub sections: Vec<DraftSection>,
    pub symbols: Vec<DraftSymbol>,
    /// Name to symbol, for binding.
    pub local: StringHashMap<usize>,
    pub pending: Vec<Pending>,
}

#[verifier::ext_equal]
pub struct DraftView {
    pub sections: Seq<DraftSectionView>,
    pub symbols: Seq<DraftSymbolView>,
    pub local: Map<Seq<char>, usize>,
    pub pending: Seq<PendingView>,
}

impl View for Draft {
    type V = DraftView;

    open spec fn view(&self) -> DraftView {
        DraftView {
            sections: views(self.sections@),
            symbols: views(self.symbols@),
            local: self.local@,
            pending: views(self.pending@),
        }
    }
}

pub open spec fn empty_draft() -> DraftView {
    DraftView {
        sections: Seq::empty(),
        symbols: Seq::empty(),
        local: Map::empty(),
        pending: Seq::empty(),
    }
}

/// What a symbol is called in the object.
pub open spec fn symbol_text(name: Seq<char>) -> Seq<char> {
    if name.len() == 0 {
        "<invalid>"@
    } else {
        name
    }
}

pub fn sanitize_symbol_name(name: &str) -> (r: String)
    ensures
        r@ == symbol_text(name@),
{
    if name.is_empty() {
        "<invalid>".to_owned()
    } else {
        name.to_owned()
    }
}

/// Whether other objects can refer to a symbol, or it is a mere label.
pub open spec fn is_linkable(s: DraftSymbolView) -> bool {
    s.class == SymbolClass::Label || s.linkage == Linkage::External
}

impl DraftView {
    /// Symbols and relocations refer to sections that exist, names to symbols
    /// that exist, and relocations to sections with bytes. Other objects can
    /// refer to every symbol but the labels of an object.
    pub open spec fn wf(self) -> bool {
        &&& forall|i: int|
            0 <= i < self.symbols.len() ==> {
                ||| (#[trigger] self.symbols[i]).class == SymbolClass::Undefined
                ||| 0 <= self.symbols[i].section < self.sections.len()
            }
        &&& forall|i: int|
            0 <= i < self.symbols.len() ==> is_linkable(#[trigger] self.symbols[i])
        &&& forall|name: Seq<char>| #[trigger]
            self.local.contains_key(name) ==> self.local[name] < self.symbols.len()
        &&& forall|i: int|
            0 <= i < self.pending.len() ==> {
                &&& 0 <= (#[trigger] self.pending[i]).section < self.sections.len()
                &&& self.sections[self.pending[i].section].contents != Contents::Zeroed
            }
    }

    pub open spec fn with_section(self, name: Seq<char>, contents: Contents) -> DraftView {
        DraftView {
            sections: self.sections.push(
                DraftSectionView { name, contents, data: Seq::empty(), zeroed: 0 },
            ),
            ..self
        }
    }

    pub open spec fn with_data(self, section: int, data: Seq<u8>) -> DraftView {
        let s = self.sections[section];
        DraftView {
            sections: self.sections.update(
                section,
                DraftSectionView { data: s.data + data, ..s },
            ),
            ..self
        }
    }

    pub open spec fn with_zeroed(self, section: int, size: u64) -> DraftView {
        let s = self.sections[section];
        DraftView {
            sections: self.sections.update(
                section,
                DraftSectionView { zeroed: wrap64(s.zeroed + size) as u64, ..s },
            ),
            ..self
        }
    }

    /// With a symbol that takes over the name `key`.
    pub open spec fn defining(self, key: Seq<char>, symbol: DraftSymbolView) -> DraftView {
        DraftView {
            symbols: self.symbols.push(symbol),
            local: self.local.insert(key, self.symbols.len() as usize),
            ..self
        }
    }

    /// With a symbol that takes the name `key` where it is free.
    pub open spec fn offering(self, key: Seq<char>, symbol: DraftSymbolView) -> DraftView {
        if self.local.contains_key(key) {
            DraftView { symbols: self.symbols.push(symbol), ..self }
        } else {
            self.defining(key, symbol)
        }
    }

    pub open spec fn staging(self, pending: PendingView) -> DraftView {
        DraftView { pending: self.pending.push(pending), ..self }
    }

    pub open spec fn staging_all(self, pending: Seq<PendingView>) -> DraftView {
        DraftView { pending: self.pending + pending, ..self }
    }
}

impl Draft {
    pub fn new() -> (r: Draft)
        ensures
            r@ == empty_draft(),
            r@.wf(),
    {
        let r = Draft {
            sections: Vec::new(),
            symbols: Vec::new(),
            local: StringHashMap::new(),
            pending: Vec::new(),
        };
        assert(r@ =~= empty_draft());
        r
    }

    pub fn add_section(&mut self, format: OutputFormat, contents: Contents) -> (r: usize)
        requires
            old(self)@.wf(),
        ensures
            r == old(self)@.sections.len(),
            final(self)@ == old(self)@.with_section(section_name(format, contents), contents),
            final(self)@.wf(),
            final(self).sections@.len() == r + 1,
    {
        let ghost before = self@;
        let index: usize = self.sections.len();
        let section = DraftSection {
            name: name_of_section(format, contents).to_owned(),
            contents,
            data: Vec::new(),
            zeroed: 0,
        };
        self.sections.push(section);
        proof {
            assert(section@ =~= (DraftSectionView {
                name: section_name(format, contents),
                contents,
                data: Seq::empty(),
                zeroed: 0,
            }));
            assert(self@ =~= before.with_section(section_name(format, contents), contents));
        }
        index
    }

    /// Append bytes to a section; they begin at the offset that comes back.
    pub fn append(&mut self, section: usize, data: &Vec<u8>) -> (r: u64)
        requires
            old(self)@.wf(),
            section < old(self)@.sections.len(),
        ensures
            r == old(self)@.sections[section as int].data.len(),
            final(self)@ == old(self)@.with_data(section as int, data@),
            final(self)@.wf(),
    {
        let ghost before = self@;
        let offset: u64 = self.sections[section].data.len() as u64;
        let ghost raw = self.sections@;
        self.sections[section].data.extend_from_slice(data.as_slice());
        proof {
            let s = self.sections@[section as int];
            assert(s@ =~= (DraftSectionView {
                data: raw[section as int].data@ + data@,
                ..raw[section as int]@
            }));
            assert(views(self.sections@) =~= views(raw).update(section as int, s@));
            assert(self@ =~= before.with_data(section as int, data@));
        }
        offset
    }

    /// Lengthen a zero-filled section.
    pub fn append_zeroed(&mut self, section: usize, size: u64)
        requires
            old(self)@.wf(),
            section < old(self)@.sections.len(),
        ensures
            final(self)@ == old(self)@.with_zeroed(section as int, size),
            final(self)@.wf(),
    {
        let ghost before = self@;
        let ghost raw = self.sections@;
        let total: u64 = self.sections[section].zeroed.wrapping_add(size);
        self.sections[section].zeroed = total;
        proof {
            let s = self.sections@[section as int];
            assert(s@ =~= (DraftSectionView { zeroed: total, ..raw[section as int]@ }));
            assert(views(self.sections@) =~= views(raw).update(section as int, s@));
            assert(self@ =~= before.with_zeroed(section as int, size));
        }
    }

    /// Add a symbol that takes over the name `key`.
    pub fn define(&mut self, key: String, symbol: DraftSymbol)
        requires
            old(self)@.wf(),
            symbol.section < old(self)@.sections.len(),
            is_linkable(symbol@),
        ensures
            final(self)@ == old(self)@.defining(key@, symbol@),
            final(self)@.wf(),
    {
        let ghost before = self@;
        let index: usize = self.symbols.len();
        self.symbols.push(symbol);
        self.local.insert(key, index);
        proof {
            assert(self@ =~= before.defining(key@, symbol@));
        }
    }

    /// Add a symbol that takes the name `key` where it is free.
    pub fn offer(&mut self, key: String, symbol: DraftSymbol)
        requires
            old(self)@.wf(),
            symbol.section < old(self)@.sections.len(),
            is_linkable(symbol@),
        ensures
            final(self)@ == old(self)@.offering(key@, symbol@),
            final(self)@.wf(),
    {
        if self.local.contains_key(key.as_str()) {
            let ghost before = self@;
            self.symbols.push(symbol);
            proof {
                assert(self@ =~= before.offering(key@, symbol@));
            }
        } else {
            self.define(key, symbol);
        }
    }

    /// Stage a relocation.
    pub fn stage(&mut self, pending: Pending)
        requires
            old(self)@.wf(),
            pending.section < old(self)@.sections.len(),
            old(self)@.sections[pending.section as int].contents != Contents::Zeroed,
        ensures
            final(self)@ == old(self)@.staging(pending@),
            final(self)@.wf(),
    {
        let ghost before = self@;
        self.pending.push(pending);
        proof {
            assert(self@ =~= before.staging(pending@));
        }
    }
}

} // verus!
