//! A finished object: sections, symbols and bound relocations.

use crate::draft::{
    is_linkable, sanitize_symbol_name, symbol_text, Draft, DraftSection, DraftSectionView,
    DraftSymbol, DraftSymbolView, DraftView, Linkage, PendingView, SymbolClass,
};
use crate::format::{Contents, RelocType};
use crate::seqs::views;
use vstd::hash_map::StringHashMap;
use vstd::prelude::*;

verus! {

/// A relocation whose target is a symbol of the object.
#[derive(Debug, Clone, Copy)]
pub struct BoundReloc {
    pub section: usize,
    pub offset: u64,
    pub symbol: usize,
    pub addend: i64,
    pub flags: RelocType,
}

/// A finished object.
pub struct Plan {
    pub sections: Vec<DraftSection>,
    pub symbols: Vec<DraftSymbol>,
    pub relocs: Vec<BoundReloc>,
}

#[verifier::ext_equal]
pub struct PlanView {
    pub sections: Seq<DraftSectionView>,
    pub symbols: Seq<DraftSymbolView>,
    pub relocs: Seq<BoundReloc>,
}

impl View for Plan {
    type V = PlanView;

    open spec fn view(&self) -> PlanView {
        PlanView {
            sections: views(self.sections@),
            symbols: views(self.symbols@),
            relocs: self.relocs@,
        }
    }
}

impl PlanView {
    /// Symbols and relocations refer to sections that exist, and relocations to
    /// symbols that exist and to sections with bytes. Other objects can refer to
    /// every symbol but the labels of the object.
    pub open spec fn wf(self) -> bool {
        &&& forall|i: int|
            0 <= i < self.symbols.len() ==> {
                ||| (#[trigger] self.symbols[i]).class == SymbolClass::Undefined
                ||| 0 <= self.symbols[i].section < self.sections.len()
            }
        &&& forall|i: int|
            0 <= i < self.symbols.len() ==> is_linkable(#[trigger] self.symbols[i])
        &&& forall|i: int|
            0 <= i < self.relocs.len() ==> {
                &&& (#[trigger] self.relocs[i]).section < self.sections.len()
                &&& self.sections[self.relocs[i].section as int].contents != Contents::Zeroed
                &&& self.relocs[i].symbol < self.symbols.len()
            }
    }
}

/// A symbol that another object defines.
pub open spec fn undefined_symbol(name: Seq<char>) -> DraftSymbolView {
    DraftSymbolView {
        name: symbol_text(name),
        value: 0,
        size: 0,
        class: SymbolClass::Undefined,
        linkage: Linkage::External,
        section: 0,
    }
}

/// Symbols, the undefined ones by name, and relocations, while binding.
#[verifier::ext_equal]
pub struct BindingView {
    pub symbols: Seq<DraftSymbolView>,
    pub undefined: Map<Seq<char>, usize>,
    pub relocs: Seq<BoundReloc>,
}

impl BindingView {
    pub open spec fn with_reloc(self, p: PendingView, symbol: usize) -> BindingView {
        BindingView {
            relocs: self.relocs.push(
                BoundReloc {
                    section: p.section as usize,
                    offset: p.offset,
                    symbol,
                    addend: p.addend,
                    flags: p.flags,
                },
            ),
            ..self
        }
    }

    pub open spec fn with_undefined(self, name: Seq<char>) -> BindingView {
        BindingView {
            symbols: self.symbols.push(undefined_symbol(name)),
            undefined: self.undefined.insert(name, self.symbols.len() as usize),
            ..self
        }
    }
}

/// `b` with a staged relocation bound: to the local definition of its target, or
/// else to an undefined symbol, of which there is one for each name.
pub open spec fn bound(b: BindingView, local: Map<Seq<char>, usize>, p: PendingView) -> BindingView {
    if local.contains_key(p.target) {
        b.with_reloc(p, local[p.target])
    } else if b.undefined.contains_key(p.target) {
        b.with_reloc(p, b.undefined[p.target])
    } else {
        b.with_undefined(p.target).with_reloc(p, b.symbols.len() as usize)
    }
}

/// The staged relocations of a draft bound, in order.
pub open spec fn all_bound(d: DraftView, pending: Seq<PendingView>) -> BindingView
    decreases pending.len(),
{
    if pending.len() == 0 {
        BindingView { symbols: d.symbols, undefined: Map::empty(), relocs: Seq::empty() }
    } else {
        bound(all_bound(d, pending.drop_last()), d.local, pending.last())
    }
}

/// The finished object of a draft.
pub open spec fn finished(d: DraftView) -> PlanView {
    let b = all_bound(d, d.pending);
    PlanView { sections: d.sections, symbols: b.symbols, relocs: b.relocs }
}

/// The names that a draft uses and does not define.
pub open spec fn undefined_names(d: DraftView) -> Map<Seq<char>, usize> {
    all_bound(d, d.pending).undefined
}

/// Binds the staged relocations of a draft; also gives the numbers of names
/// that it defines and of names that it leaves undefined.
pub fn finish(draft: Draft) -> (r: (Plan, usize, usize))
    requires
        draft@.wf(),
    ensures
        r.0@ == finished(draft@),
        r.0@.wf(),
        r.1 == draft@.local.len(),
        r.2 == undefined_names(draft@).len(),
{
    let ghost d = draft@;
    let ghost all = d.pending;
    let mut symbols = draft.symbols;
    let mut undefined: StringHashMap<usize> = StringHashMap::new();
    let mut relocs: Vec<BoundReloc> = Vec::new();
    let mut i: usize = 0;
    let ghost mut b = all_bound(d, all.take(0));
    assert(all.take(0) =~= Seq::<PendingView>::empty());
    assert(relocs@ =~= b.relocs);
    while i < draft.pending.len()
        invariant
            i <= draft.pending@.len(),
            d.wf(),
            all == d.pending,
            all == views(draft.pending@),
            d.local == draft.local@,
            b == all_bound(d, all.take(i as int)),
            views(symbols@) == b.symbols,
            undefined@ == b.undefined,
            relocs@ == b.relocs,
            d.symbols.len() <= b.symbols.len(),
            forall|name: Seq<char>| #[trigger]
                b.undefined.contains_key(name) ==> b.undefined[name] < b.symbols.len(),
            forall|k: int|
                0 <= k < b.symbols.len() ==> {
                    ||| (#[trigger] b.symbols[k]).class == SymbolClass::Undefined
                    ||| 0 <= b.symbols[k].section < d.sections.len()
                },
            forall|k: int| 0 <= k < b.symbols.len() ==> is_linkable(#[trigger] b.symbols[k]),
            forall|k: int|
                0 <= k < b.relocs.len() ==> {
                    &&& (#[trigger] b.relocs[k]).section < d.sections.len()
                    &&& d.sections[b.relocs[k].section as int].contents != Contents::Zeroed
                    &&& b.relocs[k].symbol < b.symbols.len()
                },
        decreases draft.pending@.len() - i,
    {
        assert(all.take(i + 1).drop_last() =~= all.take(i as int));
        let p = &draft.pending[i];
        assert(all[i as int] == p@);
        assert(d.pending[i as int].section == p.section);
        let ghost next = bound(b, d.local, p@);
        let symbol: usize = match draft.local.get(p.target.as_str()) {
            Some(index) => {
                assert(d.local.contains_key(p.target@));
                *index
            },
            None => match undefined.get(p.target.as_str()) {
                Some(index) => *index,
                None => {
                    let index: usize = symbols.len();
                    let ghost before = symbols@;
                    let s = DraftSymbol {
                        name: sanitize_symbol_name(p.target.as_str()),
                        value: 0,
                        size: 0,
                        class: SymbolClass::Undefined,
                        linkage: Linkage::External,
                        section: 0,
                    };
                    symbols.push(s);
                    undefined.insert(p.target.clone(), index);
                    assert(s@ =~= undefined_symbol(p.target@));
                    assert(views(symbols@) =~= views(before).push(s@));
                    index
                },
            },
        };
        relocs.push(
            BoundReloc {
                section: p.section,
                offset: p.offset,
                symbol,
                addend: p.addend,
                flags: p.flags,
            },
        );
        proof {
            assert(views(symbols@) =~= next.symbols);
            assert(undefined@ =~= next.undefined);
            assert(relocs@ =~= next.relocs);
            b = next;
        }
        i += 1;
    }
    assert(all.take(all.len() as int) =~= all);
    let locals: usize = draft.local.len();
    let undefs: usize = undefined.len();
    let plan = Plan { sections: draft.sections, symbols, relocs };
    assert(plan@ =~= finished(d));
    (plan, locals, undefs)
}

/// Whether the relocation `r` is what a staged one is bound to: the field, addend
/// and type are those that were staged, and the symbol is the local definition
/// of the target, or else the undefined symbol of its name.
pub open spec fn binds(
    d: DraftView,
    symbols: Seq<DraftSymbolView>,
    undefined: Map<Seq<char>, usize>,
    p: PendingView,
    r: BoundReloc,
) -> bool {
    &&& r.section == p.section as usize
    &&& r.offset == p.offset
    &&& r.addend == p.addend
    &&& r.flags == p.flags
    &&& if d.local.contains_key(p.target) {
        r.symbol == d.local[p.target]
    } else {
        &&& undefined.contains_key(p.target)
        &&& r.symbol == undefined[p.target]
        &&& r.symbol < symbols.len()
        &&& symbols[r.symbol as int] == undefined_symbol(p.target)
    }
}

proof fn lemma_all_bound(d: DraftView, pending: Seq<PendingView>)
    requires
        d.symbols.len() + pending.len() <= usize::MAX,
    ensures
        ({
            let b = all_bound(d, pending);
            &&& b.relocs.len() == pending.len()
            &&& d.symbols.len() <= b.symbols.len() <= d.symbols.len() + pending.len()
            &&& forall|name: Seq<char>| #[trigger]
                b.undefined.contains_key(name) ==> b.undefined[name] < b.symbols.len()
                    && b.symbols[b.undefined[name] as int] == undefined_symbol(name)
            &&& forall|i: int|
                0 <= i < pending.len() ==> binds(
                    d,
                    b.symbols,
                    b.undefined,
                    pending[i],
                    #[trigger] b.relocs[i],
                )
        }),
    decreases pending.len(),
{
    if pending.len() > 0 {
        let init = pending.drop_last();
        lemma_all_bound(d, init);
        let before = all_bound(d, init);
        let b = all_bound(d, pending);
        let p = pending.last();
        assert forall|i: int| 0 <= i < pending.len() implies binds(
            d,
            b.symbols,
            b.undefined,
            pending[i],
            #[trigger] b.relocs[i],
        ) by {
            if i < init.len() {
                assert(init[i] == pending[i]);
                assert(b.relocs[i] == before.relocs[i]);
                assert(binds(d, before.symbols, before.undefined, init[i], before.relocs[i]));
            }
        }
    }
}

/// Every staged relocation is bound: one whose target the object defines to that
/// definition, even where the definition came later, and any other to the one
/// undefined symbol of the target's name.
pub proof fn lemma_relocations_bind(d: DraftView, i: int)
    requires
        0 <= i < d.pending.len(),
        d.symbols.len() + d.pending.len() <= usize::MAX,
    ensures
        finished(d).relocs.len() == d.pending.len(),
        binds(
            d,
            finished(d).symbols,
            undefined_names(d),
            d.pending[i],
            finished(d).relocs[i],
        ),
{
    lemma_all_bound(d, d.pending);
}

} // verus!
