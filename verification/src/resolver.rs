//! Symbol resolution for relocation recovery.
//!
//! Builds an address to label map from the exported functions and names, so the
//! recovery passes can turn a call/jump target or a data reference into a symbol
//! and an addend.

use crate::addr_map::{
    last_at_or_before, lemma_below, lemma_below_monotone, put, value_at, window, AddrMap,
};
use crate::model::{Function, IdaModel, Name, Reloc, RelocView, SegClass, Section};
use crate::pe::text_map;
use crate::seqs::{first, first_index, lemma_first_index_is, lemma_first_index_none, views};
use std::collections::HashMap;
use vstd::prelude::*;

verus! {

/// Synthetic symbols marking the start of each shared data section, used when a
/// data reference lands inside a section but not on a named address.
pub const SYM_DATA_START: &'static str = "__delink_ida_data_start";

pub const SYM_CONST_START: &'static str = "__delink_ida_const_start";

pub const SYM_BSS_START: &'static str = "__delink_ida_bss_start";

/// The end and name of a function.
#[derive(Debug)]
pub struct FnInfo {
    pub end: u64,
    pub name: String,
}

#[verifier::ext_equal]
pub struct FnInfoView {
    pub end: u64,
    pub name: Seq<char>,
}

impl View for FnInfo {
    type V = FnInfoView;

    open spec fn view(&self) -> FnInfoView {
        FnInfoView { end: self.end, name: self.name@ }
    }
}

/// A named data variable (a name that is not a function and lives in a data
/// section): emitted into the shared data object.
#[derive(Debug)]
pub struct Variable {
    pub name: String,
    pub public: bool,
    /// Declared byte length.
    pub size: u64,
}

#[verifier::ext_equal]
pub struct VariableView {
    pub name: Seq<char>,
    pub public: bool,
    pub size: u64,
}

impl View for Variable {
    type V = VariableView;

    open spec fn view(&self) -> VariableView {
        VariableView { name: self.name@, public: self.public, size: self.size }
    }
}

pub struct IdaSymbols {
    /// Exact address to name (functions and named data/code labels).
    pub names: HashMap<u64, String>,
    /// Function start to info, for resolving targets that land mid-function.
    pub funcs: AddrMap<FnInfo>,
    /// Named data variables, by address.
    pub variables: AddrMap<Variable>,
    /// Fixup-table entries by address, for absolute-relocation lookup.
    pub relocs: AddrMap<Reloc>,
    pub data_range: Option<(u64, u64)>,
    pub const_range: Option<(u64, u64)>,
    pub bss_range: Option<(u64, u64)>,
}

/// What the resolver knows.
#[verifier::ext_equal]
pub struct SymbolsView {
    pub names: Map<u64, Seq<char>>,
    pub funcs: Seq<(u64, FnInfoView)>,
    pub variables: Seq<(u64, VariableView)>,
    pub relocs: Seq<(u64, RelocView)>,
    pub data_range: Option<(u64, u64)>,
    pub const_range: Option<(u64, u64)>,
    pub bss_range: Option<(u64, u64)>,
}

impl View for IdaSymbols {
    type V = SymbolsView;

    open spec fn view(&self) -> SymbolsView {
        SymbolsView {
            names: text_map(self.names@),
            funcs: self.funcs@,
            variables: self.variables@,
            relocs: self.relocs@,
            data_range: self.data_range,
            const_range: self.const_range,
            bss_range: self.bss_range,
        }
    }
}

/// Sections of class `class`.
pub open spec fn of_class(class: SegClass) -> spec_fn(Section) -> bool {
    |s: Section| s.class == class
}

/// The bounds of the first section of class `class`.
pub open spec fn class_range(sections: Seq<Section>, class: SegClass) -> Option<(u64, u64)> {
    match first(sections, of_class(class)) {
        Some(s) => Some((s.start, s.end)),
        None => None,
    }
}

pub open spec fn in_range(range: Option<(u64, u64)>, va: u64) -> bool {
    range matches Some((start, end)) && start <= va < end
}

pub open spec fn range_start(range: Option<(u64, u64)>) -> u64 {
    match range {
        Some((start, _)) => start,
        None => 0,
    }
}

/// The first name of each function start.
pub open spec fn function_names(functions: Seq<Function>) -> Map<u64, Seq<char>>
    decreases functions.len(),
{
    if functions.len() == 0 {
        Map::empty()
    } else {
        let before = function_names(functions.drop_last());
        let f = functions.last();
        if before.contains_key(f.start) {
            before
        } else {
            before.insert(f.start, f.name@)
        }
    }
}

/// `known` with the exported names, which take precedence; of two names at one
/// address the later.
pub open spec fn with_names(known: Map<u64, Seq<char>>, names: Seq<Name>) -> Map<u64, Seq<char>>
    decreases names.len(),
{
    if names.len() == 0 {
        known
    } else {
        with_names(known, names.drop_last()).insert(names.last().addr, names.last().name@)
    }
}

/// The functions by start; of two at one start the later.
pub open spec fn functions_by_start(functions: Seq<Function>) -> Seq<(u64, FnInfoView)>
    decreases functions.len(),
{
    if functions.len() == 0 {
        Seq::empty()
    } else {
        let f = functions.last();
        put(
            functions_by_start(functions.drop_last()),
            f.start,
            FnInfoView { end: f.end, name: f.name@ },
        )
    }
}

/// Sections of variables, imports included, that hold `va`.
pub open spec fn keeps_variable(va: u64) -> spec_fn(Section) -> bool {
    |s: Section| s.has(va) && (s.class.spec_is_data() || s.class == SegClass::Xtrn)
}

/// Whether a name is that of a variable: it is no function and lies in a data
/// section.
pub open spec fn is_variable(
    sections: Seq<Section>,
    funcs: Seq<(u64, FnInfoView)>,
    n: Name,
) -> bool {
    &&& !n.is_func
    &&& value_at(funcs, n.addr) is None
    &&& first_index(sections, keeps_variable(n.addr)) is Some
}

/// The variables by address; of two at one address the later.
pub open spec fn variables_by_address(
    sections: Seq<Section>,
    funcs: Seq<(u64, FnInfoView)>,
    names: Seq<Name>,
) -> Seq<(u64, VariableView)>
    decreases names.len(),
{
    if names.len() == 0 {
        Seq::empty()
    } else {
        let before = variables_by_address(sections, funcs, names.drop_last());
        let n = names.last();
        if is_variable(sections, funcs, n) {
            put(before, n.addr, VariableView { name: n.name@, public: n.public, size: n.size })
        } else {
            before
        }
    }
}

/// The relocations by address; of two at one address the later.
pub open spec fn relocs_by_address(relocs: Seq<RelocView>) -> Seq<(u64, RelocView)>
    decreases relocs.len(),
{
    if relocs.len() == 0 {
        Seq::empty()
    } else {
        put(relocs_by_address(relocs.drop_last()), relocs.last().addr, relocs.last())
    }
}

/// The resolver of a model and its relocations.
pub open spec fn built(model: IdaModel, relocs: Seq<RelocView>) -> SymbolsView {
    let funcs = functions_by_start(model.functions@);
    SymbolsView {
        names: with_names(function_names(model.functions@), model.names@),
        funcs,
        variables: variables_by_address(model.sections@, funcs, model.names@),
        relocs: relocs_by_address(relocs),
        data_range: class_range(model.sections@, SegClass::Data),
        const_range: class_range(model.sections@, SegClass::Const),
        bss_range: class_range(model.sections@, SegClass::Bss),
    }
}

impl SymbolsView {
    /// The function that `va` lies in and the distance from its start.
    pub open spec fn in_function(self, va: u64) -> Option<(Seq<char>, i64)> {
        match last_at_or_before(self.funcs, va) {
            Some((start, info)) => if va < info.end {
                Some((info.name, (va - start) as i64))
            } else {
                None
            },
            None => None,
        }
    }

    pub open spec fn code_target(self, va: u64) -> Option<(Seq<char>, i64)> {
        if self.names.contains_key(va) {
            Some((self.names[va], 0))
        } else {
            self.in_function(va)
        }
    }

    pub open spec fn exact_target(self, va: u64) -> Option<(Seq<char>, i64)> {
        if self.names.contains_key(va) {
            Some((self.names[va], 0))
        } else {
            None
        }
    }

    pub open spec fn section_target(self, va: u64) -> Option<(Seq<char>, i64)> {
        if in_range(self.data_range, va) {
            Some((SYM_DATA_START@, (va - range_start(self.data_range)) as i64))
        } else if in_range(self.const_range, va) {
            Some((SYM_CONST_START@, (va - range_start(self.const_range)) as i64))
        } else if in_range(self.bss_range, va) {
            Some((SYM_BSS_START@, (va - range_start(self.bss_range)) as i64))
        } else {
            None
        }
    }

    pub open spec fn data_target(self, va: u64) -> Option<(Seq<char>, i64)> {
        match self.code_target(va) {
            Some(t) => Some(t),
            None => self.section_target(va),
        }
    }
}

/// The view of a resolved symbol.
pub open spec fn opt_target(r: Option<(String, i64)>) -> Option<(Seq<char>, i64)> {
    match r {
        Some((name, addend)) => Some((name@, addend)),
        None => None,
    }
}

/// The first section of class `class`.
pub fn find_class(sections: &Vec<Section>, class: SegClass) -> (r: Option<&Section>)
    ensures
        crate::model::deref_section(r) == first(sections@, of_class(class)),
{
    let mut i: usize = 0;
    while i < sections.len()
        invariant
            i <= sections@.len(),
            forall|j: int| 0 <= j < i ==> !of_class(class)(#[trigger] sections@[j]),
        decreases sections@.len() - i,
    {
        if sections[i].class == class {
            proof {
                lemma_first_index_is(sections@, of_class(class), i as int);
            }
            return Some(&sections[i]);
        }
        i += 1;
    }
    proof {
        lemma_first_index_none(sections@, of_class(class));
    }
    None
}

fn range_of_class(sections: &Vec<Section>, class: SegClass) -> (r: Option<(u64, u64)>)
    ensures
        r == class_range(sections@, class),
{
    match find_class(sections, class) {
        Some(s) => Some((s.start, s.end)),
        None => None,
    }
}

fn build_names(model: &IdaModel) -> (r: HashMap<u64, String>)
    ensures
        text_map(r@) == with_names(function_names(model.functions@), model.names@),
{
    broadcast use vstd::std_specs::hash::group_hash_axioms;

    let mut names: HashMap<u64, String> = HashMap::new();
    let mut i: usize = 0;
    assert(model.functions@.take(0) =~= Seq::<Function>::empty());
    assert(text_map(names@) =~= Map::<u64, Seq<char>>::empty());
    while i < model.functions.len()
        invariant
            i <= model.functions@.len(),
            text_map(names@) == function_names(model.functions@.take(i as int)),
        decreases model.functions@.len() - i,
    {
        broadcast use vstd::std_specs::hash::group_hash_axioms;

        let f = &model.functions[i];
        assert(model.functions@.take(i + 1).drop_last() =~= model.functions@.take(i as int));
        if !names.contains_key(&f.start) {
            let ghost before = names@;
            names.insert(f.start, f.name.clone());
            assert(text_map(names@) =~= text_map(before).insert(f.start, f.name@));
        }
        i += 1;
    }
    assert(model.functions@.take(model.functions@.len() as int) =~= model.functions@);
    let ghost known = text_map(names@);
    let mut k: usize = 0;
    assert(model.names@.take(0) =~= Seq::<Name>::empty());
    while k < model.names.len()
        invariant
            k <= model.names@.len(),
            text_map(names@) == with_names(known, model.names@.take(k as int)),
        decreases model.names@.len() - k,
    {
        broadcast use vstd::std_specs::hash::group_hash_axioms;

        let n = &model.names[k];
        assert(model.names@.take(k + 1).drop_last() =~= model.names@.take(k as int));
        let ghost before = names@;
        names.insert(n.addr, n.name.clone());
        assert(text_map(names@) =~= text_map(before).insert(n.addr, n.name@));
        k += 1;
    }
    assert(model.names@.take(model.names@.len() as int) =~= model.names@);
    names
}

fn build_funcs(functions: &Vec<Function>) -> (r: AddrMap<FnInfo>)
    ensures
        r.wf(),
        r@ == functions_by_start(functions@),
{
    let mut funcs: AddrMap<FnInfo> = AddrMap::new();
    let mut i: usize = 0;
    assert(functions@.take(0) =~= Seq::<Function>::empty());
    while i < functions.len()
        invariant
            i <= functions@.len(),
            funcs.wf(),
            funcs@ == functions_by_start(functions@.take(i as int)),
        decreases functions@.len() - i,
    {
        let f = &functions[i];
        assert(functions@.take(i + 1).drop_last() =~= functions@.take(i as int));
        funcs.insert(f.start, FnInfo { end: f.end, name: f.name.clone() });
        i += 1;
    }
    assert(functions@.take(functions@.len() as int) =~= functions@);
    funcs
}

fn build_relocs(relocs: &Vec<Reloc>) -> (r: AddrMap<Reloc>)
    ensures
        r.wf(),
        r@ == relocs_by_address(views(relocs@)),
{
    let ghost v = views(relocs@);
    let mut map: AddrMap<Reloc> = AddrMap::new();
    let mut i: usize = 0;
    assert(v.take(0) =~= Seq::<RelocView>::empty());
    while i < relocs.len()
        invariant
            i <= relocs@.len(),
            v == views(relocs@),
            map.wf(),
            map@ == relocs_by_address(v.take(i as int)),
        decreases relocs@.len() - i,
    {
        assert(v.take(i + 1).drop_last() =~= v.take(i as int));
        let r = relocs[i].clone();
        map.insert(r.addr, r);
        i += 1;
    }
    assert(v.take(v.len() as int) =~= v);
    map
}

fn in_variable_section(sections: &Vec<Section>, va: u64) -> (r: bool)
    ensures
        r == (first_index(sections@, keeps_variable(va)) is Some),
{
    let mut i: usize = 0;
    while i < sections.len()
        invariant
            i <= sections@.len(),
            forall|k: int| 0 <= k < i ==> !keeps_variable(va)(#[trigger] sections@[k]),
        decreases sections@.len() - i,
    {
        let s = &sections[i];
        if s.contains(va) && (s.class.is_data() || s.class == SegClass::Xtrn) {
            proof {
                lemma_first_index_is(sections@, keeps_variable(va), i as int);
            }
            return true;
        }
        i += 1;
    }
    proof {
        lemma_first_index_none(sections@, keeps_variable(va));
    }
    false
}

fn build_variables(model: &IdaModel, funcs: &AddrMap<FnInfo>) -> (r: AddrMap<Variable>)
    requires
        funcs.wf(),
    ensures
        r.wf(),
        r@ == variables_by_address(model.sections@, funcs@, model.names@),
{
    let ghost names = model.names@;
    let mut variables: AddrMap<Variable> = AddrMap::new();
    let mut i: usize = 0;
    assert(names.take(0) =~= Seq::<Name>::empty());
    while i < model.names.len()
        invariant
            i <= names.len(),
            names == model.names@,
            funcs.wf(),
            variables.wf(),
            variables@ == variables_by_address(model.sections@, funcs@, names.take(i as int)),
        decreases names.len() - i,
    {
        let n = &model.names[i];
        assert(names.take(i + 1).drop_last() =~= names.take(i as int));
        if !n.is_func && funcs.get(n.addr).is_none() && in_variable_section(
            &model.sections,
            n.addr,
        ) {
            variables.insert(
                n.addr,
                Variable { name: n.name.clone(), public: n.public, size: n.size },
            );
        }
        i += 1;
    }
    assert(names.take(names.len() as int) =~= names);
    variables
}

impl IdaSymbols {
    pub open spec fn wf(&self) -> bool {
        &&& self.funcs.wf()
        &&& self.variables.wf()
        &&& self.relocs.wf()
    }

    /// Build the resolver from the model plus the combined relocation set
    /// (IDA fixups and PE `.reloc`).
    pub fn build(model: &IdaModel, relocs: &Vec<Reloc>) -> (r: Self)
        ensures
            r.wf(),
            r@ == built(*model, views(relocs@)),
    {
        let funcs = build_funcs(&model.functions);
        let variables = build_variables(model, &funcs);
        let symbols = IdaSymbols {
            names: build_names(model),
            funcs,
            variables,
            relocs: build_relocs(relocs),
            data_range: range_of_class(&model.sections, SegClass::Data),
            const_range: range_of_class(&model.sections, SegClass::Const),
            bss_range: range_of_class(&model.sections, SegClass::Bss),
        };
        assert(symbols@ =~= built(*model, views(relocs@)));
        symbols
    }

    /// Fixup-table entries whose location falls within `[start, end)`.
    pub fn relocs_in(&self, start: u64, end: u64) -> (r: &[(u64, Reloc)])
        requires
            self.wf(),
            start <= end,
        ensures
            r@.map_values(|e: (u64, Reloc)| (e.0, e.1@)) == window(
                self@.relocs,
                start as int,
                end as int,
            ),
    {
        let from: usize = self.relocs.lower(start);
        let to: usize = self.relocs.lower(end);
        proof {
            lemma_below_monotone(self.relocs@, start as int, end as int);
        }
        let slice = vstd::slice::slice_subrange(self.relocs.entries.as_slice(), from, to);
        assert(slice@.map_values(|e: (u64, Reloc)| (e.0, e.1@)) =~= window(
            self@.relocs,
            start as int,
            end as int,
        ));
        slice
    }

    fn resolve_in_function(&self, va: u64) -> (r: Option<(String, i64)>)
        requires
            self.wf(),
        ensures
            opt_target(r) == self@.in_function(va),
    {
        let n: usize = self.funcs.upper(va);
        if n > 0 {
            proof {
                lemma_below(self.funcs@, va + 1);
                assert(self.funcs@[n - 1].0 == self.funcs.entries@[n - 1].0);
            }
            let entry = &self.funcs.entries[n - 1];
            if va < entry.1.end {
                return Some((entry.1.name.clone(), (va - entry.0) as i64));
            }
        }
        None
    }

    /// Resolve a code target (call/jump destination) to a symbol and addend.
    pub fn resolve_code(&self, va: u64) -> (r: Option<(String, i64)>)
        requires
            self.wf(),
        ensures
            opt_target(r) == self@.code_target(va),
    {
        broadcast use vstd::std_specs::hash::group_hash_axioms;

        match self.names.get(&va) {
            Some(name) => Some((name.clone(), 0)),
            None => self.resolve_in_function(va),
        }
    }

    /// Resolve only an exact exported name, without falling back to a section
    /// anchor or an enclosing function. Used by split emission so a named
    /// data target remains renameable even when its containing range belongs
    /// to a different object.
    pub fn resolve_exact(&self, va: u64) -> (r: Option<(String, i64)>)
        ensures
            opt_target(r) == self@.exact_target(va),
    {
        broadcast use vstd::std_specs::hash::group_hash_axioms;

        match self.names.get(&va) {
            Some(name) => Some((name.clone(), 0)),
            None => None,
        }
    }

    /// Resolve a data reference to a symbol and addend.
    pub fn resolve_data(&self, va: u64) -> (r: Option<(String, i64)>)
        requires
            self.wf(),
        ensures
            opt_target(r) == self@.data_target(va),
    {
        match self.resolve_code(va) {
            Some(target) => Some(target),
            None => self.section_relative(va),
        }
    }

    fn section_relative(&self, va: u64) -> (r: Option<(String, i64)>)
        ensures
            opt_target(r) == self@.section_target(va),
    {
        if let Some((start, end)) = self.data_range {
            if start <= va && va < end {
                return Some((SYM_DATA_START.to_owned(), (va - start) as i64));
            }
        }
        if let Some((start, end)) = self.const_range {
            if start <= va && va < end {
                return Some((SYM_CONST_START.to_owned(), (va - start) as i64));
            }
        }
        if let Some((start, end)) = self.bss_range {
            if start <= va && va < end {
                return Some((SYM_BSS_START.to_owned(), (va - start) as i64));
            }
        }
        None
    }
}

/// A named address resolves to its own name, as code and as data, whatever
/// function or section it lies in.
pub proof fn lemma_names_come_first(v: SymbolsView, va: u64)
    requires
        v.names.contains_key(va),
    ensures
        v.exact_target(va) == Some((v.names[va], 0i64)),
        v.code_target(va) == v.exact_target(va),
        v.data_target(va) == v.exact_target(va),
{
}

} // verus!
