//! What addresses resolve to: the exported name there, else a place in the function
//! or the data section that holds the address.

use crate::addr_map::{
    below, keys_increase, last_at_or_before, lemma_below, lemma_put_keeps_order,
    lemma_put_then_read, value_at,
};
use crate::model::{Function, IdaModel, Name, RelocView, SegClass, Section};
use crate::ownership::{owns, split_target, OwnedView};
use crate::resolver::{
    built, class_range, function_names, functions_by_start, in_range, keeps_variable, of_class,
    relocs_by_address, variables_by_address, with_names, FnInfoView, SymbolsView, VariableView,
};
use crate::seqs::{first, lemma_first_index, lemma_first_index_is, lemma_first_index_none};
use vstd::prelude::*;

verus! {

// ---------------------------------------------------------------------------
// Names
// ---------------------------------------------------------------------------

/// Whether the `i`th name is the last one at its address.
pub open spec fn is_last_name(names: Seq<Name>, i: int) -> bool {
    &&& 0 <= i < names.len()
    &&& forall|j: int| i < j < names.len() ==> (#[trigger] names[j]).addr != names[i].addr
}

/// Whether the `i`th function is the first one at its start.
pub open spec fn is_first_start(functions: Seq<Function>, i: int) -> bool {
    &&& 0 <= i < functions.len()
    &&& forall|j: int| 0 <= j < i ==> (#[trigger] functions[j]).start != functions[i].start
}

proof fn lemma_function_names(functions: Seq<Function>, va: u64)
    ensures
        ({
            let known = function_names(functions);
            &&& known.contains_key(va) <==> exists|i: int| #[trigger]
                is_first_start(functions, i) && functions[i].start == va
            &&& forall|i: int| #[trigger]
                is_first_start(functions, i) && functions[i].start == va ==> known.contains_key(va)
                    && known[va] == functions[i].name@
        }),
    decreases functions.len(),
{
    let known = function_names(functions);
    if functions.len() > 0 {
        let init = functions.drop_last();
        let f = functions.last();
        let n = init.len() as int;
        lemma_function_names(init, va);
        assert forall|i: int| 0 <= i < n implies is_first_start(functions, i) == is_first_start(
            init,
            i,
        ) by {
            assert(init[i] == functions[i]);
            if is_first_start(functions, i) {
                assert forall|j: int| 0 <= j < i implies (#[trigger] init[j]).start
                    != init[i].start by {
                    assert(init[j] == functions[j]);
                }
            }
            if is_first_start(init, i) {
                assert forall|j: int| 0 <= j < i implies (#[trigger] functions[j]).start
                    != functions[i].start by {
                    assert(init[j] == functions[j]);
                }
            }
        }
        assert(functions[n] == f);
        if f.start == va {
            lemma_first_start(init, va);
            if function_names(init).contains_key(va) {
                let i = choose|i: int| #[trigger]
                    is_first_start(init, i) && init[i].start == va;
                assert(is_first_start(functions, i));
                assert(functions[i].start == va);
            } else {
                assert forall|j: int| 0 <= j < n implies (#[trigger] functions[j]).start
                    != functions[n].start by {
                    assert(init[j] == functions[j]);
                }
                assert(is_first_start(functions, n));
            }
        }
        if known.contains_key(va) && f.start != va {
            let i = choose|i: int| #[trigger] is_first_start(init, i) && init[i].start == va;
            assert(is_first_start(functions, i));
            assert(functions[i].start == va);
        }
        assert forall|i: int| #[trigger] is_first_start(functions, i) && functions[i].start
            == va implies known.contains_key(va) && known[va] == functions[i].name@ by {
            if i < n {
                assert(is_first_start(init, i));
                assert(init[i].start == va);
            } else if function_names(init).contains_key(va) {
                let k = choose|k: int| #[trigger] is_first_start(init, k) && init[k].start == va;
                assert(functions[k].start == va);
            }
        }
    }
}

/// Where a function starts, one is the first there.
proof fn lemma_first_start(functions: Seq<Function>, va: u64)
    ensures
        (forall|j: int| 0 <= j < functions.len() ==> (#[trigger] functions[j]).start != va)
            || exists|i: int| #[trigger]
            is_first_start(functions, i) && functions[i].start == va,
    decreases functions.len(),
{
    if functions.len() > 0 {
        let init = functions.drop_last();
        let n = init.len() as int;
        lemma_first_start(init, va);
        if exists|i: int| #[trigger] is_first_start(init, i) && init[i].start == va {
            let i = choose|i: int| #[trigger] is_first_start(init, i) && init[i].start == va;
            assert forall|j: int| 0 <= j < i implies (#[trigger] functions[j]).start
                != functions[i].start by {
                assert(init[j] == functions[j]);
            }
            assert(init[i] == functions[i]);
            assert(is_first_start(functions, i));
        } else if functions[n].start == va {
            assert forall|j: int| 0 <= j < n implies (#[trigger] functions[j]).start
                != functions[n].start by {
                assert(init[j] == functions[j]);
            }
            assert(is_first_start(functions, n));
        } else {
            assert forall|j: int| 0 <= j < functions.len() implies (#[trigger] functions[j]).start
                != va by {
                if j < n {
                    assert(init[j] == functions[j]);
                }
            }
        }
    }
}

proof fn lemma_with_names(known: Map<u64, Seq<char>>, names: Seq<Name>, va: u64)
    ensures
        ({
            let all = with_names(known, names);
            &&& (forall|j: int| 0 <= j < names.len() ==> (#[trigger] names[j]).addr != va) ==> {
                &&& all.contains_key(va) == known.contains_key(va)
                &&& all.contains_key(va) ==> all[va] == known[va]
            }
            &&& forall|i: int| #[trigger]
                is_last_name(names, i) && names[i].addr == va ==> all.contains_key(va) && all[va]
                    == names[i].name@
        }),
    decreases names.len(),
{
    if names.len() > 0 {
        let init = names.drop_last();
        let n = init.len() as int;
        lemma_with_names(known, init, va);
        let all = with_names(known, names);
        assert(names[n] == names.last());
        if forall|j: int| 0 <= j < names.len() ==> (#[trigger] names[j]).addr != va {
            assert forall|j: int| 0 <= j < init.len() implies (#[trigger] init[j]).addr != va by {
                assert(init[j] == names[j]);
            }
        }
        assert forall|i: int| #[trigger] is_last_name(names, i) && names[i].addr
            == va implies all.contains_key(va) && all[va] == names[i].name@ by {
            if i < n {
                assert(names[n].addr != va);
                assert forall|j: int| i < j < init.len() implies (#[trigger] init[j]).addr
                    != init[i].addr by {
                    assert(init[j] == names[j]);
                }
                assert(init[i] == names[i]);
                assert(is_last_name(init, i));
            }
        }
    }
}

/// An address with an exported name resolves to it, as code and as data; of several
/// names the last counts.
pub proof fn lemma_exported_names_resolve(model: IdaModel, relocs: Seq<RelocView>, i: int)
    requires
        is_last_name(model.names@, i),
    ensures
        ({
            let n = model.names@[i];
            let symbols = built(model, relocs);
            &&& symbols.code_target(n.addr) == Some((n.name@, 0i64))
            &&& symbols.data_target(n.addr) == Some((n.name@, 0i64))
        }),
{
    lemma_with_names(function_names(model.functions@), model.names@, model.names@[i].addr);
}

/// Where a function starts and no name is exported, the address resolves to the
/// function's name; of several functions the first counts.
pub proof fn lemma_function_starts_resolve(model: IdaModel, relocs: Seq<RelocView>, i: int)
    requires
        is_first_start(model.functions@, i),
        forall|j: int|
            0 <= j < model.names@.len() ==> (#[trigger] model.names@[j]).addr
                != model.functions@[i].start,
    ensures
        ({
            let f = model.functions@[i];
            let symbols = built(model, relocs);
            &&& symbols.code_target(f.start) == Some((f.name@, 0i64))
            &&& symbols.data_target(f.start) == Some((f.name@, 0i64))
        }),
{
    let va = model.functions@[i].start;
    lemma_function_names(model.functions@, va);
    lemma_with_names(function_names(model.functions@), model.names@, va);
}

// ---------------------------------------------------------------------------
// Functions
// ---------------------------------------------------------------------------

/// Whether the `i`th function is the last one with the greatest start up to `va`.
pub open spec fn is_nearest(functions: Seq<Function>, va: u64, i: int) -> bool {
    &&& 0 <= i < functions.len()
    &&& functions[i].start <= va
    &&& forall|j: int|
        0 <= j < functions.len() && (#[trigger] functions[j]).start <= va ==> functions[j].start
            < functions[i].start || functions[j].start == functions[i].start && j <= i
}

/// Whether the `i`th function is the last one at its start.
pub open spec fn is_last_start(functions: Seq<Function>, i: int) -> bool {
    &&& 0 <= i < functions.len()
    &&& forall|j: int|
        i < j < functions.len() ==> (#[trigger] functions[j]).start != functions[i].start
}

/// Whether no function starts at an address.
pub open spec fn none_starts(functions: Seq<Function>, va: u64) -> bool {
    forall|j: int| 0 <= j < functions.len() ==> (#[trigger] functions[j]).start != va
}

proof fn lemma_none_starts(functions: Seq<Function>, va: u64)
    requires
        functions.len() > 0,
    ensures
        none_starts(functions, va) == (none_starts(functions.drop_last(), va)
            && functions.last().start != va),
{
    let init = functions.drop_last();
    assert forall|j: int| 0 <= j < init.len() implies #[trigger] init[j] == functions[j] by {}
    if none_starts(functions, va) {
        assert(functions[functions.len() - 1].start != va);
        assert forall|j: int| 0 <= j < init.len() implies (#[trigger] init[j]).start != va by {
            assert(functions[j].start != va);
        }
    }
    if none_starts(init, va) && functions.last().start != va {
        assert forall|j: int| 0 <= j < functions.len() implies (#[trigger] functions[j]).start
            != va by {
            if j < init.len() {
                assert(init[j].start != va);
            }
        }
    }
}

proof fn lemma_last_start(functions: Seq<Function>, i: int)
    requires
        is_last_start(functions, i),
        i < functions.len() - 1,
    ensures
        is_last_start(functions.drop_last(), i),
        functions.last().start != functions[i].start,
{
    let init = functions.drop_last();
    assert(functions[functions.len() - 1].start != functions[i].start);
    assert forall|j: int| i < j < init.len() implies (#[trigger] init[j]).start
        != init[i].start by {
        assert(functions[j].start != functions[i].start);
    }
}

proof fn lemma_functions_by_start(functions: Seq<Function>, va: u64)
    ensures
        keys_increase(functions_by_start(functions)),
        value_at(functions_by_start(functions), va) is None <==> none_starts(functions, va),
        forall|i: int| #[trigger]
            is_last_start(functions, i) && functions[i].start == va ==> value_at(
                functions_by_start(functions),
                va,
            ) == Some(FnInfoView { end: functions[i].end, name: functions[i].name@ }),
    decreases functions.len(),
{
    if functions.len() > 0 {
        let init = functions.drop_last();
        let f = functions.last();
        let before = functions_by_start(init);
        lemma_functions_by_start(init, va);
        let info = FnInfoView { end: f.end, name: f.name@ };
        lemma_put_keeps_order(before, f.start, info);
        lemma_put_then_read(before, f.start, info, va);
        lemma_none_starts(functions, va);
        assert forall|i: int| #[trigger] is_last_start(functions, i) && functions[i].start
            == va implies value_at(functions_by_start(functions), va) == Some(
            FnInfoView { end: functions[i].end, name: functions[i].name@ },
        ) by {
            if i < init.len() {
                lemma_last_start(functions, i);
                assert(init[i] == functions[i]);
            }
        }
    }
}

proof fn lemma_nearest(functions: Seq<Function>, va: u64, i: int)
    requires
        is_nearest(functions, va, i),
    ensures
        last_at_or_before(functions_by_start(functions), va) == Some(
            (
                functions[i].start,
                FnInfoView { end: functions[i].end, name: functions[i].name@ },
            ),
        ),
{
    let funcs = functions_by_start(functions);
    let start = functions[i].start;
    lemma_functions_by_start(functions, start);
    assert(is_last_start(functions, i));
    let b = below(funcs, va + 1);
    lemma_below(funcs, va + 1);
    lemma_below(funcs, start as int);
    let p = below(funcs, start as int);
    assert(funcs[p].0 == start);
    assert(p < b);
    if p < b - 1 {
        let key = funcs[b - 1].0;
        assert(funcs[p].0 < funcs[b - 1].0);
        lemma_functions_by_start(functions, key);
        lemma_below(funcs, key as int);
        assert(below(funcs, key as int) == b - 1) by {
            crate::addr_map::lemma_below_is(funcs, key as int, b - 1);
        }
        assert(!none_starts(functions, key));
        let j = choose|j: int| 0 <= j < functions.len() && (#[trigger] functions[j]).start == key;
        assert(functions[j].start <= va);
    }
}

/// An address without a name in a function resolves to a place in the function: its
/// name and the distance from its start.
pub proof fn lemma_addresses_in_functions_resolve(
    model: IdaModel,
    relocs: Seq<RelocView>,
    va: u64,
    i: int,
)
    requires
        is_nearest(model.functions@, va, i),
        va < model.functions@[i].end,
        forall|j: int| 0 <= j < model.names@.len() ==> (#[trigger] model.names@[j]).addr != va,
        model.functions@[i].start < va,
    ensures
        ({
            let f = model.functions@[i];
            let symbols = built(model, relocs);
            &&& symbols.code_target(va) == Some((f.name@, (va - f.start) as i64))
            &&& symbols.data_target(va) == Some((f.name@, (va - f.start) as i64))
        }),
{
    lemma_nearest(model.functions@, va, i);
    lemma_no_function_name(model.functions@, va, i);
    lemma_with_names(function_names(model.functions@), model.names@, va);
}

proof fn lemma_no_function_name(functions: Seq<Function>, va: u64, i: int)
    requires
        is_nearest(functions, va, i),
        functions[i].start < va,
    ensures
        !function_names(functions).contains_key(va),
{
    lemma_function_names(functions, va);
    if function_names(functions).contains_key(va) {
        let k = choose|k: int| #[trigger] is_first_start(functions, k) && functions[k].start == va;
        assert(functions[k].start <= va);
    }
}

// ---------------------------------------------------------------------------
// Data
// ---------------------------------------------------------------------------

/// Whether no function and no name is at an address.
pub open spec fn is_unnamed(model: IdaModel, va: u64) -> bool {
    &&& forall|j: int| 0 <= j < model.names@.len() ==> (#[trigger] model.names@[j]).addr != va
    &&& forall|j: int|
        0 <= j < model.functions@.len() && (#[trigger] model.functions@[j]).start <= va
            ==> model.functions@[j].end <= va && model.functions@[j].start != va
}

proof fn lemma_unnamed(model: IdaModel, relocs: Seq<RelocView>, va: u64)
    requires
        is_unnamed(model, va),
    ensures
        built(model, relocs).exact_target(va) is None,
        built(model, relocs).code_target(va) is None,
{
    let functions = model.functions@;
    let funcs = functions_by_start(functions);
    lemma_function_names(functions, va);
    lemma_with_names(function_names(functions), model.names@, va);
    if function_names(functions).contains_key(va) {
        let k = choose|k: int| #[trigger] is_first_start(functions, k) && functions[k].start == va;
        assert(functions[k].start != va);
    }
    lemma_functions_by_start(functions, va);
    lemma_below(funcs, va + 1);
    if let Some((start, info)) = last_at_or_before(funcs, va) {
        lemma_info_is_of_function(functions, start, info);
    }
}

proof fn lemma_info_is_of_function(functions: Seq<Function>, start: u64, info: FnInfoView)
    requires
        functions_by_start(functions).contains((start, info)) || exists|k: int|
            0 <= k < functions_by_start(functions).len() && functions_by_start(functions)[k] == (
                start,
                info,
            ),
    ensures
        exists|j: int|
            0 <= j < functions.len() && (#[trigger] functions[j]).start == start
                && functions[j].end == info.end && functions[j].name@ == info.name,
    decreases functions.len(),
{
    let funcs = functions_by_start(functions);
    let k = choose|k: int| 0 <= k < funcs.len() && funcs[k] == (start, info);
    if functions.len() > 0 {
        let init = functions.drop_last();
        let f = functions.last();
        let n = init.len() as int;
        let before = functions_by_start(init);
        lemma_functions_by_start(init, f.start);
        assert(functions[n] == f);
        if (start, info) != (f.start, FnInfoView { end: f.end, name: f.name@ }) {
            let i = below(before, f.start as int);
            lemma_below(before, f.start as int);
            if value_at(before, f.start) is Some {
                assert(before[k] == (start, info));
            } else if k < i {
                assert(before[k] == (start, info));
            } else {
                assert(before[k - 1] == (start, info));
            }
            lemma_info_is_of_function(init, start, info);
            let j = choose|j: int|
                0 <= j < init.len() && (#[trigger] init[j]).start == start && init[j].end
                    == info.end && init[j].name@ == info.name;
            assert(functions[j] == init[j]);
        }
    }
}

/// The marks at the start of the data that is shared, by the class of its section.
pub open spec fn mark_of(class: SegClass) -> Seq<char> {
    match class {
        SegClass::Data => "__delink_ida_data_start"@,
        SegClass::Const => "__delink_ida_const_start"@,
        _ => "__delink_ida_bss_start"@,
    }
}

/// Whether the first section of a class holds an address.
pub open spec fn first_holds(sections: Seq<Section>, class: SegClass, va: u64, s: int) -> bool {
    &&& 0 <= s < sections.len()
    &&& sections[s].class == class
    &&& sections[s].start <= va < sections[s].end
    &&& forall|j: int| 0 <= j < s ==> (#[trigger] sections[j]).class != class
}

/// Data at an address without a name or a function resolves to the mark of the
/// first section of its class and the distance from that section's start.
pub proof fn lemma_data_resolves(
    model: IdaModel,
    relocs: Seq<RelocView>,
    va: u64,
    class: SegClass,
    s: int,
)
    requires
        is_unnamed(model, va),
        class == SegClass::Data || class == SegClass::Const || class == SegClass::Bss,
        first_holds(model.sections@, class, va, s),
        forall|c: SegClass, t: int| #[trigger]
            first_holds(model.sections@, c, va, t) ==> c != SegClass::Data && c != SegClass::Const
                && c != SegClass::Bss || c == class,
    ensures
        built(model, relocs).data_target(va) == Some(
            (mark_of(class), (va - model.sections@[s].start) as i64),
        ),
        built(model, relocs).code_target(va) is None,
{
    lemma_unnamed(model, relocs, va);
    let sections = model.sections@;
    lemma_first_index_is(sections, of_class(class), s);
    assert(in_range(class_range(sections, class), va));
    assert forall|c: SegClass| c != class && (c == SegClass::Data || c == SegClass::Const || c
        == SegClass::Bss) implies !in_range(#[trigger] class_range(sections, c), va) by {
        if in_range(class_range(sections, c), va) {
            lemma_first_index(sections, of_class(c));
            let t = crate::seqs::first_index(sections, of_class(c))->0;
            assert(first_holds(sections, c, va, t));
        }
    }
    assert(class != SegClass::Data ==> !in_range(class_range(sections, SegClass::Data), va));
    assert(class != SegClass::Const ==> !in_range(class_range(sections, SegClass::Const), va));
    assert(class != SegClass::Bss ==> !in_range(class_range(sections, SegClass::Bss), va));
}

/// What code resolves to leads back: there is an exported name or a function of
/// that name, as far before the address as the addend says.
pub proof fn lemma_code_targets_lead_back(
    model: IdaModel,
    relocs: Seq<RelocView>,
    va: u64,
    name: Seq<char>,
    addend: i64,
)
    requires
        built(model, relocs).code_target(va) == Some((name, addend)),
    ensures
        ({
            ||| exists|i: int|
                0 <= i < model.names@.len() && (#[trigger] model.names@[i]).addr == va
                    && model.names@[i].name@ == name && addend == 0
            ||| exists|i: int|
                0 <= i < model.functions@.len() && (#[trigger] model.functions@[i]).name@ == name
                    && model.functions@[i].start <= va && (va - model.functions@[i].start) as i64
                    == addend && (addend == 0 || va < model.functions@[i].end)
        }),
{
    let functions = model.functions@;
    let names = model.names@;
    lemma_function_names(functions, va);
    lemma_with_names(function_names(functions), names, va);
    if exists|j: int| 0 <= j < names.len() && (#[trigger] names[j]).addr == va {
        lemma_last_name(names, va);
        let i = choose|i: int| #[trigger] is_last_name(names, i) && names[i].addr == va;
        assert(names[i].name@ == name);
    } else if function_names(functions).contains_key(va) {
        let i = choose|i: int| #[trigger] is_first_start(functions, i) && functions[i].start == va;
        assert(functions[i].name@ == name);
    } else {
        let funcs = functions_by_start(functions);
        lemma_functions_by_start(functions, va);
        lemma_below(funcs, va + 1);
        let (start, info) = last_at_or_before(funcs, va)->0;
        lemma_info_is_of_function(functions, start, info);
    }
}

proof fn lemma_last_name(names: Seq<Name>, va: u64)
    requires
        exists|j: int| 0 <= j < names.len() && (#[trigger] names[j]).addr == va,
    ensures
        exists|i: int| #[trigger] is_last_name(names, i) && names[i].addr == va,
    decreases names.len(),
{
    let j = choose|j: int| 0 <= j < names.len() && (#[trigger] names[j]).addr == va;
    let n = names.len() - 1;
    if names[n].addr == va {
        assert(is_last_name(names, n));
    } else {
        let init = names.drop_last();
        assert(init[j].addr == va);
        lemma_last_name(init, va);
        let i = choose|i: int| #[trigger] is_last_name(init, i) && init[i].addr == va;
        assert forall|k: int| i < k < names.len() implies (#[trigger] names[k]).addr
            != names[i].addr by {
            if k < n {
                assert(init[k] == names[k]);
            }
        }
        assert(is_last_name(names, i));
    }
}

/// A reference to data that an object owns, at an address without an exported name
/// or a function's start, resolves to the anchor of the owned range and the
/// distance from its start.
pub proof fn lemma_owned_data_resolves(
    symbols: SymbolsView,
    owned: Seq<OwnedView>,
    va: u64,
    k: int,
)
    requires
        !symbols.names.contains_key(va),
        0 <= k < owned.len(),
        owned[k].range.start <= va < owned[k].range.end,
        forall|j: int|
            0 <= j < k ==> !((#[trigger] owned[j]).range.start <= va < owned[j].range.end),
    ensures
        split_target(symbols, owned, va) == Some(
            (owned[k].anchor, (va - owned[k].range.start) as i64),
        ),
{
    lemma_first_index_is(owned, owns(va), k);
}

/// Data that no object owns resolves as it does without owners.
pub proof fn lemma_unowned_data_resolves(symbols: SymbolsView, owned: Seq<OwnedView>, va: u64)
    requires
        forall|j: int|
            0 <= j < owned.len() ==> !((#[trigger] owned[j]).range.start <= va
                < owned[j].range.end),
    ensures
        split_target(symbols, owned, va) == symbols.data_target(va),
{
    lemma_first_index_none(owned, owns(va));
}

// ---------------------------------------------------------------------------
// Relocations and variables
// ---------------------------------------------------------------------------

proof fn lemma_relocs_by_address(relocs: Seq<RelocView>, r: RelocView)
    ensures
        keys_increase(relocs_by_address(relocs)),
        value_at(relocs_by_address(relocs), r.addr) == Some(r) <==> exists|i: int|
            0 <= i < relocs.len() && relocs[i] == r && forall|j: int|
                i < j < relocs.len() ==> (#[trigger] relocs[j]).addr != r.addr,
        value_at(relocs_by_address(relocs), r.addr) is None <==> forall|j: int|
            0 <= j < relocs.len() ==> (#[trigger] relocs[j]).addr != r.addr,
    decreases relocs.len(),
{
    if relocs.len() > 0 {
        let init = relocs.drop_last();
        let last = relocs.last();
        let n = init.len() as int;
        let before = relocs_by_address(init);
        lemma_relocs_by_address(init, r);
        lemma_put_keeps_order(before, last.addr, last);
        lemma_put_then_read(before, last.addr, last, r.addr);
        assert(relocs[n] == last);
        assert forall|j: int| 0 <= j < n implies #[trigger] relocs[j] == init[j] by {}
        if exists|i: int|
            0 <= i < relocs.len() && relocs[i] == r && forall|j: int|
                i < j < relocs.len() ==> (#[trigger] relocs[j]).addr != r.addr {
            let i = choose|i: int|
                0 <= i < relocs.len() && relocs[i] == r && forall|j: int|
                    i < j < relocs.len() ==> (#[trigger] relocs[j]).addr != r.addr;
            if i < n {
                assert(relocs[n].addr != r.addr);
                assert(init[i] == r);
                assert forall|j: int| i < j < init.len() implies (#[trigger] init[j]).addr
                    != r.addr by {
                    assert(relocs[j].addr != r.addr);
                }
            }
        }
        if last == r {
            assert(relocs[n] == r);
        } else if last.addr != r.addr && exists|i: int|
            0 <= i < init.len() && init[i] == r && forall|j: int|
                i < j < init.len() ==> (#[trigger] init[j]).addr != r.addr {
            let i = choose|i: int|
                0 <= i < init.len() && init[i] == r && forall|j: int|
                    i < j < init.len() ==> (#[trigger] init[j]).addr != r.addr;
            assert(relocs[i] == r);
            assert forall|j: int| i < j < relocs.len() implies (#[trigger] relocs[j]).addr
                != r.addr by {
                if j < n {
                    assert(init[j].addr != r.addr);
                }
            }
        }
        if forall|j: int| 0 <= j < relocs.len() ==> (#[trigger] relocs[j]).addr != r.addr {
            assert(relocs[n].addr != r.addr);
            assert forall|j: int| 0 <= j < init.len() implies (#[trigger] init[j]).addr
                != r.addr by {
                assert(relocs[j].addr != r.addr);
            }
        }
        if last.addr != r.addr && (forall|j: int|
            0 <= j < init.len() ==> (#[trigger] init[j]).addr != r.addr) {
            assert forall|j: int| 0 <= j < relocs.len() implies (#[trigger] relocs[j]).addr
                != r.addr by {
                if j < n {
                    assert(init[j].addr != r.addr);
                }
            }
        }
    }
}

/// The resolver knows every relocation by its address; of several at one address
/// the last.
pub proof fn lemma_relocations_are_known(model: IdaModel, relocs: Seq<RelocView>, i: int)
    requires
        0 <= i < relocs.len(),
        forall|j: int| i < j < relocs.len() ==> (#[trigger] relocs[j]).addr != relocs[i].addr,
    ensures
        built(model, relocs).relocs.contains((relocs[i].addr, relocs[i])),
{
    let r = relocs[i];
    lemma_relocs_by_address(relocs, r);
    let all = relocs_by_address(relocs);
    lemma_below(all, r.addr as int);
    assert(relocs[i] == r);
    assert(value_at(all, r.addr) == Some(r));
    assert(all[below(all, r.addr as int)] == (r.addr, r));
}

/// Whether a name is that of a variable: no function's, where none starts, in a
/// section of data or of imports.
pub open spec fn names_variable(model: IdaModel, n: Name, s: int) -> bool {
    let sections = model.sections@;
    &&& !n.is_func
    &&& none_starts(model.functions@, n.addr)
    &&& 0 <= s < sections.len()
    &&& sections[s].start <= n.addr < sections[s].end
    &&& sections[s].class == SegClass::Data || sections[s].class == SegClass::Const
        || sections[s].class == SegClass::Bss || sections[s].class == SegClass::Xtrn
}

proof fn lemma_variables(model: IdaModel, names: Seq<Name>, i: int, s: int)
    requires
        is_last_name(names, i),
        names_variable(model, names[i], s),
    ensures
        keys_increase(
            variables_by_address(
                model.sections@,
                functions_by_start(model.functions@),
                names,
            ),
        ),
        value_at(
            variables_by_address(
                model.sections@,
                functions_by_start(model.functions@),
                names,
            ),
            names[i].addr,
        ) == Some(
            VariableView { name: names[i].name@, public: names[i].public, size: names[i].size },
        ),
    decreases names.len(),
{
    let funcs = functions_by_start(model.functions@);
    let sections = model.sections@;
    let init = names.drop_last();
    let n = names.last();
    let before = variables_by_address(sections, funcs, init);
    lemma_variables_keyed(sections, funcs, init);
    let v = VariableView { name: n.name@, public: n.public, size: n.size };
    lemma_put_keeps_order(before, n.addr, v);
    lemma_put_then_read(before, n.addr, v, names[i].addr);
    lemma_functions_by_start(model.functions@, names[i].addr);
    if i < init.len() {
        assert(names[names.len() - 1].addr != names[i].addr);
        assert(init[i] == names[i]);
        assert forall|j: int| i < j < init.len() implies (#[trigger] init[j]).addr
            != init[i].addr by {
            assert(names[j].addr != names[i].addr);
        }
        lemma_variables(model, init, i, s);
    } else {
        lemma_first_index(sections, keeps_variable(n.addr));
        assert(keeps_variable(n.addr)(sections[s]));
    }
}

proof fn lemma_variables_keyed(
    sections: Seq<Section>,
    funcs: Seq<(u64, FnInfoView)>,
    names: Seq<Name>,
)
    ensures
        keys_increase(variables_by_address(sections, funcs, names)),
    decreases names.len(),
{
    if names.len() > 0 {
        lemma_variables_keyed(sections, funcs, names.drop_last());
        let n = names.last();
        lemma_put_keeps_order(
            variables_by_address(sections, funcs, names.drop_last()),
            n.addr,
            VariableView { name: n.name@, public: n.public, size: n.size },
        );
    }
}

/// The resolver knows every variable by its address, with its name and its size; of
/// several names at one address the last.
pub proof fn lemma_variables_are_known(model: IdaModel, relocs: Seq<RelocView>, i: int, s: int)
    requires
        is_last_name(model.names@, i),
        names_variable(model, model.names@[i], s),
    ensures
        built(model, relocs).variables.contains(
            (
                model.names@[i].addr,
                VariableView {
                    name: model.names@[i].name@,
                    public: model.names@[i].public,
                    size: model.names@[i].size,
                },
            ),
        ),
{
    let all = built(model, relocs).variables;
    let n = model.names@[i];
    lemma_variables(model, model.names@, i, s);
    lemma_below(all, n.addr as int);
    assert(all[below(all, n.addr as int)].0 == n.addr);
}

} // verus!
