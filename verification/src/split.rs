//! Splitting an image into object files: one per group of functions and data
//! ranges, and one for everything else.

use crate::addr_map::AddrMap;
use crate::draft::DraftView;
use crate::emitter::{EmitStats, EmitView, Emitter, WideRecovery, WideRecoveryView};
use crate::format::OutputFormat;
use crate::groups::{empty_group, DataRange, GroupView, IdaproJson, ObjectGroup};
use crate::model::{IdaArch, IdaModel, Name};
use crate::objects::group_drafted;
use crate::ownership::{
    data_ranges_fault, expand_function_ranges, expanded, owned_by_groups, owned_data_ranges,
    validate_data_ranges, OwnedDataRange, OwnedView,
};
use crate::pe::{PeImage, SectionView};
use crate::plan::{finish, finished, undefined_names};
use crate::ranges::Span;
use crate::resolver::{IdaSymbols, SymbolsView};
use crate::seqs::views;
use crate::shared::{shared_drafted, Elsewhere, Held, SharedDataStats};
use crate::sorting::{in_key_order, lemma_stable_sort_orders, sort_stably, stable_sort};
use crate::text::{quoted_text, Error};
use crate::writer::{plan_bytes, write_plan};
use std::collections::HashSet;
use vstd::prelude::*;

verus! {

// ---------------------------------------------------------------------------
// One object
// ---------------------------------------------------------------------------

/// The statistics of a finished object.
pub open spec fn finished_stats(d: DraftView, stats: EmitStats) -> EmitStats {
    EmitStats {
        local_symbols: d.local.len() as usize,
        undef_symbols: undefined_names(d).len() as usize,
        relocations: finished(d).relocs.len() as usize,
        ..stats
    }
}

/// The bytes and the statistics of the object of a group.
pub open spec fn object_emitted(ctx: EmitView, group: GroupView) -> Result<
    (Seq<u8>, EmitStats),
    Seq<char>,
> {
    match group_drafted(ctx, group) {
        Err(e) => Err(e),
        Ok((d, stats)) => match plan_bytes(ctx.format, ctx.model, finished(d), "add reloc at "@) {
            Err(e) => Err(e),
            Ok(bytes) => Ok((bytes, finished_stats(d, stats))),
        },
    }
}

/// The bytes and the statistics of the object of what no other object holds.
pub open spec fn shared_emitted(ctx: EmitView, elsewhere: Elsewhere) -> Result<
    (Seq<u8>, SharedDataStats),
    Seq<char>,
> {
    match shared_drafted(ctx, elsewhere) {
        Err(e) => Err(e),
        Ok((d, stats)) => match plan_bytes(
            ctx.format,
            ctx.model,
            finished(d),
            "add data reloc at "@,
        ) {
            Err(e) => Err(e),
            Ok(bytes) => Ok(
                (
                    bytes,
                    SharedDataStats { relocations: finished(d).relocs.len() as usize, ..stats },
                ),
            ),
        },
    }
}

impl<'a> Emitter<'a> {
    /// Emit the object of a group.
    pub fn emit_object(&self, group: &ObjectGroup) -> (r: Result<(Vec<u8>, EmitStats), Error>)
        requires
            self.wf(),
        ensures
            match r {
                Ok((bytes, stats)) => object_emitted(self@, group@) == Ok::<
                    (Seq<u8>, EmitStats),
                    Seq<char>,
                >((bytes@, stats)),
                Err(e) => object_emitted(self@, group@) == Err::<(Seq<u8>, EmitStats), Seq<char>>(
                    e@,
                ),
            },
    {
        let (draft, mut stats) = match self.draft_group(group) {
            Ok(found) => found,
            Err(e) => {
                return Err(e);
            },
        };
        let (plan, locals, undefs) = finish(draft);
        stats.local_symbols = locals;
        stats.undef_symbols = undefs;
        stats.relocations = plan.relocs.len();
        match write_plan(self.format, self.model, &plan, "add reloc at ") {
            Ok(bytes) => Ok((bytes, stats)),
            Err(e) => Err(e),
        }
    }

    /// Emit the object of what no other object holds.
    pub fn emit_unowned(&self, held: &Held) -> (r: Result<(Vec<u8>, SharedDataStats), Error>)
        requires
            self.wf(),
        ensures
            match r {
                Ok((bytes, stats)) => shared_emitted(self@, held@) == Ok::<
                    (Seq<u8>, SharedDataStats),
                    Seq<char>,
                >((bytes@, stats)),
                Err(e) => shared_emitted(self@, held@) == Err::<
                    (Seq<u8>, SharedDataStats),
                    Seq<char>,
                >(e@),
            },
    {
        let (draft, mut stats) = match self.draft_shared(held) {
            Ok(found) => found,
            Err(e) => {
                return Err(e);
            },
        };
        let (plan, _, _) = finish(draft);
        stats.relocations = plan.relocs.len();
        match write_plan(self.format, self.model, &plan, "add data reloc at ") {
            Ok(bytes) => Ok((bytes, stats)),
            Err(e) => Err(e),
        }
    }
}

// ---------------------------------------------------------------------------
// All objects
// ---------------------------------------------------------------------------

/// The emitter of a model whose data is owned as `owned` says.
pub open spec fn emit_context(
    model: IdaModel,
    image: Seq<SectionView>,
    symbols: SymbolsView,
    owned: Seq<OwnedView>,
    wide: Seq<(u64, WideRecoveryView)>,
    format: OutputFormat,
) -> EmitView {
    EmitView {
        model,
        image,
        symbols,
        owned,
        names: stable_sort(model.names@),
        wide,
        format,
    }
}

/// The exported names in address order.
pub fn names_in_order(model: &IdaModel) -> (r: Vec<Name>)
    ensures
        r@ == stable_sort(model.names@),
        in_key_order(r@),
{
    let mut names: Vec<Name> = Vec::new();
    let mut i: usize = 0;
    while i < model.names.len()
        invariant
            i <= model.names@.len(),
            names@ =~= model.names@.take(i as int),
        decreases model.names@.len() - i,
    {
        names.push(model.names[i].clone());
        i += 1;
    }
    assert(names@ =~= model.names@);
    proof {
        lemma_stable_sort_orders(model.names@);
    }
    sort_stably(names)
}

/// A grouping with its function ranges expanded, once its data ranges are sound.
pub open spec fn prepared(model: IdaModel, groups: Seq<(Seq<char>, GroupView)>) -> Result<
    Seq<(Seq<char>, GroupView)>,
    Seq<char>,
> {
    match expanded(model.sections@, model.functions@, groups) {
        Err(e) => Err(e),
        Ok(groups) => match data_ranges_fault(model.sections@, groups) {
            Some(e) => Err(e),
            None => Ok(groups),
        },
    }
}

/// Expands the function ranges of a grouping and checks its data ranges.
pub fn prepare_groups(model: &IdaModel, groups: &IdaproJson) -> (r: Result<IdaproJson, Error>)
    ensures
        match r {
            Ok(out) => prepared(*model, groups@) == Ok::<Seq<(Seq<char>, GroupView)>, Seq<char>>(
                out@,
            ),
            Err(e) => prepared(*model, groups@) == Err::<Seq<(Seq<char>, GroupView)>, Seq<char>>(
                e@,
            ),
        },
{
    let groups = match expand_function_ranges(model, groups) {
        Ok(groups) => groups,
        Err(e) => {
            return Err(e);
        },
    };
    match validate_data_ranges(model, &groups) {
        Ok(_) => Ok(groups),
        Err(e) => Err(e),
    }
}

/// What came of the object of one group.
pub struct CuOutcome {
    pub cu_name: String,
    /// The bytes of the object and its statistics.
    pub result: Result<(Vec<u8>, EmitStats), Error>,
}

#[verifier::ext_equal]
pub struct OutcomeView {
    pub cu_name: Seq<char>,
    pub result: Result<(Seq<u8>, EmitStats), Seq<char>>,
}

impl View for CuOutcome {
    type V = OutcomeView;

    open spec fn view(&self) -> OutcomeView {
        OutcomeView {
            cu_name: self.cu_name@,
            result: match self.result {
                Ok((bytes, stats)) => Ok((bytes@, stats)),
                Err(e) => Err(e@),
            },
        }
    }
}

/// The outcomes of the groups that hold anything, in the order of their names.
pub open spec fn outcomes(ctx: EmitView, groups: Seq<(Seq<char>, GroupView)>) -> Seq<OutcomeView>
    decreases groups.len(),
{
    if groups.len() == 0 {
        Seq::empty()
    } else {
        let before = outcomes(ctx, groups.drop_last());
        let (cu_name, group) = groups.last();
        if group == empty_group() {
            before
        } else {
            before.push(OutcomeView { cu_name, result: object_emitted(ctx, group) })
        }
    }
}

pub open spec fn unsupported_arch(procname: Seq<char>) -> Seq<char> {
    "relocation recovery is only implemented for x86 / x86-64 (procname "@ + quoted_text(procname)
        + ")"@
}

/// The outcomes of a split.
pub open spec fn split(
    model: IdaModel,
    image: Seq<SectionView>,
    symbols: SymbolsView,
    groups: Seq<(Seq<char>, GroupView)>,
    wide: Seq<(u64, WideRecoveryView)>,
    format: OutputFormat,
) -> Result<Seq<OutcomeView>, Seq<char>> {
    if model.arch == IdaArch::Other {
        Err(unsupported_arch(model.procname@))
    } else {
        match prepared(model, groups) {
            Err(e) => Err(e),
            Ok(groups) => Ok(
                outcomes(
                    emit_context(model, image, symbols, owned_by_groups(groups), wide, format),
                    groups,
                ),
            ),
        }
    }
}

/// Split driven by a grouping. Function addresses sharing a key are emitted into
/// one object named exactly by that key; all function metadata is resolved from
/// `model`. `wide` is what was recovered from 64-bit code, by the start of each
/// stretch of code that `Emitter::code_of` gives.
#[verifier::spinoff_prover]
#[verifier::rlimit(50)]
pub fn split_by_groups(
    model: &IdaModel,
    pe: &PeImage,
    symbols: &IdaSymbols,
    groups: &IdaproJson,
    wide: &AddrMap<WideRecovery>,
    format: OutputFormat,
) -> (r: Result<Vec<CuOutcome>, Error>)
    requires
        model.wf(),
        symbols.wf(),
        wide.wf(),
    ensures
        match r {
            Ok(done) => split(
                *model,
                pe.spec_sections(),
                symbols@,
                groups@,
                wide@,
                format,
            ) == Ok::<Seq<OutcomeView>, Seq<char>>(views(done@)),
            Err(e) => split(
                *model,
                pe.spec_sections(),
                symbols@,
                groups@,
                wide@,
                format,
            ) == Err::<Seq<OutcomeView>, Seq<char>>(e@),
        },
{
    if let Err(e) = check_arch(model) {
        return Err(e);
    }
    let groups = match prepare_groups(model, groups) {
        Ok(groups) => groups,
        Err(e) => {
            return Err(e);
        },
    };
    let owned = owned_data_ranges(&groups);
    let names = names_in_order(model);
    let emitter = Emitter { model, pe, symbols, owned: &owned, names: &names, wide, format };
    let ghost g = groups@;
    let mut done: Vec<CuOutcome> = Vec::new();
    let mut i: usize = 0;
    assert(g.take(0) =~= Seq::<(Seq<char>, GroupView)>::empty());
    assert(views(done@) =~= Seq::<OutcomeView>::empty());
    while i < groups.entries.len()
        invariant
            emitter.wf(),
            i <= groups.entries@.len(),
            g == groups@,
            views(done@) == outcomes(emitter@, g.take(i as int)),
        decreases groups.entries@.len() - i,
    {
        assert(g.take(i + 1).drop_last() =~= g.take(i as int));
        let name = &groups.entries[i].0;
        let group = &groups.entries[i].1;
        assert(g[i as int] == (name@, group@));
        if !group.is_empty() {
            let ghost before = done@;
            let outcome = CuOutcome {
                cu_name: name.clone(),
                result: emitter.emit_object(group),
            };
            done.push(outcome);
            assert(views(done@) =~= views(before).push(outcome@));
        }
        i += 1;
    }
    assert(g.take(g.len() as int) =~= g);
    Ok(done)
}

/// Checks that relocations can be recovered for the architecture of a model.
pub fn check_arch(model: &IdaModel) -> (r: Result<(), Error>)
    ensures
        match r {
            Ok(_) => model.arch != IdaArch::Other,
            Err(e) => model.arch == IdaArch::Other && e@ == unsupported_arch(model.procname@),
        },
{
    match model.arch {
        IdaArch::Other => Err(
            Error::new(
                "relocation recovery is only implemented for x86 / x86-64 (procname ",
            ).quote(model.procname.as_str()).text(")"),
        ),
        _ => Ok(()),
    }
}

// ---------------------------------------------------------------------------
// What no group holds
// ---------------------------------------------------------------------------

/// The starts of the functions that groups hold.
pub open spec fn grouped_functions(groups: Seq<(Seq<char>, GroupView)>) -> Set<u64>
    decreases groups.len(),
{
    if groups.len() == 0 {
        Set::empty()
    } else {
        grouped_functions(groups.drop_last()).union(groups.last().1.functions.to_set())
    }
}

pub open spec fn spans_of(ranges: Seq<DataRange>) -> Seq<Span> {
    ranges.map_values(|r: DataRange| Span { start: r.spec_start(), end: r.spec_end() })
}

/// The function ranges of groups.
pub open spec fn grouped_code(groups: Seq<(Seq<char>, GroupView)>) -> Seq<Span>
    decreases groups.len(),
{
    if groups.len() == 0 {
        Seq::empty()
    } else {
        grouped_code(groups.drop_last()) + spans_of(groups.last().1.function_ranges)
    }
}

pub open spec fn owned_spans(owned: Seq<OwnedView>) -> Seq<Span> {
    owned.map_values(|o: OwnedView| o.range)
}

/// What groups hold.
pub open spec fn held_by(groups: Seq<(Seq<char>, GroupView)>) -> Elsewhere {
    Elsewhere {
        data: owned_spans(owned_by_groups(groups)),
        code: grouped_code(groups),
        functions: grouped_functions(groups),
    }
}

pub open spec fn held_by_none() -> Elsewhere {
    Elsewhere { data: Seq::empty(), code: Seq::empty(), functions: Set::empty() }
}

fn collect_functions(groups: &IdaproJson) -> (r: HashSet<u64>)
    ensures
        r@ == grouped_functions(groups@),
{
    broadcast use vstd::std_specs::hash::group_hash_axioms;

    let ghost g = groups@;
    let mut set: HashSet<u64> = HashSet::new();
    let mut i: usize = 0;
    assert(g.take(0) =~= Seq::<(Seq<char>, GroupView)>::empty());
    assert(set@ =~= Set::<u64>::empty());
    while i < groups.entries.len()
        invariant
            i <= groups.entries@.len(),
            g == groups@,
            set@ == grouped_functions(g.take(i as int)),
        decreases groups.entries@.len() - i,
    {
        broadcast use vstd::std_specs::hash::group_hash_axioms;

        assert(g.take(i + 1).drop_last() =~= g.take(i as int));
        let group = &groups.entries[i].1;
        assert(g[i as int].1 == group@);
        let ghost before = set@;
        let ghost starts = group.functions@;
        let mut j: usize = 0;
        assert(set@ =~= before.union(starts.take(0).to_set()));
        while j < group.functions.len()
            invariant
                j <= group.functions@.len(),
                starts == group.functions@,
                set@ == before.union(starts.take(j as int).to_set()),
            decreases group.functions@.len() - j,
        {
            broadcast use vstd::std_specs::hash::group_hash_axioms;

            set.insert(group.functions[j]);
            proof {
                let a = starts.take(j as int);
                let b = starts.take(j + 1);
                assert(b =~= a.push(starts[j as int]));
                assert forall|x: u64| b.to_set().contains(x) <==> (a.to_set().contains(x) || x
                    == starts[j as int]) by {
                    if a.contains(x) {
                        let k = choose|k: int| 0 <= k < a.len() && a[k] == x;
                        assert(b[k] == x);
                    }
                    if b.contains(x) && x != starts[j as int] {
                        let k = choose|k: int| 0 <= k < b.len() && b[k] == x;
                        assert(a[k] == x);
                    }
                    assert(b[j as int] == starts[j as int]);
                }
                assert(set@ =~= before.union(b.to_set()));
            }
            j += 1;
        }
        assert(starts.take(starts.len() as int) =~= starts);
        i += 1;
    }
    assert(g.take(g.len() as int) =~= g);
    set
}

fn collect_code(groups: &IdaproJson) -> (r: Vec<Span>)
    ensures
        r@ == grouped_code(groups@),
{
    let ghost g = groups@;
    let mut out: Vec<Span> = Vec::new();
    let mut i: usize = 0;
    assert(g.take(0) =~= Seq::<(Seq<char>, GroupView)>::empty());
    while i < groups.entries.len()
        invariant
            i <= groups.entries@.len(),
            g == groups@,
            out@ == grouped_code(g.take(i as int)),
        decreases groups.entries@.len() - i,
    {
        assert(g.take(i + 1).drop_last() =~= g.take(i as int));
        let group = &groups.entries[i].1;
        assert(g[i as int].1 == group@);
        let ghost before = out@;
        let ghost all = spans_of(group.function_ranges@);
        let mut j: usize = 0;
        assert(out@ =~= before + all.take(0));
        while j < group.function_ranges.len()
            invariant
                j <= group.function_ranges@.len(),
                all == spans_of(group.function_ranges@),
                out@ == before + all.take(j as int),
            decreases group.function_ranges@.len() - j,
        {
            let r = group.function_ranges[j];
            out.push(Span { start: r.start(), end: r.end() });
            j += 1;
            assert(out@ =~= before + all.take(j as int));
        }
        assert(all.take(all.len() as int) =~= all);
        i += 1;
    }
    assert(g.take(g.len() as int) =~= g);
    out
}

fn collect_spans(owned: &Vec<OwnedDataRange>) -> (r: Vec<Span>)
    ensures
        r@ == owned_spans(views(owned@)),
{
    let ghost all = owned_spans(views(owned@));
    let mut out: Vec<Span> = Vec::new();
    let mut i: usize = 0;
    while i < owned.len()
        invariant
            i <= owned@.len(),
            all == owned_spans(views(owned@)),
            out@ =~= all.take(i as int),
        decreases owned@.len() - i,
    {
        out.push(owned[i].range);
        i += 1;
    }
    assert(out@ =~= all);
    out
}

/// Emit the `__shared_data` object carrying data / const / bss sections.
pub fn emit_shared(
    model: &IdaModel,
    pe: &PeImage,
    symbols: &IdaSymbols,
    format: OutputFormat,
) -> (r: Result<(Vec<u8>, SharedDataStats), Error>)
    requires
        model.wf(),
        symbols.wf(),
    ensures
        ({
            let ctx = emit_context(
                *model,
                pe.spec_sections(),
                symbols@,
                Seq::empty(),
                Seq::empty(),
                format,
            );
            match r {
                Ok((bytes, stats)) => shared_emitted(ctx, held_by_none()) == Ok::<
                    (Seq<u8>, SharedDataStats),
                    Seq<char>,
                >((bytes@, stats)),
                Err(e) => shared_emitted(ctx, held_by_none()) == Err::<
                    (Seq<u8>, SharedDataStats),
                    Seq<char>,
                >(e@),
            }
        }),
{
    broadcast use vstd::std_specs::hash::group_hash_axioms;

    let owned: Vec<OwnedDataRange> = Vec::new();
    let wide: AddrMap<WideRecovery> = AddrMap::new();
    let names = names_in_order(model);
    let emitter = Emitter { model, pe, symbols, owned: &owned, names: &names, wide: &wide, format };
    let held = Held { data: Vec::new(), code: Vec::new(), functions: HashSet::new() };
    proof {
        assert(held@ =~= held_by_none());
        assert(views(owned@) =~= Seq::<OwnedView>::empty());
        assert(wide@ =~= Seq::<(u64, WideRecoveryView)>::empty());
    }
    emitter.emit_unowned(&held)
}

/// The object of what a grouping leaves over.
pub open spec fn remainder_emitted(
    model: IdaModel,
    image: Seq<SectionView>,
    symbols: SymbolsView,
    groups: Seq<(Seq<char>, GroupView)>,
    format: OutputFormat,
) -> Result<(Seq<u8>, SharedDataStats), Seq<char>> {
    match prepared(model, groups) {
        Err(e) => Err(e),
        Ok(groups) => shared_emitted(
            emit_context(
                model,
                image,
                symbols,
                owned_by_groups(groups),
                Seq::empty(),
                format,
            ),
            held_by(groups),
        ),
    }
}

/// Emit data not assigned to an object of the grouping into `__shared_data`.
pub fn emit_shared_for_groups(
    model: &IdaModel,
    pe: &PeImage,
    symbols: &IdaSymbols,
    groups: &IdaproJson,
    format: OutputFormat,
) -> (r: Result<(Vec<u8>, SharedDataStats), Error>)
    requires
        model.wf(),
        symbols.wf(),
    ensures
        match r {
            Ok((bytes, stats)) => remainder_emitted(
                *model,
                pe.spec_sections(),
                symbols@,
                groups@,
                format,
            ) == Ok::<(Seq<u8>, SharedDataStats), Seq<char>>((bytes@, stats)),
            Err(e) => remainder_emitted(*model, pe.spec_sections(), symbols@, groups@, format)
                == Err::<(Seq<u8>, SharedDataStats), Seq<char>>(e@),
        },
{
    let groups = match prepare_groups(model, groups) {
        Ok(groups) => groups,
        Err(e) => {
            return Err(e);
        },
    };
    let owned = owned_data_ranges(&groups);
    let wide: AddrMap<WideRecovery> = AddrMap::new();
    let names = names_in_order(model);
    let held = Held {
        data: collect_spans(&owned),
        code: collect_code(&groups),
        functions: collect_functions(&groups),
    };
    proof {
        assert(held@ =~= held_by(groups@));
        assert(wide@ =~= Seq::<(u64, WideRecoveryView)>::empty());
    }
    let emitter = Emitter { model, pe, symbols, owned: &owned, names: &names, wide: &wide, format };
    emitter.emit_unowned(&held)
}

} // verus!
