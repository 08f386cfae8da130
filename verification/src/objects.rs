//! One object of a split: its functions, the code between them, and its data.

use crate::addr_map::window;
use crate::blocks::{
    class_start, class_start_symbol, start_symbol, with_data_section, with_gap, with_variables,
};
use crate::bytes::wrap64;
use crate::draft::{empty_draft, Draft, DraftView};
use crate::emitter::{no_stats, EmitStats, EmitView, Emitter};
use crate::format::{section_name, Contents, OutputFormat};
use crate::function_code::{end_with_tables, function_drafted, function_tables};
use crate::groups::{empty_group, DataRange, GroupView, ObjectGroup};
use crate::model::{Function, IdaModel, JumpTable, SegClass, TableView};
use crate::ownership::{anchor_text, data_anchor};
use crate::ranges::{
    is_first_class_address, is_uninitialized, lemma_subtracted, original_initialized_end,
    original_virtual_end, starts_class, subtract_ranges, subtracted, virtual_end, Span,
};
use crate::seqs::views;
use crate::sorting::{
    count_up_to, in_key_order, lemma_stable_sort_contains, lemma_stable_sort_orders, place_behind,
    sort_stably, stable_sort, HasKey,
};
use crate::text::{hex_text, Error};
use std::collections::HashSet;
use vstd::hash_set::StringHashSet;
use vstd::prelude::*;

verus! {

// ---------------------------------------------------------------------------
// The functions of a group
// ---------------------------------------------------------------------------

/// The function that starts at `address`; of two the later.
pub open spec fn function_at(functions: Seq<Function>, address: u64) -> Option<Function> {
    let n = place_behind(functions, address);
    if n > 0 && functions[n - 1].start == address {
        Some(functions[n - 1])
    } else {
        None
    }
}

/// The functions at the addresses of a group, or the first fault: an address
/// twice, one where no function starts, or an empty function.
pub open spec fn resolved_functions(functions: Seq<Function>, addresses: Seq<u64>) -> Result<
    Seq<Function>,
    Seq<char>,
>
    decreases addresses.len(),
{
    if addresses.len() == 0 {
        Ok(Seq::empty())
    } else {
        match resolved_functions(functions, addresses.drop_last()) {
            Err(e) => Err(e),
            Ok(before) => {
                let address = addresses.last();
                if addresses.drop_last().contains(address) {
                    Err("duplicate function address "@ + hex_text(address as int) + " in group"@)
                } else {
                    match function_at(functions, address) {
                        None => Err(
                            "idapro address "@ + hex_text(address as int)
                                + " is not a function start in delink.json"@,
                        ),
                        Some(f) => if f.spec_size() == 0 {
                            Err(
                                "function '"@ + f.name@ + "' at "@ + hex_text(address as int)
                                    + " has zero size in delink.json"@,
                            )
                        } else {
                            Ok(before.push(f))
                        },
                    }
                }
            },
        }
    }
}

proof fn lemma_resolved_functions_err(functions: Seq<Function>, addresses: Seq<u64>, n: int)
    requires
        0 <= n <= addresses.len(),
        resolved_functions(functions, addresses.take(n)) is Err,
    ensures
        resolved_functions(functions, addresses) == resolved_functions(
            functions,
            addresses.take(n),
        ),
    decreases addresses.len(),
{
    if n < addresses.len() {
        assert(addresses.drop_last().take(n) =~= addresses.take(n));
        lemma_resolved_functions_err(functions, addresses.drop_last(), n);
    } else {
        assert(addresses.take(n) =~= addresses);
    }
}

fn resolve_functions(model: &IdaModel, addresses: &Vec<u64>) -> (r: Result<Vec<Function>, Error>)
    requires
        model.wf(),
    ensures
        match r {
            Ok(fs) => {
                &&& resolved_functions(model.functions@, addresses@) == Ok::<
                    Seq<Function>,
                    Seq<char>,
                >(fs@)
                &&& forall|i: int| 0 <= i < fs@.len() ==> (#[trigger] fs@[i]).start < fs@[i].end
            },
            Err(e) => resolved_functions(model.functions@, addresses@) == Err::<
                Seq<Function>,
                Seq<char>,
            >(e@),
        },
{
    broadcast use vstd::std_specs::hash::group_hash_axioms;

    let ghost all = model.functions@;
    let mut seen: HashSet<u64> = HashSet::new();
    let mut out: Vec<Function> = Vec::new();
    let mut i: usize = 0;
    assert(addresses@.take(0) =~= Seq::<u64>::empty());
    while i < addresses.len()
        invariant
            model.wf(),
            all == model.functions@,
            i <= addresses@.len(),
            resolved_functions(all, addresses@.take(i as int)) == Ok::<Seq<Function>, Seq<char>>(
                out@,
            ),
            forall|a: u64| #[trigger]
                seen@.contains(a) <==> addresses@.take(i as int).contains(a),
            forall|k: int| 0 <= k < out@.len() ==> (#[trigger] out@[k]).start < out@[k].end,
        decreases addresses@.len() - i,
    {
        broadcast use vstd::std_specs::hash::group_hash_axioms;

        let ghost prefix = addresses@.take(i as int);
        let ghost next = addresses@.take(i + 1);
        let address: u64 = addresses[i];
        proof {
            assert(next.drop_last() =~= prefix);
            assert(next.last() == address);
            if resolved_functions(all, next) is Err {
                lemma_resolved_functions_err(all, addresses@, i + 1);
            }
        }
        if seen.contains(&address) {
            return Err(Error::new("duplicate function address ").hex(address).text(" in group"));
        }
        let n: usize = count_up_to(&model.functions, address);
        if n == 0 || model.functions[n - 1].start != address {
            return Err(
                Error::new("idapro address ").hex(address).text(
                    " is not a function start in delink.json",
                ),
            );
        }
        let f = &model.functions[n - 1];
        if f.size() == 0 {
            return Err(
                Error::new("function '").text(f.name.as_str()).text("' at ").hex(address).text(
                    " has zero size in delink.json",
                ),
            );
        }
        out.push(f.clone());
        let ghost before = seen@;
        seen.insert(address);
        assert forall|a: u64| #[trigger] seen@.contains(a) <==> next.contains(a) by {
            if prefix.contains(a) {
                let k = choose|k: int| 0 <= k < prefix.len() && prefix[k] == a;
                assert(next[k] == a);
            }
            if next.contains(a) && a != address {
                let k = choose|k: int| 0 <= k < next.len() && next[k] == a;
                assert(prefix[k] == a);
            }
            assert(next[i as int] == address);
        }
        i += 1;
    }
    assert(addresses@.take(addresses@.len() as int) =~= addresses@);
    Ok(out)
}

// ---------------------------------------------------------------------------
// The code of a group
// ---------------------------------------------------------------------------

/// What a function with its tables takes up.
pub open spec fn occupied_span(ctx: EmitView, f: Function) -> Span {
    Span { start: f.start, end: end_with_tables(f.end, function_tables(ctx, f)) }
}

pub open spec fn occupied_spans(ctx: EmitView, functions: Seq<Function>) -> Seq<Span> {
    functions.map_values(|f: Function| occupied_span(ctx, f))
}

/// `names` with those of the tables.
pub open spec fn with_table_names(names: Set<Seq<char>>, tables: Seq<TableView>) -> Set<Seq<char>>
    decreases tables.len(),
{
    if tables.len() == 0 {
        names
    } else {
        with_table_names(names, tables.drop_last()).insert(tables.last().name)
    }
}

/// The names of the tables of the functions.
pub open spec fn table_names(ctx: EmitView, functions: Seq<Function>) -> Set<Seq<char>>
    decreases functions.len(),
{
    if functions.len() == 0 {
        Set::empty()
    } else {
        with_table_names(
            table_names(ctx, functions.drop_last()),
            function_tables(ctx, functions.last()),
        )
    }
}

/// What the ranges hold beside what is occupied.
pub open spec fn gaps_in(ranges: Seq<DataRange>, occupied: Seq<Span>) -> Seq<Span>
    decreases ranges.len(),
{
    if ranges.len() == 0 {
        Seq::empty()
    } else {
        let r = ranges.last();
        gaps_in(ranges.drop_last(), occupied) + subtracted(
            Span { start: r.spec_start(), end: r.spec_end() },
            occupied,
        )
    }
}

pub open spec fn starts_of(functions: Seq<Function>) -> Seq<u64> {
    functions.map_values(|f: Function| f.start)
}

pub open spec fn span_starts(spans: Seq<Span>) -> Seq<u64> {
    spans.map_values(|s: Span| s.start)
}

/// The starts of the code contributions in address order: one section each.
pub open spec fn code_starts(functions: Seq<Function>, gaps: Seq<Span>) -> Seq<u64> {
    stable_sort(starts_of(functions) + span_starts(gaps))
}

/// The section of the contribution that starts at `start`.
pub open spec fn code_section(starts: Seq<u64>, start: u64) -> usize {
    (place_behind(starts, start) - 1) as usize
}

/// `d` with `n` code sections.
pub open spec fn with_code_sections(d: DraftView, format: OutputFormat, n: nat) -> DraftView
    decreases n,
{
    if n == 0 {
        d
    } else {
        with_code_sections(d, format, (n - 1) as nat).with_section(
            section_name(format, Contents::Text),
            Contents::Text,
        )
    }
}

/// The state with the functions drafted in their sections.
pub open spec fn functions_drafted(
    ctx: EmitView,
    state: (DraftView, EmitStats),
    starts: Seq<u64>,
    functions: Seq<Function>,
) -> Result<(DraftView, EmitStats), Seq<char>>
    decreases functions.len(),
{
    if functions.len() == 0 {
        Ok(state)
    } else {
        match functions_drafted(ctx, state, starts, functions.drop_last()) {
            Err(e) => Err(e),
            Ok((d, stats)) => {
                let f = functions.last();
                function_drafted(ctx, d, stats, code_section(starts, f.start), f)
            },
        }
    }
}

pub open spec fn with_text_bytes(stats: EmitStats, span: Span) -> EmitStats {
    EmitStats {
        text_bytes: wrap64(stats.text_bytes + (span.end - span.start)) as u64,
        ..stats
    }
}

/// The state with the gaps drafted in their sections.
pub open spec fn gaps_drafted(
    ctx: EmitView,
    state: (DraftView, EmitStats),
    starts: Seq<u64>,
    gaps: Seq<Span>,
    tables: Set<Seq<char>>,
) -> (DraftView, EmitStats)
    decreases gaps.len(),
{
    if gaps.len() == 0 {
        state
    } else {
        let (d, stats) = gaps_drafted(ctx, state, starts, gaps.drop_last(), tables);
        let gap = gaps.last();
        (
            with_gap(d, ctx, code_section(starts, gap.start), gap, tables),
            with_text_bytes(stats, gap),
        )
    }
}

// ---------------------------------------------------------------------------
// The data of a group
// ---------------------------------------------------------------------------

/// What a section for a data range holds: nothing but zeros where the class says
/// so or the image has no initialized data there.
pub open spec fn range_contents(ctx: EmitView, class: SegClass, start: u64) -> Contents {
    match class {
        SegClass::Const | SegClass::Xtrn => Contents::ReadOnly,
        SegClass::Data => if is_uninitialized(ctx.image, ctx.base(), start) {
            Contents::Zeroed
        } else {
            Contents::Data
        },
        _ => Contents::Zeroed,
    }
}

pub open spec fn with_data_stats(stats: EmitStats, class: SegClass, size: u64) -> EmitStats {
    match class {
        SegClass::Const => EmitStats {
            const_bytes: wrap64(stats.const_bytes + size) as u64,
            ..stats
        },
        SegClass::Data => EmitStats { data_bytes: wrap64(stats.data_bytes + size) as u64, ..stats },
        _ => EmitStats { bss_bytes: wrap64(stats.bss_bytes + size) as u64, ..stats },
    }
}

/// `d` with the symbols of a data range that begins `section`: its anchor, the
/// start of its class where it is that, and its variables.
pub open spec fn with_range_symbols(
    d: DraftView,
    ctx: EmitView,
    class: SegClass,
    section: int,
    span: Span,
) -> DraftView {
    let anchor = anchor_text(class, span.start);
    let anchored = d.defining(anchor, start_symbol(anchor, section));
    let named = if starts_class(ctx.model.sections@, class, span.start) {
        anchored.defining(class_start(class), start_symbol(class_start(class), section))
    } else {
        anchored
    };
    with_variables(
        named,
        window(ctx.symbols.variables, span.start as int, span.end as int),
        section,
        span.start,
    )
}

/// The state with a data range drafted, as far as the image reaches.
pub open spec fn range_drafted(
    ctx: EmitView,
    state: (DraftView, EmitStats),
    class: SegClass,
    range: DataRange,
) -> Result<(DraftView, EmitStats), Seq<char>> {
    let start = range.spec_start();
    let end = virtual_end(ctx.image, ctx.base(), start, range.spec_end());
    if start >= end {
        Ok(state)
    } else {
        let span = Span { start, end };
        let section = state.0.sections.len() as int;
        match with_data_section(state.0, ctx, range_contents(ctx, class, start), span) {
            Err(e) => Err(e),
            Ok(d) => Ok(
                (
                    with_range_symbols(d, ctx, class, section, span),
                    with_data_stats(state.1, class, (end - start) as u64),
                ),
            ),
        }
    }
}

/// The state with the data ranges of a class drafted.
pub open spec fn ranges_drafted(
    ctx: EmitView,
    state: (DraftView, EmitStats),
    class: SegClass,
    ranges: Seq<DataRange>,
) -> Result<(DraftView, EmitStats), Seq<char>>
    decreases ranges.len(),
{
    if ranges.len() == 0 {
        Ok(state)
    } else {
        match ranges_drafted(ctx, state, class, ranges.drop_last()) {
            Err(e) => Err(e),
            Ok(before) => range_drafted(ctx, before, class, ranges.last()),
        }
    }
}

/// The state with all data ranges of a group drafted.
pub open spec fn group_data_drafted(
    ctx: EmitView,
    state: (DraftView, EmitStats),
    group: GroupView,
) -> Result<(DraftView, EmitStats), Seq<char>> {
    match ranges_drafted(ctx, state, SegClass::Const, group.rdata) {
        Err(e) => Err(e),
        Ok(s1) => match ranges_drafted(ctx, s1, SegClass::Data, group.data) {
            Err(e) => Err(e),
            Ok(s2) => ranges_drafted(ctx, s2, SegClass::Bss, group.bss),
        },
    }
}

/// The draft of a group whose functions, in address order, are `functions`.
pub open spec fn code_drafted(ctx: EmitView, functions: Seq<Function>, group: GroupView) -> Result<
    (DraftView, EmitStats),
    Seq<char>,
> {
    let gaps = gaps_in(group.function_ranges, occupied_spans(ctx, functions));
    let starts = code_starts(functions, gaps);
    let blank = with_code_sections(empty_draft(), ctx.format, starts.len());
    match functions_drafted(ctx, (blank, no_stats()), starts, functions) {
        Err(e) => Err(e),
        Ok(state) => Ok(gaps_drafted(ctx, state, starts, gaps, table_names(ctx, functions))),
    }
}

/// The draft of a group.
pub open spec fn group_drafted(ctx: EmitView, group: GroupView) -> Result<
    (DraftView, EmitStats),
    Seq<char>,
> {
    match resolved_functions(ctx.model.functions@, group.functions) {
        Err(e) => Err(e),
        Ok(functions) => if group == empty_group() {
            Err("group has no code or data ranges"@)
        } else {
            match code_drafted(ctx, stable_sort(functions), group) {
                Err(e) => Err(e),
                Ok(state) => group_data_drafted(ctx, state, group),
            }
        },
    }
}

// ---------------------------------------------------------------------------
// Drafting a group
// ---------------------------------------------------------------------------

proof fn lemma_start_has_section(starts: Seq<u64>, start: u64)
    requires
        in_key_order(starts),
        starts.contains(start),
    ensures
        0 < place_behind(starts, start) <= starts.len(),
{
    crate::sorting::lemma_place_behind(starts, start);
    let k = choose|k: int| 0 <= k < starts.len() && starts[k] == start;
    assert(starts[k].spec_key() == start);
}

/// The sections of a draft are the `n` code sections.
pub open spec fn only_code(d: DraftView, n: nat) -> bool {
    &&& d.sections.len() == n
    &&& forall|i: int| 0 <= i < n ==> (#[trigger] d.sections[i]).contents == Contents::Text
}

proof fn lemma_functions_drafted_err(
    ctx: EmitView,
    state: (DraftView, EmitStats),
    starts: Seq<u64>,
    functions: Seq<Function>,
    n: int,
)
    requires
        0 <= n <= functions.len(),
        functions_drafted(ctx, state, starts, functions.take(n)) is Err,
    ensures
        functions_drafted(ctx, state, starts, functions) == functions_drafted(
            ctx,
            state,
            starts,
            functions.take(n),
        ),
    decreases functions.len(),
{
    if n < functions.len() {
        assert(functions.drop_last().take(n) =~= functions.take(n));
        lemma_functions_drafted_err(ctx, state, starts, functions.drop_last(), n);
    } else {
        assert(functions.take(n) =~= functions);
    }
}

proof fn lemma_ranges_drafted_err(
    ctx: EmitView,
    state: (DraftView, EmitStats),
    class: SegClass,
    ranges: Seq<DataRange>,
    n: int,
)
    requires
        0 <= n <= ranges.len(),
        ranges_drafted(ctx, state, class, ranges.take(n)) is Err,
    ensures
        ranges_drafted(ctx, state, class, ranges) == ranges_drafted(
            ctx,
            state,
            class,
            ranges.take(n),
        ),
    decreases ranges.len(),
{
    if n < ranges.len() {
        assert(ranges.drop_last().take(n) =~= ranges.take(n));
        lemma_ranges_drafted_err(ctx, state, class, ranges.drop_last(), n);
    } else {
        assert(ranges.take(n) =~= ranges);
    }
}

/// Spans between occupied ones are not reversed.
pub open spec fn forward(spans: Seq<Span>) -> bool {
    forall|i: int| 0 <= i < spans.len() ==> (#[trigger] spans[i]).start <= spans[i].end
}

pub(crate) fn add_table_names(names: &mut StringHashSet, tables: &Vec<JumpTable>)
    ensures
        final(names)@ == with_table_names(old(names)@, views(tables@)),
{
    let ghost start = names@;
    let ghost v = views(tables@);
    let mut i: usize = 0;
    assert(v.take(0) =~= Seq::<TableView>::empty());
    while i < tables.len()
        invariant
            i <= tables@.len(),
            v == views(tables@),
            names@ == with_table_names(start, v.take(i as int)),
        decreases tables@.len() - i,
    {
        assert(v.take(i + 1).drop_last() =~= v.take(i as int));
        assert(v[i as int] == tables@[i as int]@);
        names.insert(tables[i].name.clone());
        i += 1;
    }
    assert(v.take(v.len() as int) =~= v);
}

fn count_data(stats: &mut EmitStats, class: SegClass, size: u64)
    ensures
        *final(stats) == with_data_stats(*old(stats), class, size),
{
    match class {
        SegClass::Const => {
            stats.const_bytes = stats.const_bytes.wrapping_add(size);
        },
        SegClass::Data => {
            stats.data_bytes = stats.data_bytes.wrapping_add(size);
        },
        _ => {
            stats.bss_bytes = stats.bss_bytes.wrapping_add(size);
        },
    }
}

impl<'a> Emitter<'a> {
    fn occupy(&self, functions: &Vec<Function>) -> (r: (Vec<Span>, StringHashSet))
        requires
            self.wf(),
        ensures
            r.0@ == occupied_spans(self@, functions@),
            r.1@ == table_names(self@, functions@),
    {
        let ghost fs = functions@;
        let mut occupied: Vec<Span> = Vec::new();
        let mut names = StringHashSet::new();
        let mut i: usize = 0;
        assert(fs.take(0) =~= Seq::<Function>::empty());
        while i < functions.len()
            invariant
                self.wf(),
                i <= functions@.len(),
                fs == functions@,
                occupied@ == occupied_spans(self@, fs).take(i as int),
                names@ == table_names(self@, fs.take(i as int)),
            decreases functions@.len() - i,
        {
            assert(fs.take(i + 1).drop_last() =~= fs.take(i as int));
            let f = &functions[i];
            let tables = self.tables_of(f);
            add_table_names(&mut names, &tables);
            let end: u64 = crate::function_code::table_ends(f.end, &tables);
            occupied.push(Span { start: f.start, end });
            i += 1;
            assert(occupied@ =~= occupied_spans(self@, fs).take(i as int));
        }
        assert(fs.take(fs.len() as int) =~= fs);
        assert(occupied@ =~= occupied_spans(self@, fs));
        (occupied, names)
    }
}

fn find_gaps(ranges: &Vec<DataRange>, occupied: &Vec<Span>) -> (r: Vec<Span>)
    ensures
        r@ == gaps_in(ranges@, occupied@),
        forward(r@),
{
    let mut gaps: Vec<Span> = Vec::new();
    let mut i: usize = 0;
    assert(ranges@.take(0) =~= Seq::<DataRange>::empty());
    while i < ranges.len()
        invariant
            i <= ranges@.len(),
            gaps@ == gaps_in(ranges@.take(i as int), occupied@),
            forward(gaps@),
        decreases ranges@.len() - i,
    {
        assert(ranges@.take(i + 1).drop_last() =~= ranges@.take(i as int));
        let whole = Span { start: ranges[i].start(), end: ranges[i].end() };
        let mut found = subtract_ranges(whole, occupied);
        let ghost before = gaps@;
        let ghost added = found@;
        proof {
            lemma_subtracted(whole, occupied@, 0);
        }
        gaps.append(&mut found);
        assert forall|k: int| 0 <= k < gaps@.len() implies (#[trigger] gaps@[k]).start
            <= gaps@[k].end by {
            if k < before.len() {
                assert(gaps@[k] == before[k]);
            } else {
                assert(gaps@[k] == added[k - before.len()]);
            }
        }
        i += 1;
    }
    assert(ranges@.take(ranges@.len() as int) =~= ranges@);
    gaps
}

fn sort_starts(functions: &Vec<Function>, gaps: &Vec<Span>) -> (r: Vec<u64>)
    ensures
        r@ == code_starts(functions@, gaps@),
        in_key_order(r@),
        forall|i: int| 0 <= i < functions@.len() ==> r@.contains((#[trigger] functions@[i]).start),
        forall|i: int| 0 <= i < gaps@.len() ==> r@.contains((#[trigger] gaps@[i]).start),
{
    let mut starts: Vec<u64> = Vec::new();
    let mut i: usize = 0;
    while i < functions.len()
        invariant
            i <= functions@.len(),
            starts@ == starts_of(functions@).take(i as int),
        decreases functions@.len() - i,
    {
        starts.push(functions[i].start);
        i += 1;
        assert(starts@ =~= starts_of(functions@).take(i as int));
    }
    assert(starts@ =~= starts_of(functions@));
    let ghost heads = starts@;
    let mut k: usize = 0;
    assert(heads + span_starts(gaps@).take(0) =~= heads);
    while k < gaps.len()
        invariant
            k <= gaps@.len(),
            starts@ == heads + span_starts(gaps@).take(k as int),
        decreases gaps@.len() - k,
    {
        starts.push(gaps[k].start);
        k += 1;
        assert(starts@ =~= heads + span_starts(gaps@).take(k as int));
    }
    assert(starts@ =~= starts_of(functions@) + span_starts(gaps@));
    let ghost unsorted = starts@;
    let sorted = sort_stably(starts);
    proof {
        lemma_stable_sort_orders(unsorted);
        assert forall|j: int| 0 <= j < functions@.len() implies sorted@.contains(
            (#[trigger] functions@[j]).start,
        ) by {
            assert(unsorted[j] == functions@[j].start);
            lemma_stable_sort_contains(unsorted, unsorted[j]);
        }
        assert forall|j: int| 0 <= j < gaps@.len() implies sorted@.contains(
            (#[trigger] gaps@[j]).start,
        ) by {
            assert(unsorted[functions@.len() + j] == gaps@[j].start);
            lemma_stable_sort_contains(unsorted, unsorted[functions@.len() + j]);
        }
    }
    sorted
}

impl<'a> Emitter<'a> {
    fn add_code_sections(&self, draft: &mut Draft, n: usize)
        requires
            old(draft)@ == empty_draft(),
            old(draft)@.wf(),
        ensures
            final(draft)@ == with_code_sections(empty_draft(), self.format, n as nat),
            final(draft)@.wf(),
            only_code(final(draft)@, n as nat),
    {
        let mut i: usize = 0;
        while i < n
            invariant
                i <= n,
                draft@ == with_code_sections(empty_draft(), self.format, i as nat),
                draft@.wf(),
                only_code(draft@, i as nat),
            decreases n - i,
        {
            let _ = draft.add_section(self.format, Contents::Text);
            i += 1;
        }
    }

    fn draft_functions(
        &self,
        draft: &mut Draft,
        stats: &mut EmitStats,
        starts: &Vec<u64>,
        functions: &Vec<Function>,
    ) -> (r: Result<(), Error>)
        requires
            self.wf(),
            old(draft)@.wf(),
            only_code(old(draft)@, starts@.len()),
            in_key_order(starts@),
            forall|i: int|
                0 <= i < functions@.len() ==> starts@.contains((#[trigger] functions@[i]).start),
            forall|i: int|
                0 <= i < functions@.len() ==> (#[trigger] functions@[i]).start < functions@[i].end,
        ensures
            match r {
                Ok(_) => {
                    &&& functions_drafted(
                        self@,
                        (old(draft)@, *old(stats)),
                        starts@,
                        functions@,
                    ) == Ok::<(DraftView, EmitStats), Seq<char>>((final(draft)@, *final(stats)))
                    &&& final(draft)@.wf()
                    &&& only_code(final(draft)@, starts@.len())
                },
                Err(e) => functions_drafted(
                    self@,
                    (old(draft)@, *old(stats)),
                    starts@,
                    functions@,
                ) == Err::<(DraftView, EmitStats), Seq<char>>(e@),
            },
    {
        let ghost fs = functions@;
        let ghost state = (draft@, *stats);
        let mut i: usize = 0;
        assert(fs.take(0) =~= Seq::<Function>::empty());
        while i < functions.len()
            invariant
                self.wf(),
                i <= functions@.len(),
                fs == functions@,
                state == (old(draft)@, *old(stats)),
                in_key_order(starts@),
                forall|k: int|
                    0 <= k < fs.len() ==> starts@.contains((#[trigger] fs[k]).start),
                forall|k: int| 0 <= k < fs.len() ==> (#[trigger] fs[k]).start < fs[k].end,
                draft@.wf(),
                only_code(draft@, starts@.len()),
                functions_drafted(self@, state, starts@, fs.take(i as int)) == Ok::<
                    (DraftView, EmitStats),
                    Seq<char>,
                >((draft@, *stats)),
            decreases functions@.len() - i,
        {
            assert(fs.take(i + 1).drop_last() =~= fs.take(i as int));
            let f = &functions[i];
            proof {
                assert(starts@.contains(fs[i as int].start));
                lemma_start_has_section(starts@, f.start);
                if functions_drafted(self@, state, starts@, fs.take(i + 1)) is Err {
                    lemma_functions_drafted_err(self@, state, starts@, fs, i + 1);
                }
            }
            let section: usize = count_up_to(starts, f.start) - 1;
            assert(section == code_section(starts@, f.start));
            assert(draft@.sections[section as int].contents == Contents::Text);
            if let Err(e) = self.draft_function(draft, stats, section, f) {
                return Err(e);
            }
            i += 1;
        }
        assert(fs.take(fs.len() as int) =~= fs);
        Ok(())
    }

    fn draft_gaps(
        &self,
        draft: &mut Draft,
        stats: &mut EmitStats,
        starts: &Vec<u64>,
        gaps: &Vec<Span>,
        tables: &StringHashSet,
    )
        requires
            self.wf(),
            old(draft)@.wf(),
            only_code(old(draft)@, starts@.len()),
            in_key_order(starts@),
            forward(gaps@),
            forall|i: int| 0 <= i < gaps@.len() ==> starts@.contains((#[trigger] gaps@[i]).start),
        ensures
            (final(draft)@, *final(stats)) == gaps_drafted(
                self@,
                (old(draft)@, *old(stats)),
                starts@,
                gaps@,
                tables@,
            ),
            final(draft)@.wf(),
            only_code(final(draft)@, starts@.len()),
    {
        let ghost gs = gaps@;
        let ghost state = (draft@, *stats);
        let mut i: usize = 0;
        assert(gs.take(0) =~= Seq::<Span>::empty());
        while i < gaps.len()
            invariant
                self.wf(),
                i <= gaps@.len(),
                gs == gaps@,
                forward(gs),
                in_key_order(starts@),
                forall|k: int| 0 <= k < gs.len() ==> starts@.contains((#[trigger] gs[k]).start),
                draft@.wf(),
                only_code(draft@, starts@.len()),
                (draft@, *stats) == gaps_drafted(
                    self@,
                    state,
                    starts@,
                    gs.take(i as int),
                    tables@,
                ),
            decreases gaps@.len() - i,
        {
            assert(gs.take(i + 1).drop_last() =~= gs.take(i as int));
            let gap = gaps[i];
            proof {
                assert(starts@.contains(gs[i as int].start));
                lemma_start_has_section(starts@, gap.start);
            }
            let section: usize = count_up_to(starts, gap.start) - 1;
            assert(draft@.sections[section as int].contents == Contents::Text);
            self.draft_gap(draft, section, gap, tables);
            stats.text_bytes = stats.text_bytes.wrapping_add(gap.end - gap.start);
            i += 1;
        }
        assert(gs.take(gs.len() as int) =~= gs);
    }

    fn draft_group_code(&self, functions: &Vec<Function>, group: &ObjectGroup) -> (r: Result<
        (Draft, EmitStats),
        Error,
    >)
        requires
            self.wf(),
            forall|i: int|
                0 <= i < functions@.len() ==> (#[trigger] functions@[i]).start < functions@[i].end,
        ensures
            match r {
                Ok((draft, stats)) => {
                    &&& code_drafted(self@, functions@, group@) == Ok::<
                        (DraftView, EmitStats),
                        Seq<char>,
                    >((draft@, stats))
                    &&& draft@.wf()
                },
                Err(e) => code_drafted(self@, functions@, group@) == Err::<
                    (DraftView, EmitStats),
                    Seq<char>,
                >(e@),
            },
    {
        let (occupied, tables) = self.occupy(functions);
        let gaps = find_gaps(&group.function_ranges, &occupied);
        let starts = sort_starts(functions, &gaps);
        let mut draft = Draft::new();
        let mut stats = EmitStats::default();
        self.add_code_sections(&mut draft, starts.len());
        if let Err(e) = self.draft_functions(&mut draft, &mut stats, &starts, functions) {
            return Err(e);
        }
        self.draft_gaps(&mut draft, &mut stats, &starts, &gaps, &tables);
        Ok((draft, stats))
    }

    /// What a section for a data range holds.
    pub(crate) fn contents_of_range(&self, class: SegClass, start: u64) -> (r: Contents)
        ensures
            r == range_contents(self@, class, start),
    {
        match class {
            SegClass::Const | SegClass::Xtrn => Contents::ReadOnly,
            SegClass::Data => match original_initialized_end(self.pe, self.model, start) {
                Some(end) => if start >= end {
                    Contents::Zeroed
                } else {
                    Contents::Data
                },
                None => Contents::Data,
            },
            _ => Contents::Zeroed,
        }
    }

    /// Drafts the symbols of a data range that begins `section`.
    fn draft_range_symbols(&self, draft: &mut Draft, class: SegClass, section: usize, span: Span)
        requires
            self.wf(),
            old(draft)@.wf(),
            class.spec_is_data(),
            section < old(draft)@.sections.len(),
            span.start <= span.end,
        ensures
            final(draft)@ == with_range_symbols(
                old(draft)@,
                self@,
                class,
                section as int,
                span,
            ),
            final(draft)@.wf(),
    {
        self.draft_start_symbol(draft, data_anchor(class, span.start), section);
        if is_first_class_address(self.model, class, span.start) {
            self.draft_start_symbol(draft, class_start_symbol(class).to_owned(), section);
        }
        self.draft_variables(draft, section, span);
    }

    fn draft_range(
        &self,
        draft: &mut Draft,
        stats: &mut EmitStats,
        class: SegClass,
        range: DataRange,
    ) -> (r: Result<(), Error>)
        requires
            self.wf(),
            old(draft)@.wf(),
            class.spec_is_data(),
        ensures
            match r {
                Ok(_) => {
                    &&& range_drafted(self@, (old(draft)@, *old(stats)), class, range) == Ok::<
                        (DraftView, EmitStats),
                        Seq<char>,
                    >((final(draft)@, *final(stats)))
                    &&& final(draft)@.wf()
                },
                Err(e) => range_drafted(self@, (old(draft)@, *old(stats)), class, range) == Err::<
                    (DraftView, EmitStats),
                    Seq<char>,
                >(e@),
            },
    {
        let start: u64 = range.start();
        let end: u64 = original_virtual_end(self.pe, self.model, start, range.end());
        if start >= end {
            return Ok(());
        }
        let span = Span { start, end };
        let contents = self.contents_of_range(class, start);
        let section: usize = match self.draft_data_section(draft, contents, span) {
            Ok(section) => section,
            Err(e) => {
                return Err(e);
            },
        };
        self.draft_range_symbols(draft, class, section, span);
        count_data(stats, class, end - start);
        Ok(())
    }

    fn draft_ranges(
        &self,
        draft: &mut Draft,
        stats: &mut EmitStats,
        class: SegClass,
        ranges: &Vec<DataRange>,
    ) -> (r: Result<(), Error>)
        requires
            self.wf(),
            old(draft)@.wf(),
            class.spec_is_data(),
        ensures
            match r {
                Ok(_) => {
                    &&& ranges_drafted(self@, (old(draft)@, *old(stats)), class, ranges@) == Ok::<
                        (DraftView, EmitStats),
                        Seq<char>,
                    >((final(draft)@, *final(stats)))
                    &&& final(draft)@.wf()
                },
                Err(e) => ranges_drafted(self@, (old(draft)@, *old(stats)), class, ranges@) == Err::<
                    (DraftView, EmitStats),
                    Seq<char>,
                >(e@),
            },
    {
        let ghost rs = ranges@;
        let ghost state = (draft@, *stats);
        let mut i: usize = 0;
        assert(rs.take(0) =~= Seq::<DataRange>::empty());
        while i < ranges.len()
            invariant
                self.wf(),
                class.spec_is_data(),
                i <= ranges@.len(),
                rs == ranges@,
                state == (old(draft)@, *old(stats)),
                draft@.wf(),
                ranges_drafted(self@, state, class, rs.take(i as int)) == Ok::<
                    (DraftView, EmitStats),
                    Seq<char>,
                >((draft@, *stats)),
            decreases ranges@.len() - i,
        {
            assert(rs.take(i + 1).drop_last() =~= rs.take(i as int));
            proof {
                if ranges_drafted(self@, state, class, rs.take(i + 1)) is Err {
                    lemma_ranges_drafted_err(self@, state, class, rs, i + 1);
                }
            }
            if let Err(e) = self.draft_range(draft, stats, class, ranges[i]) {
                return Err(e);
            }
            i += 1;
        }
        assert(rs.take(rs.len() as int) =~= rs);
        Ok(())
    }

    /// Draft a group: every configured address is resolved through the model for
    /// name and bounds.
    pub fn draft_group(&self, group: &ObjectGroup) -> (r: Result<(Draft, EmitStats), Error>)
        requires
            self.wf(),
        ensures
            match r {
                Ok((draft, stats)) => {
                    &&& group_drafted(self@, group@) == Ok::<(DraftView, EmitStats), Seq<char>>(
                        (draft@, stats),
                    )
                    &&& draft@.wf()
                },
                Err(e) => group_drafted(self@, group@) == Err::<(DraftView, EmitStats), Seq<char>>(
                    e@,
                ),
            },
    {
        let found = match resolve_functions(self.model, &group.functions) {
            Ok(found) => found,
            Err(e) => {
                return Err(e);
            },
        };
        if group.is_empty() {
            return Err(Error::new("group has no code or data ranges"));
        }
        let ghost unsorted = found@;
        let functions = sort_stably(found);
        proof {
            assert forall|i: int| 0 <= i < functions@.len() implies (
            #[trigger] functions@[i]).start < functions@[i].end by {
                assert(functions@.contains(functions@[i]));
                lemma_stable_sort_contains(unsorted, functions@[i]);
                let j = choose|j: int| 0 <= j < unsorted.len() && unsorted[j] == functions@[i];
                assert(unsorted[j].start < unsorted[j].end);
            }
        }
        let (mut draft, mut stats) = match self.draft_group_code(&functions, group) {
            Ok(state) => state,
            Err(e) => {
                return Err(e);
            },
        };
        if let Err(e) = self.draft_ranges(&mut draft, &mut stats, SegClass::Const, &group.rdata) {
            return Err(e);
        }
        if let Err(e) = self.draft_ranges(&mut draft, &mut stats, SegClass::Data, &group.data) {
            return Err(e);
        }
        if let Err(e) = self.draft_ranges(&mut draft, &mut stats, SegClass::Bss, &group.bss) {
            return Err(e);
        }
        Ok((draft, stats))
    }
}

} // verus!
