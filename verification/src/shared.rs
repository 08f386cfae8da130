//! The object of everything that no other object owns.

use crate::addr_map::window;
use crate::blocks::{
    class_start, class_start_symbol, start_symbol, with_data_section, with_gap, with_variables,
};
use crate::bytes::wrap64;
use crate::draft::{empty_draft, Draft, DraftView};
use crate::emitter::{EmitView, Emitter};
use crate::format::{section_name, Contents};
use crate::function_code::{end_with_tables, function_tables, table_ends};
use crate::model::{Function, SegClass, Section};
use crate::objects::{add_table_names, range_contents, with_table_names};
use crate::ranges::{
    is_first_class_address, lemma_subtracted, original_virtual_end, starts_class, subtract_ranges,
    subtracted, virtual_end, Span,
};
use crate::text::Error;
use std::collections::HashSet;
use vstd::hash_set::StringHashSet;
use vstd::prelude::*;

verus! {

#[derive(Debug, Clone, Copy)]
pub struct SharedDataStats {
    pub text_bytes: u64,
    pub data_bytes: u64,
    pub const_bytes: u64,
    pub bss_bytes: u64,
    pub relocations: usize,
}

pub open spec fn no_shared_stats() -> SharedDataStats {
    SharedDataStats { text_bytes: 0, data_bytes: 0, const_bytes: 0, bss_bytes: 0, relocations: 0 }
}

impl Default for SharedDataStats {
    fn default() -> (r: Self)
        ensures
            r == no_shared_stats(),
    {
        SharedDataStats {
            text_bytes: 0,
            data_bytes: 0,
            const_bytes: 0,
            bss_bytes: 0,
            relocations: 0,
        }
    }
}

/// What other objects hold: data ranges, code ranges, and functions by start.
#[verifier::ext_equal]
pub struct Elsewhere {
    pub data: Seq<Span>,
    pub code: Seq<Span>,
    pub functions: Set<u64>,
}

// ---------------------------------------------------------------------------
// Code between functions
// ---------------------------------------------------------------------------

/// Functions of a code section that other objects hold.
pub open spec fn emitted_in(elsewhere: Elsewhere, section: Section, f: Function) -> bool {
    elsewhere.functions.contains(f.start) && section.has(f.start)
}

/// What the function takes up in its section.
pub open spec fn span_in_section(ctx: EmitView, section: Section, f: Function) -> Span {
    let end = end_with_tables(f.end, function_tables(ctx, f));
    Span {
        start: f.start,
        end: if end <= section.end {
            end
        } else {
            section.end
        },
    }
}

/// `code` with what the functions that other objects hold take up in a section.
pub open spec fn occupied_in(
    ctx: EmitView,
    elsewhere: Elsewhere,
    section: Section,
    functions: Seq<Function>,
) -> Seq<Span>
    decreases functions.len(),
{
    if functions.len() == 0 {
        elsewhere.code
    } else {
        let before = occupied_in(ctx, elsewhere, section, functions.drop_last());
        let f = functions.last();
        if emitted_in(elsewhere, section, f) {
            before.push(span_in_section(ctx, section, f))
        } else {
            before
        }
    }
}

/// The names of the tables of functions that other objects hold.
pub open spec fn emitted_table_names(
    ctx: EmitView,
    elsewhere: Elsewhere,
    section: Section,
    functions: Seq<Function>,
) -> Set<Seq<char>>
    decreases functions.len(),
{
    if functions.len() == 0 {
        Set::empty()
    } else {
        let before = emitted_table_names(ctx, elsewhere, section, functions.drop_last());
        let f = functions.last();
        if emitted_in(elsewhere, section, f) {
            with_table_names(before, function_tables(ctx, f))
        } else {
            before
        }
    }
}

/// The stretches of a code section that no other object holds.
pub open spec fn code_gaps(ctx: EmitView, elsewhere: Elsewhere, section: Section) -> Seq<Span> {
    subtracted(
        Span {
            start: section.start,
            end: virtual_end(ctx.image, ctx.base(), section.start, section.end),
        },
        occupied_in(ctx, elsewhere, section, ctx.model.functions@),
    )
}

/// The state with the gaps drafted, in a section each.
pub open spec fn code_gaps_drafted(
    ctx: EmitView,
    state: (DraftView, SharedDataStats),
    gaps: Seq<Span>,
    tables: Set<Seq<char>>,
) -> (DraftView, SharedDataStats)
    decreases gaps.len(),
{
    if gaps.len() == 0 {
        state
    } else {
        let (d, stats) = code_gaps_drafted(ctx, state, gaps.drop_last(), tables);
        let gap = gaps.last();
        let added = d.with_section(section_name(ctx.format, Contents::Text), Contents::Text);
        (
            with_gap(added, ctx, d.sections.len() as usize, gap, tables),
            SharedDataStats {
                text_bytes: wrap64(stats.text_bytes + (gap.end - gap.start)) as u64,
                ..stats
            },
        )
    }
}

/// The state with the code of the sections that no other object holds.
pub open spec fn shared_code_drafted(
    ctx: EmitView,
    elsewhere: Elsewhere,
    sections: Seq<Section>,
) -> (DraftView, SharedDataStats)
    decreases sections.len(),
{
    if sections.len() == 0 {
        (empty_draft(), no_shared_stats())
    } else {
        let before = shared_code_drafted(ctx, elsewhere, sections.drop_last());
        let section = sections.last();
        if section.class == SegClass::Code {
            code_gaps_drafted(
                ctx,
                before,
                code_gaps(ctx, elsewhere, section),
                emitted_table_names(ctx, elsewhere, section, ctx.model.functions@),
            )
        } else {
            before
        }
    }
}

// ---------------------------------------------------------------------------
// Data
// ---------------------------------------------------------------------------

/// Classes of sections whose data is shared.
pub open spec fn is_shared_class(class: SegClass) -> bool {
    class.spec_is_data() || class == SegClass::Xtrn
}

/// The parts of a data section that no other object owns.
pub open spec fn data_fragments(ctx: EmitView, elsewhere: Elsewhere, section: Section) -> Seq<Span> {
    subtracted(
        Span {
            start: section.start,
            end: virtual_end(ctx.image, ctx.base(), section.start, section.end),
        },
        elsewhere.data,
    )
}

/// `d` with the symbols of a fragment that begins `index`.
pub open spec fn with_fragment_symbols(
    d: DraftView,
    ctx: EmitView,
    class: SegClass,
    index: int,
    fragment: Span,
) -> DraftView {
    let named = if class != SegClass::Xtrn && starts_class(
        ctx.model.sections@,
        class,
        fragment.start,
    ) {
        d.defining(class_start(class), start_symbol(class_start(class), index))
    } else {
        d
    };
    with_variables(
        named,
        window(ctx.symbols.variables, fragment.start as int, fragment.end as int),
        index,
        fragment.start,
    )
}

pub open spec fn with_fragment_stats(
    stats: SharedDataStats,
    class: SegClass,
    size: u64,
) -> SharedDataStats {
    match class {
        SegClass::Data => SharedDataStats {
            data_bytes: wrap64(stats.data_bytes + size) as u64,
            ..stats
        },
        SegClass::Const | SegClass::Xtrn => SharedDataStats {
            const_bytes: wrap64(stats.const_bytes + size) as u64,
            ..stats
        },
        _ => SharedDataStats { bss_bytes: wrap64(stats.bss_bytes + size) as u64, ..stats },
    }
}

/// The state with a fragment drafted.
pub open spec fn fragment_drafted(
    ctx: EmitView,
    state: (DraftView, SharedDataStats),
    class: SegClass,
    fragment: Span,
) -> Result<(DraftView, SharedDataStats), Seq<char>> {
    let index = state.0.sections.len() as int;
    match with_data_section(state.0, ctx, range_contents(ctx, class, fragment.start), fragment) {
        Err(e) => Err(e),
        Ok(d) => Ok(
            (
                with_fragment_symbols(d, ctx, class, index, fragment),
                with_fragment_stats(state.1, class, (fragment.end - fragment.start) as u64),
            ),
        ),
    }
}

pub open spec fn fragments_drafted(
    ctx: EmitView,
    state: (DraftView, SharedDataStats),
    class: SegClass,
    fragments: Seq<Span>,
) -> Result<(DraftView, SharedDataStats), Seq<char>>
    decreases fragments.len(),
{
    if fragments.len() == 0 {
        Ok(state)
    } else {
        match fragments_drafted(ctx, state, class, fragments.drop_last()) {
            Err(e) => Err(e),
            Ok(before) => fragment_drafted(ctx, before, class, fragments.last()),
        }
    }
}

/// The state with the data of the sections that no other object owns.
pub open spec fn shared_data_drafted(
    ctx: EmitView,
    elsewhere: Elsewhere,
    state: (DraftView, SharedDataStats),
    sections: Seq<Section>,
) -> Result<(DraftView, SharedDataStats), Seq<char>>
    decreases sections.len(),
{
    if sections.len() == 0 {
        Ok(state)
    } else {
        match shared_data_drafted(ctx, elsewhere, state, sections.drop_last()) {
            Err(e) => Err(e),
            Ok(before) => {
                let section = sections.last();
                if is_shared_class(section.class) {
                    fragments_drafted(
                        ctx,
                        before,
                        section.class,
                        data_fragments(ctx, elsewhere, section),
                    )
                } else {
                    Ok(before)
                }
            },
        }
    }
}

/// The draft of what no other object holds. Code is shared only where other
/// objects hold functions.
pub open spec fn shared_drafted(ctx: EmitView, elsewhere: Elsewhere) -> Result<
    (DraftView, SharedDataStats),
    Seq<char>,
> {
    let sections = ctx.model.sections@;
    let code = if elsewhere.functions == Set::<u64>::empty() {
        (empty_draft(), no_shared_stats())
    } else {
        shared_code_drafted(ctx, elsewhere, sections)
    };
    shared_data_drafted(ctx, elsewhere, code, sections)
}

// ---------------------------------------------------------------------------
// Drafting
// ---------------------------------------------------------------------------

/// What other objects hold.
pub struct Held {
    pub data: Vec<Span>,
    pub code: Vec<Span>,
    pub functions: HashSet<u64>,
}

impl View for Held {
    type V = Elsewhere;

    open spec fn view(&self) -> Elsewhere {
        Elsewhere { data: self.data@, code: self.code@, functions: self.functions@ }
    }
}

impl Held {
    fn has_functions(&self) -> (r: bool)
        ensures
            r == (self@.functions != Set::<u64>::empty()),
    {
        !self.functions.is_empty()
    }
}

proof fn lemma_fragments_drafted_err(
    ctx: EmitView,
    state: (DraftView, SharedDataStats),
    class: SegClass,
    fragments: Seq<Span>,
    n: int,
)
    requires
        0 <= n <= fragments.len(),
        fragments_drafted(ctx, state, class, fragments.take(n)) is Err,
    ensures
        fragments_drafted(ctx, state, class, fragments) == fragments_drafted(
            ctx,
            state,
            class,
            fragments.take(n),
        ),
    decreases fragments.len(),
{
    if n < fragments.len() {
        assert(fragments.drop_last().take(n) =~= fragments.take(n));
        lemma_fragments_drafted_err(ctx, state, class, fragments.drop_last(), n);
    } else {
        assert(fragments.take(n) =~= fragments);
    }
}

proof fn lemma_shared_data_drafted_err(
    ctx: EmitView,
    elsewhere: Elsewhere,
    state: (DraftView, SharedDataStats),
    sections: Seq<Section>,
    n: int,
)
    requires
        0 <= n <= sections.len(),
        shared_data_drafted(ctx, elsewhere, state, sections.take(n)) is Err,
    ensures
        shared_data_drafted(ctx, elsewhere, state, sections) == shared_data_drafted(
            ctx,
            elsewhere,
            state,
            sections.take(n),
        ),
    decreases sections.len(),
{
    if n < sections.len() {
        assert(sections.drop_last().take(n) =~= sections.take(n));
        lemma_shared_data_drafted_err(ctx, elsewhere, state, sections.drop_last(), n);
    } else {
        assert(sections.take(n) =~= sections);
    }
}

impl<'a> Emitter<'a> {
    fn occupy_section(&self, held: &Held, section: &Section) -> (r: (Vec<Span>, StringHashSet))
        requires
            self.wf(),
        ensures
            r.0@ == occupied_in(self@, held@, *section, self.model.functions@),
            r.1@ == emitted_table_names(self@, held@, *section, self.model.functions@),
    {
        let ghost fs = self.model.functions@;
        let mut occupied = vstd::slice::slice_to_vec(held.code.as_slice());
        let mut names = StringHashSet::new();
        let mut i: usize = 0;
        assert(fs.take(0) =~= Seq::<Function>::empty());
        while i < self.model.functions.len()
            invariant
                self.wf(),
                i <= fs.len(),
                fs == self.model.functions@,
                occupied@ == occupied_in(self@, held@, *section, fs.take(i as int)),
                names@ == emitted_table_names(self@, held@, *section, fs.take(i as int)),
            decreases fs.len() - i,
        {
            broadcast use vstd::std_specs::hash::group_hash_axioms;

            assert(fs.take(i + 1).drop_last() =~= fs.take(i as int));
            let f = &self.model.functions[i];
            if held.functions.contains(&f.start) && section.contains(f.start) {
                let tables = self.tables_of(f);
                add_table_names(&mut names, &tables);
                let end: u64 = table_ends(f.end, &tables);
                let end: u64 = if end <= section.end {
                    end
                } else {
                    section.end
                };
                occupied.push(Span { start: f.start, end });
            }
            i += 1;
        }
        assert(fs.take(fs.len() as int) =~= fs);
        (occupied, names)
    }

    fn draft_code_gaps(
        &self,
        draft: &mut Draft,
        stats: &mut SharedDataStats,
        gaps: &Vec<Span>,
        tables: &StringHashSet,
    )
        requires
            self.wf(),
            old(draft)@.wf(),
            forall|i: int| 0 <= i < gaps@.len() ==> (#[trigger] gaps@[i]).start < gaps@[i].end,
        ensures
            (final(draft)@, *final(stats)) == code_gaps_drafted(
                self@,
                (old(draft)@, *old(stats)),
                gaps@,
                tables@,
            ),
            final(draft)@.wf(),
    {
        let ghost gs = gaps@;
        let ghost state = (draft@, *stats);
        let mut i: usize = 0;
        assert(gs.take(0) =~= Seq::<Span>::empty());
        while i < gaps.len()
            invariant
                self.wf(),
                i <= gs.len(),
                gs == gaps@,
                forall|k: int| 0 <= k < gs.len() ==> (#[trigger] gs[k]).start < gs[k].end,
                draft@.wf(),
                (draft@, *stats) == code_gaps_drafted(self@, state, gs.take(i as int), tables@),
            decreases gs.len() - i,
        {
            assert(gs.take(i + 1).drop_last() =~= gs.take(i as int));
            let gap = gaps[i];
            assert(gs[i as int].start < gs[i as int].end);
            let section: usize = draft.add_section(self.format, Contents::Text);
            self.draft_gap(draft, section, gap, tables);
            stats.text_bytes = stats.text_bytes.wrapping_add(gap.end - gap.start);
            i += 1;
        }
        assert(gs.take(gs.len() as int) =~= gs);
    }

    fn draft_shared_code(&self, held: &Held, draft: &mut Draft, stats: &mut SharedDataStats)
        requires
            self.wf(),
            old(draft)@ == empty_draft(),
            old(draft)@.wf(),
            *old(stats) == no_shared_stats(),
        ensures
            (final(draft)@, *final(stats)) == shared_code_drafted(
                self@,
                held@,
                self.model.sections@,
            ),
            final(draft)@.wf(),
    {
        let ghost ss = self.model.sections@;
        let mut i: usize = 0;
        assert(ss.take(0) =~= Seq::<Section>::empty());
        while i < self.model.sections.len()
            invariant
                self.wf(),
                i <= ss.len(),
                ss == self.model.sections@,
                draft@.wf(),
                (draft@, *stats) == shared_code_drafted(self@, held@, ss.take(i as int)),
            decreases ss.len() - i,
        {
            assert(ss.take(i + 1).drop_last() =~= ss.take(i as int));
            let section = &self.model.sections[i];
            if section.class == SegClass::Code {
                let end: u64 = original_virtual_end(
                    self.pe,
                    self.model,
                    section.start,
                    section.end,
                );
                let (occupied, tables) = self.occupy_section(held, section);
                let whole = Span { start: section.start, end };
                let gaps = subtract_ranges(whole, &occupied);
                proof {
                    lemma_subtracted(whole, occupied@, 0);
                }
                self.draft_code_gaps(draft, stats, &gaps, &tables);
            }
            i += 1;
        }
        assert(ss.take(ss.len() as int) =~= ss);
    }

    fn draft_fragment(
        &self,
        draft: &mut Draft,
        stats: &mut SharedDataStats,
        class: SegClass,
        fragment: Span,
    ) -> (r: Result<(), Error>)
        requires
            self.wf(),
            old(draft)@.wf(),
            is_shared_class(class),
            fragment.start < fragment.end,
        ensures
            match r {
                Ok(_) => {
                    &&& fragment_drafted(self@, (old(draft)@, *old(stats)), class, fragment) == Ok::<
                        (DraftView, SharedDataStats),
                        Seq<char>,
                    >((final(draft)@, *final(stats)))
                    &&& final(draft)@.wf()
                },
                Err(e) => fragment_drafted(self@, (old(draft)@, *old(stats)), class, fragment)
                    == Err::<(DraftView, SharedDataStats), Seq<char>>(e@),
            },
    {
        let contents = self.contents_of_range(class, fragment.start);
        let section: usize = match self.draft_data_section(draft, contents, fragment) {
            Ok(section) => section,
            Err(e) => {
                return Err(e);
            },
        };
        if class != SegClass::Xtrn && is_first_class_address(self.model, class, fragment.start) {
            self.draft_start_symbol(draft, class_start_symbol(class).to_owned(), section);
        }
        self.draft_variables(draft, section, fragment);
        let size: u64 = fragment.end - fragment.start;
        match class {
            SegClass::Data => {
                stats.data_bytes = stats.data_bytes.wrapping_add(size);
            },
            SegClass::Const | SegClass::Xtrn => {
                stats.const_bytes = stats.const_bytes.wrapping_add(size);
            },
            _ => {
                stats.bss_bytes = stats.bss_bytes.wrapping_add(size);
            },
        }
        Ok(())
    }

    fn draft_fragments(
        &self,
        draft: &mut Draft,
        stats: &mut SharedDataStats,
        class: SegClass,
        fragments: &Vec<Span>,
    ) -> (r: Result<(), Error>)
        requires
            self.wf(),
            old(draft)@.wf(),
            is_shared_class(class),
            forall|i: int|
                0 <= i < fragments@.len() ==> (#[trigger] fragments@[i]).start < fragments@[i].end,
        ensures
            match r {
                Ok(_) => {
                    &&& fragments_drafted(
                        self@,
                        (old(draft)@, *old(stats)),
                        class,
                        fragments@,
                    ) == Ok::<(DraftView, SharedDataStats), Seq<char>>(
                        (final(draft)@, *final(stats)),
                    )
                    &&& final(draft)@.wf()
                },
                Err(e) => fragments_drafted(
                    self@,
                    (old(draft)@, *old(stats)),
                    class,
                    fragments@,
                ) == Err::<(DraftView, SharedDataStats), Seq<char>>(e@),
            },
    {
        let ghost fs = fragments@;
        let ghost state = (draft@, *stats);
        let mut i: usize = 0;
        assert(fs.take(0) =~= Seq::<Span>::empty());
        while i < fragments.len()
            invariant
                self.wf(),
                is_shared_class(class),
                i <= fs.len(),
                fs == fragments@,
                state == (old(draft)@, *old(stats)),
                forall|k: int| 0 <= k < fs.len() ==> (#[trigger] fs[k]).start < fs[k].end,
                draft@.wf(),
                fragments_drafted(self@, state, class, fs.take(i as int)) == Ok::<
                    (DraftView, SharedDataStats),
                    Seq<char>,
                >((draft@, *stats)),
            decreases fs.len() - i,
        {
            assert(fs.take(i + 1).drop_last() =~= fs.take(i as int));
            assert(fs[i as int].start < fs[i as int].end);
            proof {
                if fragments_drafted(self@, state, class, fs.take(i + 1)) is Err {
                    lemma_fragments_drafted_err(self@, state, class, fs, i + 1);
                }
            }
            if let Err(e) = self.draft_fragment(draft, stats, class, fragments[i]) {
                return Err(e);
            }
            i += 1;
        }
        assert(fs.take(fs.len() as int) =~= fs);
        Ok(())
    }

    fn draft_shared_data(
        &self,
        held: &Held,
        draft: &mut Draft,
        stats: &mut SharedDataStats,
    ) -> (r: Result<(), Error>)
        requires
            self.wf(),
            old(draft)@.wf(),
        ensures
            match r {
                Ok(_) => {
                    &&& shared_data_drafted(
                        self@,
                        held@,
                        (old(draft)@, *old(stats)),
                        self.model.sections@,
                    ) == Ok::<(DraftView, SharedDataStats), Seq<char>>(
                        (final(draft)@, *final(stats)),
                    )
                    &&& final(draft)@.wf()
                },
                Err(e) => shared_data_drafted(
                    self@,
                    held@,
                    (old(draft)@, *old(stats)),
                    self.model.sections@,
                ) == Err::<(DraftView, SharedDataStats), Seq<char>>(e@),
            },
    {
        let ghost ss = self.model.sections@;
        let ghost state = (draft@, *stats);
        let mut i: usize = 0;
        assert(ss.take(0) =~= Seq::<Section>::empty());
        while i < self.model.sections.len()
            invariant
                self.wf(),
                i <= ss.len(),
                ss == self.model.sections@,
                state == (old(draft)@, *old(stats)),
                draft@.wf(),
                shared_data_drafted(self@, held@, state, ss.take(i as int)) == Ok::<
                    (DraftView, SharedDataStats),
                    Seq<char>,
                >((draft@, *stats)),
            decreases ss.len() - i,
        {
            assert(ss.take(i + 1).drop_last() =~= ss.take(i as int));
            proof {
                if shared_data_drafted(self@, held@, state, ss.take(i + 1)) is Err {
                    lemma_shared_data_drafted_err(self@, held@, state, ss, i + 1);
                }
            }
            let section = &self.model.sections[i];
            if section.class.is_data() || section.class == SegClass::Xtrn {
                let end: u64 = original_virtual_end(
                    self.pe,
                    self.model,
                    section.start,
                    section.end,
                );
                let whole = Span { start: section.start, end };
                let fragments = subtract_ranges(whole, &held.data);
                proof {
                    lemma_subtracted(whole, held.data@, 0);
                }
                if let Err(e) = self.draft_fragments(draft, stats, section.class, &fragments) {
                    return Err(e);
                }
            }
            i += 1;
        }
        assert(ss.take(ss.len() as int) =~= ss);
        Ok(())
    }

    /// Draft what no other object holds: the code between functions and the
    /// data that is not assigned.
    pub fn draft_shared(&self, held: &Held) -> (r: Result<(Draft, SharedDataStats), Error>)
        requires
            self.wf(),
        ensures
            match r {
                Ok((draft, stats)) => {
                    &&& shared_drafted(self@, held@) == Ok::<(DraftView, SharedDataStats), Seq<char>>(
                        (draft@, stats),
                    )
                    &&& draft@.wf()
                },
                Err(e) => shared_drafted(self@, held@) == Err::<
                    (DraftView, SharedDataStats),
                    Seq<char>,
                >(e@),
            },
    {
        let mut draft = Draft::new();
        let mut stats = SharedDataStats::default();
        if held.has_functions() {
            self.draft_shared_code(held, &mut draft, &mut stats);
        }
        if let Err(e) = self.draft_shared_data(held, &mut draft, &mut stats) {
            return Err(e);
        }
        Ok((draft, stats))
    }
}

} // verus!
