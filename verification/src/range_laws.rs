//! What stretches of data and code hold: the bytes of the image, zeros behind them,
//! and no pointer that reaches over their end.

use crate::addr_map::keys_increase;
use crate::blocks::{span_bytes, with_data_section};
use crate::bytes::wrap64;
use crate::draft::DraftView;
use crate::emitter::{straddling, EmitView};
use crate::format::{absolute_type, Contents};
use crate::function_code::{end_with_tables, function_tables};
use crate::model::{Function, RelocView, SegClass, Section};
use crate::objects::range_contents;
use crate::pe::{has_rva, SectionView};
use crate::ranges::{
    covered, initialized_len, lemma_subtracted, starts_class,
    virtual_end, Span,
};
use crate::reloc_laws::lemma_window;
use crate::seqs::{lemma_first_index_is, lemma_first_index_none};
use crate::shared::{code_gaps, occupied_in, Elsewhere};
use vstd::prelude::*;

verus! {

/// Whether a section of the image is the first that holds an address of the model.
pub open spec fn is_at(sections: Seq<SectionView>, base: u64, a: u64, s: int) -> bool {
    let rva = wrap64(a - base);
    &&& 0 <= s < sections.len()
    &&& sections[s].rva <= rva < sections[s].rva + sections[s].virtual_size <= u64::MAX
    &&& forall|j: int|
        0 <= j < s ==> (#[trigger] sections[j]).rva + sections[j].virtual_size <= u64::MAX && !(
        sections[j].rva <= rva < sections[j].rva + sections[j].virtual_size)
}

proof fn lemma_is_at(sections: Seq<SectionView>, base: u64, a: u64, s: int)
    requires
        is_at(sections, base, a, s),
    ensures
        crate::seqs::first(sections, has_rva(wrap64(a - base) as u64)) == Some(sections[s]),
{
    lemma_first_index_is(sections, has_rva(wrap64(a - base) as u64), s);
}

/// A stretch is read byte by byte from the section of the image that holds its
/// start, with zeros behind the section's data.
pub proof fn lemma_span_is_read_from_its_section(ctx: EmitView, span: Span, s: int, i: int)
    requires
        span.start <= span.end,
        span.end - span.start <= usize::MAX,
        is_at(ctx.image, ctx.base(), span.start, s),
        0 <= i < span.end - span.start,
    ensures
        ({
            let data = ctx.image[s].data;
            let off = wrap64(span.start - ctx.base()) - ctx.image[s].rva;
            &&& span_bytes(ctx, span).len() == span.end - span.start
            &&& span_bytes(ctx, span)[i] == if off + i < data.len() {
                data[off + i]
            } else {
                0
            }
        }),
{
    lemma_is_at(ctx.image, ctx.base(), span.start, s);
}

/// A stretch that begins in no section of the image is read as zeros.
pub proof fn lemma_span_elsewhere_is_zero(ctx: EmitView, span: Span, i: int)
    requires
        span.start <= span.end,
        span.end - span.start <= usize::MAX,
        0 <= i < span.end - span.start,
        forall|j: int|
            0 <= j < ctx.image.len() ==> (#[trigger] ctx.image[j]).rva + ctx.image[j].virtual_size
                <= u64::MAX && !(ctx.image[j].rva <= wrap64(span.start - ctx.base())
                < ctx.image[j].rva + ctx.image[j].virtual_size),
    ensures
        span_bytes(ctx, span).len() == span.end - span.start,
        span_bytes(ctx, span)[i] == 0,
{
    lemma_first_index_none(ctx.image, has_rva(wrap64(span.start - ctx.base()) as u64));
}

/// A range reaches as far as it says, or to the end of the section of the image
/// that holds its start where that is nearer.
pub proof fn lemma_range_ends_with_its_section(
    sections: Seq<SectionView>,
    base: u64,
    start: u64,
    end: u64,
    s: int,
)
    requires
        is_at(sections, base, start, s),
        sections[s].va + sections[s].virtual_size <= u64::MAX,
    ensures
        virtual_end(sections, base, start, end) == if end <= sections[s].va
            + sections[s].virtual_size {
            end as int
        } else {
            sections[s].va + sections[s].virtual_size
        },
{
    lemma_is_at(sections, base, start, s);
}

proof fn lemma_initialized(data: Seq<u8>)
    ensures
        0 <= initialized_len(data) <= data.len(),
        forall|k: int| initialized_len(data) <= k < data.len() ==> #[trigger] data[k] == 0,
        initialized_len(data) > 0 ==> data[initialized_len(data) - 1] != 0,
    decreases data.len(),
{
    if data.len() > 0 && data.last() == 0 {
        let init = data.drop_last();
        lemma_initialized(init);
        assert forall|k: int| initialized_len(data) <= k < data.len() implies #[trigger] data[k]
            == 0 by {
            if k < init.len() {
                assert(init[k] == data[k]);
            }
        }
    }
}

/// A data range has bytes where its section of the image has a byte other than zero
/// at or behind its start, and is zero-filled where it has none; constants and
/// imports always have bytes, and other data never.
pub proof fn lemma_contents_follow_the_image(ctx: EmitView, class: SegClass, start: u64, s: int)
    requires
        is_at(ctx.image, ctx.base(), start, s),
        ctx.image[s].va + ctx.image[s].data.len() <= u64::MAX,
        ctx.image[s].va <= start,
    ensures
        ({
            let data = ctx.image[s].data;
            let all_zero = forall|k: int|
                start - ctx.image[s].va <= k < data.len() ==> #[trigger] data[k] == 0;
            range_contents(ctx, class, start) == match class {
                SegClass::Const | SegClass::Xtrn => Contents::ReadOnly,
                SegClass::Data => if all_zero {
                    Contents::Zeroed
                } else {
                    Contents::Data
                },
                _ => Contents::Zeroed,
            }
        }),
{
    let data = ctx.image[s].data;
    lemma_is_at(ctx.image, ctx.base(), start, s);
    lemma_initialized(data);
    let n = initialized_len(data);
    if start - ctx.image[s].va < n {
        assert(data[n - 1] != 0);
    }
}

/// The first section of a class is the one that its mark stands at.
pub proof fn lemma_class_starts_with_its_first_section(
    sections: Seq<Section>,
    class: SegClass,
    s: int,
    a: u64,
)
    requires
        0 <= s < sections.len(),
        sections[s].class == class,
        forall|j: int| 0 <= j < s ==> (#[trigger] sections[j]).class != class,
    ensures
        starts_class(sections, class, a) == (a == sections[s].start),
{
    lemma_first_index_is(sections, crate::resolver::of_class(class), s);
}

// ---------------------------------------------------------------------------
// Boundaries
// ---------------------------------------------------------------------------

/// Whether the field of a fixup in the `len` bytes at `start` reaches behind them.
pub open spec fn reaches_over(ctx: EmitView, start: u64, len: int, e: (u64, RelocView)) -> bool {
    absolute_type(ctx.format, ctx.model.arch, e.1.size) is Some && e.0 - start + e.1.size > len
}

proof fn lemma_straddling(ctx: EmitView, start: u64, len: int, relocs: Seq<(u64, RelocView)>)
    ensures
        straddling(ctx, start, len, relocs) is Some <==> exists|k: int|
            0 <= k < relocs.len() && reaches_over(ctx, start, len, #[trigger] relocs[k]),
    decreases relocs.len(),
{
    if relocs.len() > 0 {
        let init = relocs.drop_last();
        lemma_straddling(ctx, start, len, init);
        assert(relocs[relocs.len() - 1] == relocs.last());
        if exists|k: int| 0 <= k < init.len() && reaches_over(ctx, start, len, #[trigger] init[k]) {
            let k = choose|k: int|
                0 <= k < init.len() && reaches_over(ctx, start, len, #[trigger] init[k]);
            assert(relocs[k] == init[k]);
        }
        if exists|k: int|
            0 <= k < relocs.len() && reaches_over(ctx, start, len, #[trigger] relocs[k]) {
            let k = choose|k: int|
                0 <= k < relocs.len() && reaches_over(ctx, start, len, #[trigger] relocs[k]);
            if k < init.len() {
                assert(relocs[k] == init[k]);
            }
        }
    }
}

/// A data range is refused if and only if it has bytes and the field of a fixup in
/// it reaches over its end.
pub proof fn lemma_pointers_are_not_cut(
    d: DraftView,
    ctx: EmitView,
    contents: Contents,
    span: Span,
)
    requires
        keys_increase(ctx.symbols.relocs),
        span.start <= span.end,
    ensures
        with_data_section(d, ctx, contents, span) is Err <==> contents != Contents::Zeroed
            && exists|e: (u64, RelocView)| #[trigger]
            ctx.symbols.relocs.contains(e) && span.start <= e.0 < span.end && reaches_over(
                ctx,
                span.start,
                span_bytes(ctx, span).len() as int,
                e,
            ),
{
    let relocs = ctx.relocs(span.start, span.end);
    let len = span_bytes(ctx, span).len() as int;
    lemma_straddling(ctx, span.start, len, relocs);
    if exists|k: int| 0 <= k < relocs.len() && reaches_over(
        ctx,
        span.start,
        len,
        #[trigger] relocs[k],
    ) {
        let k = choose|k: int|
            0 <= k < relocs.len() && reaches_over(ctx, span.start, len, #[trigger] relocs[k]);
        assert(relocs.contains(relocs[k]));
        lemma_window(ctx.symbols.relocs, span.start as int, span.end as int, relocs[k]);
    }
    if exists|e: (u64, RelocView)| #[trigger]
        ctx.symbols.relocs.contains(e) && span.start <= e.0 < span.end && reaches_over(
            ctx,
            span.start,
            len,
            e,
        ) {
        let e = choose|e: (u64, RelocView)| #[trigger]
            ctx.symbols.relocs.contains(e) && span.start <= e.0 < span.end && reaches_over(
                ctx,
                span.start,
                len,
                e,
            );
        lemma_window(ctx.symbols.relocs, span.start as int, span.end as int, e);
        let k = choose|k: int| 0 <= k < relocs.len() && relocs[k] == e;
        assert(reaches_over(ctx, span.start, len, relocs[k]));
    }
}

// ---------------------------------------------------------------------------
// Code that is shared
// ---------------------------------------------------------------------------

/// Whether a function that another object holds takes up an address of a section.
pub open spec fn takes_up(
    ctx: EmitView,
    elsewhere: Elsewhere,
    section: Section,
    f: Function,
    a: int,
) -> bool {
    &&& elsewhere.functions.contains(f.start)
    &&& section.start <= f.start < section.end
    &&& f.start <= a < end_with_tables(f.end, function_tables(ctx, f))
    &&& a < section.end
}

proof fn lemma_occupied(
    ctx: EmitView,
    elsewhere: Elsewhere,
    section: Section,
    functions: Seq<Function>,
    a: int,
)
    ensures
        covered(occupied_in(ctx, elsewhere, section, functions), a) == (covered(elsewhere.code, a)
            || exists|k: int|
            0 <= k < functions.len() && takes_up(
                ctx,
                elsewhere,
                section,
                #[trigger] functions[k],
                a,
            )),
    decreases functions.len(),
{
    if functions.len() > 0 {
        let init = functions.drop_last();
        let f = functions.last();
        let before = occupied_in(ctx, elsewhere, section, init);
        let all = occupied_in(ctx, elsewhere, section, functions);
        lemma_occupied(ctx, elsewhere, section, init, a);
        assert(functions[functions.len() - 1] == f);
        if covered(before, a) {
            let k = choose|k: int| 0 <= k < before.len() && (#[trigger] before[k]).has(a);
            assert(all[k].has(a));
        }
        if covered(all, a) && !covered(before, a) {
            let k = choose|k: int| 0 <= k < all.len() && (#[trigger] all[k]).has(a);
            if k < before.len() {
                assert(before[k].has(a));
            }
            assert(takes_up(ctx, elsewhere, section, f, a));
        }
        if takes_up(ctx, elsewhere, section, f, a) {
            assert(all[before.len() as int].has(a));
        }
        if exists|k: int|
            0 <= k < init.len() && takes_up(ctx, elsewhere, section, #[trigger] init[k], a) {
            let k = choose|k: int|
                0 <= k < init.len() && takes_up(ctx, elsewhere, section, #[trigger] init[k], a);
            assert(functions[k] == init[k]);
        }
        if exists|k: int|
            0 <= k < functions.len() && takes_up(
                ctx,
                elsewhere,
                section,
                #[trigger] functions[k],
                a,
            ) {
            let k = choose|k: int|
                0 <= k < functions.len() && takes_up(
                    ctx,
                    elsewhere,
                    section,
                    #[trigger] functions[k],
                    a,
                );
            if k < init.len() {
                assert(functions[k] == init[k]);
            }
        }
    }
}

/// The stretches of a code section that are shared are what is left of it without
/// the functions, with their tables, and the ranges that other objects hold.
pub proof fn lemma_shared_code_is_the_rest(
    ctx: EmitView,
    elsewhere: Elsewhere,
    section: Section,
    a: int,
)
    ensures
        covered(code_gaps(ctx, elsewhere, section), a) == (section.start <= a < virtual_end(
            ctx.image,
            ctx.base(),
            section.start,
            section.end,
        ) && !covered(elsewhere.code, a) && !exists|k: int|
            0 <= k < ctx.model.functions@.len() && takes_up(
                ctx,
                elsewhere,
                section,
                #[trigger] ctx.model.functions@[k],
                a,
            )),
{
    lemma_occupied(ctx, elsewhere, section, ctx.model.functions@, a);
    lemma_subtracted(
        Span {
            start: section.start,
            end: virtual_end(ctx.image, ctx.base(), section.start, section.end),
        },
        occupied_in(ctx, elsewhere, section, ctx.model.functions@),
        a,
    );
}

} // verus!
