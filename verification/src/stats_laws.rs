//! What the statistics of an object count: the bytes that went into it, by class, and
//! its names and relocations.

use crate::bytes::wrap64;
use crate::draft::DraftView;
use crate::emitter::{EmitStats, EmitView};
use crate::function_code::{bytes_at, checked_tables, end_with_tables};
use crate::groups::{DataRange, GroupView};
use crate::model::{Function, SegClass};
use crate::objects::{functions_drafted, gaps_drafted, group_data_drafted, ranges_drafted};
use crate::plan::{finished, undefined_names};
use crate::ranges::{virtual_end, Span};
use crate::report::{listed, Row};
use crate::seqs::{keep, lemma_keep_contains};
use crate::sorting::{lemma_stable_sort_contains, lemma_stable_sort_orders, stable_sort};
use crate::split::object_emitted;
use vstd::prelude::*;

verus! {

proof fn lemma_wrapped_sum(a: int, b: int, c: int)
    ensures
        wrap64(wrap64(a + b) + c) == wrap64(a + (b + c)),
{
    vstd::arithmetic::div_mod::lemma_add_mod_noop(a + b, c, 0x1_0000_0000_0000_0000);
    vstd::arithmetic::div_mod::lemma_add_mod_noop_right(c, a + b, 0x1_0000_0000_0000_0000);
}

/// The bytes of data ranges, as far as the image reaches.
pub open spec fn data_total(ctx: EmitView, ranges: Seq<DataRange>) -> int
    decreases ranges.len(),
{
    if ranges.len() == 0 {
        0
    } else {
        let r = ranges.last();
        let end = virtual_end(ctx.image, ctx.base(), r.spec_start(), r.spec_end());
        data_total(ctx, ranges.drop_last()) + if r.spec_start() < end {
            end - r.spec_start()
        } else {
            0
        }
    }
}

proof fn lemma_ranges_count(
    ctx: EmitView,
    state: (DraftView, EmitStats),
    class: SegClass,
    ranges: Seq<DataRange>,
)
    ensures
        ranges_drafted(ctx, state, class, ranges) matches Ok((_, stats)) ==> {
            let total = data_total(ctx, ranges);
            &&& stats.text_bytes == state.1.text_bytes
            &&& stats.const_bytes == if class == SegClass::Const {
                wrap64(state.1.const_bytes + total)
            } else {
                state.1.const_bytes as int
            }
            &&& stats.data_bytes == if class == SegClass::Data {
                wrap64(state.1.data_bytes + total)
            } else {
                state.1.data_bytes as int
            }
            &&& stats.bss_bytes == if class != SegClass::Const && class != SegClass::Data {
                wrap64(state.1.bss_bytes + total)
            } else {
                state.1.bss_bytes as int
            }
        },
    decreases ranges.len(),
{
    if ranges.len() > 0 {
        let init = ranges.drop_last();
        lemma_ranges_count(ctx, state, class, init);
        let before = data_total(ctx, init);
        let more = data_total(ctx, ranges) - before;
        lemma_wrapped_sum(state.1.const_bytes as int, before, more);
        lemma_wrapped_sum(state.1.data_bytes as int, before, more);
        lemma_wrapped_sum(state.1.bss_bytes as int, before, more);
    }
}

/// The data of a group is counted by class: as many bytes as its ranges have, as far
/// as the image reaches.
pub proof fn lemma_data_is_counted(
    ctx: EmitView,
    state: (DraftView, EmitStats),
    group: GroupView,
)
    ensures
        group_data_drafted(ctx, state, group) matches Ok((_, stats)) ==> {
            &&& stats.const_bytes == wrap64(state.1.const_bytes + data_total(ctx, group.rdata))
            &&& stats.data_bytes == wrap64(state.1.data_bytes + data_total(ctx, group.data))
            &&& stats.bss_bytes == wrap64(state.1.bss_bytes + data_total(ctx, group.bss))
            &&& stats.text_bytes == state.1.text_bytes
        },
{
    if group_data_drafted(ctx, state, group) is Ok {
        let s1 = ranges_drafted(ctx, state, SegClass::Const, group.rdata)->Ok_0;
        let s2 = ranges_drafted(ctx, s1, SegClass::Data, group.data)->Ok_0;
        lemma_ranges_count(ctx, state, SegClass::Const, group.rdata);
        lemma_ranges_count(ctx, s1, SegClass::Data, group.data);
        lemma_ranges_count(ctx, s2, SegClass::Bss, group.bss);
    }
}

/// The bytes of functions with their tables, of those that the image backs.
pub open spec fn code_total(ctx: EmitView, functions: Seq<Function>) -> int
    decreases functions.len(),
{
    if functions.len() == 0 {
        0
    } else {
        let f = functions.last();
        code_total(ctx, functions.drop_last()) + match checked_tables(ctx, f) {
            Ok(tables) => {
                let size = end_with_tables(f.end, tables) - f.start;
                if bytes_at(ctx, f.start, size) is Some {
                    size
                } else {
                    0
                }
            },
            Err(_) => 0,
        }
    }
}

/// The code of a group is counted: as many bytes as its functions have with their
/// tables.
pub proof fn lemma_code_is_counted(
    ctx: EmitView,
    state: (DraftView, EmitStats),
    starts: Seq<u64>,
    functions: Seq<Function>,
)
    requires
        forall|i: int|
            0 <= i < functions.len() ==> (#[trigger] functions[i]).start <= functions[i].end,
    ensures
        functions_drafted(ctx, state, starts, functions) matches Ok((_, stats)) ==> {
            &&& stats.text_bytes == wrap64(state.1.text_bytes + code_total(ctx, functions))
            &&& stats.const_bytes == state.1.const_bytes
            &&& stats.data_bytes == state.1.data_bytes
            &&& stats.bss_bytes == state.1.bss_bytes
        },
    decreases functions.len(),
{
    if functions.len() > 0 {
        let init = functions.drop_last();
        assert forall|i: int| 0 <= i < init.len() implies (#[trigger] init[i]).start
            <= init[i].end by {
            assert(init[i] == functions[i]);
        }
        lemma_code_is_counted(ctx, state, starts, init);
        let f = functions.last();
        assert(functions[functions.len() - 1] == f);
        if let Ok(tables) = checked_tables(ctx, f) {
            crate::laws::lemma_end_with_tables(f.end, tables);
        }
        let before = code_total(ctx, init);
        let more = code_total(ctx, functions) - before;
        lemma_wrapped_sum(state.1.text_bytes as int, before, more);
    }
}

/// The bytes of stretches of code.
pub open spec fn gap_total(gaps: Seq<Span>) -> int
    decreases gaps.len(),
{
    if gaps.len() == 0 {
        0
    } else {
        gap_total(gaps.drop_last()) + (gaps.last().end - gaps.last().start)
    }
}

/// The code between functions is counted too.
pub proof fn lemma_gaps_are_counted(
    ctx: EmitView,
    state: (DraftView, EmitStats),
    starts: Seq<u64>,
    gaps: Seq<Span>,
    tables: Set<Seq<char>>,
)
    ensures
        gaps_drafted(ctx, state, starts, gaps, tables).1.text_bytes == wrap64(
            state.1.text_bytes + gap_total(gaps),
        ),
    decreases gaps.len(),
{
    if gaps.len() > 0 {
        let init = gaps.drop_last();
        lemma_gaps_are_counted(ctx, state, starts, init, tables);
        lemma_wrapped_sum(
            state.1.text_bytes as int,
            gap_total(init),
            gaps.last().end - gaps.last().start,
        );
    }
}

/// An object that was emitted counts its relocations, the names that it defines, and
/// those that it leaves undefined.
pub proof fn lemma_names_and_relocations_are_counted(ctx: EmitView, group: GroupView)
    ensures
        object_emitted(ctx, group) matches Ok((_, stats)) ==> (crate::objects::group_drafted(
            ctx,
            group,
        ) matches Ok((d, drafted)) && stats.relocations == finished(d).relocs.len() as usize
            && stats.local_symbols == d.local.len() as usize && stats.undef_symbols
            == undefined_names(d).len() as usize && stats.text_bytes == drafted.text_bytes
            && stats.data_bytes == drafted.data_bytes && stats.const_bytes == drafted.const_bytes
            && stats.bss_bytes == drafted.bss_bytes),
{
}

/// A listing has the rows whose name holds the text, smallest first, and as many of
/// them as it may.
pub proof fn lemma_listing(rows: Seq<Row>, part: Seq<char>, limit: nat, r: Row)
    ensures
        ({
            let all = stable_sort(keep(rows, crate::report::named_with(part)));
            let out = listed(rows, part, limit);
            &&& all.contains(r) <==> rows.contains(r) && crate::report::has_part(r.name@, part)
            &&& out.len() == if all.len() <= limit {
                all.len()
            } else {
                limit
            }
            &&& forall|i: int, j: int|
                0 <= i < j < all.len() ==> (#[trigger] all[i]).bytes <= (#[trigger] all[j]).bytes
            &&& forall|i: int| 0 <= i < out.len() ==> #[trigger] out[i] == all[i]
        }),
{
    let kept = keep(rows, crate::report::named_with(part));
    let all = stable_sort(kept);
    lemma_stable_sort_contains(kept, r);
    lemma_keep_contains(rows, crate::report::named_with(part), r);
    lemma_stable_sort_orders(kept);
    assert forall|i: int, j: int| 0 <= i < j < all.len() implies (#[trigger] all[i]).bytes <= (
    #[trigger] all[j]).bytes by {
        assert(crate::sorting::HasKey::spec_key(&all[i]) <= crate::sorting::HasKey::spec_key(
            &all[j],
        ));
    }
}

} // verus!
