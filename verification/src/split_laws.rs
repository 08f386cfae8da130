//! What a split gives: an outcome for every group that holds anything, and the rest
//! to the shared object.

use crate::emitter::EmitView;
use crate::groups::GroupView;
use crate::split::{
    grouped_code, grouped_functions, object_emitted, outcomes, spans_of, OutcomeView,
};
use crate::ranges::covered;
use vstd::prelude::*;

verus! {

/// Whether a group holds anything.
pub open spec fn holds_anything(group: GroupView) -> bool {
    group.functions.len() > 0 || group.function_ranges.len() > 0 || group.rdata.len() > 0
        || group.data.len() > 0 || group.bss.len() > 0
}

proof fn lemma_empty_group(group: GroupView)
    ensures
        (group == crate::groups::empty_group()) == !holds_anything(group),
{
    if !holds_anything(group) {
        assert(group =~= crate::groups::empty_group());
    }
}

/// Every group that holds anything has its outcome: that of its own object.
#[verifier::spinoff_prover]
#[verifier::rlimit(50)]
pub proof fn lemma_every_group_has_its_outcome(
    ctx: EmitView,
    groups: Seq<(Seq<char>, GroupView)>,
    k: int,
)
    requires
        0 <= k < groups.len(),
        holds_anything(groups[k].1),
    ensures
        outcomes(ctx, groups).contains(
            OutcomeView { cu_name: groups[k].0, result: object_emitted(ctx, groups[k].1) },
        ),
    decreases groups.len(),
{
    let init = groups.drop_last();
    let before = outcomes(ctx, init);
    let all = outcomes(ctx, groups);
    let o = OutcomeView { cu_name: groups[k].0, result: object_emitted(ctx, groups[k].1) };
    lemma_empty_group(groups.last().1);
    if k < init.len() {
        lemma_every_group_has_its_outcome(ctx, init, k);
        let i = choose|i: int| 0 <= i < before.len() && before[i] == o;
        assert(all[i] == o);
    } else {
        assert(all[before.len() as int] == o);
    }
}

/// Every outcome is that of a group that holds anything.
pub proof fn lemma_outcomes_are_of_groups(
    ctx: EmitView,
    groups: Seq<(Seq<char>, GroupView)>,
    i: int,
)
    requires
        0 <= i < outcomes(ctx, groups).len(),
    ensures
        outcomes(ctx, groups).len() <= groups.len(),
        exists|k: int|
            0 <= k < groups.len() && holds_anything((#[trigger] groups[k]).1) && outcomes(
                ctx,
                groups,
            )[i] == (OutcomeView {
                cu_name: groups[k].0,
                result: object_emitted(ctx, groups[k].1),
            }),
    decreases groups.len(),
{
    let init = groups.drop_last();
    let before = outcomes(ctx, init);
    let all = outcomes(ctx, groups);
    lemma_empty_group(groups.last().1);
    lemma_outcome_count(ctx, groups);
    if i < before.len() {
        lemma_outcomes_are_of_groups(ctx, init, i);
        let k = choose|k: int|
            0 <= k < init.len() && holds_anything((#[trigger] init[k]).1) && before[i] == (
            OutcomeView { cu_name: init[k].0, result: object_emitted(ctx, init[k].1) });
        assert(groups[k] == init[k]);
        assert(all[i] == before[i]);
    } else {
        assert(groups[groups.len() - 1] == groups.last());
    }
}

proof fn lemma_outcome_count(ctx: EmitView, groups: Seq<(Seq<char>, GroupView)>)
    ensures
        outcomes(ctx, groups).len() <= groups.len(),
    decreases groups.len(),
{
    if groups.len() > 0 {
        lemma_outcome_count(ctx, groups.drop_last());
    }
}

/// The functions that groups hold are those that one of them lists.
pub proof fn lemma_grouped_functions(groups: Seq<(Seq<char>, GroupView)>, start: u64)
    ensures
        grouped_functions(groups).contains(start) <==> exists|k: int|
            0 <= k < groups.len() && (#[trigger] groups[k]).1.functions.contains(start),
    decreases groups.len(),
{
    if groups.len() > 0 {
        let init = groups.drop_last();
        lemma_grouped_functions(init, start);
        assert(groups[groups.len() - 1] == groups.last());
        if exists|k: int| 0 <= k < init.len() && (#[trigger] init[k]).1.functions.contains(start) {
            let k = choose|k: int|
                0 <= k < init.len() && (#[trigger] init[k]).1.functions.contains(start);
            assert(groups[k] == init[k]);
        }
        if exists|k: int|
            0 <= k < groups.len() && (#[trigger] groups[k]).1.functions.contains(start) {
            let k = choose|k: int|
                0 <= k < groups.len() && (#[trigger] groups[k]).1.functions.contains(start);
            if k < init.len() {
                assert(groups[k] == init[k]);
            }
        }
    }
}

/// Whether a function range of one of the groups holds an address.
pub open spec fn in_function_range(groups: Seq<(Seq<char>, GroupView)>, a: int) -> bool {
    exists|k: int, m: int|
        0 <= k < groups.len() && 0 <= m < groups[k].1.function_ranges.len() && (
        #[trigger] groups[k].1.function_ranges[m]).spec_start() <= a
            < groups[k].1.function_ranges[m].spec_end()
}

/// The code that groups hold is that of their function ranges.
pub proof fn lemma_grouped_code(groups: Seq<(Seq<char>, GroupView)>, a: int)
    ensures
        covered(grouped_code(groups), a) == in_function_range(groups, a),
    decreases groups.len(),
{
    if groups.len() > 0 {
        let init = groups.drop_last();
        let n = init.len() as int;
        let before = grouped_code(init);
        let ranges = groups.last().1.function_ranges;
        let part = spans_of(ranges);
        let all = grouped_code(groups);
        lemma_grouped_code(init, a);
        assert(groups[n] == groups.last());
        if covered(all, a) {
            let i = choose|i: int| 0 <= i < all.len() && (#[trigger] all[i]).has(a);
            if i < before.len() {
                assert(before[i].has(a));
                let (k, m) = choose|k: int, m: int|
                    0 <= k < init.len() && 0 <= m < init[k].1.function_ranges.len() && (
                    #[trigger] init[k].1.function_ranges[m]).spec_start() <= a
                        < init[k].1.function_ranges[m].spec_end();
                assert(groups[k].1.function_ranges[m].spec_start() <= a);
            } else {
                let m = i - before.len();
                assert(part[m].has(a));
                assert(groups[n].1.function_ranges[m].spec_start() <= a);
            }
        }
        if in_function_range(groups, a) {
            let (k, m) = choose|k: int, m: int|
                0 <= k < groups.len() && 0 <= m < groups[k].1.function_ranges.len() && (
                #[trigger] groups[k].1.function_ranges[m]).spec_start() <= a
                    < groups[k].1.function_ranges[m].spec_end();
            if k < n {
                assert(init[k].1.function_ranges[m].spec_start() <= a);
                assert(in_function_range(init, a));
                let i = choose|i: int| 0 <= i < before.len() && (#[trigger] before[i]).has(a);
                assert(all[i].has(a));
            } else {
                assert(part[m].has(a));
                assert(all[before.len() + m].has(a));
            }
        }
    }
}

} // verus!
