//! What is asked of the data ranges of a grouping: each lies in a section that can
//! hold it, and no two share an address.

use crate::groups::{DataRange, GroupView};
use crate::laws::ranges_of;
use crate::model::{SegClass, Section};
use crate::ownership::{
    data_ranges_fault, expanded, first_placed_fault, holds_range, overlap_fault, placed_data,
    placed_fault, placed_in, PlacedView,
};
use crate::seqs::lemma_first_index;
use crate::sorting::{lemma_stable_sort_orders, stable_sort};
use vstd::prelude::*;

verus! {

/// Whether a range is one of the data ranges of an object of the grouping.
pub open spec fn is_placed(groups: Seq<(Seq<char>, GroupView)>, p: PlacedView) -> bool {
    exists|k: int, m: int|
        0 <= k < groups.len() && groups[k].0 == p.file && 0 <= m < ranges_of(
            groups[k].1,
            p.class,
        ).len() && (#[trigger] ranges_of(groups[k].1, p.class)[m]).spec_start() == p.start
            && ranges_of(groups[k].1, p.class)[m].spec_end() == p.end
}

proof fn lemma_placed_in(file: Seq<char>, class: SegClass, ranges: Seq<DataRange>, p: PlacedView)
    ensures
        placed_in(file, class, ranges).contains(p) <==> p.file == file && p.class == class
            && exists|m: int|
            0 <= m < ranges.len() && (#[trigger] ranges[m]).spec_start() == p.start
                && ranges[m].spec_end() == p.end,
{
    let placed = placed_in(file, class, ranges);
    if placed.contains(p) {
        let m = choose|m: int| 0 <= m < placed.len() && placed[m] == p;
        assert(ranges[m].spec_start() == p.start);
    }
    if p.file == file && p.class == class && exists|m: int|
        0 <= m < ranges.len() && (#[trigger] ranges[m]).spec_start() == p.start
            && ranges[m].spec_end() == p.end {
        let m = choose|m: int|
            0 <= m < ranges.len() && (#[trigger] ranges[m]).spec_start() == p.start
                && ranges[m].spec_end() == p.end;
        assert(placed[m] == p);
    }
}

proof fn lemma_appended<T>(a: Seq<T>, b: Seq<T>, x: T)
    ensures
        (a + b).contains(x) == (a.contains(x) || b.contains(x)),
{
    if a.contains(x) {
        let k = choose|k: int| 0 <= k < a.len() && a[k] == x;
        assert((a + b)[k] == x);
    }
    if b.contains(x) {
        let k = choose|k: int| 0 <= k < b.len() && b[k] == x;
        assert((a + b)[a.len() + k] == x);
    }
    if (a + b).contains(x) {
        let k = choose|k: int| 0 <= k < (a + b).len() && (a + b)[k] == x;
        if k < a.len() {
            assert(a[k] == x);
        } else {
            assert(b[k - a.len()] == x);
        }
    }
}

/// The ranges that are checked are those of the objects, each as its class.
pub proof fn lemma_every_range_is_checked(groups: Seq<(Seq<char>, GroupView)>, p: PlacedView)
    ensures
        placed_data(groups).contains(p) <==> is_placed(groups, p),
    decreases groups.len(),
{
    if groups.len() > 0 {
        let init = groups.drop_last();
        let n = init.len() as int;
        let (file, group) = groups.last();
        let before = placed_data(init);
        let c = placed_in(file, SegClass::Const, group.rdata);
        let d = placed_in(file, SegClass::Data, group.data);
        let b = placed_in(file, SegClass::Bss, group.bss);
        lemma_every_range_is_checked(init, p);
        lemma_appended(before, c, p);
        lemma_appended(before + c, d, p);
        lemma_appended(before + c + d, b, p);
        lemma_placed_in(file, SegClass::Const, group.rdata, p);
        lemma_placed_in(file, SegClass::Data, group.data, p);
        lemma_placed_in(file, SegClass::Bss, group.bss, p);
        assert(groups[n] == groups.last());
        if is_placed(init, p) {
            let (k, m) = choose|k: int, m: int|
                0 <= k < init.len() && init[k].0 == p.file && 0 <= m < ranges_of(
                    init[k].1,
                    p.class,
                ).len() && (#[trigger] ranges_of(init[k].1, p.class)[m]).spec_start() == p.start
                    && ranges_of(init[k].1, p.class)[m].spec_end() == p.end;
            assert(ranges_of(groups[k].1, p.class)[m].spec_start() == p.start);
        }
        if is_placed(groups, p) {
            let (k, m) = choose|k: int, m: int|
                0 <= k < groups.len() && groups[k].0 == p.file && 0 <= m < ranges_of(
                    groups[k].1,
                    p.class,
                ).len() && (#[trigger] ranges_of(groups[k].1, p.class)[m]).spec_start() == p.start
                    && ranges_of(groups[k].1, p.class)[m].spec_end() == p.end;
            if k < n {
                assert(ranges_of(init[k].1, p.class)[m].spec_start() == p.start);
            } else {
                assert(ranges_of(group, p.class)[m].spec_start() == p.start);
            }
        }
        if c.contains(p) || d.contains(p) || b.contains(p) {
            let ranges = ranges_of(group, p.class);
            let m = choose|m: int|
                0 <= m < ranges.len() && (#[trigger] ranges[m]).spec_start() == p.start
                    && ranges[m].spec_end() == p.end;
            assert(ranges_of(groups[n].1, p.class)[m].spec_start() == p.start);
        }
    }
}

/// Whether a section can hold ranges of a class: zero-filled data may stand in a
/// section of data, and constants in one of imports.
pub open spec fn can_hold(section: SegClass, class: SegClass) -> bool {
    ||| section == class
    ||| class == SegClass::Bss && section == SegClass::Data
    ||| class == SegClass::Const && section == SegClass::Xtrn
}

/// Whether a range has an address and lies in a section that can hold it.
pub open spec fn lies_well(sections: Seq<Section>, p: PlacedView) -> bool {
    p.start < p.end && exists|s: int|
        0 <= s < sections.len() && can_hold((#[trigger] sections[s]).class, p.class)
            && sections[s].start <= p.start && p.end <= sections[s].end
}

proof fn lemma_lies_well(sections: Seq<Section>, p: PlacedView)
    requires
        p.class == SegClass::Const || p.class == SegClass::Data || p.class == SegClass::Bss,
    ensures
        placed_fault(sections, p) is None <==> lies_well(sections, p),
{
    let q = holds_range(p.class, p.start, p.end);
    lemma_first_index(sections, q);
    if lies_well(sections, p) {
        let s = choose|s: int|
            0 <= s < sections.len() && can_hold((#[trigger] sections[s]).class, p.class)
                && sections[s].start <= p.start && p.end <= sections[s].end;
        assert(q(sections[s]));
    }
    if let Some(s) = crate::seqs::first_index(sections, q) {
        assert(can_hold(sections[s].class, p.class));
    }
}

proof fn lemma_first_fault(sections: Seq<Section>, placed: Seq<PlacedView>)
    ensures
        first_placed_fault(sections, placed) is None <==> forall|i: int|
            0 <= i < placed.len() ==> placed_fault(sections, #[trigger] placed[i]) is None,
    decreases placed.len(),
{
    if placed.len() > 0 {
        let init = placed.drop_last();
        lemma_first_fault(sections, init);
        assert(placed[placed.len() - 1] == placed.last());
        if first_placed_fault(sections, placed) is None {
            assert forall|i: int| 0 <= i < placed.len() implies placed_fault(
                sections,
                #[trigger] placed[i],
            ) is None by {
                if i < init.len() {
                    assert(init[i] == placed[i]);
                }
            }
        }
        if forall|i: int|
            0 <= i < placed.len() ==> placed_fault(sections, #[trigger] placed[i]) is None {
            assert(placed_fault(sections, placed[placed.len() - 1]) is None);
            assert forall|i: int| 0 <= i < init.len() implies placed_fault(
                sections,
                #[trigger] init[i],
            ) is None by {
                assert(init[i] == placed[i]);
            }
        }
    }
}

/// Whether a range ends before the next one begins.
pub open spec fn ends_before_next(placed: Seq<PlacedView>, i: int) -> bool {
    placed[i].end <= placed[i + 1].start
}

proof fn lemma_overlap(placed: Seq<PlacedView>, from: int)
    requires
        0 <= from,
        forall|i: int| from <= i < placed.len() - 1 ==> #[trigger] ends_before_next(placed, i),
    ensures
        overlap_fault(placed, from) is None,
    decreases placed.len() - from,
{
    if from + 1 < placed.len() {
        assert(ends_before_next(placed, from));
        lemma_overlap(placed, from + 1);
    }
}

/// A grouping is refused for its data ranges unless each of them lies well.
pub proof fn lemma_ranges_lie_well(
    sections: Seq<Section>,
    groups: Seq<(Seq<char>, GroupView)>,
    p: PlacedView,
)
    requires
        data_ranges_fault(sections, groups) is None,
        is_placed(groups, p),
    ensures
        lies_well(sections, p),
{
    let placed = placed_data(groups);
    lemma_every_range_is_checked(groups, p);
    lemma_first_fault(sections, placed);
    let i = choose|i: int| 0 <= i < placed.len() && placed[i] == p;
    assert(placed_fault(sections, placed[i]) is None);
    assert(p.class == SegClass::Const || p.class == SegClass::Data || p.class == SegClass::Bss);
    lemma_lies_well(sections, p);
}

/// A grouping is not refused where all of its data ranges lie well, and in address
/// order none begins before the one before it has ended.
pub proof fn lemma_sound_ranges_are_accepted(
    sections: Seq<Section>,
    groups: Seq<(Seq<char>, GroupView)>,
)
    requires
        forall|p: PlacedView| #[trigger] is_placed(groups, p) ==> lies_well(sections, p),
        forall|i: int|
            0 <= i < placed_data(groups).len() - 1 ==> #[trigger] ends_before_next(
                stable_sort(placed_data(groups)),
                i,
            ),
    ensures
        data_ranges_fault(sections, groups) is None,
{
    let placed = placed_data(groups);
    assert forall|i: int| 0 <= i < placed.len() implies placed_fault(
        sections,
        #[trigger] placed[i],
    ) is None by {
        assert(placed.contains(placed[i]));
        lemma_every_range_is_checked(groups, placed[i]);
        lemma_lies_well(sections, placed[i]);
    }
    lemma_first_fault(sections, placed);
    lemma_stable_sort_orders(placed);
    lemma_overlap(stable_sort(placed), 0);
}

/// A grouping without function ranges is left as it is.
pub proof fn lemma_no_ranges_change_nothing(
    sections: Seq<Section>,
    functions: Seq<crate::model::Function>,
    groups: Seq<(Seq<char>, GroupView)>,
)
    requires
        forall|k: int|
            0 <= k < groups.len() ==> (#[trigger] groups[k]).1.function_ranges.len() == 0,
    ensures
        expanded(sections, functions, groups) == Ok::<Seq<(Seq<char>, GroupView)>, Seq<char>>(
            groups,
        ),
{
    assert(!crate::ownership::uses_ranges(groups));
}

} // verus!
