//! Address ranges, and what an image holds in them.

use crate::bytes::wrap64;
use crate::model::{IdaModel, SegClass, Section};
use crate::pe::{has_rva, image_bytes, PeImage, SectionView};
use crate::resolver::{find_class, of_class};
use crate::seqs::{first, lemma_first_index, zero_extend};
use crate::sorting::{
    in_key_order, lemma_stable_sort_contains, lemma_stable_sort_orders, sort_stably, stable_sort,
    HasKey, Keyed,
};
use vstd::prelude::*;

verus! {

/// The addresses from `start` up to `end`.
#[derive(Debug, Clone, Copy, PartialEq, Eq, Structural)]
pub struct Span {
    pub start: u64,
    pub end: u64,
}

impl Span {
    pub open spec fn has(self, a: int) -> bool {
        self.start <= a < self.end
    }
}

impl HasKey for Span {
    open spec fn spec_key(&self) -> u64 {
        self.start
    }
}

impl Keyed for Span {
    fn key(&self) -> (k: u64) {
        self.start
    }
}

/// Whether `a` lies in one of the spans.
pub open spec fn covered(spans: Seq<Span>, a: int) -> bool {
    exists|i: int| 0 <= i < spans.len() && (#[trigger] spans[i]).has(a)
}

/// The part of `cut` that lies in `whole`.
pub open spec fn clip(whole: Span, cut: Span) -> Span {
    Span {
        start: if whole.start >= cut.start {
            whole.start
        } else {
            cut.start
        },
        end: if whole.end <= cut.end {
            whole.end
        } else {
            cut.end
        },
    }
}

/// The parts of the cuts that lie in `whole`, empty ones left out.
pub open spec fn clipped(whole: Span, cuts: Seq<Span>) -> Seq<Span>
    decreases cuts.len(),
{
    if cuts.len() == 0 {
        Seq::empty()
    } else {
        let before = clipped(whole, cuts.drop_last());
        let c = clip(whole, cuts.last());
        if c.start < c.end {
            before.push(c)
        } else {
            before
        }
    }
}

/// The spans between the cuts from `i` on, from `cursor` up to `end`.
pub open spec fn gaps_from(cursor: u64, end: u64, cuts: Seq<Span>, i: int) -> Seq<Span>
    decreases cuts.len() - i,
{
    if i < 0 || i >= cuts.len() {
        if cursor < end {
            seq![Span { start: cursor, end }]
        } else {
            Seq::empty()
        }
    } else {
        let cut = cuts[i];
        let next = if cursor >= cut.end {
            cursor
        } else {
            cut.end
        };
        let rest = gaps_from(next, end, cuts, i + 1);
        if cursor < cut.start {
            seq![Span { start: cursor, end: cut.start }] + rest
        } else {
            rest
        }
    }
}

/// What is left of `whole` without the excluded spans, in address order.
pub open spec fn subtracted(whole: Span, excluded: Seq<Span>) -> Seq<Span> {
    gaps_from(whole.start, whole.end, stable_sort(clipped(whole, excluded)), 0)
}

/// What is left of `whole` without the excluded spans, in address order.
pub fn subtract_ranges(whole: Span, excluded: &Vec<Span>) -> (r: Vec<Span>)
    ensures
        r@ == subtracted(whole, excluded@),
{
    let mut clips: Vec<Span> = Vec::new();
    let mut k: usize = 0;
    assert(excluded@.take(0) =~= Seq::<Span>::empty());
    while k < excluded.len()
        invariant
            k <= excluded@.len(),
            clips@ == clipped(whole, excluded@.take(k as int)),
        decreases excluded@.len() - k,
    {
        assert(excluded@.take(k + 1).drop_last() =~= excluded@.take(k as int));
        let cut = excluded[k];
        let start: u64 = if whole.start >= cut.start {
            whole.start
        } else {
            cut.start
        };
        let end: u64 = if whole.end <= cut.end {
            whole.end
        } else {
            cut.end
        };
        if start < end {
            clips.push(Span { start, end });
        }
        k += 1;
    }
    assert(excluded@.take(excluded@.len() as int) =~= excluded@);
    let cuts = sort_stably(clips);
    let ghost all = subtracted(whole, excluded@);
    let mut result: Vec<Span> = Vec::new();
    let mut cursor: u64 = whole.start;
    let mut i: usize = 0;
    assert(result@ + all =~= all);
    while i < cuts.len()
        invariant
            i <= cuts@.len(),
            all == result@ + gaps_from(cursor, whole.end, cuts@, i as int),
        decreases cuts@.len() - i,
    {
        let cut = cuts[i];
        let ghost before = result@;
        let ghost rest = gaps_from(
            if cursor >= cut.end {
                cursor
            } else {
                cut.end
            },
            whole.end,
            cuts@,
            i + 1,
        );
        if cursor < cut.start {
            let gap = Span { start: cursor, end: cut.start };
            result.push(gap);
            assert(before + (seq![gap] + rest) =~= result@ + rest);
        }
        if cursor < cut.end {
            cursor = cut.end;
        }
        i += 1;
    }
    if cursor < whole.end {
        result.push(Span { start: cursor, end: whole.end });
    }
    assert(result@ =~= all);
    result
}

/// Spans that are not empty, each behind the one before it, with a gap between
/// them.
pub open spec fn apart(spans: Seq<Span>) -> bool {
    &&& forall|i: int| 0 <= i < spans.len() ==> (#[trigger] spans[i]).start < spans[i].end
    &&& forall|i: int, j: int|
        0 <= i < j < spans.len() ==> (#[trigger] spans[i]).end < (#[trigger] spans[j]).start
}

proof fn lemma_clipped(whole: Span, cuts: Seq<Span>, a: int)
    ensures
        covered(clipped(whole, cuts), a) == (whole.has(a) && covered(cuts, a)),
        forall|i: int|
            0 <= i < clipped(whole, cuts).len() ==> whole.start <= (#[trigger] clipped(
                whole,
                cuts,
            )[i]).start < clipped(whole, cuts)[i].end <= whole.end,
    decreases cuts.len(),
{
    if cuts.len() > 0 {
        let init = cuts.drop_last();
        lemma_clipped(whole, init, a);
        let before = clipped(whole, init);
        let c = clip(whole, cuts.last());
        let all = clipped(whole, cuts);
        if covered(all, a) {
            let i = choose|i: int| 0 <= i < all.len() && (#[trigger] all[i]).has(a);
            if i < before.len() {
                assert(before[i].has(a));
                let j = choose|j: int| 0 <= j < init.len() && (#[trigger] init[j]).has(a);
                assert(cuts[j].has(a));
            } else {
                assert(cuts[cuts.len() - 1].has(a));
            }
        }
        if whole.has(a) && covered(cuts, a) {
            let j = choose|j: int| 0 <= j < cuts.len() && (#[trigger] cuts[j]).has(a);
            if j < init.len() {
                assert(init[j].has(a));
                let i = choose|i: int| 0 <= i < before.len() && (#[trigger] before[i]).has(a);
                assert(all[i].has(a));
            } else {
                assert(c.has(a));
                assert(all[before.len() as int].has(a));
            }
        }
    }
}

proof fn lemma_gaps(cursor: u64, end: u64, cuts: Seq<Span>, i: int, a: int)
    requires
        in_key_order(cuts),
        0 <= i <= cuts.len(),
        forall|k: int|
            0 <= k < cuts.len() ==> (#[trigger] cuts[k]).start < cuts[k].end && cuts[k].end <= end,
    ensures
        ({
            let gaps = gaps_from(cursor, end, cuts, i);
            &&& apart(gaps)
            &&& forall|k: int|
                0 <= k < gaps.len() ==> cursor <= (#[trigger] gaps[k]).start && gaps[k].end <= end
            &&& covered(gaps, a) == (cursor <= a < end && forall|k: int|
                i <= k < cuts.len() ==> !(#[trigger] cuts[k]).has(a))
        }),
    decreases cuts.len() - i,
{
    let gaps = gaps_from(cursor, end, cuts, i);
    if i < cuts.len() {
        let cut = cuts[i];
        let next = if cursor >= cut.end {
            cursor
        } else {
            cut.end
        };
        let rest = gaps_from(next, end, cuts, i + 1);
        lemma_gaps(next, end, cuts, i + 1, a);
        if cursor < cut.start {
            assert forall|k: int| 0 < k < gaps.len() implies #[trigger] gaps[k] == rest[k - 1] by {}
            if covered(gaps, a) {
                let k = choose|k: int| 0 <= k < gaps.len() && (#[trigger] gaps[k]).has(a);
                if k > 0 {
                    assert(rest[k - 1].has(a));
                    assert forall|m: int| i <= m < cuts.len() implies !(#[trigger] cuts[m]).has(
                        a,
                    ) by {}
                } else {
                    assert forall|m: int| i <= m < cuts.len() implies !(#[trigger] cuts[m]).has(
                        a,
                    ) by {
                        if m > i {
                            assert(cuts[i].spec_key() <= cuts[m].spec_key());
                        }
                    }
                }
            }
            if cursor <= a < end && forall|k: int|
                i <= k < cuts.len() ==> !(#[trigger] cuts[k]).has(a) {
                assert(!cuts[i].has(a));
                if a < cut.start {
                    assert(gaps[0].has(a));
                } else {
                    assert(covered(rest, a));
                    let k = choose|k: int| 0 <= k < rest.len() && (#[trigger] rest[k]).has(a);
                    assert(gaps[k + 1].has(a));
                }
            }
        } else {
            if covered(gaps, a) {
                assert forall|m: int| i <= m < cuts.len() implies !(#[trigger] cuts[m]).has(a) by {}
            }
            if cursor <= a < end && forall|k: int|
                i <= k < cuts.len() ==> !(#[trigger] cuts[k]).has(a) {
                assert(!cuts[i].has(a));
            }
        }
    } else if cursor <= a < end {
        assert(gaps[0].has(a));
    }
}

/// What is left of a span are exactly its addresses that are not excluded, in
/// spans that are not empty and stand apart in address order.
pub proof fn lemma_subtracted(whole: Span, excluded: Seq<Span>, a: int)
    ensures
        covered(subtracted(whole, excluded), a) == (whole.has(a) && !covered(excluded, a)),
        apart(subtracted(whole, excluded)),
        forall|i: int|
            0 <= i < subtracted(whole, excluded).len() ==> whole.start <= (#[trigger] subtracted(
                whole,
                excluded,
            )[i]).start && subtracted(whole, excluded)[i].end <= whole.end,
{
    let clips = clipped(whole, excluded);
    let cuts = stable_sort(clips);
    lemma_clipped(whole, excluded, a);
    lemma_stable_sort_orders(clips);
    assert forall|k: int| 0 <= k < cuts.len() implies (#[trigger] cuts[k]).start
        < cuts[k].end && cuts[k].end <= whole.end by {
        assert(cuts.contains(cuts[k]));
        lemma_stable_sort_contains(clips, cuts[k]);
        let j = choose|j: int| 0 <= j < clips.len() && clips[j] == cuts[k];
        assert(clips[j].start < clips[j].end);
    }
    lemma_gaps(whole.start, whole.end, cuts, 0, a);
    assert(covered(clips, a) == exists|k: int|
        0 <= k < cuts.len() && (#[trigger] cuts[k]).has(a)) by {
        if covered(clips, a) {
            let j = choose|j: int| 0 <= j < clips.len() && (#[trigger] clips[j]).has(a);
            assert(clips.contains(clips[j]));
            lemma_stable_sort_contains(clips, clips[j]);
            let k = choose|k: int| 0 <= k < cuts.len() && cuts[k] == clips[j];
            assert(cuts[k].has(a));
        }
        if exists|k: int| 0 <= k < cuts.len() && (#[trigger] cuts[k]).has(a) {
            let k = choose|k: int| 0 <= k < cuts.len() && (#[trigger] cuts[k]).has(a);
            assert(cuts.contains(cuts[k]));
            lemma_stable_sort_contains(clips, cuts[k]);
            let j = choose|j: int| 0 <= j < clips.len() && clips[j] == cuts[k];
            assert(clips[j].has(a));
        }
    }
}

// ---------------------------------------------------------------------------
// Ranges of the original image
// ---------------------------------------------------------------------------

/// The `len` bytes at `rva`, with zeros for what the image does not back.
pub open spec fn padded_bytes(sections: Seq<SectionView>, rva: u64, len: int) -> Seq<u8> {
    match image_bytes(sections, rva, len) {
        Some(bytes) => bytes,
        None => match first(sections, has_rva(rva)) {
            Some(s) => {
                let off = rva - s.rva;
                let backed = if off >= s.data.len() {
                    Seq::<u8>::empty()
                } else {
                    s.data.subrange(off, s.data.len() as int)
                };
                zero_extend(backed, len)
            },
            None => zero_extend(Seq::empty(), len),
        },
    }
}

/// Read `len` bytes at `rva` from the original binary, zero-padding any tail not
/// backed by raw section data (e.g. virtual-size padding).
pub fn read_padded(pe: &PeImage, rva: u64, len: usize) -> (r: Vec<u8>)
    ensures
        r@ == padded_bytes(pe.spec_sections(), rva, len as int),
        r@.len() == len,
{
    if let Some(bytes) = pe.data_at_rva(rva, len) {
        return vstd::slice::slice_to_vec(bytes);
    }
    let mut out: Vec<u8> = Vec::new();
    if let Some(section) = pe.section_for_rva(rva) {
        proof {
            lemma_first_index(pe.spec_sections(), has_rva(rva));
        }
        let off: u64 = rva - section.rva;
        let total: usize = section.data.len();
        if off < total as u64 {
            out = vstd::slice::slice_to_vec(
                vstd::slice::slice_subrange(section.data.as_slice(), off as usize, total),
            );
        }
    }
    let ghost backed = out@;
    assert(backed.len() <= len);
    out.resize(len, 0);
    assert(out@ =~= zero_extend(backed, len as int));
    out
}

/// The end of a range that starts at `start`, no further than the virtual end of
/// the image section there.
pub open spec fn virtual_end(
    sections: Seq<SectionView>,
    base: u64,
    start: u64,
    fallback: u64,
) -> u64 {
    match first(sections, has_rva(wrap64(start - base) as u64)) {
        Some(s) => {
            let end = wrap64(s.va + s.virtual_size) as u64;
            if fallback <= end {
                fallback
            } else {
                end
            }
        },
        None => fallback,
    }
}

pub fn original_virtual_end(pe: &PeImage, model: &IdaModel, start: u64, fallback: u64) -> (r: u64)
    ensures
        r == virtual_end(pe.spec_sections(), model.image_base, start, fallback),
        r <= fallback,
{
    match pe.section_for_rva(start.wrapping_sub(model.image_base)) {
        Some(section) => {
            let end: u64 = section.va.wrapping_add(section.virtual_size);
            if fallback <= end {
                fallback
            } else {
                end
            }
        },
        None => fallback,
    }
}

/// The number of bytes up to and with the last that is not zero.
pub open spec fn initialized_len(data: Seq<u8>) -> int
    decreases data.len(),
{
    if data.len() == 0 {
        0
    } else if data.last() != 0 {
        data.len() as int
    } else {
        initialized_len(data.drop_last())
    }
}

/// The end of the initialized data of the image section at `start`.
pub open spec fn initialized_end(sections: Seq<SectionView>, base: u64, start: u64) -> Option<u64> {
    match first(sections, has_rva(wrap64(start - base) as u64)) {
        Some(s) => Some(wrap64(s.va + initialized_len(s.data)) as u64),
        None => None,
    }
}

pub fn original_initialized_end(pe: &PeImage, model: &IdaModel, start: u64) -> (r: Option<u64>)
    ensures
        r == initialized_end(pe.spec_sections(), model.image_base, start),
{
    match pe.section_for_rva(start.wrapping_sub(model.image_base)) {
        Some(section) => {
            let ghost data = section.data@;
            let mut n: usize = section.data.len();
            assert(data.take(n as int) =~= data);
            while n > 0 && section.data[n - 1] == 0
                invariant
                    n <= data.len(),
                    data == section.data@,
                    initialized_len(data) == initialized_len(data.take(n as int)),
                decreases n,
            {
                assert(data.take(n as int).drop_last() =~= data.take(n - 1));
                n -= 1;
            }
            Some(section.va.wrapping_add(n as u64))
        },
        None => None,
    }
}

/// Whether `start` lies behind the initialized data of its image section.
pub open spec fn is_uninitialized(sections: Seq<SectionView>, base: u64, start: u64) -> bool {
    initialized_end(sections, base, start) matches Some(end) && start >= end
}

/// Whether `address` is the start of the first section of its class.
pub open spec fn starts_class(sections: Seq<Section>, class: SegClass, address: u64) -> bool {
    first(sections, of_class(class)) matches Some(s) && s.start == address
}

pub fn is_first_class_address(model: &IdaModel, class: SegClass, address: u64) -> (r: bool)
    ensures
        r == starts_class(model.sections@, class, address),
{
    match find_class(&model.sections, class) {
        Some(section) => section.start == address,
        None => false,
    }
}

} // verus!
