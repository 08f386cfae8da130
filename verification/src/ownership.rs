//! Which object owns which functions and data ranges.

use crate::groups::{DataRange, GroupView, IdaproJson, ObjectGroup};
use crate::model::{Function, IdaModel, SegClass, Section};
use crate::ranges::Span;
use crate::resolver::{opt_target, IdaSymbols, SymbolsView};
use crate::seqs::{
    first, first_index, keep, lemma_first_index_is, lemma_first_index_none, lemma_keep_step, views,
};
use crate::pe::text_map;
use crate::sorting::{
    in_key_order, lemma_sort_views, lemma_stable_sort_orders, sort_stably, stable_sort, HasKey, Keyed,
};
use crate::text::{digits, hex_text, pad_zeros, padded_hex, quoted_text, same_text, Error};
use crate::text_map::TextMap;
use std::collections::HashMap;
use vstd::prelude::*;

verus! {

// ---------------------------------------------------------------------------
// Anchors of data ranges
// ---------------------------------------------------------------------------

/// The name of a class of data ranges in a grouping.
pub open spec fn class_field(class: SegClass) -> Seq<char> {
    match class {
        SegClass::Const => "rdata"@,
        SegClass::Data => "data"@,
        _ => "bss"@,
    }
}

fn field_name(class: SegClass) -> (r: &'static str)
    requires
        class.spec_is_data(),
    ensures
        r@ == class_field(class),
{
    match class {
        SegClass::Const => "rdata",
        SegClass::Data => "data",
        _ => "bss",
    }
}

/// The symbol at the start of a data range that an object owns.
pub open spec fn anchor_text(class: SegClass, start: u64) -> Seq<char> {
    "__delink_ida_"@ + class_field(class) + "_"@ + pad_zeros(digits(start as nat, 16, false), 16)
}

pub fn data_anchor(class: SegClass, start: u64) -> (r: String)
    requires
        class.spec_is_data(),
    ensures
        r@ == anchor_text(class, start),
{
    let address = padded_hex(start, 16);
    "__delink_ida_".to_owned().concat(field_name(class)).concat("_").concat(address.as_str())
}

/// A data range that an object owns and the symbol at its start.
#[derive(Debug)]
pub struct OwnedDataRange {
    pub range: Span,
    pub anchor: String,
}

#[verifier::ext_equal]
pub struct OwnedView {
    pub range: Span,
    pub anchor: Seq<char>,
}

impl View for OwnedDataRange {
    type V = OwnedView;

    open spec fn view(&self) -> OwnedView {
        OwnedView { range: self.range, anchor: self.anchor@ }
    }
}

pub open spec fn owned_range(class: SegClass, r: DataRange) -> OwnedView {
    OwnedView {
        range: Span { start: r.spec_start(), end: r.spec_end() },
        anchor: anchor_text(class, r.spec_start()),
    }
}

pub open spec fn owned_ranges(class: SegClass, ranges: Seq<DataRange>) -> Seq<OwnedView> {
    ranges.map_values(|r: DataRange| owned_range(class, r))
}

/// The data ranges that the objects own, object by object: read-only, then
/// initialized, then zero-filled ones.
pub open spec fn owned_by_groups(groups: Seq<(Seq<char>, GroupView)>) -> Seq<OwnedView>
    decreases groups.len(),
{
    if groups.len() == 0 {
        Seq::empty()
    } else {
        let group = groups.last().1;
        owned_by_groups(groups.drop_last()) + owned_ranges(SegClass::Const, group.rdata)
            + owned_ranges(SegClass::Data, group.data) + owned_ranges(SegClass::Bss, group.bss)
    }
}

fn push_owned(out: &mut Vec<OwnedDataRange>, class: SegClass, ranges: &Vec<DataRange>)
    requires
        class.spec_is_data(),
    ensures
        views(final(out)@) == views(old(out)@) + owned_ranges(class, ranges@),
{
    let ghost start = views(out@);
    let mut i: usize = 0;
    assert(start + owned_ranges(class, ranges@).take(0) =~= start);
    while i < ranges.len()
        invariant
            i <= ranges@.len(),
            class.spec_is_data(),
            views(out@) == start + owned_ranges(class, ranges@).take(i as int),
        decreases ranges@.len() - i,
    {
        let ghost before = out@;
        let range = Span { start: ranges[i].start(), end: ranges[i].end() };
        let owned = OwnedDataRange { range, anchor: data_anchor(class, range.start) };
        out.push(owned);
        i += 1;
        assert(views(out@) =~= views(before).push(owned@));
        assert(views(out@) =~= start + owned_ranges(class, ranges@).take(i as int));
    }
    assert(views(out@) =~= start + owned_ranges(class, ranges@));
}

/// The data ranges that the objects own.
pub fn owned_data_ranges(groups: &IdaproJson) -> (r: Vec<OwnedDataRange>)
    ensures
        views(r@) == owned_by_groups(groups@),
{
    let ghost g = groups@;
    let mut out: Vec<OwnedDataRange> = Vec::new();
    let mut i: usize = 0;
    assert(g.take(0) =~= Seq::<(Seq<char>, GroupView)>::empty());
    assert(views(out@) =~= Seq::<OwnedView>::empty());
    while i < groups.entries.len()
        invariant
            i <= groups.entries@.len(),
            g == groups@,
            views(out@) == owned_by_groups(g.take(i as int)),
        decreases groups.entries@.len() - i,
    {
        assert(g.take(i + 1).drop_last() =~= g.take(i as int));
        let group = &groups.entries[i].1;
        assert(g[i as int].1 == group@);
        push_owned(&mut out, SegClass::Const, &group.rdata);
        push_owned(&mut out, SegClass::Data, &group.data);
        push_owned(&mut out, SegClass::Bss, &group.bss);
        i += 1;
    }
    assert(g.take(g.len() as int) =~= g);
    out
}

/// Owned ranges that hold `va`.
pub open spec fn owns(va: u64) -> spec_fn(OwnedView) -> bool {
    |o: OwnedView| o.range.has(va as int)
}

/// Where a data reference points: an exact exported name comes first, then the
/// anchor of the owned range that holds the address, then what the resolver
/// makes of it.
pub open spec fn split_target(symbols: SymbolsView, owned: Seq<OwnedView>, va: u64) -> Option<
    (Seq<char>, i64),
> {
    match symbols.exact_target(va) {
        Some(t) => Some(t),
        None => match first(owned, owns(va)) {
            Some(o) => Some((o.anchor, (va - o.range.start) as i64)),
            None => symbols.data_target(va),
        },
    }
}

pub fn resolve_split_data(symbols: &IdaSymbols, owned: &Vec<OwnedDataRange>, va: u64) -> (r: Option<
    (String, i64),
>)
    requires
        symbols.wf(),
    ensures
        opt_target(r) == split_target(symbols@, views(owned@), va),
{
    // Preserve exact exported names (including synthetic names generated for
    // anonymous relocation targets) before mapping interior addresses to an
    // object's range anchor.
    if let Some(named) = symbols.resolve_exact(va) {
        return Some(named);
    }
    let ghost v = views(owned@);
    let mut i: usize = 0;
    while i < owned.len()
        invariant
            i <= owned@.len(),
            v == views(owned@),
            symbols@.exact_target(va) is None,
            forall|j: int| 0 <= j < i ==> !owns(va)(#[trigger] v[j]),
        decreases owned@.len() - i,
    {
        let o = &owned[i];
        assert(v[i as int] == o@);
        if o.range.start <= va && va < o.range.end {
            proof {
                lemma_first_index_is(v, owns(va), i as int);
            }
            return Some((o.anchor.clone(), (va - o.range.start) as i64));
        }
        i += 1;
    }
    proof {
        lemma_first_index_none(v, owns(va));
    }
    symbols.resolve_data(va)
}

/// An exported name at the very address is what a reference resolves to, even
/// where an object owns the range around it.
pub proof fn lemma_exact_names_before_anchors(
    symbols: SymbolsView,
    owned: Seq<OwnedView>,
    va: u64,
)
    requires
        symbols.names.contains_key(va),
    ensures
        split_target(symbols, owned, va) == Some((symbols.names[va], 0i64)),
{
}

// ---------------------------------------------------------------------------
// Data ranges of a grouping
// ---------------------------------------------------------------------------

/// A data range as a grouping assigns it.
#[derive(Debug)]
pub struct Placed {
    pub start: u64,
    pub end: u64,
    pub file: String,
    pub class: SegClass,
}

#[verifier::ext_equal]
pub struct PlacedView {
    pub start: u64,
    pub end: u64,
    pub file: Seq<char>,
    pub class: SegClass,
}

impl View for Placed {
    type V = PlacedView;

    open spec fn view(&self) -> PlacedView {
        PlacedView { start: self.start, end: self.end, file: self.file@, class: self.class }
    }
}

impl HasKey for PlacedView {
    open spec fn spec_key(&self) -> u64 {
        self.start
    }
}

impl HasKey for Placed {
    open spec fn spec_key(&self) -> u64 {
        self.start
    }
}

impl Keyed for Placed {
    fn key(&self) -> (k: u64) {
        self.start
    }
}

pub open spec fn placed_in(
    file: Seq<char>,
    class: SegClass,
    ranges: Seq<DataRange>,
) -> Seq<PlacedView> {
    ranges.map_values(
        |r: DataRange| PlacedView { start: r.spec_start(), end: r.spec_end(), file, class },
    )
}

/// The data ranges of a grouping, object by object.
pub open spec fn placed_data(groups: Seq<(Seq<char>, GroupView)>) -> Seq<PlacedView>
    decreases groups.len(),
{
    if groups.len() == 0 {
        Seq::empty()
    } else {
        let (file, group) = groups.last();
        placed_data(groups.drop_last()) + placed_in(file, SegClass::Const, group.rdata)
            + placed_in(file, SegClass::Data, group.data) + placed_in(
            file,
            SegClass::Bss,
            group.bss,
        )
    }
}

/// Whether a section of class `section` can hold ranges of class `class`: the
/// zero-initialized tail may be merged into the writable data segment, and the
/// import table at the start of the read-only section labelled as external.
pub open spec fn compatible(section: SegClass, class: SegClass) -> bool {
    match class {
        SegClass::Bss => section == SegClass::Bss || section == SegClass::Data,
        SegClass::Const => section == SegClass::Const || section == SegClass::Xtrn,
        _ => section == class,
    }
}

fn is_compatible(section: SegClass, class: SegClass) -> (r: bool)
    ensures
        r == compatible(section, class),
{
    match class {
        SegClass::Bss => section == SegClass::Bss || section == SegClass::Data,
        SegClass::Const => section == SegClass::Const || section == SegClass::Xtrn,
        _ => section == class,
    }
}

/// Compatible sections that hold a range.
pub open spec fn holds_range(class: SegClass, start: u64, end: u64) -> spec_fn(Section) -> bool {
    |s: Section| compatible(s.class, class) && s.start <= start && end <= s.end
}

/// How a message describes a range.
pub open spec fn range_text(start: u64, end: u64) -> Seq<char> {
    "["@ + hex_text(start as int) + ", "@ + hex_text(end as int) + ")"@
}

fn describe_range(error: Error, start: u64, end: u64) -> (r: Error)
    ensures
        r@ == error@ + range_text(start, end),
{
    let r = Error::new("[").hex(start).text(", ").hex(end).text(")");
    error.text(r.message.as_str())
}

/// What is wrong with a range by itself.
pub open spec fn placed_fault(sections: Seq<Section>, p: PlacedView) -> Option<Seq<char>> {
    let here = "idapro "@ + quoted_text(p.file) + " "@ + class_field(p.class) + " range "@
        + range_text(p.start, p.end);
    if p.start >= p.end {
        Some(here + " is empty or reversed"@)
    } else if first_index(sections, holds_range(p.class, p.start, p.end)) is None {
        Some(here + " is not contained in a compatible section"@)
    } else {
        None
    }
}

/// The fault of the first range that has one.
pub open spec fn first_placed_fault(sections: Seq<Section>, placed: Seq<PlacedView>) -> Option<
    Seq<char>,
>
    decreases placed.len(),
{
    if placed.len() == 0 {
        None
    } else {
        match first_placed_fault(sections, placed.drop_last()) {
            Some(e) => Some(e),
            None => placed_fault(sections, placed.last()),
        }
    }
}

pub open spec fn placed_text(p: PlacedView) -> Seq<char> {
    quoted_text(p.file) + " "@ + class_field(p.class) + " "@ + range_text(p.start, p.end)
}

fn describe_placed(error: Error, p: &Placed) -> (r: Error)
    requires
        p.class.spec_is_data(),
    ensures
        r@ == error@ + placed_text(p@),
{
    let r = Error::new("").quote(p.file.as_str()).text(" ").text(field_name(p.class)).text(" ");
    let r = describe_range(r, p.start, p.end);
    proof {
        reveal_strlit("");
        assert(r@ =~= placed_text(p@));
    }
    error.text(r.message.as_str())
}

/// The fault of the first range, of those from `i` on, that reaches into the
/// next.
pub open spec fn overlap_fault(placed: Seq<PlacedView>, i: int) -> Option<Seq<char>>
    decreases placed.len() - i,
{
    if i < 0 || i + 1 >= placed.len() {
        None
    } else if placed[i + 1].start < placed[i].end {
        Some(
            "overlapping idapro data ranges: "@ + placed_text(placed[i]) + " and "@ + placed_text(
                placed[i + 1],
            ),
        )
    } else {
        overlap_fault(placed, i + 1)
    }
}

/// What is wrong with the data ranges of a grouping.
pub open spec fn data_ranges_fault(
    sections: Seq<Section>,
    groups: Seq<(Seq<char>, GroupView)>,
) -> Option<Seq<char>> {
    let placed = placed_data(groups);
    match first_placed_fault(sections, placed) {
        Some(e) => Some(e),
        None => overlap_fault(stable_sort(placed), 0),
    }
}

proof fn lemma_first_placed_fault_stays(
    sections: Seq<Section>,
    placed: Seq<PlacedView>,
    more: Seq<PlacedView>,
)
    requires
        first_placed_fault(sections, placed) is Some,
    ensures
        first_placed_fault(sections, placed + more) == first_placed_fault(sections, placed),
    decreases more.len(),
{
    if more.len() == 0 {
        assert(placed + more =~= placed);
    } else {
        assert((placed + more).drop_last() =~= placed + more.drop_last());
        lemma_first_placed_fault_stays(sections, placed, more.drop_last());
    }
}

proof fn lemma_placed_data_prefix(groups: Seq<(Seq<char>, GroupView)>, n: int) -> (rest: Seq<
    PlacedView,
>)
    requires
        0 <= n <= groups.len(),
    ensures
        placed_data(groups) == placed_data(groups.take(n)) + rest,
    decreases groups.len() - n,
{
    if n == groups.len() {
        assert(groups.take(n) =~= groups);
        assert(placed_data(groups) =~= placed_data(groups) + Seq::<PlacedView>::empty());
        Seq::empty()
    } else {
        let (file, group) = groups[n];
        assert(groups.take(n + 1).drop_last() =~= groups.take(n));
        let here = placed_in(file, SegClass::Const, group.rdata) + placed_in(
            file,
            SegClass::Data,
            group.data,
        ) + placed_in(file, SegClass::Bss, group.bss);
        let rest = lemma_placed_data_prefix(groups, n + 1);
        assert(placed_data(groups) =~= placed_data(groups.take(n)) + (here + rest));
        here + rest
    }
}

fn find_compatible(sections: &Vec<Section>, class: SegClass, start: u64, end: u64) -> (r: bool)
    ensures
        r == (first_index(sections@, holds_range(class, start, end)) is Some),
{
    let ghost p = holds_range(class, start, end);
    let mut i: usize = 0;
    while i < sections.len()
        invariant
            i <= sections@.len(),
            p == holds_range(class, start, end),
            forall|j: int| 0 <= j < i ==> !p(#[trigger] sections@[j]),
        decreases sections@.len() - i,
    {
        let s = &sections[i];
        if is_compatible(s.class, class) && s.start <= start && end <= s.end {
            proof {
                lemma_first_index_is(sections@, p, i as int);
            }
            return true;
        }
        i += 1;
    }
    proof {
        lemma_first_index_none(sections@, p);
    }
    false
}

fn place_ranges(
    sections: &Vec<Section>,
    file: &String,
    class: SegClass,
    ranges: &Vec<DataRange>,
    all: &mut Vec<Placed>,
) -> (r: Result<(), Error>)
    requires
        class.spec_is_data(),
        first_placed_fault(sections@, views(old(all)@)) is None,
        forall|i: int| 0 <= i < old(all)@.len() ==> (#[trigger] old(all)@[i]).class.spec_is_data(),
    ensures
        match r {
            Ok(_) => {
                &&& views(final(all)@) == views(old(all)@) + placed_in(file@, class, ranges@)
                &&& first_placed_fault(sections@, views(final(all)@)) is None
                &&& forall|i: int|
                    0 <= i < final(all)@.len() ==> (#[trigger] final(all)@[i]).class.spec_is_data()
            },
            Err(e) => first_placed_fault(
                sections@,
                views(old(all)@) + placed_in(file@, class, ranges@),
            ) == Some(e@),
        },
{
    let ghost start = views(all@);
    let ghost more = placed_in(file@, class, ranges@);
    let mut i: usize = 0;
    assert(start + more.take(0) =~= start);
    while i < ranges.len()
        invariant
            i <= ranges@.len(),
            class.spec_is_data(),
            more == placed_in(file@, class, ranges@),
            start == views(old(all)@),
            views(all@) == start + more.take(i as int),
            first_placed_fault(sections@, views(all@)) is None,
            forall|k: int| 0 <= k < all@.len() ==> (#[trigger] all@[k]).class.spec_is_data(),
        decreases ranges@.len() - i,
    {
        let s: u64 = ranges[i].start();
        let e: u64 = ranges[i].end();
        let ghost p = more[i as int];
        let ghost upto = start + more.take(i + 1);
        proof {
            assert(upto.drop_last() =~= views(all@));
            assert(upto.last() == p);
            assert(start + more =~= upto + more.skip(i + 1));
            if first_placed_fault(sections@, upto) is Some {
                lemma_first_placed_fault_stays(sections@, upto, more.skip(i + 1));
            }
        }
        if s >= e {
            let error = Error::new("idapro ").quote(file.as_str()).text(" ").text(
                field_name(class),
            ).text(" range ");
            return Err(describe_range(error, s, e).text(" is empty or reversed"));
        }
        if !find_compatible(sections, class, s, e) {
            let error = Error::new("idapro ").quote(file.as_str()).text(" ").text(
                field_name(class),
            ).text(" range ");
            return Err(
                describe_range(error, s, e).text(" is not contained in a compatible section"),
            );
        }
        let ghost before = all@;
        let placed = Placed { start: s, end: e, file: file.clone(), class };
        all.push(placed);
        assert(views(all@) =~= views(before).push(placed@));
        assert(views(all@) =~= upto);
        i += 1;
    }
    assert(views(all@) =~= start + more);
    Ok(())
}

/// Checks that every data range of a grouping is contained in a compatible
/// section and that no two overlap.
pub fn validate_data_ranges(model: &IdaModel, groups: &IdaproJson) -> (r: Result<(), Error>)
    ensures
        match r {
            Ok(_) => data_ranges_fault(model.sections@, groups@) is None,
            Err(e) => data_ranges_fault(model.sections@, groups@) == Some(e@),
        },
{
    let ghost g = groups@;
    let ghost sections = model.sections@;
    let mut all: Vec<Placed> = Vec::new();
    let mut i: usize = 0;
    assert(g.take(0) =~= Seq::<(Seq<char>, GroupView)>::empty());
    assert(views(all@) =~= Seq::<PlacedView>::empty());
    while i < groups.entries.len()
        invariant
            i <= groups.entries@.len(),
            g == groups@,
            sections == model.sections@,
            views(all@) == placed_data(g.take(i as int)),
            first_placed_fault(sections, views(all@)) is None,
            forall|k: int| 0 <= k < all@.len() ==> (#[trigger] all@[k]).class.spec_is_data(),
        decreases groups.entries@.len() - i,
    {
        assert(g.take(i + 1).drop_last() =~= g.take(i as int));
        let file = &groups.entries[i].0;
        let group = &groups.entries[i].1;
        assert(g[i as int] == (file@, group@));
        let ghost p0 = views(all@);
        let ghost p1 = p0 + placed_in(file@, SegClass::Const, group@.rdata);
        let ghost p2 = p1 + placed_in(file@, SegClass::Data, group@.data);
        let ghost p3 = p2 + placed_in(file@, SegClass::Bss, group@.bss);
        proof {
            let rest = lemma_placed_data_prefix(g, i + 1);
            assert(placed_data(g.take(i + 1)) =~= p3);
            assert(p3 =~= p2 + placed_in(file@, SegClass::Bss, group@.bss));
            assert(p3 =~= p1 + (placed_in(file@, SegClass::Data, group@.data) + placed_in(
                file@,
                SegClass::Bss,
                group@.bss,
            )));
            if first_placed_fault(sections, p1) is Some {
                lemma_first_placed_fault_stays(
                    sections,
                    p1,
                    placed_in(file@, SegClass::Data, group@.data) + placed_in(
                        file@,
                        SegClass::Bss,
                        group@.bss,
                    ),
                );
            }
            if first_placed_fault(sections, p2) is Some {
                lemma_first_placed_fault_stays(
                    sections,
                    p2,
                    placed_in(file@, SegClass::Bss, group@.bss),
                );
            }
            if first_placed_fault(sections, p3) is Some {
                lemma_first_placed_fault_stays(sections, p3, rest);
            }
        }
        if let Err(e) = place_ranges(&model.sections, file, SegClass::Const, &group.rdata, &mut all) {
            return Err(e);
        }
        if let Err(e) = place_ranges(&model.sections, file, SegClass::Data, &group.data, &mut all) {
            return Err(e);
        }
        if let Err(e) = place_ranges(&model.sections, file, SegClass::Bss, &group.bss, &mut all) {
            return Err(e);
        }
        i += 1;
    }
    assert(g.take(g.len() as int) =~= g);
    let ghost unsorted = all@;
    let sorted = sort_stably(all);
    proof {
        lemma_sort_views(unsorted);
        assert forall|k: int| 0 <= k < sorted@.len() implies (
        #[trigger] sorted@[k]).class.spec_is_data() by {
            assert(sorted@.contains(sorted@[k]));
            crate::sorting::lemma_stable_sort_contains(unsorted, sorted@[k]);
            let j = choose|j: int| 0 <= j < unsorted.len() && unsorted[j] == sorted@[k];
            assert(unsorted[j].class.spec_is_data());
        }
    }
    let ghost v = views(sorted@);
    let mut k: usize = 0;
    while k < sorted.len() && k + 1 < sorted.len()
        invariant
            k <= sorted@.len(),
            v == views(sorted@),
            v == stable_sort(placed_data(g)),
            first_placed_fault(sections, placed_data(g)) is None,
            sections == model.sections@,
            g == groups@,
            overlap_fault(v, 0) == overlap_fault(v, k as int),
            forall|j: int| 0 <= j < sorted@.len() ==> (#[trigger] sorted@[j]).class.spec_is_data(),
        decreases sorted@.len() - k,
    {
        let a = &sorted[k];
        let b = &sorted[k + 1];
        assert(v[k as int] == a@ && v[k + 1] == b@);
        if b.start < a.end {
            let error = describe_placed(Error::new("overlapping idapro data ranges: "), a);
            return Err(describe_placed(error.text(" and "), b));
        }
        k += 1;
    }
    Ok(())
}

/// In a grouping without a fault no address belongs to two data ranges.
pub proof fn lemma_sound_ranges_are_disjoint(
    sections: Seq<Section>,
    groups: Seq<(Seq<char>, GroupView)>,
    i: int,
    j: int,
)
    requires
        data_ranges_fault(sections, groups) is None,
        0 <= i < j < placed_data(groups).len(),
    ensures
        ({
            let placed = stable_sort(placed_data(groups));
            placed[i].end <= placed[j].start
        }),
    decreases j - i,
{
    let placed = stable_sort(placed_data(groups));
    lemma_stable_sort_orders(placed_data(groups));
    lemma_no_overlap_at(placed, 0, i);
    assert(placed[i + 1].start >= placed[i].end);
    if i + 1 < j {
        assert(placed[i + 1].spec_key() <= placed[j].spec_key());
    }
}

proof fn lemma_no_overlap_at(placed: Seq<PlacedView>, from: int, i: int)
    requires
        overlap_fault(placed, from) is None,
        0 <= from <= i,
        i + 1 < placed.len(),
    ensures
        placed[i + 1].start >= placed[i].end,
    decreases i - from,
{
    if from < i {
        lemma_no_overlap_at(placed, from + 1, i);
    }
}

// ---------------------------------------------------------------------------
// Whole-function ranges of a grouping
// ---------------------------------------------------------------------------

/// Functions that are not empty.
pub open spec fn has_size() -> spec_fn(Function) -> bool {
    |f: Function| f.spec_size() > 0
}

/// The functions that are not empty, in address order.
pub open spec fn sized_functions(functions: Seq<Function>) -> Seq<Function> {
    stable_sort(keep(functions, has_size()))
}

/// The function ranges of a grouping, object by object.
pub open spec fn placed_functions(groups: Seq<(Seq<char>, GroupView)>) -> Seq<PlacedView>
    decreases groups.len(),
{
    if groups.len() == 0 {
        Seq::empty()
    } else {
        let (file, group) = groups.last();
        placed_functions(groups.drop_last()) + placed_in(
            file,
            SegClass::Code,
            group.function_ranges,
        )
    }
}

/// What is wrong with a function range by itself.
pub open spec fn function_range_fault(sections: Seq<Section>, p: PlacedView) -> Option<Seq<char>> {
    let here = "idapro "@ + quoted_text(p.file) + " function range "@ + range_text(p.start, p.end);
    if p.start >= p.end {
        Some(here + " is empty or reversed"@)
    } else if first_index(sections, holds_range(p.class, p.start, p.end)) is None {
        Some(here + " is not contained in a code section"@)
    } else {
        None
    }
}

/// The fault of the first function range that has one.
pub open spec fn first_function_range_fault(
    sections: Seq<Section>,
    placed: Seq<PlacedView>,
) -> Option<Seq<char>>
    decreases placed.len(),
{
    if placed.len() == 0 {
        None
    } else {
        match first_function_range_fault(sections, placed.drop_last()) {
            Some(e) => Some(e),
            None => function_range_fault(sections, placed.last()),
        }
    }
}

/// The fault of the first function range, of those from `i` on, that reaches
/// into the next.
pub open spec fn function_overlap_fault(placed: Seq<PlacedView>, i: int) -> Option<Seq<char>>
    decreases placed.len() - i,
{
    if i < 0 || i + 1 >= placed.len() {
        None
    } else if placed[i + 1].start < placed[i].end {
        Some(
            "overlapping idapro function ranges: "@ + quoted_text(placed[i].file) + " "@
                + range_text(placed[i].start, placed[i].end) + " and "@ + quoted_text(
                placed[i + 1].file,
            ) + " "@ + range_text(placed[i + 1].start, placed[i + 1].end),
        )
    } else {
        function_overlap_fault(placed, i + 1)
    }
}

/// `owners` with `address` assigned to `file`, where it was not assigned before.
pub open spec fn claim(owners: Map<u64, Seq<char>>, address: u64, file: Seq<char>) -> Result<
    Map<u64, Seq<char>>,
    Seq<char>,
> {
    if owners.contains_key(address) {
        let message = if owners[address] == file {
            "assigned more than once in the same idapro group"@
        } else {
            "assigned to more than one idapro group"@
        };
        Err("function address "@ + hex_text(address as int) + " "@ + message)
    } else {
        Ok(owners.insert(address, file))
    }
}

pub open spec fn starts_function(functions: Seq<Function>, address: u64) -> bool {
    exists|i: int| 0 <= i < functions.len() && (#[trigger] functions[i]).start == address
}

/// `owners` with the addresses of functions assigned to `file`.
pub open spec fn claim_all(
    functions: Seq<Function>,
    owners: Map<u64, Seq<char>>,
    addresses: Seq<u64>,
    file: Seq<char>,
) -> Result<Map<u64, Seq<char>>, Seq<char>>
    decreases addresses.len(),
{
    if addresses.len() == 0 {
        Ok(owners)
    } else {
        match claim_all(functions, owners, addresses.drop_last(), file) {
            Err(e) => Err(e),
            Ok(before) => {
                let address = addresses.last();
                if !starts_function(functions, address) {
                    Err(
                        "idapro address "@ + hex_text(address as int)
                            + " is not a function start in delink.json"@,
                    )
                } else {
                    claim(before, address, file)
                }
            },
        }
    }
}

/// The fault of a range that cuts through a function.
pub open spec fn cut_fault(file: Seq<char>, range: Span, f: Function) -> Seq<char> {
    "idapro "@ + quoted_text(file) + " function range "@ + range_text(range.start, range.end)
        + " cuts through function '"@ + f.name@ + "' "@ + range_text(f.start, f.end)
}

/// The number of leading functions that start before `address`.
pub open spec fn functions_before(functions: Seq<Function>, address: u64) -> int
    decreases functions.len(),
{
    if functions.len() == 0 {
        0
    } else if functions.last().start < address {
        functions.len() as int
    } else {
        functions_before(functions.drop_last(), address)
    }
}

/// `state` (owners and starts) with the functions from `i` on that start within
/// `range`, each of which must end within it.
pub open spec fn select_functions(
    functions: Seq<Function>,
    i: int,
    range: Span,
    file: Seq<char>,
    state: (Map<u64, Seq<char>>, Seq<u64>),
) -> Result<(Map<u64, Seq<char>>, Seq<u64>), Seq<char>>
    decreases functions.len() - i,
{
    if i < 0 || i >= functions.len() || functions[i].start >= range.end {
        Ok(state)
    } else if functions[i].end > range.end {
        Err(cut_fault(file, range, functions[i]))
    } else {
        match claim(state.0, functions[i].start, file) {
            Err(e) => Err(e),
            Ok(owners) => select_functions(
                functions,
                i + 1,
                range,
                file,
                (owners, state.1.push(functions[i].start)),
            ),
        }
    }
}

/// The last of the first `n` functions that reaches over `address`.
pub open spec fn last_reaching(functions: Seq<Function>, n: int, address: u64) -> Option<int>
    decreases n,
{
    if n <= 0 {
        None
    } else if functions[n - 1].end > address {
        Some(n - 1)
    } else {
        last_reaching(functions, n - 1, address)
    }
}

/// `state` with the functions of one range: no function reaches into it from
/// before, and those that start in it end in it.
pub open spec fn select_range(
    functions: Seq<Function>,
    range: Span,
    file: Seq<char>,
    state: (Map<u64, Seq<char>>, Seq<u64>),
) -> Result<(Map<u64, Seq<char>>, Seq<u64>), Seq<char>> {
    let n = functions_before(functions, range.start);
    match last_reaching(functions, n, range.start) {
        Some(k) => Err(cut_fault(file, range, functions[k])),
        None => select_functions(functions, n, range, file, state),
    }
}

/// `state` with the functions of the ranges, one after the other.
pub open spec fn select_ranges(
    functions: Seq<Function>,
    ranges: Seq<DataRange>,
    file: Seq<char>,
    state: (Map<u64, Seq<char>>, Seq<u64>),
) -> Result<(Map<u64, Seq<char>>, Seq<u64>), Seq<char>>
    decreases ranges.len(),
{
    if ranges.len() == 0 {
        Ok(state)
    } else {
        match select_ranges(functions, ranges.drop_last(), file, state) {
            Err(e) => Err(e),
            Ok(before) => select_range(
                functions,
                Span { start: ranges.last().spec_start(), end: ranges.last().spec_end() },
                file,
                before,
            ),
        }
    }
}

/// The functions of one object: those it lists, then those its ranges select.
pub open spec fn expand_group(
    functions: Seq<Function>,
    owners: Map<u64, Seq<char>>,
    file: Seq<char>,
    group: GroupView,
) -> Result<(Map<u64, Seq<char>>, Seq<u64>), Seq<char>> {
    match claim_all(functions, owners, group.functions, file) {
        Err(e) => Err(e),
        Ok(claimed) => select_ranges(
            functions,
            group.function_ranges,
            file,
            (claimed, group.functions),
        ),
    }
}

/// The objects with their ranges expanded, and the owner of every function.
pub open spec fn expand_groups(
    functions: Seq<Function>,
    groups: Seq<(Seq<char>, GroupView)>,
) -> Result<(Map<u64, Seq<char>>, Seq<(Seq<char>, GroupView)>), Seq<char>>
    decreases groups.len(),
{
    if groups.len() == 0 {
        Ok((Map::empty(), Seq::empty()))
    } else {
        match expand_groups(functions, groups.drop_last()) {
            Err(e) => Err(e),
            Ok((owners, before)) => {
                let (file, group) = groups.last();
                match expand_group(functions, owners, file, group) {
                    Err(e) => Err(e),
                    Ok((after, starts)) => Ok(
                        (after, before.push((file, GroupView { functions: starts, ..group }))),
                    ),
                }
            },
        }
    }
}

/// Whether an object selects functions by range.
pub open spec fn uses_ranges(groups: Seq<(Seq<char>, GroupView)>) -> bool {
    exists|i: int| 0 <= i < groups.len() && (#[trigger] groups[i]).1.function_ranges.len() > 0
}

/// A grouping with its whole-function ranges expanded to function starts.
pub open spec fn expanded(
    sections: Seq<Section>,
    functions: Seq<Function>,
    groups: Seq<(Seq<char>, GroupView)>,
) -> Result<Seq<(Seq<char>, GroupView)>, Seq<char>> {
    if !uses_ranges(groups) {
        Ok(groups)
    } else {
        match first_function_range_fault(sections, placed_functions(groups)) {
            Some(e) => Err(e),
            None => match function_overlap_fault(stable_sort(placed_functions(groups)), 0) {
                Some(e) => Err(e),
                None => match expand_groups(sized_functions(functions), groups) {
                    Err(e) => Err(e),
                    Ok((_, out)) => Ok(out),
                },
            },
        }
    }
}

proof fn lemma_functions_before(functions: Seq<Function>, address: u64)
    requires
        in_key_order(functions),
    ensures
        0 <= functions_before(functions, address) <= functions.len(),
        forall|i: int|
            0 <= i < functions_before(functions, address) ==> (#[trigger] functions[i]).start
                < address,
        forall|i: int|
            functions_before(functions, address) <= i < functions.len() ==> (
            #[trigger] functions[i]).start >= address,
    decreases functions.len(),
{
    if functions.len() > 0 {
        if functions.last().start < address {
            assert forall|i: int| 0 <= i < functions.len() implies (#[trigger] functions[i]).start
                < address by {
                if i < functions.len() - 1 {
                    assert(functions[i].spec_key() <= functions[functions.len() - 1].spec_key());
                }
            }
        } else {
            let init = functions.drop_last();
            assert(in_key_order(init)) by {
                assert forall|i: int, j: int| 0 <= i < j < init.len() implies (
                #[trigger] init[i]).spec_key() <= (#[trigger] init[j]).spec_key() by {
                    assert(functions[i].spec_key() <= functions[j].spec_key());
                }
            }
            lemma_functions_before(init, address);
            assert forall|i: int| 0 <= i < functions_before(functions, address) implies (
            #[trigger] functions[i]).start < address by {
                assert(functions[i] == init[i]);
            }
            assert forall|i: int|
                functions_before(functions, address) <= i < functions.len() implies (
            #[trigger] functions[i]).start >= address by {
                if i < init.len() {
                    assert(functions[i] == init[i]);
                }
            }
        }
    }
}

fn count_before(functions: &Vec<Function>, address: u64) -> (r: usize)
    requires
        in_key_order(functions@),
    ensures
        r == functions_before(functions@, address),
        r <= functions@.len(),
        (r < functions@.len() && functions@[r as int].start == address) == starts_function(
            functions@,
            address,
        ),
{
    let ghost fs = functions@;
    let mut lo: usize = 0;
    let mut hi: usize = functions.len();
    while lo < hi
        invariant
            fs == functions@,
            in_key_order(fs),
            lo <= hi <= fs.len(),
            lo > 0 ==> fs[lo - 1].start < address,
            hi < fs.len() ==> fs[hi as int].start >= address,
        decreases hi - lo,
    {
        let mid: usize = lo + (hi - lo) / 2;
        if functions[mid].start < address {
            lo = mid + 1;
        } else {
            hi = mid;
        }
    }
    proof {
        lemma_functions_before(fs, address);
        let n = functions_before(fs, address);
        if n < lo {
            assert(fs[n].start >= address);
            if n < lo - 1 {
                assert(fs[n].spec_key() <= fs[lo - 1].spec_key());
            }
        }
        if lo < n {
            assert(fs[lo as int].start < address);
        }
    }
    lo
}

fn collect_sized(functions: &Vec<Function>) -> (r: Vec<Function>)
    ensures
        r@ == sized_functions(functions@),
        in_key_order(r@),
{
    let ghost fs = functions@;
    let mut kept: Vec<Function> = Vec::new();
    let mut i: usize = 0;
    assert(fs.take(0) =~= Seq::<Function>::empty());
    while i < functions.len()
        invariant
            i <= fs.len(),
            fs == functions@,
            kept@ == keep(fs.take(i as int), has_size()),
        decreases fs.len() - i,
    {
        proof {
            lemma_keep_step(fs, has_size(), i as int);
        }
        if functions[i].size() > 0 {
            kept.push(functions[i].clone());
        }
        i += 1;
    }
    assert(fs.take(fs.len() as int) =~= fs);
    proof {
        lemma_stable_sort_orders(kept@);
    }
    sort_stably(kept)
}

proof fn lemma_function_range_fault_stays(
    sections: Seq<Section>,
    placed: Seq<PlacedView>,
    more: Seq<PlacedView>,
)
    requires
        first_function_range_fault(sections, placed) is Some,
    ensures
        first_function_range_fault(sections, placed + more) == first_function_range_fault(
            sections,
            placed,
        ),
    decreases more.len(),
{
    if more.len() == 0 {
        assert(placed + more =~= placed);
    } else {
        assert((placed + more).drop_last() =~= placed + more.drop_last());
        lemma_function_range_fault_stays(sections, placed, more.drop_last());
    }
}

proof fn lemma_placed_functions_prefix(groups: Seq<(Seq<char>, GroupView)>, n: int) -> (rest: Seq<
    PlacedView,
>)
    requires
        0 <= n <= groups.len(),
    ensures
        placed_functions(groups) == placed_functions(groups.take(n)) + rest,
    decreases groups.len() - n,
{
    if n == groups.len() {
        assert(groups.take(n) =~= groups);
        assert(placed_functions(groups) =~= placed_functions(groups) + Seq::<PlacedView>::empty());
        Seq::empty()
    } else {
        let (file, group) = groups[n];
        assert(groups.take(n + 1).drop_last() =~= groups.take(n));
        let here = placed_in(file, SegClass::Code, group.function_ranges);
        let rest = lemma_placed_functions_prefix(groups, n + 1);
        assert(placed_functions(groups) =~= placed_functions(groups.take(n)) + (here + rest));
        here + rest
    }
}

fn place_function_ranges(
    sections: &Vec<Section>,
    file: &String,
    ranges: &Vec<DataRange>,
    all: &mut Vec<Placed>,
) -> (r: Result<(), Error>)
    requires
        first_function_range_fault(sections@, views(old(all)@)) is None,
    ensures
        match r {
            Ok(_) => {
                &&& views(final(all)@) == views(old(all)@) + placed_in(
                    file@,
                    SegClass::Code,
                    ranges@,
                )
                &&& first_function_range_fault(sections@, views(final(all)@)) is None
            },
            Err(e) => first_function_range_fault(
                sections@,
                views(old(all)@) + placed_in(file@, SegClass::Code, ranges@),
            ) == Some(e@),
        },
{
    let ghost start = views(all@);
    let ghost more = placed_in(file@, SegClass::Code, ranges@);
    let mut i: usize = 0;
    assert(start + more.take(0) =~= start);
    while i < ranges.len()
        invariant
            i <= ranges@.len(),
            more == placed_in(file@, SegClass::Code, ranges@),
            start == views(old(all)@),
            views(all@) == start + more.take(i as int),
            first_function_range_fault(sections@, views(all@)) is None,
        decreases ranges@.len() - i,
    {
        let s: u64 = ranges[i].start();
        let e: u64 = ranges[i].end();
        let ghost p = more[i as int];
        let ghost upto = start + more.take(i + 1);
        proof {
            assert(upto.drop_last() =~= views(all@));
            assert(upto.last() == p);
            assert(start + more =~= upto + more.skip(i + 1));
            if first_function_range_fault(sections@, upto) is Some {
                lemma_function_range_fault_stays(sections@, upto, more.skip(i + 1));
            }
        }
        if s >= e {
            let error = Error::new("idapro ").quote(file.as_str()).text(" function range ");
            return Err(describe_range(error, s, e).text(" is empty or reversed"));
        }
        if !find_compatible(sections, SegClass::Code, s, e) {
            let error = Error::new("idapro ").quote(file.as_str()).text(" function range ");
            return Err(describe_range(error, s, e).text(" is not contained in a code section"));
        }
        let ghost before = all@;
        let placed = Placed { start: s, end: e, file: file.clone(), class: SegClass::Code };
        all.push(placed);
        assert(views(all@) =~= views(before).push(placed@));
        assert(views(all@) =~= upto);
        i += 1;
    }
    assert(views(all@) =~= start + more);
    Ok(())
}

fn check_function_ranges(sections: &Vec<Section>, groups: &IdaproJson) -> (r: Result<(), Error>)
    ensures
        match r {
            Ok(_) => {
                &&& first_function_range_fault(sections@, placed_functions(groups@)) is None
                &&& function_overlap_fault(stable_sort(placed_functions(groups@)), 0) is None
            },
            Err(e) => match first_function_range_fault(sections@, placed_functions(groups@)) {
                Some(f) => f == e@,
                None => function_overlap_fault(stable_sort(placed_functions(groups@)), 0) == Some(
                    e@,
                ),
            },
        },
{
    let ghost g = groups@;
    let mut all: Vec<Placed> = Vec::new();
    let mut i: usize = 0;
    assert(g.take(0) =~= Seq::<(Seq<char>, GroupView)>::empty());
    assert(views(all@) =~= Seq::<PlacedView>::empty());
    while i < groups.entries.len()
        invariant
            i <= groups.entries@.len(),
            g == groups@,
            views(all@) == placed_functions(g.take(i as int)),
            first_function_range_fault(sections@, views(all@)) is None,
        decreases groups.entries@.len() - i,
    {
        assert(g.take(i + 1).drop_last() =~= g.take(i as int));
        let file = &groups.entries[i].0;
        let group = &groups.entries[i].1;
        assert(g[i as int] == (file@, group@));
        let ghost p1 = views(all@) + placed_in(file@, SegClass::Code, group@.function_ranges);
        proof {
            let rest = lemma_placed_functions_prefix(g, i + 1);
            assert(placed_functions(g.take(i + 1)) == p1);
            if first_function_range_fault(sections@, p1) is Some {
                lemma_function_range_fault_stays(sections@, p1, rest);
            }
        }
        if let Err(e) = place_function_ranges(sections, file, &group.function_ranges, &mut all) {
            return Err(e);
        }
        i += 1;
    }
    assert(g.take(g.len() as int) =~= g);
    let ghost unsorted = all@;
    let sorted = sort_stably(all);
    proof {
        lemma_sort_views(unsorted);
    }
    let ghost v = views(sorted@);
    let mut k: usize = 0;
    while k < sorted.len() && k + 1 < sorted.len()
        invariant
            k <= sorted@.len(),
            g == groups@,
            v == views(sorted@),
            v == stable_sort(placed_functions(g)),
            first_function_range_fault(sections@, placed_functions(g)) is None,
            function_overlap_fault(v, 0) == function_overlap_fault(v, k as int),
        decreases sorted@.len() - k,
    {
        let a = &sorted[k];
        let b = &sorted[k + 1];
        assert(v[k as int] == a@ && v[k + 1] == b@);
        if b.start < a.end {
            let error = Error::new("overlapping idapro function ranges: ").quote(
                a.file.as_str(),
            ).text(" ");
            let error = describe_range(error, a.start, a.end).text(" and ").quote(
                b.file.as_str(),
            ).text(" ");
            return Err(describe_range(error, b.start, b.end));
        }
        k += 1;
    }
    Ok(())
}

fn claim_address(owners: &mut HashMap<u64, String>, address: u64, file: &String) -> (r: Result<
    (),
    Error,
>)
    ensures
        match r {
            Ok(_) => claim(text_map(old(owners)@), address, file@) == Ok::<
                Map<u64, Seq<char>>,
                Seq<char>,
            >(text_map(final(owners)@)),
            Err(e) => claim(text_map(old(owners)@), address, file@) == Err::<
                Map<u64, Seq<char>>,
                Seq<char>,
            >(e@),
        },
{
    broadcast use vstd::std_specs::hash::group_hash_axioms;

    if let Some(previous) = owners.get(&address) {
        let message = if same_text(previous.as_str(), file.as_str()) {
            "assigned more than once in the same idapro group"
        } else {
            "assigned to more than one idapro group"
        };
        return Err(Error::new("function address ").hex(address).text(" ").text(message));
    }
    let ghost before = owners@;
    owners.insert(address, file.clone());
    assert(text_map(owners@) =~= text_map(before).insert(address, file@));
    Ok(())
}

proof fn lemma_claim_all_err(
    functions: Seq<Function>,
    owners: Map<u64, Seq<char>>,
    addresses: Seq<u64>,
    file: Seq<char>,
    n: int,
)
    requires
        0 <= n <= addresses.len(),
        claim_all(functions, owners, addresses.take(n), file) is Err,
    ensures
        claim_all(functions, owners, addresses, file) == claim_all(
            functions,
            owners,
            addresses.take(n),
            file,
        ),
    decreases addresses.len(),
{
    if n < addresses.len() {
        assert(addresses.drop_last().take(n) =~= addresses.take(n));
        lemma_claim_all_err(functions, owners, addresses.drop_last(), file, n);
    } else {
        assert(addresses.take(n) =~= addresses);
    }
}

fn claim_addresses(
    functions: &Vec<Function>,
    owners: &mut HashMap<u64, String>,
    addresses: &Vec<u64>,
    file: &String,
) -> (r: Result<(), Error>)
    requires
        in_key_order(functions@),
    ensures
        match r {
            Ok(_) => claim_all(functions@, text_map(old(owners)@), addresses@, file@) == Ok::<
                Map<u64, Seq<char>>,
                Seq<char>,
            >(text_map(final(owners)@)),
            Err(e) => claim_all(functions@, text_map(old(owners)@), addresses@, file@) == Err::<
                Map<u64, Seq<char>>,
                Seq<char>,
            >(e@),
        },
{
    let ghost start = text_map(owners@);
    let mut i: usize = 0;
    assert(addresses@.take(0) =~= Seq::<u64>::empty());
    while i < addresses.len()
        invariant
            i <= addresses@.len(),
            in_key_order(functions@),
            start == text_map(old(owners)@),
            claim_all(functions@, start, addresses@.take(i as int), file@) == Ok::<
                Map<u64, Seq<char>>,
                Seq<char>,
            >(text_map(owners@)),
        decreases addresses@.len() - i,
    {
        assert(addresses@.take(i + 1).drop_last() =~= addresses@.take(i as int));
        let address: u64 = addresses[i];
        let n: usize = count_before(functions, address);
        proof {
            if claim_all(functions@, start, addresses@.take(i + 1), file@) is Err {
                lemma_claim_all_err(functions@, start, addresses@, file@, i + 1);
            }
        }
        if n >= functions.len() || functions[n].start != address {
            return Err(
                Error::new("idapro address ").hex(address).text(
                    " is not a function start in delink.json",
                ),
            );
        }
        if let Err(e) = claim_address(owners, address, file) {
            return Err(e);
        }
        i += 1;
    }
    assert(addresses@.take(addresses@.len() as int) =~= addresses@);
    Ok(())
}

fn cut_error(file: &String, range: Span, f: &Function) -> (r: Error)
    ensures
        r@ == cut_fault(file@, range, *f),
{
    let error = Error::new("idapro ").quote(file.as_str()).text(" function range ");
    let error = describe_range(error, range.start, range.end).text(
        " cuts through function '",
    ).text(f.name.as_str()).text("' ");
    describe_range(error, f.start, f.end)
}

/// The owners and starts after a selection.
pub open spec fn selection(owners: HashMap<u64, String>, starts: Vec<u64>) -> (
    Map<u64, Seq<char>>,
    Seq<u64>,
) {
    (text_map(owners@), starts@)
}

fn find_reaching(functions: &Vec<Function>, n: usize, address: u64) -> (r: Option<usize>)
    requires
        n <= functions@.len(),
    ensures
        match r {
            Some(k) => k < n && last_reaching(functions@, n as int, address) == Some(k as int),
            None => last_reaching(functions@, n as int, address) is None,
        },
{
    let mut k: usize = n;
    while k > 0
        invariant
            k <= n <= functions@.len(),
            last_reaching(functions@, k as int, address) == last_reaching(
                functions@,
                n as int,
                address,
            ),
        decreases k,
    {
        k -= 1;
        if functions[k].end > address {
            return Some(k);
        }
    }
    None
}

fn select_in_range(
    functions: &Vec<Function>,
    range: Span,
    file: &String,
    owners: &mut HashMap<u64, String>,
    starts: &mut Vec<u64>,
) -> (r: Result<(), Error>)
    requires
        in_key_order(functions@),
    ensures
        match r {
            Ok(_) => select_range(functions@, range, file@, selection(*old(owners), *old(starts)))
                == Ok::<(Map<u64, Seq<char>>, Seq<u64>), Seq<char>>(
                selection(*final(owners), *final(starts)),
            ),
            Err(e) => select_range(functions@, range, file@, selection(*old(owners), *old(starts)))
                == Err::<(Map<u64, Seq<char>>, Seq<u64>), Seq<char>>(e@),
        },
{
    let ghost fs = functions@;
    let ghost all = select_range(fs, range, file@, selection(*owners, *starts));
    let n: usize = count_before(functions, range.start);
    if let Some(k) = find_reaching(functions, n, range.start) {
        return Err(cut_error(file, range, &functions[k]));
    }
    let mut i: usize = n;
    while i < functions.len() && functions[i].start < range.end
        invariant
            i <= fs.len(),
            fs == functions@,
            all == select_range(fs, range, file@, selection(*old(owners), *old(starts))),
            all == select_functions(fs, i as int, range, file@, selection(*owners, *starts)),
        decreases fs.len() - i,
    {
        let f = &functions[i];
        if f.end > range.end {
            return Err(cut_error(file, range, f));
        }
        if let Err(e) = claim_address(owners, f.start, file) {
            return Err(e);
        }
        starts.push(f.start);
        i += 1;
    }
    Ok(())
}

proof fn lemma_select_ranges_err(
    functions: Seq<Function>,
    ranges: Seq<DataRange>,
    file: Seq<char>,
    state: (Map<u64, Seq<char>>, Seq<u64>),
    n: int,
)
    requires
        0 <= n <= ranges.len(),
        select_ranges(functions, ranges.take(n), file, state) is Err,
    ensures
        select_ranges(functions, ranges, file, state) == select_ranges(
            functions,
            ranges.take(n),
            file,
            state,
        ),
    decreases ranges.len(),
{
    if n < ranges.len() {
        assert(ranges.drop_last().take(n) =~= ranges.take(n));
        lemma_select_ranges_err(functions, ranges.drop_last(), file, state, n);
    } else {
        assert(ranges.take(n) =~= ranges);
    }
}

fn expand_one(
    functions: &Vec<Function>,
    owners: &mut HashMap<u64, String>,
    file: &String,
    group: &ObjectGroup,
) -> (r: Result<Vec<u64>, Error>)
    requires
        in_key_order(functions@),
    ensures
        match r {
            Ok(starts) => expand_group(functions@, text_map(old(owners)@), file@, group@) == Ok::<
                (Map<u64, Seq<char>>, Seq<u64>),
                Seq<char>,
            >((text_map(final(owners)@), starts@)),
            Err(e) => expand_group(functions@, text_map(old(owners)@), file@, group@) == Err::<
                (Map<u64, Seq<char>>, Seq<u64>),
                Seq<char>,
            >(e@),
        },
{
    if let Err(e) = claim_addresses(functions, owners, &group.functions, file) {
        return Err(e);
    }
    let mut starts = vstd::slice::slice_to_vec(group.functions.as_slice());
    let ghost state = selection(*owners, starts);
    let ghost ranges = group.function_ranges@;
    let mut i: usize = 0;
    assert(ranges.take(0) =~= Seq::<DataRange>::empty());
    while i < group.function_ranges.len()
        invariant
            i <= ranges.len(),
            ranges == group.function_ranges@,
            in_key_order(functions@),
            expand_group(functions@, text_map(old(owners)@), file@, group@) == select_ranges(
                functions@,
                ranges,
                file@,
                state,
            ),
            select_ranges(functions@, ranges.take(i as int), file@, state) == Ok::<
                (Map<u64, Seq<char>>, Seq<u64>),
                Seq<char>,
            >(selection(*owners, starts)),
        decreases ranges.len() - i,
    {
        assert(ranges.take(i + 1).drop_last() =~= ranges.take(i as int));
        let range = Span {
            start: group.function_ranges[i].start(),
            end: group.function_ranges[i].end(),
        };
        proof {
            if select_ranges(functions@, ranges.take(i + 1), file@, state) is Err {
                lemma_select_ranges_err(functions@, ranges, file@, state, i + 1);
            }
        }
        if let Err(e) = select_in_range(functions, range, file, owners, &mut starts) {
            return Err(e);
        }
        i += 1;
    }
    assert(ranges.take(ranges.len() as int) =~= ranges);
    Ok(starts)
}

proof fn lemma_expand_groups_err(
    functions: Seq<Function>,
    groups: Seq<(Seq<char>, GroupView)>,
    n: int,
)
    requires
        0 <= n <= groups.len(),
        expand_groups(functions, groups.take(n)) is Err,
    ensures
        expand_groups(functions, groups)->Err_0 == expand_groups(functions, groups.take(n))->Err_0,
        expand_groups(functions, groups) is Err,
    decreases groups.len(),
{
    if n < groups.len() {
        assert(groups.drop_last().take(n) =~= groups.take(n));
        lemma_expand_groups_err(functions, groups.drop_last(), n);
    } else {
        assert(groups.take(n) =~= groups);
    }
}

fn any_function_ranges(groups: &IdaproJson) -> (r: bool)
    ensures
        r == uses_ranges(groups@),
{
    let mut i: usize = 0;
    while i < groups.entries.len()
        invariant
            i <= groups.entries@.len(),
            forall|k: int|
                0 <= k < i ==> (#[trigger] groups@[k]).1.function_ranges.len() == 0,
        decreases groups.entries@.len() - i,
    {
        assert(groups@[i as int].1 == groups.entries@[i as int].1@);
        if groups.entries[i].1.function_ranges.len() > 0 {
            return true;
        }
        i += 1;
    }
    false
}

fn copy_groups(groups: &IdaproJson) -> (r: IdaproJson)
    ensures
        r@ == groups@,
{
    let mut out: IdaproJson = TextMap::new();
    let mut i: usize = 0;
    while i < groups.entries.len()
        invariant
            i <= groups.entries@.len(),
            out@ == groups@.take(i as int),
        decreases groups.entries@.len() - i,
    {
        let ghost before = out@;
        let name = groups.entries[i].0.clone();
        let group = groups.entries[i].1.clone();
        out.entries.push((name, group));
        i += 1;
        assert(out@ =~= before.push((name@, group@)));
        assert(out@ =~= groups@.take(i as int));
    }
    assert(out@ =~= groups@);
    out
}

/// Expand the optional whole-function ranges in a grouping to the explicit
/// function starts consumed by the object emitter.
///
/// Ranges use the same half-open convention as data ranges. A range must be
/// contained in a code section and may only contain complete functions: a
/// range whose boundary falls inside a function is rejected. This makes the
/// selection deterministic even when there are gaps between IDA functions.
/// Without range syntax the grouping stays as it is: malformed explicit groups
/// are reported when their object is emitted.
pub fn expand_function_ranges(model: &IdaModel, groups: &IdaproJson) -> (r: Result<
    IdaproJson,
    Error,
>)
    ensures
        match r {
            Ok(out) => expanded(model.sections@, model.functions@, groups@) == Ok::<
                Seq<(Seq<char>, GroupView)>,
                Seq<char>,
            >(out@),
            Err(e) => expanded(model.sections@, model.functions@, groups@) == Err::<
                Seq<(Seq<char>, GroupView)>,
                Seq<char>,
            >(e@),
        },
{
    if !any_function_ranges(groups) {
        return Ok(copy_groups(groups));
    }
    if let Err(e) = check_function_ranges(&model.sections, groups) {
        return Err(e);
    }
    let functions = collect_sized(&model.functions);
    let ghost g = groups@;
    let mut owners: HashMap<u64, String> = HashMap::new();
    let mut out: IdaproJson = TextMap::new();
    let mut i: usize = 0;
    proof {
        broadcast use vstd::std_specs::hash::group_hash_axioms;

        assert(g.take(0) =~= Seq::<(Seq<char>, GroupView)>::empty());
        assert(text_map(owners@) =~= Map::<u64, Seq<char>>::empty());
    }
    while i < groups.entries.len()
        invariant
            i <= groups.entries@.len(),
            g == groups@,
            in_key_order(functions@),
            functions@ == sized_functions(model.functions@),
            uses_ranges(g),
            first_function_range_fault(model.sections@, placed_functions(g)) is None,
            function_overlap_fault(stable_sort(placed_functions(g)), 0) is None,
            expand_groups(functions@, g.take(i as int)) == Ok::<
                (Map<u64, Seq<char>>, Seq<(Seq<char>, GroupView)>),
                Seq<char>,
            >((text_map(owners@), out@)),
        decreases groups.entries@.len() - i,
    {
        assert(g.take(i + 1).drop_last() =~= g.take(i as int));
        let file = &groups.entries[i].0;
        let group = &groups.entries[i].1;
        assert(g[i as int] == (file@, group@));
        proof {
            if expand_groups(functions@, g.take(i + 1)) is Err {
                lemma_expand_groups_err(functions@, g, i + 1);
            }
        }
        match expand_one(&functions, &mut owners, file, group) {
            Ok(starts) => {
                let ghost before = out@;
                let name = file.clone();
                let mut copy = group.clone();
                copy.functions = starts;
                assert(copy@ =~= (GroupView { functions: starts@, ..group@ }));
                out.entries.push((name, copy));
                assert(out@ =~= before.push((name@, copy@)));
            },
            Err(e) => {
                return Err(e);
            },
        }
        i += 1;
    }
    assert(g.take(g.len() as int) =~= g);
    Ok(out)
}

/// `after` assigns what `before` does and, beyond that, the `starts`, of which
/// none occurs twice.
pub open spec fn newly_assigned(
    before: Map<u64, Seq<char>>,
    after: Map<u64, Seq<char>>,
    starts: Seq<u64>,
) -> bool {
    &&& forall|a: u64| #[trigger] before.contains_key(a) ==> after.contains_key(a)
    &&& forall|k: int|
        0 <= k < starts.len() ==> after.contains_key(#[trigger] starts[k]) && !before.contains_key(
            starts[k],
        )
    &&& starts.no_duplicates()
}

proof fn lemma_claim_all_assigns(
    functions: Seq<Function>,
    owners: Map<u64, Seq<char>>,
    addresses: Seq<u64>,
    file: Seq<char>,
)
    ensures
        claim_all(functions, owners, addresses, file) matches Ok(after) ==> newly_assigned(
            owners,
            after,
            addresses,
        ),
    decreases addresses.len(),
{
    if addresses.len() > 0 {
        lemma_claim_all_assigns(functions, owners, addresses.drop_last(), file);
        if let Ok(after) = claim_all(functions, owners, addresses, file) {
            let init = addresses.drop_last();
            let before = claim_all(functions, owners, init, file)->Ok_0;
            assert(addresses =~= init.push(addresses.last()));
            assert forall|k: int| 0 <= k < addresses.len() implies after.contains_key(
                #[trigger] addresses[k],
            ) && !owners.contains_key(addresses[k]) by {
                if k < init.len() {
                    assert(addresses[k] == init[k]);
                }
            }
            assert(addresses.no_duplicates()) by {
                assert forall|i: int, j: int|
                    0 <= i < addresses.len() && 0 <= j < addresses.len() && i
                        != j implies addresses[i] != addresses[j] by {
                    if i < init.len() {
                        assert(addresses[i] == init[i]);
                    }
                    if j < init.len() {
                        assert(addresses[j] == init[j]);
                    }
                }
            }
        }
    }
}

proof fn lemma_select_functions_assigns(
    functions: Seq<Function>,
    i: int,
    range: Span,
    file: Seq<char>,
    owners: Map<u64, Seq<char>>,
    state: (Map<u64, Seq<char>>, Seq<u64>),
)
    requires
        newly_assigned(owners, state.0, state.1),
    ensures
        select_functions(functions, i, range, file, state) matches Ok(after) ==> newly_assigned(
            owners,
            after.0,
            after.1,
        ),
    decreases functions.len() - i,
{
    if 0 <= i < functions.len() && functions[i].start < range.end && functions[i].end
        <= range.end {
        let start = functions[i].start;
        if let Ok(next) = claim(state.0, start, file) {
            let starts = state.1.push(start);
            assert(newly_assigned(owners, next, starts)) by {
                assert forall|k: int| 0 <= k < starts.len() implies next.contains_key(
                    #[trigger] starts[k],
                ) && !owners.contains_key(starts[k]) by {
                    if k < state.1.len() {
                        assert(starts[k] == state.1[k]);
                    }
                }
                assert forall|a: int, b: int|
                    0 <= a < starts.len() && 0 <= b < starts.len() && a != b implies starts[a]
                    != starts[b] by {
                    if a < state.1.len() {
                        assert(starts[a] == state.1[a]);
                    }
                    if b < state.1.len() {
                        assert(starts[b] == state.1[b]);
                    }
                }
            }
            lemma_select_functions_assigns(
                functions,
                i + 1,
                range,
                file,
                owners,
                (next, starts),
            );
        }
    }
}

proof fn lemma_select_ranges_assigns(
    functions: Seq<Function>,
    ranges: Seq<DataRange>,
    file: Seq<char>,
    owners: Map<u64, Seq<char>>,
    state: (Map<u64, Seq<char>>, Seq<u64>),
)
    requires
        newly_assigned(owners, state.0, state.1),
    ensures
        select_ranges(functions, ranges, file, state) matches Ok(after) ==> newly_assigned(
            owners,
            after.0,
            after.1,
        ),
    decreases ranges.len(),
{
    if ranges.len() > 0 {
        lemma_select_ranges_assigns(functions, ranges.drop_last(), file, owners, state);
        if let Ok(before) = select_ranges(functions, ranges.drop_last(), file, state) {
            let range = Span {
                start: ranges.last().spec_start(),
                end: ranges.last().spec_end(),
            };
            lemma_select_functions_assigns(
                functions,
                functions_before(functions, range.start),
                range,
                file,
                owners,
                before,
            );
        }
    }
}

/// Whether every function is assigned to at most one object, and there once.
pub open spec fn assigned_once(groups: Seq<(Seq<char>, GroupView)>) -> bool {
    forall|i: int, a: int, j: int, b: int|
        #![trigger groups[i].1.functions[a], groups[j].1.functions[b]]
        0 <= i < groups.len() && 0 <= a < groups[i].1.functions.len() && 0 <= j < groups.len() && 0
            <= b < groups[j].1.functions.len() && groups[i].1.functions[a]
            == groups[j].1.functions[b] ==> i == j && a == b
}

proof fn lemma_expand_groups_assigns_once(
    functions: Seq<Function>,
    groups: Seq<(Seq<char>, GroupView)>,
)
    ensures
        expand_groups(functions, groups) matches Ok((owners, out)) ==> {
            &&& out.len() == groups.len()
            &&& assigned_once(out)
            &&& forall|i: int, a: int|
                0 <= i < out.len() && 0 <= a < out[i].1.functions.len() ==> owners.contains_key(
                    #[trigger] out[i].1.functions[a],
                )
        },
    decreases groups.len(),
{
    if groups.len() > 0 {
        lemma_expand_groups_assigns_once(functions, groups.drop_last());
        if let Ok((after, out)) = expand_groups(functions, groups) {
            let (owners, before) = expand_groups(functions, groups.drop_last())->Ok_0;
            let (file, group) = groups.last();
            lemma_claim_all_assigns(functions, owners, group.functions, file);
            let claimed = claim_all(functions, owners, group.functions, file)->Ok_0;
            lemma_select_ranges_assigns(
                functions,
                group.function_ranges,
                file,
                owners,
                (claimed, group.functions),
            );
            let starts = expand_group(functions, owners, file, group)->Ok_0.1;
            let n = before.len() as int;
            assert(out[n].1.functions == starts);
            assert forall|i: int, a: int|
                0 <= i < out.len() && 0 <= a < out[i].1.functions.len() implies after.contains_key(
                #[trigger] out[i].1.functions[a],
            ) by {
                if i < n {
                    assert(out[i] == before[i]);
                    assert(owners.contains_key(before[i].1.functions[a]));
                } else {
                    assert(after.contains_key(starts[a]));
                }
            }
            assert forall|i: int, a: int, j: int, b: int|
                #![trigger out[i].1.functions[a], out[j].1.functions[b]]
                0 <= i < out.len() && 0 <= a < out[i].1.functions.len() && 0 <= j < out.len() && 0
                    <= b < out[j].1.functions.len() && out[i].1.functions[a]
                    == out[j].1.functions[b] implies i == j && a == b by {
                if i < n {
                    assert(out[i] == before[i]);
                    assert(owners.contains_key(before[i].1.functions[a]));
                } else {
                    assert(!owners.contains_key(starts[a]));
                }
                if j < n {
                    assert(out[j] == before[j]);
                    assert(owners.contains_key(before[j].1.functions[b]));
                } else {
                    assert(!owners.contains_key(starts[b]));
                }
            }
        }
    }
}

/// Where a grouping selects functions by range, its expansion assigns every
/// function at most once.
pub proof fn lemma_expanded_assigns_once(
    sections: Seq<Section>,
    functions: Seq<Function>,
    groups: Seq<(Seq<char>, GroupView)>,
)
    requires
        uses_ranges(groups),
    ensures
        expanded(sections, functions, groups) matches Ok(out) ==> out.len() == groups.len()
            && assigned_once(out),
{
    lemma_expand_groups_assigns_once(sized_functions(functions), groups);
}

/// Whether a range selects the function that starts at `a`: a function that is
/// not empty starts there, within the range.
pub open spec fn selects(functions: Seq<Function>, range: Span, a: u64) -> bool {
    range.start <= a < range.end && starts_function(functions, a)
}

/// Whether one of the ranges selects the function that starts at `a`.
pub open spec fn one_selects(functions: Seq<Function>, ranges: Seq<DataRange>, a: u64) -> bool {
    exists|r: int|
        0 <= r < ranges.len() && selects(
            functions,
            Span { start: (#[trigger] ranges[r]).spec_start(), end: ranges[r].spec_end() },
            a,
        )
}

/// Whether every function that starts within the range ends within it, and none
/// that starts before it reaches in.
pub open spec fn whole_in(functions: Seq<Function>, range: Span) -> bool {
    forall|k: int|
        0 <= k < functions.len() && (#[trigger] functions[k]).start < range.end
            ==> if functions[k].start < range.start {
            functions[k].end <= range.start
        } else {
            functions[k].end <= range.end
        }
}

proof fn lemma_select_functions(
    functions: Seq<Function>,
    i: int,
    range: Span,
    file: Seq<char>,
    state: (Map<u64, Seq<char>>, Seq<u64>),
    a: u64,
)
    requires
        in_key_order(functions),
        0 <= i,
    ensures
        select_functions(functions, i, range, file, state) matches Ok(after) ==> {
            &&& after.1.contains(a) == (state.1.contains(a) || exists|k: int|
                i <= k < functions.len() && (#[trigger] functions[k]).start < range.end
                    && functions[k].start == a)
            &&& forall|k: int|
                i <= k < functions.len() && (#[trigger] functions[k]).start < range.end
                    ==> functions[k].end <= range.end
        },
    decreases functions.len() - i,
{
    if i < functions.len() && functions[i].start < range.end {
        if let Ok(after) = select_functions(functions, i, range, file, state) {
            let start = functions[i].start;
            let owners = claim(state.0, start, file)->Ok_0;
            let starts = state.1.push(start);
            lemma_select_functions(functions, i + 1, range, file, (owners, starts), a);
            assert(starts.contains(a) == (state.1.contains(a) || a == start)) by {
                if state.1.contains(a) {
                    let k = choose|k: int| 0 <= k < state.1.len() && state.1[k] == a;
                    assert(starts[k] == a);
                }
                assert(starts[state.1.len() as int] == start);
            }
        }
    } else if i < functions.len() {
        assert forall|k: int| i <= k < functions.len() implies (#[trigger] functions[k]).start
            >= range.end by {
            assert(functions[i].spec_key() <= functions[k].spec_key());
        }
    }
}

proof fn lemma_select_range(
    functions: Seq<Function>,
    range: Span,
    file: Seq<char>,
    state: (Map<u64, Seq<char>>, Seq<u64>),
    a: u64,
)
    requires
        in_key_order(functions),
    ensures
        select_range(functions, range, file, state) matches Ok(after) ==> {
            &&& after.1.contains(a) == (state.1.contains(a) || selects(functions, range, a))
            &&& whole_in(functions, range)
        },
{
    lemma_functions_before(functions, range.start);
    let n = functions_before(functions, range.start);
    lemma_select_functions(functions, n, range, file, state, a);
    if last_reaching(functions, n, range.start) is None {
        lemma_none_reaching(functions, n, range.start);
    }
}

proof fn lemma_none_reaching(functions: Seq<Function>, n: int, address: u64)
    requires
        n <= functions.len(),
        last_reaching(functions, n, address) is None,
    ensures
        forall|k: int| 0 <= k < n ==> (#[trigger] functions[k]).end <= address,
    decreases n,
{
    if n > 0 {
        lemma_none_reaching(functions, n - 1, address);
    }
}

proof fn lemma_select_ranges(
    functions: Seq<Function>,
    ranges: Seq<DataRange>,
    file: Seq<char>,
    state: (Map<u64, Seq<char>>, Seq<u64>),
    a: u64,
)
    requires
        in_key_order(functions),
    ensures
        select_ranges(functions, ranges, file, state) matches Ok(after) ==> {
            &&& after.1.contains(a) == (state.1.contains(a) || one_selects(functions, ranges, a))
            &&& forall|r: int|
                0 <= r < ranges.len() ==> whole_in(
                    functions,
                    Span { start: (#[trigger] ranges[r]).spec_start(), end: ranges[r].spec_end() },
                )
        },
    decreases ranges.len(),
{
    if ranges.len() > 0 {
        let init = ranges.drop_last();
        let last = ranges.last();
        let range = Span { start: last.spec_start(), end: last.spec_end() };
        if let Ok(after) = select_ranges(functions, ranges, file, state) {
            let before = select_ranges(functions, init, file, state)->Ok_0;
            lemma_select_ranges(functions, init, file, state, a);
            lemma_select_range(functions, range, file, before, a);
            assert forall|r: int| 0 <= r < ranges.len() implies whole_in(
                functions,
                Span { start: (#[trigger] ranges[r]).spec_start(), end: ranges[r].spec_end() },
            ) by {
                if r < init.len() {
                    assert(ranges[r] == init[r]);
                }
            }
            assert(one_selects(functions, ranges, a) == (one_selects(functions, init, a) || selects(
                functions,
                range,
                a,
            ))) by {
                if one_selects(functions, init, a) {
                    let r = choose|r: int|
                        0 <= r < init.len() && selects(
                            functions,
                            Span {
                                start: (#[trigger] init[r]).spec_start(),
                                end: init[r].spec_end(),
                            },
                            a,
                        );
                    assert(ranges[r] == init[r]);
                }
                if one_selects(functions, ranges, a) && !selects(functions, range, a) {
                    let r = choose|r: int|
                        0 <= r < ranges.len() && selects(
                            functions,
                            Span {
                                start: (#[trigger] ranges[r]).spec_start(),
                                end: ranges[r].spec_end(),
                            },
                            a,
                        );
                    assert(init[r] == ranges[r]);
                }
                assert(ranges[ranges.len() - 1] == last);
            }
        }
    }
}

/// What an expanded object is: the object as it was, with the functions that it
/// lists and those that its ranges select; its ranges cut through no function.
pub open spec fn expanded_as(
    functions: Seq<Function>,
    before: (Seq<char>, GroupView),
    after: (Seq<char>, GroupView),
    a: u64,
) -> bool {
    &&& after.0 == before.0
    &&& after.1.function_ranges == before.1.function_ranges
    &&& after.1.rdata == before.1.rdata
    &&& after.1.data == before.1.data
    &&& after.1.bss == before.1.bss
    &&& after.1.functions.contains(a) == (before.1.functions.contains(a) || one_selects(
        functions,
        before.1.function_ranges,
        a,
    ))
    &&& forall|r: int|
        0 <= r < before.1.function_ranges.len() ==> whole_in(
            functions,
            Span {
                start: (#[trigger] before.1.function_ranges[r]).spec_start(),
                end: before.1.function_ranges[r].spec_end(),
            },
        )
}

proof fn lemma_expand_groups(
    functions: Seq<Function>,
    groups: Seq<(Seq<char>, GroupView)>,
    i: int,
    a: u64,
)
    requires
        in_key_order(functions),
        0 <= i < groups.len(),
    ensures
        expand_groups(functions, groups) matches Ok((_, out)) ==> out.len() == groups.len()
            && expanded_as(functions, groups[i], out[i], a),
    decreases groups.len(),
{
    if let Ok((_, out)) = expand_groups(functions, groups) {
        let init = groups.drop_last();
        let (owners, before) = expand_groups(functions, init)->Ok_0;
        let (file, group) = groups.last();
        let claimed = claim_all(functions, owners, group.functions, file)->Ok_0;
        if init.len() > 0 {
            lemma_expand_groups(
                functions,
                init,
                if i < init.len() {
                    i
                } else {
                    0
                },
                a,
            );
        }
        if i < init.len() {
            assert(groups[i] == init[i]);
            assert(out[i] == before[i]);
        } else {
            lemma_select_ranges(
                functions,
                group.function_ranges,
                file,
                (claimed, group.functions),
                a,
            );
        }
    }
}

/// Where a grouping selects functions by range, each object keeps what it lists
/// and gains exactly the functions that start within one of its ranges. Each of
/// these ends within that range, and no function before the range reaches in: to
/// cut through one is an error.
pub proof fn lemma_ranges_select_whole_functions(
    sections: Seq<Section>,
    functions: Seq<Function>,
    groups: Seq<(Seq<char>, GroupView)>,
    i: int,
    a: u64,
)
    requires
        uses_ranges(groups),
        0 <= i < groups.len(),
    ensures
        expanded(sections, functions, groups) matches Ok(out) ==> out.len() == groups.len()
            && expanded_as(sized_functions(functions), groups[i], out[i], a),
{
    lemma_stable_sort_orders(keep(functions, has_size()));
    lemma_expand_groups(sized_functions(functions), groups, i, a);
}

} // verus!
