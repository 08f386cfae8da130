//! What the commands print: listings of units, totals of a split, and the
//! choices that they make from their arguments.

use crate::bytes::wrap64;
use crate::emitter::{no_stats, EmitStats};
use crate::format::OutputFormat;
use crate::model::{Function, IdaModel, Section};
use crate::pe::{BaseReloc, BaseRelocKind};
use crate::ranges::Span;
use crate::seqs::{
    first, keep, lemma_first_index_is, lemma_first_index_none, lemma_keep_step, views,
};
use crate::sorting::{
    lemma_sort_views, sort_stably, stable_sort, views_keep_keys, HasKey, Keyed,
};
use crate::text::chars_of;
use crate::text_map::{named_value, TextMap};
use crate::units::{emitted, emitted_functions, Unit, UnitFunction, UnitView};
use vstd::prelude::*;

verus! {

// ---------------------------------------------------------------------------
// Listings
// ---------------------------------------------------------------------------

/// Whether `part` stands in `s` at `at`.
pub open spec fn stands_at(s: Seq<char>, part: Seq<char>, at: int) -> bool {
    0 <= at && at + part.len() <= s.len() && s.subrange(at, (at + part.len()) as int) == part
}

/// Whether `part` stands anywhere in `s`.
pub open spec fn has_part(s: Seq<char>, part: Seq<char>) -> bool {
    exists|at: int| stands_at(s, part, at)
}

fn part_stands_at(chars: &Vec<char>, part: &Vec<char>, at: usize) -> (r: bool)
    requires
        at + part@.len() <= chars@.len(),
    ensures
        r == stands_at(chars@, part@, at as int),
{
    let ghost there = chars@.subrange(at as int, (at + part@.len()) as int);
    let mut i: usize = 0;
    while i < part.len()
        invariant
            i <= part@.len(),
            at + part@.len() <= chars@.len(),
            there == chars@.subrange(at as int, (at + part@.len()) as int),
            forall|k: int| 0 <= k < i ==> there[k] == part@[k],
        decreases part@.len() - i,
    {
        assert(chars@.len() == chars.len());
        if chars[at + i] != part[i] {
            assert(there[i as int] != part@[i as int]);
            return false;
        }
        i += 1;
    }
    assert(there =~= part@);
    true
}

/// Whether `part` stands anywhere in `s`.
pub fn contains_text(s: &str, part: &str) -> (r: bool)
    ensures
        r == has_part(s@, part@),
{
    let chars = chars_of(s);
    let wanted = chars_of(part);
    if wanted.len() > chars.len() {
        return false;
    }
    let last: usize = chars.len() - wanted.len();
    let mut at: usize = 0;
    while at < last
        invariant
            chars@ == s@,
            wanted@ == part@,
            last == chars@.len() - wanted@.len(),
            at <= last,
            forall|k: int| 0 <= k < at ==> !stands_at(s@, part@, k),
        decreases last - at,
    {
        if part_stands_at(&chars, &wanted, at) {
            return true;
        }
        at += 1;
    }
    part_stands_at(&chars, &wanted, last)
}

/// A line of a listing: the bytes of code and the functions of a unit.
#[derive(Debug)]
pub struct Row {
    pub bytes: u64,
    pub functions: usize,
    pub name: String,
}

impl Clone for Row {
    fn clone(&self) -> (r: Self)
        ensures
            r == *self,
    {
        Row { bytes: self.bytes, functions: self.functions, name: self.name.clone() }
    }
}

impl HasKey for Row {
    open spec fn spec_key(&self) -> u64 {
        self.bytes
    }
}

impl Keyed for Row {
    fn key(&self) -> (k: u64) {
        self.bytes
    }
}

/// Rows whose name holds `part`.
pub open spec fn named_with(part: Seq<char>) -> spec_fn(Row) -> bool {
    |r: Row| has_part(r.name@, part)
}

/// The rows of a listing: those whose name holds `part`, smallest first, and no
/// more than `limit`.
pub open spec fn listed(rows: Seq<Row>, part: Seq<char>, limit: nat) -> Seq<Row> {
    let sorted = stable_sort(keep(rows, named_with(part)));
    if sorted.len() <= limit {
        sorted
    } else {
        sorted.take(limit as int)
    }
}

/// The rows of a listing.
pub fn list_rows(rows: &Vec<Row>, part: &str, limit: usize) -> (r: Vec<Row>)
    ensures
        r@ == listed(rows@, part@, limit as nat),
{
    let ghost all = rows@;
    let mut kept: Vec<Row> = Vec::new();
    let mut i: usize = 0;
    assert(all.take(0) =~= Seq::<Row>::empty());
    while i < rows.len()
        invariant
            i <= all.len(),
            all == rows@,
            kept@ == keep(all.take(i as int), named_with(part@)),
        decreases all.len() - i,
    {
        proof {
            lemma_keep_step(all, named_with(part@), i as int);
        }
        if contains_text(rows[i].name.as_str(), part) {
            kept.push(rows[i].clone());
        }
        i += 1;
    }
    assert(all.take(all.len() as int) =~= all);
    let mut sorted = sort_stably(kept);
    sorted.truncate(limit);
    assert(sorted@ =~= listed(all, part@, limit as nat));
    sorted
}

/// The length of ranges, one with another.
pub open spec fn ranges_length(ranges: Seq<Span>) -> int
    decreases ranges.len(),
{
    if ranges.len() == 0 {
        0
    } else {
        ranges_length(ranges.drop_last()) + (ranges.last().end - ranges.last().start)
    }
}

/// The length of ranges, in 64 bits.
pub fn range_bytes(ranges: &Vec<Span>) -> (r: u64)
    ensures
        r == wrap64(ranges_length(ranges@)),
{
    let ghost all = ranges@;
    let mut total: u64 = 0;
    let mut i: usize = 0;
    assert(all.take(0) =~= Seq::<Span>::empty());
    while i < ranges.len()
        invariant
            i <= all.len(),
            all == ranges@,
            total == wrap64(ranges_length(all.take(i as int))),
        decreases all.len() - i,
    {
        assert(all.take(i + 1).drop_last() =~= all.take(i as int));
        let r = ranges[i];
        total = total.wrapping_add(r.end.wrapping_sub(r.start));
        i += 1;
    }
    assert(all.take(all.len() as int) =~= all);
    total
}

/// The functions of units.
pub open spec fn functions_in(units: Seq<UnitView>) -> int
    decreases units.len(),
{
    if units.len() == 0 {
        0
    } else {
        functions_in(units.drop_last()) + units.last().functions.len()
    }
}

/// How many functions units have, in 64 bits.
pub fn count_functions(units: &Vec<Unit>) -> (r: u64)
    ensures
        r == wrap64(functions_in(views(units@))),
{
    let ghost v = views(units@);
    let mut total: u64 = 0;
    let mut i: usize = 0;
    assert(v.take(0) =~= Seq::<UnitView>::empty());
    while i < units.len()
        invariant
            i <= units@.len(),
            v == views(units@),
            total == wrap64(functions_in(v.take(i as int))),
        decreases units@.len() - i,
    {
        assert(v.take(i + 1).drop_last() =~= v.take(i as int));
        assert(v[i as int] == units@[i as int]@);
        total = total.wrapping_add(units[i].functions.len() as u64);
        i += 1;
    }
    assert(v.take(v.len() as int) =~= v);
    total
}

// ---------------------------------------------------------------------------
// The functions of an emitted object
// ---------------------------------------------------------------------------

pub open spec fn has_id(id: usize) -> spec_fn(UnitView) -> bool {
    |u: UnitView| u.id == id
}

/// The functions that the object of the unit `id` holds.
pub open spec fn functions_of(units: Seq<UnitView>, id: usize) -> Seq<UnitFunction> {
    match first(units, has_id(id)) {
        Some(unit) => emitted(unit.functions),
        None => Seq::empty(),
    }
}

/// The functions that the object of the unit `id` holds, in address order.
pub fn unit_functions(units: &Vec<Unit>, id: usize) -> (r: Vec<UnitFunction>)
    ensures
        r@ == functions_of(views(units@), id),
{
    let ghost v = views(units@);
    let mut i: usize = 0;
    while i < units.len()
        invariant
            i <= units@.len(),
            v == views(units@),
            forall|k: int| 0 <= k < i ==> (#[trigger] v[k]).id != id,
        decreases units@.len() - i,
    {
        assert(v[i as int] == units@[i as int]@);
        if units[i].id == id {
            proof {
                lemma_first_index_is(v, has_id(id), i as int);
            }
            return emitted_functions(&units[i].functions);
        }
        i += 1;
    }
    proof {
        lemma_first_index_none(v, has_id(id));
    }
    Vec::new()
}

/// A symbol of a Mach-O symbol table.
#[derive(Debug, Clone, Copy, PartialEq, Eq, Structural)]
pub struct SymtabInfo {
    pub addr: u64,
    pub size: u64,
    pub n_type: u8,
    pub n_sect: u8,
    pub n_desc: u16,
    pub external: bool,
    pub private_external: bool,
}

impl View for SymtabInfo {
    type V = SymtabInfo;

    open spec fn view(&self) -> SymtabInfo {
        *self
    }
}

/// A name and the symbol that it stands for.
#[derive(Debug)]
pub struct Resolved {
    pub name: String,
    pub info: SymtabInfo,
}

pub struct ResolvedView {
    pub name: Seq<char>,
    pub info: SymtabInfo,
}

impl View for Resolved {
    type V = ResolvedView;

    open spec fn view(&self) -> ResolvedView {
        ResolvedView { name: self.name@, info: self.info }
    }
}

impl HasKey for ResolvedView {
    open spec fn spec_key(&self) -> u64 {
        self.info.addr
    }
}

impl HasKey for Resolved {
    open spec fn spec_key(&self) -> u64 {
        self.info.addr
    }
}

impl Keyed for Resolved {
    fn key(&self) -> (k: u64) {
        self.info.addr
    }
}

/// The names that the symbol table has, with their symbols.
pub open spec fn known(names: Seq<Seq<char>>, table: Seq<(Seq<char>, SymtabInfo)>) -> Seq<ResolvedView>
    decreases names.len(),
{
    if names.len() == 0 {
        Seq::empty()
    } else {
        let before = known(names.drop_last(), table);
        match named_value(table, names.last()) {
            Some(info) => before.push(ResolvedView { name: names.last(), info }),
            None => before,
        }
    }
}

/// The names that the symbol table has, in address order.
pub fn resolve_names(names: &Vec<String>, table: &TextMap<SymtabInfo>) -> (r: Vec<Resolved>)
    requires
        table.wf(),
    ensures
        views(r@) == stable_sort(known(views(names@), table@)),
{
    let ghost v = views(names@);
    let mut out: Vec<Resolved> = Vec::new();
    let mut i: usize = 0;
    assert(v.take(0) =~= Seq::<Seq<char>>::empty());
    assert(views(out@) =~= Seq::<ResolvedView>::empty());
    while i < names.len()
        invariant
            i <= names@.len(),
            v == views(names@),
            table.wf(),
            views(out@) == known(v.take(i as int), table@),
        decreases names@.len() - i,
    {
        assert(v.take(i + 1).drop_last() =~= v.take(i as int));
        assert(v[i as int] == names@[i as int]@);
        if let Some(info) = table.get(names[i].as_str()) {
            let ghost before = out@;
            let resolved = Resolved { name: names[i].clone(), info: *info };
            out.push(resolved);
            assert(views(out@) =~= views(before).push(resolved@));
        }
        i += 1;
    }
    assert(v.take(v.len() as int) =~= v);
    proof {
        assert(views_keep_keys::<Resolved>());
        lemma_sort_views(out@);
    }
    sort_stably(out)
}

// ---------------------------------------------------------------------------
// Totals
// ---------------------------------------------------------------------------

/// `total` with the statistics of one more object.
pub open spec fn with_stats(total: EmitStats, s: EmitStats) -> EmitStats {
    EmitStats {
        text_bytes: total.text_bytes.wrapping_add(s.text_bytes),
        instructions: total.instructions.wrapping_add(s.instructions),
        local_symbols: total.local_symbols.wrapping_add(s.local_symbols),
        undef_symbols: total.undef_symbols.wrapping_add(s.undef_symbols),
        relocations: total.relocations.wrapping_add(s.relocations),
        unresolved_calls: total.unresolved_calls.wrapping_add(s.unresolved_calls),
        unresolved_rip: total.unresolved_rip.wrapping_add(s.unresolved_rip),
        ..total
    }
}

/// The statistics of the objects that were emitted, one with another.
pub open spec fn totals(results: Seq<Option<EmitStats>>) -> EmitStats
    decreases results.len(),
{
    if results.len() == 0 {
        no_stats()
    } else {
        match results.last() {
            Some(s) => with_stats(totals(results.drop_last()), s),
            None => totals(results.drop_last()),
        }
    }
}

pub open spec fn failed() -> spec_fn(Option<EmitStats>) -> bool {
    |r: Option<EmitStats>| r is None
}

/// The totals of a split.
#[derive(Debug, Clone, Copy)]
pub struct Totals {
    pub stats: EmitStats,
    pub emitted: usize,
    pub failures: usize,
}

/// The totals of a split, given the statistics of each object that was emitted
/// and `None` for each that failed.
pub fn sum_outcomes(results: &Vec<Option<EmitStats>>) -> (r: Totals)
    ensures
        r.stats == totals(results@),
        r.failures == keep(results@, failed()).len(),
        r.emitted == results@.len() - keep(results@, failed()).len(),
{
    let ghost all = results@;
    let mut stats = EmitStats::default();
    let mut failures: usize = 0;
    let mut i: usize = 0;
    assert(all.take(0) =~= Seq::<Option<EmitStats>>::empty());
    while i < results.len()
        invariant
            failures <= i <= all.len(),
            all == results@,
            stats == totals(all.take(i as int)),
            failures == keep(all.take(i as int), failed()).len(),
        decreases all.len() - i,
    {
        proof {
            lemma_keep_step(all, failed(), i as int);
            assert(all.take(i + 1).drop_last() =~= all.take(i as int));
        }
        match &results[i] {
            Some(s) => {
                stats.text_bytes = stats.text_bytes.wrapping_add(s.text_bytes);
                stats.instructions = stats.instructions.wrapping_add(s.instructions);
                stats.local_symbols = stats.local_symbols.wrapping_add(s.local_symbols);
                stats.undef_symbols = stats.undef_symbols.wrapping_add(s.undef_symbols);
                stats.relocations = stats.relocations.wrapping_add(s.relocations);
                stats.unresolved_calls = stats.unresolved_calls.wrapping_add(s.unresolved_calls);
                stats.unresolved_rip = stats.unresolved_rip.wrapping_add(s.unresolved_rip);
            },
            None => {
                failures += 1;
            },
        }
        i += 1;
    }
    assert(all.take(all.len() as int) =~= all);
    Totals { stats, emitted: results.len() - failures, failures }
}

/// The bytes of code of functions.
pub open spec fn functions_length(functions: Seq<Function>) -> int
    decreases functions.len(),
{
    if functions.len() == 0 {
        0
    } else {
        functions_length(functions.drop_last()) + functions.last().spec_size()
    }
}

/// The bytes of code of a model, in 64 bits.
pub fn code_bytes(model: &IdaModel) -> (r: u64)
    ensures
        r == wrap64(functions_length(model.functions@)),
{
    let ghost fs = model.functions@;
    let mut total: u64 = 0;
    let mut i: usize = 0;
    assert(fs.take(0) =~= Seq::<Function>::empty());
    while i < model.functions.len()
        invariant
            i <= fs.len(),
            fs == model.functions@,
            total == wrap64(functions_length(fs.take(i as int))),
        decreases fs.len() - i,
    {
        assert(fs.take(i + 1).drop_last() =~= fs.take(i as int));
        total = total.wrapping_add(model.functions[i].size());
        i += 1;
    }
    assert(fs.take(fs.len() as int) =~= fs);
    total
}

/// The base relocations of 64-bit pointers.
pub open spec fn is_dir64() -> spec_fn(BaseReloc) -> bool {
    |r: BaseReloc| r.kind == BaseRelocKind::Dir64
}

/// How many base relocations are 64-bit pointers.
pub fn count_dir64(relocs: &Vec<BaseReloc>) -> (r: usize)
    ensures
        r == keep(relocs@, is_dir64()).len(),
        r <= relocs@.len(),
{
    let ghost all = relocs@;
    let mut n: usize = 0;
    let mut i: usize = 0;
    assert(all.take(0) =~= Seq::<BaseReloc>::empty());
    while i < relocs.len()
        invariant
            n <= i <= all.len(),
            all == relocs@,
            n == keep(all.take(i as int), is_dir64()).len(),
        decreases all.len() - i,
    {
        proof {
            lemma_keep_step(all, is_dir64(), i as int);
        }
        if relocs[i].kind == BaseRelocKind::Dir64 {
            n += 1;
        }
        i += 1;
    }
    assert(all.take(all.len() as int) =~= all);
    n
}

// ---------------------------------------------------------------------------
// Choices
// ---------------------------------------------------------------------------

/// The permissions of a section.
pub open spec fn perms_text(s: Section) -> Seq<char> {
    seq![
        if s.read {
            'r'
        } else {
            '-'
        },
        if s.write {
            'w'
        } else {
            '-'
        },
        if s.execute {
            'x'
        } else {
            '-'
        },
    ]
}

/// The permissions of a section.
pub fn perms(s: &Section) -> (r: String)
    ensures
        r@ == perms_text(*s),
{
    let mut out = String::new();
    out.push(
        if s.read {
            'r'
        } else {
            '-'
        },
    );
    out.push(
        if s.write {
            'w'
        } else {
            '-'
        },
    );
    out.push(
        if s.execute {
            'x'
        } else {
            '-'
        },
    );
    assert(out@ =~= perms_text(*s));
    out
}

/// The output format that the arguments ask for, or else the one that suits the
/// file type.
pub open spec fn chosen_format(elf: bool, coff: bool, filetype: Seq<char>) -> OutputFormat {
    if elf {
        OutputFormat::Elf
    } else if coff {
        OutputFormat::Coff
    } else {
        OutputFormat::of_filetype(filetype)
    }
}

/// The output format of a split.
pub fn choose_format(elf: bool, coff: bool, filetype: &str) -> (r: OutputFormat)
    ensures
        r == chosen_format(elf, coff, filetype@),
{
    if elf {
        OutputFormat::Elf
    } else if coff {
        OutputFormat::Coff
    } else {
        OutputFormat::default_for_filetype(filetype)
    }
}

/// The file of what no object holds.
pub open spec fn shared_file(format: OutputFormat) -> Seq<char> {
    "__shared_data."@ + format.extension()
}

/// The file of what no object holds.
pub fn shared_file_name(format: OutputFormat) -> (r: String)
    ensures
        r@ == shared_file(format),
{
    "__shared_data.".to_owned().concat(format.ext())
}

/// What the compilation units of a Mach-O binary come from.
#[derive(Debug, Clone, Copy, PartialEq, Eq, Structural)]
pub enum DebugInfoSource {
    Dwarf,
    Stabs,
    Symtab,
}

/// Whether a Mach-O binary is split by its debug information: where it has any
/// and no symbol table was given.
pub fn uses_debug_info(symtab_given: bool, source: DebugInfoSource) -> (r: bool)
    ensures
        r == (!symtab_given && source != DebugInfoSource::Symtab),
{
    !symtab_given && source != DebugInfoSource::Symtab
}

} // verus!
