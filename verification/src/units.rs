//! Compilation units: where they come from, and the file that regroups them.

use crate::bytes::wrap64;
use crate::ranges::Span;
use crate::seqs::{
    first, first_index, keep, lemma_first_index, lemma_first_index_is, lemma_keep_contains,
    lemma_keep_step, views,
};
use crate::sorting::{sort_stably, stable_sort, HasKey, Keyed};
use crate::text::{chars_of, dec_text, format_digits, pad_zeros, padded, string_of, Error};
use crate::text_map::{put_named, TextMap};
use vstd::hash_map::StringHashMap;
use vstd::prelude::*;

verus! {

/// A function of a compilation unit.
#[derive(Debug)]
pub struct UnitFunction {
    pub name: String,
    /// The name that the linker sees, where it differs.
    pub linkage_name: Option<String>,
    pub addr: u64,
    pub size: u64,
}

impl Clone for UnitFunction {
    fn clone(&self) -> (r: Self)
        ensures
            r == *self,
    {
        UnitFunction {
            name: self.name.clone(),
            linkage_name: match &self.linkage_name {
                Some(name) => Some(name.clone()),
                None => None,
            },
            addr: self.addr,
            size: self.size,
        }
    }
}

impl HasKey for UnitFunction {
    open spec fn spec_key(&self) -> u64 {
        self.addr
    }
}

impl Keyed for UnitFunction {
    fn key(&self) -> (k: u64) {
        self.addr
    }
}

impl UnitFunction {
    /// The name that the linker sees.
    pub open spec fn symbol(self) -> Seq<char> {
        match self.linkage_name {
            Some(name) => name@,
            None => self.name@,
        }
    }

    pub open spec fn span(self) -> Span {
        Span { start: self.addr, end: wrap64(self.addr + self.size) as u64 }
    }

    pub fn symbol_name(&self) -> (r: &String)
        ensures
            r@ == self.symbol(),
    {
        match &self.linkage_name {
            Some(name) => name,
            None => &self.name,
        }
    }
}

/// A compilation unit.
#[derive(Debug)]
pub struct Unit {
    pub id: usize,
    pub name: String,
    /// The name as the stem of a file name.
    pub stem: String,
    pub ranges: Vec<Span>,
    pub functions: Vec<UnitFunction>,
    /// The output file, where the grouping file names it.
    pub file_name: Option<String>,
}

#[verifier::ext_equal]
pub struct UnitView {
    pub id: usize,
    pub name: Seq<char>,
    pub stem: Seq<char>,
    pub ranges: Seq<Span>,
    pub functions: Seq<UnitFunction>,
    pub file_name: Option<Seq<char>>,
}

impl View for Unit {
    type V = UnitView;

    open spec fn view(&self) -> UnitView {
        UnitView {
            id: self.id,
            name: self.name@,
            stem: self.stem@,
            ranges: self.ranges@,
            functions: self.functions@,
            file_name: match self.file_name {
                Some(name) => Some(name@),
                None => None,
            },
        }
    }
}

/// Functions that have code.
pub open spec fn has_code() -> spec_fn(UnitFunction) -> bool {
    |f: UnitFunction| f.size > 0
}

/// The functions that an object of a unit holds, in address order.
pub open spec fn emitted(functions: Seq<UnitFunction>) -> Seq<UnitFunction> {
    stable_sort(keep(functions, has_code()))
}

/// The functions that an object of a unit holds, in address order.
pub fn emitted_functions(functions: &Vec<UnitFunction>) -> (r: Vec<UnitFunction>)
    ensures
        r@ == emitted(functions@),
{
    let ghost fs = functions@;
    let mut kept: Vec<UnitFunction> = Vec::new();
    let mut i: usize = 0;
    assert(fs.take(0) =~= Seq::<UnitFunction>::empty());
    while i < functions.len()
        invariant
            i <= fs.len(),
            fs == functions@,
            kept@ == keep(fs.take(i as int), has_code()),
        decreases fs.len() - i,
    {
        proof {
            lemma_keep_step(fs, has_code(), i as int);
        }
        if functions[i].size > 0 {
            kept.push(functions[i].clone());
        }
        i += 1;
    }
    assert(fs.take(fs.len() as int) =~= fs);
    sort_stably(kept)
}

/// Units that an object is emitted for.
pub open spec fn is_emitted() -> spec_fn(UnitView) -> bool {
    |u: UnitView| exists|i: int| 0 <= i < u.functions.len() && (#[trigger] u.functions[i]).size > 0
}

fn holds_code(functions: &Vec<UnitFunction>) -> (r: bool)
    ensures
        r == exists|i: int| 0 <= i < functions@.len() && (#[trigger] functions@[i]).size > 0,
{
    let mut i: usize = 0;
    while i < functions.len()
        invariant
            i <= functions@.len(),
            forall|k: int| 0 <= k < i ==> (#[trigger] functions@[k]).size == 0,
        decreases functions@.len() - i,
    {
        if functions[i].size > 0 {
            return true;
        }
        i += 1;
    }
    false
}

/// How many units an object is emitted for.
pub fn count_emitted(units: &Vec<Unit>) -> (r: usize)
    ensures
        r == keep(views(units@), is_emitted()).len(),
{
    let ghost v = views(units@);
    let mut n: usize = 0;
    let mut i: usize = 0;
    assert(v.take(0) =~= Seq::<UnitView>::empty());
    while i < units.len()
        invariant
            n <= i <= units@.len(),
            v == views(units@),
            n == keep(v.take(i as int), is_emitted()).len(),
        decreases units@.len() - i,
    {
        proof {
            lemma_keep_step(v, is_emitted(), i as int);
            assert(v[i as int] == units@[i as int]@);
        }
        if holds_code(&units[i].functions) {
            n += 1;
        }
        i += 1;
    }
    assert(v.take(v.len() as int) =~= v);
    n
}

// ---------------------------------------------------------------------------
// Where units come from
// ---------------------------------------------------------------------------

/// Where a split gets its compilation-unit boundaries.
#[derive(Debug, Clone, Copy, PartialEq, Eq, Structural)]
pub enum GroupBy {
    /// DWARF if it covers more `.text` than `.symtab` does, else `.symtab`.
    Auto,
    /// DWARF compilation units only.
    Dwarf,
    /// `.symtab` `STT_FILE` translation units only.
    Symtab,
}

/// Where the units of a split came from.
#[derive(Debug, Clone, Copy, PartialEq, Eq, Structural)]
pub enum UnitSource {
    Dwarf,
    Symtab,
}

impl UnitSource {
    pub open spec fn spec_label(self) -> Seq<char> {
        match self {
            UnitSource::Dwarf => "dwarf"@,
            UnitSource::Symtab => "symtab"@,
        }
    }

    pub fn label(self) -> (r: &'static str)
        ensures
            r@ == self.spec_label(),
    {
        match self {
            UnitSource::Dwarf => "dwarf",
            UnitSource::Symtab => "symtab",
        }
    }
}

/// The bytes of code of functions.
pub open spec fn code_size(functions: Seq<UnitFunction>) -> int
    decreases functions.len(),
{
    if functions.len() == 0 {
        0
    } else {
        code_size(functions.drop_last()) + functions.last().size
    }
}

/// The bytes of code of units.
pub open spec fn units_size(units: Seq<UnitView>) -> int
    decreases units.len(),
{
    if units.len() == 0 {
        0
    } else {
        units_size(units.drop_last()) + code_size(units.last().functions)
    }
}

/// The bytes of code of units, in 64 bits.
pub fn text_coverage(units: &Vec<Unit>) -> (r: u64)
    ensures
        r == wrap64(units_size(views(units@))),
{
    let ghost v = views(units@);
    let mut total: u64 = 0;
    let mut i: usize = 0;
    assert(v.take(0) =~= Seq::<UnitView>::empty());
    while i < units.len()
        invariant
            i <= units@.len(),
            v == views(units@),
            total == wrap64(units_size(v.take(i as int))),
        decreases units@.len() - i,
    {
        assert(v.take(i + 1).drop_last() =~= v.take(i as int));
        assert(v[i as int] == units@[i as int]@);
        total = total.wrapping_add(functions_size(&units[i].functions));
        i += 1;
    }
    assert(v.take(v.len() as int) =~= v);
    total
}

fn functions_size(functions: &Vec<UnitFunction>) -> (r: u64)
    ensures
        r == wrap64(code_size(functions@)),
{
    let ghost fs = functions@;
    let mut total: u64 = 0;
    let mut i: usize = 0;
    assert(fs.take(0) =~= Seq::<UnitFunction>::empty());
    while i < functions.len()
        invariant
            i <= fs.len(),
            fs == functions@,
            total == wrap64(code_size(fs.take(i as int))),
        decreases fs.len() - i,
    {
        assert(fs.take(i + 1).drop_last() =~= fs.take(i as int));
        total = total.wrapping_add(functions[i].size);
        i += 1;
    }
    assert(fs.take(fs.len() as int) =~= fs);
    total
}

/// The bytes of code that DWARF describes.
pub open spec fn dwarf_coverage(dwarf: Option<Seq<UnitView>>) -> int {
    match dwarf {
        Some(units) => wrap64(units_size(units)),
        None => 0,
    }
}

/// Whether the units of DWARF are taken: where they are asked for, or where
/// the source is left open and they cover more than `.symtab` does.
pub open spec fn takes_dwarf(
    group_by: GroupBy,
    dwarf: Option<Seq<UnitView>>,
    symtab_coverage: u64,
) -> bool {
    match group_by {
        GroupBy::Dwarf => true,
        GroupBy::Symtab => false,
        GroupBy::Auto => dwarf_coverage(dwarf) > symtab_coverage,
    }
}

/// The source of the units of a split, given the units of DWARF where it was
/// indexed, whether `.symtab` has translation units, and how many bytes of code
/// it covers.
pub open spec fn source_of(
    group_by: GroupBy,
    dwarf: Option<Seq<UnitView>>,
    symtab_has_groups: bool,
    symtab_coverage: u64,
) -> Result<UnitSource, Seq<char>> {
    if takes_dwarf(group_by, dwarf, symtab_coverage) {
        match dwarf {
            None => Err("--group-by dwarf but no DWARF was indexed"@),
            Some(units) => if units.len() == 0 {
                Err("no DWARF compilation units found; re-run with --group-by symtab"@)
            } else {
                Ok(UnitSource::Dwarf)
            },
        }
    } else if !symtab_has_groups && symtab_coverage == 0 {
        Err(
            "no usable .symtab: the binary appears stripped, and DWARF covers "@ + dec_text(
                dwarf_coverage(dwarf),
            ) + " bytes"@,
        )
    } else {
        Ok(UnitSource::Symtab)
    }
}

pub open spec fn units_view(units: Option<&Vec<Unit>>) -> Option<Seq<UnitView>> {
    match units {
        Some(units) => Some(views(units@)),
        None => None,
    }
}

/// Chooses the source of the units of a split.
pub fn choose_source(
    group_by: GroupBy,
    dwarf: Option<&Vec<Unit>>,
    symtab_has_groups: bool,
    symtab_coverage: u64,
) -> (r: Result<UnitSource, Error>)
    ensures
        match r {
            Ok(source) => source_of(
                group_by,
                units_view(dwarf),
                symtab_has_groups,
                symtab_coverage,
            ) == Ok::<UnitSource, Seq<char>>(source),
            Err(e) => source_of(group_by, units_view(dwarf), symtab_has_groups, symtab_coverage)
                == Err::<UnitSource, Seq<char>>(e@),
        },
{
    let covered: u64 = match dwarf {
        Some(units) => text_coverage(units),
        None => 0,
    };
    let use_dwarf = match group_by {
        GroupBy::Dwarf => true,
        GroupBy::Symtab => false,
        GroupBy::Auto => covered > symtab_coverage,
    };
    if use_dwarf {
        match dwarf {
            None => Err(Error::new("--group-by dwarf but no DWARF was indexed")),
            Some(units) => if units.len() == 0 {
                Err(
                    Error::new(
                        "no DWARF compilation units found; re-run with --group-by symtab",
                    ),
                )
            } else {
                Ok(UnitSource::Dwarf)
            },
        }
    } else if !symtab_has_groups && symtab_coverage == 0 {
        Err(
            Error::new("no usable .symtab: the binary appears stripped, and DWARF covers ").dec(
                covered,
            ).text(" bytes"),
        )
    } else {
        Ok(UnitSource::Symtab)
    }
}

// ---------------------------------------------------------------------------
// The grouping file
// ---------------------------------------------------------------------------

/// The symbols of one output object.
#[derive(Debug)]
pub struct NameList {
    pub names: Vec<String>,
}

impl View for NameList {
    type V = Seq<Seq<char>>;

    open spec fn view(&self) -> Seq<Seq<char>> {
        views(self.names@)
    }
}

/// The editable grouping file: output `.o` name to the function symbols it
/// should contain.
pub type ObjectsJson = TextMap<NameList>;

pub open spec fn symbols_of(functions: Seq<UnitFunction>) -> Seq<Seq<char>> {
    functions.map_values(|f: UnitFunction| f.symbol())
}

/// The output file of a unit.
pub open spec fn unit_file(u: UnitView) -> Seq<char> {
    pad_zeros(dec_text(u.id as int), 4) + "_"@ + u.stem + ".o"@
}

/// The grouping file of units.
pub open spec fn grouping_of(units: Seq<UnitView>) -> Seq<(Seq<char>, Seq<Seq<char>>)>
    decreases units.len(),
{
    if units.len() == 0 {
        Seq::empty()
    } else {
        let before = grouping_of(units.drop_last());
        let functions = emitted(units.last().functions);
        if functions.len() == 0 {
            before
        } else {
            put_named(before, unit_file(units.last()), symbols_of(functions))
        }
    }
}

fn list_symbols(functions: &Vec<UnitFunction>) -> (r: NameList)
    ensures
        r@ == symbols_of(functions@),
{
    let mut names: Vec<String> = Vec::new();
    let mut i: usize = 0;
    while i < functions.len()
        invariant
            i <= functions@.len(),
            views(names@) =~= symbols_of(functions@).take(i as int),
        decreases functions@.len() - i,
    {
        let ghost before = names@;
        let name = functions[i].symbol_name().clone();
        names.push(name);
        i += 1;
        assert(views(names@) =~= views(before).push(name@));
    }
    let r = NameList { names };
    assert(r@ =~= symbols_of(functions@));
    r
}

/// The grouping file of units.
pub fn objects_json_from_index(units: &Vec<Unit>) -> (r: ObjectsJson)
    ensures
        r.wf(),
        r@ == grouping_of(views(units@)),
{
    let ghost v = views(units@);
    let mut out: ObjectsJson = TextMap::new();
    let mut i: usize = 0;
    assert(v.take(0) =~= Seq::<UnitView>::empty());
    while i < units.len()
        invariant
            i <= units@.len(),
            v == views(units@),
            out.wf(),
            out@ == grouping_of(v.take(i as int)),
        decreases units@.len() - i,
    {
        assert(v.take(i + 1).drop_last() =~= v.take(i as int));
        assert(v[i as int] == units@[i as int]@);
        let unit = &units[i];
        let functions = emitted_functions(&unit.functions);
        if functions.len() > 0 {
            let id = padded(format_digits(unit.id as u64, 10, false), 4);
            let file = id.concat("_").concat(unit.stem.as_str()).concat(".o");
            out.insert(file, list_symbols(&functions));
        }
        i += 1;
    }
    assert(v.take(v.len() as int) =~= v);
    out
}

// ---------------------------------------------------------------------------
// Regrouping
// ---------------------------------------------------------------------------

/// All functions of units, in order.
pub open spec fn all_functions(units: Seq<UnitView>) -> Seq<UnitFunction>
    decreases units.len(),
{
    if units.len() == 0 {
        Seq::empty()
    } else {
        all_functions(units.drop_last()) + units.last().functions
    }
}

/// Functions that go by a name.
pub open spec fn called(name: Seq<char>) -> spec_fn(UnitFunction) -> bool {
    |f: UnitFunction| f.symbol() == name
}

/// The functions that names stand for; of two of one name, the first.
pub open spec fn found(functions: Seq<UnitFunction>, names: Seq<Seq<char>>) -> Seq<UnitFunction>
    decreases names.len(),
{
    if names.len() == 0 {
        Seq::empty()
    } else {
        let before = found(functions, names.drop_last());
        match first(functions, called(names.last())) {
            Some(f) => before.push(f),
            None => before,
        }
    }
}

/// The names that stand for no function.
pub open spec fn missing(functions: Seq<UnitFunction>, names: Seq<Seq<char>>) -> Seq<Seq<char>> {
    keep(names, |name: Seq<char>| first(functions, called(name)) is None)
}

/// Whether `s` ends in `.o`.
pub open spec fn is_object_file(s: Seq<char>) -> bool {
    s.len() >= 2 && s[s.len() - 2] == '.' && s[s.len() - 1] == 'o'
}

/// The unit that a file of the grouping file asks for. Its key is the output
/// file name and used verbatim.
pub open spec fn regrouped_unit(id: usize, file: Seq<char>, functions: Seq<UnitFunction>) -> UnitView {
    let name = if is_object_file(file) {
        file.take(file.len() - 2)
    } else {
        file
    };
    UnitView {
        id,
        name,
        stem: name,
        ranges: functions.map_values(|f: UnitFunction| f.span()),
        functions,
        file_name: Some(
            if is_object_file(file) {
                file
            } else {
                file + ".o"@
            },
        ),
    }
}

/// The units that the first files of a grouping file ask for.
pub open spec fn regrouped(
    functions: Seq<UnitFunction>,
    objects: Seq<(Seq<char>, Seq<Seq<char>>)>,
) -> Seq<UnitView>
    decreases objects.len(),
{
    if objects.len() == 0 {
        Seq::empty()
    } else {
        let before = regrouped(functions, objects.drop_last());
        let (file, names) = objects.last();
        let chosen = found(functions, names);
        if chosen.len() == 0 {
            before
        } else {
            before.push(regrouped_unit((objects.len() - 1) as usize, file, chosen))
        }
    }
}

/// The names of a grouping file that stand for no function, with their files.
pub open spec fn all_missing(
    functions: Seq<UnitFunction>,
    objects: Seq<(Seq<char>, Seq<Seq<char>>)>,
) -> Seq<(Seq<char>, Seq<char>)>
    decreases objects.len(),
{
    if objects.len() == 0 {
        Seq::empty()
    } else {
        let (file, names) = objects.last();
        all_missing(functions, objects.drop_last()) + missing(functions, names).map_values(
            |name: Seq<char>| (name, file),
        )
    }
}

/// A name of a grouping file that stands for no function.
#[derive(Debug)]
pub struct Missing {
    pub symbol: String,
    pub file: String,
}

impl View for Missing {
    type V = (Seq<char>, Seq<char>);

    open spec fn view(&self) -> (Seq<char>, Seq<char>) {
        (self.symbol@, self.file@)
    }
}

/// Functions and where the first of each name stands.
struct Directory {
    functions: Vec<UnitFunction>,
    by_name: StringHashMap<usize>,
}

impl Directory {
    spec fn wf(&self) -> bool {
        forall|name: Seq<char>| #[trigger]
            first_index(self.functions@, called(name)) == if self.by_name@.contains_key(name) {
                Some(self.by_name@[name] as int)
            } else {
                None
            }
    }

    fn new() -> (r: Directory)
        ensures
            r.wf(),
            r.functions@.len() == 0,
    {
        Directory { functions: Vec::new(), by_name: StringHashMap::new() }
    }

    fn push(&mut self, f: UnitFunction)
        requires
            old(self).wf(),
        ensures
            final(self).wf(),
            final(self).functions@ == old(self).functions@.push(f),
    {
        let ghost before = self.functions@;
        let ghost known = self.by_name@;
        let ghost all = before.push(f);
        let symbol = f.symbol_name().clone();
        assert(first_index(before, called(f.symbol())) is Some == known.contains_key(f.symbol()));
        if !self.by_name.contains_key(symbol.as_str()) {
            let n: usize = self.functions.len();
            self.by_name.insert(symbol, n);
        }
        self.functions.push(f);
        proof {
            assert(all.drop_last() =~= before);
            assert forall|name: Seq<char>| #[trigger]
                first_index(self.functions@, called(name)) == if self.by_name@.contains_key(name) {
                    Some(self.by_name@[name] as int)
                } else {
                    None
                } by {
                assert(first_index(before, called(name)) == if known.contains_key(name) {
                    Some(known[name] as int)
                } else {
                    None
                });
            }
        }
    }

    fn find(&self, name: &str) -> (r: Option<UnitFunction>)
        requires
            self.wf(),
        ensures
            r == first(self.functions@, called(name@)),
    {
        proof {
            assert(first_index(self.functions@, called(name@)) is Some
                == self.by_name@.contains_key(name@));
            lemma_first_index(self.functions@, called(name@));
        }
        match self.by_name.get(name) {
            Some(i) => Some(self.functions[*i].clone()),
            None => None,
        }
    }
}

fn collect_directory(units: &Vec<Unit>) -> (r: Directory)
    ensures
        r.wf(),
        r.functions@ == all_functions(views(units@)),
{
    let ghost v = views(units@);
    let mut out = Directory::new();
    let mut i: usize = 0;
    assert(v.take(0) =~= Seq::<UnitView>::empty());
    assert(out.functions@ =~= Seq::<UnitFunction>::empty());
    while i < units.len()
        invariant
            i <= units@.len(),
            v == views(units@),
            out.wf(),
            out.functions@ == all_functions(v.take(i as int)),
        decreases units@.len() - i,
    {
        assert(v.take(i + 1).drop_last() =~= v.take(i as int));
        assert(v[i as int] == units@[i as int]@);
        let functions = &units[i].functions;
        let ghost before = out.functions@;
        let mut j: usize = 0;
        assert(before + functions@.take(0) =~= before);
        while j < functions.len()
            invariant
                j <= functions@.len(),
                out.wf(),
                out.functions@ == before + functions@.take(j as int),
            decreases functions@.len() - j,
        {
            out.push(functions[j].clone());
            assert(out.functions@ =~= before + functions@.take(j + 1));
            j += 1;
        }
        assert(functions@.take(functions@.len() as int) =~= functions@);
        i += 1;
    }
    assert(v.take(v.len() as int) =~= v);
    out
}

fn make_unit(id: usize, file: &String, functions: Vec<UnitFunction>) -> (r: Unit)
    ensures
        r@ == regrouped_unit(id, file@, functions@),
{
    let mut ranges: Vec<Span> = Vec::new();
    let mut i: usize = 0;
    while i < functions.len()
        invariant
            i <= functions@.len(),
            ranges@ =~= functions@.map_values(|f: UnitFunction| f.span()).take(i as int),
        decreases functions@.len() - i,
    {
        let f = &functions[i];
        ranges.push(Span { start: f.addr, end: f.addr.wrapping_add(f.size) });
        i += 1;
    }
    assert(ranges@ =~= functions@.map_values(|f: UnitFunction| f.span()));
    let chars = chars_of(file.as_str());
    let n: usize = chars.len();
    let (name, file_name) = if n >= 2 && chars[n - 2] == '.' && chars[n - 1] == 'o' {
        (string_of(chars.as_slice(), 0, n - 2), file.clone())
    } else {
        (file.clone(), file.clone().concat(".o"))
    };
    let stem = name.clone();
    let unit = Unit { id, name, stem, ranges, functions, file_name: Some(file_name) };
    assert(chars@.subrange(0, n as int) =~= file@);
    assert(n >= 2 ==> chars@.subrange(0, n - 2) =~= file@.take(n - 2));
    assert(unit@ =~= regrouped_unit(id, file@, functions@));
    unit
}

fn find_functions(directory: &Directory, file: &String, names: &Vec<String>, lost: &mut Vec<Missing>)
    -> (r: Vec<UnitFunction>)
    requires
        directory.wf(),
    ensures
        r@ == found(directory.functions@, views(names@)),
        views(final(lost)@) == views(old(lost)@) + missing(
            directory.functions@,
            views(names@),
        ).map_values(|name: Seq<char>| (name, file@)),
{
    let ghost v = views(names@);
    let ghost all = directory.functions@;
    let ghost is_lost = |name: Seq<char>| first(all, called(name)) is None;
    let ghost start = views(lost@);
    let mut out: Vec<UnitFunction> = Vec::new();
    let mut i: usize = 0;
    assert(v.take(0) =~= Seq::<Seq<char>>::empty());
    assert(views(lost@) =~= start + keep(v.take(0), is_lost).map_values(
        |name: Seq<char>| (name, file@),
    ));
    while i < names.len()
        invariant
            i <= names@.len(),
            v == views(names@),
            directory.wf(),
            all == directory.functions@,
            is_lost == (|name: Seq<char>| first(all, called(name)) is None),
            out@ == found(all, v.take(i as int)),
            views(lost@) == start + keep(v.take(i as int), is_lost).map_values(
                |name: Seq<char>| (name, file@),
            ),
        decreases names@.len() - i,
    {
        proof {
            lemma_keep_step(v, is_lost, i as int);
            assert(v.take(i + 1).drop_last() =~= v.take(i as int));
            assert(v[i as int] == names@[i as int]@);
        }
        match directory.find(names[i].as_str()) {
            Some(f) => {
                out.push(f);
            },
            None => {
                let ghost before = lost@;
                let gone = Missing { symbol: names[i].clone(), file: file.clone() };
                lost.push(gone);
                assert(views(lost@) =~= views(before).push(gone@));
                assert(views(lost@) =~= start + keep(v.take(i + 1), is_lost).map_values(
                    |name: Seq<char>| (name, file@),
                ));
            },
        }
        i += 1;
    }
    assert(v.take(v.len() as int) =~= v);
    out
}

/// The units that a grouping file asks for, each function taken from `source`,
/// and the names that it does not have.
pub fn regroup_index(source: &Vec<Unit>, objects: &ObjectsJson) -> (r: (Vec<Unit>, Vec<Missing>))
    ensures
        views(r.0@) == regrouped(all_functions(views(source@)), objects@),
        views(r.1@) == all_missing(all_functions(views(source@)), objects@),
{
    let directory = collect_directory(source);
    let ghost all = directory.functions@;
    let ghost o = objects@;
    let mut units: Vec<Unit> = Vec::new();
    let mut lost: Vec<Missing> = Vec::new();
    let mut i: usize = 0;
    assert(o.take(0) =~= Seq::<(Seq<char>, Seq<Seq<char>>)>::empty());
    assert(views(units@) =~= Seq::<UnitView>::empty());
    assert(views(lost@) =~= Seq::<(Seq<char>, Seq<char>)>::empty());
    while i < objects.entries.len()
        invariant
            i <= objects.entries@.len(),
            o == objects@,
            directory.wf(),
            all == directory.functions@,
            views(units@) == regrouped(all, o.take(i as int)),
            views(lost@) == all_missing(all, o.take(i as int)),
        decreases objects.entries@.len() - i,
    {
        assert(o.take(i + 1).drop_last() =~= o.take(i as int));
        let file = &objects.entries[i].0;
        let list = &objects.entries[i].1;
        assert(o[i as int] == (file@, list@));
        let functions = find_functions(&directory, file, &list.names, &mut lost);
        if functions.len() > 0 {
            let ghost before = units@;
            let unit = make_unit(i, file, functions);
            units.push(unit);
            assert(views(units@) =~= views(before).push(unit@));
        }
        i += 1;
    }
    assert(o.take(o.len() as int) =~= o);
    (units, lost)
}

// ---------------------------------------------------------------------------
// Laws
// ---------------------------------------------------------------------------

/// Whether no two functions go by one name.
pub open spec fn names_are_unique(functions: Seq<UnitFunction>) -> bool {
    forall|i: int, j: int|
        0 <= i < j < functions.len() ==> (#[trigger] functions[i]).symbol() != (
        #[trigger] functions[j]).symbol()
}

/// Where names are unique, the symbols of functions lead back to just these
/// functions, and none is missing: a grouping file that is not edited keeps the
/// functions of each object.
pub proof fn lemma_symbols_find_their_functions(
    functions: Seq<UnitFunction>,
    chosen: Seq<UnitFunction>,
)
    requires
        names_are_unique(functions),
        forall|i: int| 0 <= i < chosen.len() ==> functions.contains(#[trigger] chosen[i]),
    ensures
        found(functions, symbols_of(chosen)) == chosen,
        missing(functions, symbols_of(chosen)) == Seq::<Seq<char>>::empty(),
    decreases chosen.len(),
{
    let names = symbols_of(chosen);
    if chosen.len() == 0 {
        assert(found(functions, names) =~= chosen);
        assert(missing(functions, names) =~= Seq::<Seq<char>>::empty());
    } else {
        let init = chosen.drop_last();
        assert forall|i: int| 0 <= i < init.len() implies functions.contains(
            #[trigger] init[i],
        ) by {
            assert(init[i] == chosen[i]);
        }
        lemma_symbols_find_their_functions(functions, init);
        assert(names.drop_last() =~= symbols_of(init));
        let f = chosen.last();
        assert(functions.contains(chosen[chosen.len() - 1]));
        let k = choose|k: int| 0 <= k < functions.len() && functions[k] == f;
        assert forall|j: int| 0 <= j < k implies !called(f.symbol())(functions[j]) by {
            assert(functions[j].symbol() != functions[k].symbol());
        }
        lemma_first_index_is(functions, called(f.symbol()), k);
        assert(names.last() == f.symbol());
        assert(init.push(f) =~= chosen);
    }
}

/// The functions that an object of a unit holds are those of the unit that have
/// code.
pub proof fn lemma_emitted_have_code(functions: Seq<UnitFunction>, f: UnitFunction)
    ensures
        emitted(functions).contains(f) == (functions.contains(f) && f.size > 0),
{
    let kept = keep(functions, has_code());
    crate::sorting::lemma_stable_sort_contains(kept, f);
    lemma_keep_contains(functions, has_code(), f);
}

} // verus!
