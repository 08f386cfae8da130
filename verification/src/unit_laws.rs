//! What grouping by compilation units gives: every unit with code its file, and
//! every name of the grouping file its function.

use crate::bytes::wrap64;
use crate::seqs::{first, lemma_first_index, lemma_first_index_is, lemma_keep_contains};
use crate::text::{dec_text, pad_zeros};
use crate::text_map::{
    lemma_put_named_keeps_order, lemma_put_named_then_read, named_value, names_increase,
};
use crate::units::{
    all_missing, called, emitted, found, grouping_of, lemma_emitted_have_code, missing, regrouped,
    source_of, symbols_of, units_size, GroupBy, UnitFunction, UnitSource, UnitView,
};
use vstd::prelude::*;

verus! {

/// The output file of a unit: its number in four digits or more, and its stem.
pub open spec fn file_of(u: UnitView) -> Seq<char> {
    pad_zeros(dec_text(u.id as int), 4) + "_"@ + u.stem + ".o"@
}

/// Whether a unit has code.
pub open spec fn has_some_code(u: UnitView) -> bool {
    exists|i: int| 0 <= i < u.functions.len() && (#[trigger] u.functions[i]).size > 0
}

proof fn lemma_emitted_len(u: UnitView)
    ensures
        (emitted(u.functions).len() > 0) == has_some_code(u),
{
    let all = emitted(u.functions);
    if all.len() > 0 {
        lemma_emitted_have_code(u.functions, all[0]);
        assert(all.contains(all[0]));
        let i = choose|i: int| 0 <= i < u.functions.len() && u.functions[i] == all[0];
        assert(u.functions[i].size > 0);
    }
    if has_some_code(u) {
        let i = choose|i: int| 0 <= i < u.functions.len() && (#[trigger] u.functions[i]).size > 0;
        lemma_emitted_have_code(u.functions, u.functions[i]);
        assert(u.functions.contains(u.functions[i]));
        assert(all.contains(u.functions[i]));
    }
}

/// Every unit with code is in the grouping file under its output file, with the
/// symbols of its functions that have code; of two units with one file the later.
pub proof fn lemma_every_unit_is_listed(units: Seq<UnitView>, i: int)
    requires
        0 <= i < units.len(),
        has_some_code(units[i]),
        forall|j: int|
            i < j < units.len() && has_some_code(#[trigger] units[j]) ==> file_of(units[j])
                != file_of(units[i]),
    ensures
        names_increase(grouping_of(units)),
        named_value(grouping_of(units), file_of(units[i])) == Some(
            symbols_of(emitted(units[i].functions)),
        ),
    decreases units.len(),
{
    let init = units.drop_last();
    let last = units.last();
    let before = grouping_of(init);
    lemma_grouping_ordered(init);
    lemma_grouping_ordered(units);
    lemma_emitted_len(last);
    let value = symbols_of(emitted(last.functions));
    if i < init.len() {
        assert(init[i] == units[i]);
        assert forall|j: int| i < j < init.len() && has_some_code(
            #[trigger] init[j],
        ) implies file_of(init[j]) != file_of(init[i]) by {
            assert(init[j] == units[j]);
        }
        lemma_every_unit_is_listed(init, i);
        if has_some_code(last) {
            assert(has_some_code(units[units.len() - 1]));
            lemma_put_named_then_read(before, file_of(last), value, file_of(units[i]));
        }
    } else {
        lemma_put_named_then_read(before, file_of(last), value, file_of(last));
    }
}

proof fn lemma_grouping_ordered(units: Seq<UnitView>)
    ensures
        names_increase(grouping_of(units)),
    decreases units.len(),
{
    if units.len() > 0 {
        lemma_grouping_ordered(units.drop_last());
        lemma_put_named_keeps_order(
            grouping_of(units.drop_last()),
            file_of(units.last()),
            symbols_of(emitted(units.last().functions)),
        );
    }
}

/// Whether the `k`th function is the first of a name.
pub open spec fn is_first_called(functions: Seq<UnitFunction>, name: Seq<char>, k: int) -> bool {
    &&& 0 <= k < functions.len()
    &&& functions[k].symbol() == name
    &&& forall|j: int| 0 <= j < k ==> (#[trigger] functions[j]).symbol() != name
}

proof fn lemma_found(functions: Seq<UnitFunction>, names: Seq<Seq<char>>, i: int, k: int)
    requires
        0 <= i < names.len(),
        is_first_called(functions, names[i], k),
    ensures
        found(functions, names).contains(functions[k]),
    decreases names.len(),
{
    let init = names.drop_last();
    let before = found(functions, init);
    let all = found(functions, names);
    if i < init.len() {
        assert(init[i] == names[i]);
        lemma_found(functions, init, i, k);
        let m = choose|m: int| 0 <= m < before.len() && before[m] == functions[k];
        assert(all[m] == functions[k]);
    } else {
        lemma_first_index_is(functions, called(names[i]), k);
        assert(all[before.len() as int] == functions[k]);
    }
}

/// A file of the grouping file with a name that stands for a function becomes a unit
/// with that function, under the file's own name.
pub proof fn lemma_every_named_function_is_regrouped(
    functions: Seq<UnitFunction>,
    objects: Seq<(Seq<char>, Seq<Seq<char>>)>,
    o: int,
    i: int,
    k: int,
)
    requires
        0 <= o < objects.len(),
        0 <= i < objects[o].1.len(),
        is_first_called(functions, objects[o].1[i], k),
        objects.len() <= usize::MAX,
    ensures
        exists|n: int|
            0 <= n < regrouped(functions, objects).len() && (#[trigger] regrouped(
                functions,
                objects,
            )[n]).id == o && regrouped(functions, objects)[n].functions.contains(functions[k])
                && regrouped(functions, objects)[n].file_name == Some(object_file(objects[o].0)),
    decreases objects.len(),
{
    let init = objects.drop_last();
    let before = regrouped(functions, init);
    let all = regrouped(functions, objects);
    if o < init.len() {
        assert(init[o] == objects[o]);
        lemma_every_named_function_is_regrouped(functions, init, o, i, k);
        let n = choose|n: int|
            0 <= n < before.len() && (#[trigger] before[n]).id == o
                && before[n].functions.contains(functions[k]) && before[n].file_name == Some(
                object_file(objects[o].0),
            );
        assert(all[n] == before[n]);
    } else {
        lemma_found(functions, objects[o].1, i, k);
        lemma_object_file(objects[o].0);
        assert(all[before.len() as int].id == o);
    }
}

/// The output file of a file of the grouping file: itself, with `.o` behind it where
/// it does not end so.
pub open spec fn object_file(file: Seq<char>) -> Seq<char> {
    if file.len() >= 2 && file.skip(file.len() - 2) == ".o"@ {
        file
    } else {
        file + ".o"@
    }
}

proof fn lemma_object_file(file: Seq<char>)
    ensures
        (file.len() >= 2 && file.skip(file.len() - 2) == ".o"@) == crate::units::is_object_file(
            file,
        ),
{
    reveal_strlit(".o");
    if crate::units::is_object_file(file) {
        assert(file.skip(file.len() - 2) =~= ".o"@);
    }
    if file.len() >= 2 && file.skip(file.len() - 2) == ".o"@ {
        assert(file.skip(file.len() - 2)[0] == '.');
        assert(file.skip(file.len() - 2)[1] == 'o');
    }
}

/// A name of the grouping file is reported as missing, with its file, if and only if
/// no function has it.
pub proof fn lemma_missing_names_are_reported(
    functions: Seq<UnitFunction>,
    objects: Seq<(Seq<char>, Seq<Seq<char>>)>,
    name: Seq<char>,
    file: Seq<char>,
)
    ensures
        all_missing(functions, objects).contains((name, file)) <==> (exists|o: int|
            0 <= o < objects.len() && (#[trigger] objects[o]).0 == file && objects[o].1.contains(
                name,
            )) && forall|k: int|
            0 <= k < functions.len() ==> (#[trigger] functions[k]).symbol() != name,
    decreases objects.len(),
{
    if objects.len() > 0 {
        let init = objects.drop_last();
        let (last_file, names) = objects.last();
        let before = all_missing(functions, init);
        let gone = missing(functions, names);
        let part = gone.map_values(|n: Seq<char>| (n, last_file));
        let all = all_missing(functions, objects);
        lemma_missing_names_are_reported(functions, init, name, file);
        assert(objects[objects.len() - 1] == objects.last());
        let p = |n: Seq<char>| first(functions, called(n)) is None;
        lemma_keep_contains(names, p, name);
        lemma_first_index(functions, called(name));
        if before.contains((name, file)) {
            let m = choose|m: int| 0 <= m < before.len() && before[m] == (name, file);
            assert(all[m] == (name, file));
            let o = choose|o: int|
                0 <= o < init.len() && (#[trigger] init[o]).0 == file && init[o].1.contains(name);
            assert(objects[o] == init[o]);
        }
        if gone.contains(name) && last_file == file {
            let m = choose|m: int| 0 <= m < gone.len() && gone[m] == name;
            assert(part[m] == (name, file));
            assert(all[before.len() + m] == (name, file));
        }
        if all.contains((name, file)) && !before.contains((name, file)) {
            let m = choose|m: int| 0 <= m < all.len() && all[m] == (name, file);
            if m < before.len() {
                assert(before[m] == (name, file));
            } else {
                assert(part[m - before.len()] == (name, file));
                assert(gone[m - before.len()] == name);
            }
        }
        if exists|o: int|
            0 <= o < objects.len() && (#[trigger] objects[o]).0 == file && objects[o].1.contains(
                name,
            ) {
            let o = choose|o: int|
                0 <= o < objects.len() && (#[trigger] objects[o]).0 == file
                    && objects[o].1.contains(name);
            if o < init.len() {
                assert(init[o] == objects[o]);
            }
        }
    }
}

/// The units of DWARF are taken where they are asked for, and where the source is
/// left open and they have more code than `.symtab` covers; else those of `.symtab`
/// are, where there are any.
pub proof fn lemma_source_is_as_asked(
    group_by: GroupBy,
    units: Seq<UnitView>,
    symtab_has_groups: bool,
    symtab_coverage: u64,
)
    requires
        0 <= units_size(units) <= u64::MAX,
    ensures
        ({
            let source = source_of(group_by, Some(units), symtab_has_groups, symtab_coverage);
            let usable = symtab_has_groups || symtab_coverage > 0;
            let dwarf = Ok::<UnitSource, Seq<char>>(UnitSource::Dwarf);
            let symtab = Ok::<UnitSource, Seq<char>>(UnitSource::Symtab);
            &&& group_by == GroupBy::Dwarf ==> (source == dwarf) == (units.len() > 0)
            &&& group_by == GroupBy::Symtab ==> (source == symtab) == usable
            &&& group_by == GroupBy::Auto && units_size(units) > symtab_coverage ==> source
                == dwarf
            &&& group_by == GroupBy::Auto && units_size(units) <= symtab_coverage ==> (source
                == symtab) == usable
            &&& source == dwarf || source == symtab || source is Err
        }),
{
    assert(wrap64(units_size(units)) == units_size(units));
}

} // verus!
