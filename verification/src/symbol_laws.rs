//! What addresses the metadata gives: the original address of every symbol that the
//! model knows, at the symbol's index.

use crate::coff::{called, ParsedView};
use crate::export::{data_fault, data_names};
use crate::model::{holds, IdaModel, Name, Section};
use crate::seqs::{first, lemma_first_index_is, lemma_first_index_none, views};
use crate::split_meta::{addresses_of, reads, symbol_address, table_called};
use vstd::prelude::*;

verus! {

/// Whether no function has a name.
pub open spec fn no_function_called(model: IdaModel, name: Seq<char>) -> bool {
    forall|j: int|
        0 <= j < model.functions@.len() ==> (#[trigger] model.functions@[j]).name@ != name
}

/// Whether no exported name is a name.
pub open spec fn no_name_called(model: IdaModel, name: Seq<char>) -> bool {
    forall|j: int| 0 <= j < model.names@.len() ==> (#[trigger] model.names@[j]).name@ != name
}

/// The symbol of a function has the function's address; of several functions of one
/// name the first counts.
pub proof fn lemma_function_symbols_have_their_address(model: IdaModel, i: int)
    requires
        0 <= i < model.functions@.len(),
        forall|j: int|
            0 <= j < i ==> (#[trigger] model.functions@[j]).name@ != model.functions@[i].name@,
    ensures
        symbol_address(model, model.functions@[i].name@) == Some(model.functions@[i].start),
{
    lemma_first_index_is(model.functions@, called(model.functions@[i].name@), i);
}

/// The symbol of an exported name has the name's address, where it is that of no
/// function; of several that read the same the first counts.
pub proof fn lemma_name_symbols_have_their_address(model: IdaModel, i: int)
    requires
        0 <= i < model.names@.len(),
        no_function_called(model, model.names@[i].name@),
        forall|j: int| 0 <= j < i ==> (#[trigger] model.names@[j]).name@ != model.names@[i].name@,
    ensures
        symbol_address(model, model.names@[i].name@) == Some(model.names@[i].addr),
{
    lemma_first_index_none(model.functions@, called(model.names@[i].name@));
    lemma_first_index_is(model.names@, reads(model.names@[i].name@), i);
}

/// The symbol of an exported table has the table's address, where it is that of no
/// function and no exported name.
pub proof fn lemma_table_symbols_have_their_address(model: IdaModel, i: int)
    requires
        0 <= i < model.jump_tables@.len(),
        no_function_called(model, model.jump_tables@[i].name@),
        no_name_called(model, model.jump_tables@[i].name@),
        forall|j: int|
            0 <= j < i ==> (#[trigger] model.jump_tables@[j]).name@
                != model.jump_tables@[i].name@,
    ensures
        symbol_address(model, model.jump_tables@[i].name@) == Some(model.jump_tables@[i].start),
{
    let name = model.jump_tables@[i].name@;
    let tables = views(model.jump_tables@);
    lemma_first_index_none(model.functions@, called(name));
    lemma_first_index_none(model.names@, reads(name));
    assert forall|j: int| 0 <= j < i implies !table_called(name)(#[trigger] tables[j]) by {
        assert(model.jump_tables@[j].name@ != name);
    }
    lemma_first_index_is(tables, table_called(name), i);
}

/// Whether a symbol has an original address: it is defined, and the model knows its
/// name.
pub open spec fn has_address(model: IdaModel, s: ParsedView, a: u64) -> bool {
    !s.is_undefined && (s.name matches Some(name) && symbol_address(model, name) == Some(a))
}

/// Every symbol with an original address has it at its index; of several with one
/// index the last. An index without such a symbol has zero.
pub proof fn lemma_addresses_stand_at_their_index(
    model: IdaModel,
    symbols: Seq<ParsedView>,
    count: nat,
    k: int,
)
    requires
        0 <= k < count,
    ensures
        addresses_of(model, symbols, count).len() == count,
        forall|i: int, a: u64|
            0 <= i < symbols.len() && (#[trigger] symbols[i]).index == k && #[trigger] has_address(
                model,
                symbols[i],
                a,
            ) && (forall|j: int|
                i < j < symbols.len() ==> (#[trigger] symbols[j]).index != k) ==> addresses_of(
                model,
                symbols,
                count,
            )[k] == a,
        (forall|i: int| 0 <= i < symbols.len() ==> (#[trigger] symbols[i]).index != k)
            ==> addresses_of(model, symbols, count)[k] == 0,
    decreases symbols.len(),
{
    if symbols.len() > 0 {
        let init = symbols.drop_last();
        let n = init.len() as int;
        lemma_addresses_stand_at_their_index(model, init, count, k);
        let all = addresses_of(model, symbols, count);
        let before = addresses_of(model, init, count);
        assert(symbols[n] == symbols.last());
        assert(symbols.last().index != k ==> all[k] == before[k]);
        assert forall|i: int, a: u64|
            0 <= i < symbols.len() && (#[trigger] symbols[i]).index == k && #[trigger] has_address(
                model,
                symbols[i],
                a,
            ) && (forall|j: int|
                i < j < symbols.len() ==> (#[trigger] symbols[j]).index != k) implies all[k]
            == a by {
            if i < n {
                assert(symbols[n].index != k);
                assert(init[i] == symbols[i]);
                assert(has_address(model, init[i], a));
                assert forall|j: int| i < j < init.len() implies (#[trigger] init[j]).index
                    != k by {
                    assert(symbols[j].index != k);
                }
            }
        }
        if forall|i: int| 0 <= i < symbols.len() ==> (#[trigger] symbols[i]).index != k {
            assert(symbols[n].index != k);
            assert forall|i: int| 0 <= i < init.len() implies (#[trigger] init[i]).index != k by {
                assert(symbols[i].index != k);
            }
        }
    }
}

/// Whether a variable ends in its section and before the next one begins.
pub open spec fn variable_fits(sections: Seq<Section>, data: Seq<Name>, i: int) -> bool {
    let end = data[i].addr + data[i].size;
    &&& end <= u64::MAX
    &&& first(sections, holds(data[i].addr)) matches Some(s) ==> end <= s.end
    &&& i + 1 < data.len() ==> end <= data[i + 1].addr
}

/// An export is not refused for its variables where each ends in its section and,
/// in address order, before the next one begins.
pub proof fn lemma_sound_variables_are_accepted(sections: Seq<Section>, names: Seq<Name>, from: int)
    requires
        0 <= from,
        forall|i: int|
            from <= i < data_names(sections, names).len() ==> #[trigger] variable_fits(
                sections,
                data_names(sections, names),
                i,
            ),
    ensures
        data_fault(sections, data_names(sections, names), from) is None,
    decreases data_names(sections, names).len() - from,
{
    let data = data_names(sections, names);
    if from < data.len() {
        assert(variable_fits(sections, data, from));
        lemma_sound_variables_are_accepted(sections, names, from + 1);
    }
}

} // verus!
