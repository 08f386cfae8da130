//! What a decoded export holds: every record of the export, as it was written.

use crate::addresses::lemma_digits_read_back;
use crate::export::{
    decoded, function_of, functions_of, name_of, names_of, sections_of, size_of, RawFunction,
    RawModel, RawName, SizeValue,
};
use crate::model::{Function, Name, Section};
use crate::sorting::{lemma_stable_sort_contains, lemma_stable_sort_orders};
use crate::text::digits;
use vstd::prelude::*;

verus! {

/// A size is the number that is given, or the number that a hexadecimal text
/// writes.
pub proof fn lemma_sizes_read_back(value: SizeValue, n: u64)
    requires
        match value {
            SizeValue::Unsigned(v) => v == n,
            SizeValue::Text(text) => text@ == "0x"@ + digits(n as nat, 16, true) || text@ == "0x"@
                + digits(n as nat, 16, false),
            _ => false,
        },
    ensures
        size_of(value) == Ok::<u64, Seq<char>>(n),
{
    reveal_strlit("0x");
    if let SizeValue::Text(text) = value {
        let upper = text@ == "0x"@ + digits(n as nat, 16, true);
        let s = digits(n as nat, 16, upper);
        assert(text@ == "0x"@ + s);
        assert(text@.take(2) =~= "0x"@);
        assert(text@.skip(2) =~= s);
        lemma_digits_read_back(n as nat, upper);
    }
}

/// Where an exported function ends, if it gives its end or its size, and not both.
pub open spec fn end_of(raw: RawFunction) -> Option<int> {
    match (raw.size, raw.end) {
        (None, Some(end)) => Some(end as int),
        (Some(size), None) => match size_of(size) {
            Ok(n) => Some(raw.start + n),
            Err(_) => None,
        },
        _ => None,
    }
}

/// Whether an exported function has an end behind its start in the address space.
pub open spec fn is_sound_function(raw: RawFunction) -> bool {
    end_of(raw) matches Some(end) && raw.start < end <= u64::MAX
}

/// Whether a function is that of a record.
pub open spec fn is_function_of(f: Function, raw: RawFunction) -> bool {
    &&& f.start == raw.start
    &&& end_of(raw) == Some(f.end as int)
    &&& f.name == raw.name
    &&& f.thunk == raw.thunk
    &&& f.lib == raw.lib
    &&& f.is_static == raw.is_static
    &&& f.public == raw.public
}

proof fn lemma_functions(raw: Seq<RawFunction>)
    ensures
        functions_of(raw) is Ok <==> forall|i: int|
            0 <= i < raw.len() ==> is_sound_function(#[trigger] raw[i]),
        functions_of(raw) matches Ok(fs) ==> fs.len() == raw.len() && forall|i: int|
            0 <= i < raw.len() ==> is_function_of(#[trigger] fs[i], raw[i]),
    decreases raw.len(),
{
    if raw.len() > 0 {
        let init = raw.drop_last();
        let last = raw.last();
        lemma_functions(init);
        assert(raw[raw.len() - 1] == last);
        assert(is_sound_function(last) == (function_of(last) is Ok));
        assert forall|i: int| 0 <= i < init.len() implies #[trigger] raw[i] == init[i] by {}
        if functions_of(init) is Ok && is_sound_function(last) {
            assert forall|i: int| 0 <= i < raw.len() implies is_sound_function(
                #[trigger] raw[i],
            ) by {
                if i < init.len() {
                    assert(is_sound_function(init[i]));
                }
            }
        }
        if forall|i: int| 0 <= i < raw.len() ==> is_sound_function(#[trigger] raw[i]) {
            assert(is_sound_function(raw[raw.len() - 1]));
            assert forall|i: int| 0 <= i < init.len() implies is_sound_function(
                #[trigger] init[i],
            ) by {
                assert(is_sound_function(raw[i]));
            }
        }
        if let Ok(fs) = functions_of(raw) {
            let before = functions_of(init)->Ok_0;
            assert forall|i: int| 0 <= i < raw.len() implies is_function_of(
                #[trigger] fs[i],
                raw[i],
            ) by {
                if i < init.len() {
                    assert(fs[i] == before[i]);
                    assert(is_function_of(before[i], init[i]));
                }
            }
        }
    }
}

/// Whether a name is that of a record: without a size it has none.
pub open spec fn is_name_of(n: Name, raw: RawName) -> bool {
    &&& n.addr == raw.addr
    &&& n.name == raw.name
    &&& n.public == raw.public
    &&& n.weak == raw.weak
    &&& n.is_func == raw.is_func
    &&& match raw.size {
        Some(size) => size_of(size) == Ok::<u64, Seq<char>>(n.size),
        None => n.size == 0,
    }
}

proof fn lemma_names(sections: Seq<Section>, raw: Seq<RawName>)
    ensures
        names_of(sections, raw) matches Ok(names) ==> names.len() == raw.len() && forall|i: int|
            0 <= i < raw.len() ==> is_name_of(#[trigger] names[i], raw[i]),
    decreases raw.len(),
{
    if raw.len() > 0 {
        let init = raw.drop_last();
        lemma_names(sections, init);
        if let Ok(names) = names_of(sections, raw) {
            let before = names_of(sections, init)->Ok_0;
            assert(name_of(sections, raw.last()) is Ok);
            assert forall|i: int| 0 <= i < raw.len() implies is_name_of(
                #[trigger] names[i],
                raw[i],
            ) by {
                if i < init.len() {
                    assert(names[i] == before[i]);
                    assert(is_name_of(before[i], init[i]));
                }
            }
        }
    }
}

/// A decoded export has a function for every record, and no other: as many as the
/// export, each with the start, the end and the marks of its record.
pub proof fn lemma_every_function_is_decoded(raw: RawModel, i: int)
    requires
        0 <= i < raw.functions@.len(),
    ensures
        decoded(raw) matches Ok((functions, _)) ==> {
            &&& functions.len() == raw.functions@.len()
            &&& exists|k: int|
                0 <= k < functions.len() && is_function_of(
                    #[trigger] functions[k],
                    raw.functions@[i],
                )
        },
{
    lemma_functions(raw.functions@);
    if let Ok((functions, _)) = decoded(raw) {
        let unsorted = functions_of(raw.functions@)->Ok_0;
        lemma_stable_sort_orders(unsorted);
        assert(is_function_of(unsorted[i], raw.functions@[i]));
        assert(unsorted.contains(unsorted[i]));
        lemma_stable_sort_contains(unsorted, unsorted[i]);
        let k = choose|k: int| 0 <= k < functions.len() && functions[k] == unsorted[i];
        assert(is_function_of(functions[k], raw.functions@[i]));
    }
}

/// Every function of a decoded export is that of a record.
pub proof fn lemma_decoded_functions_are_exported(raw: RawModel, k: int)
    ensures
        decoded(raw) matches Ok((functions, _)) ==> 0 <= k < functions.len() ==> exists|i: int|
            0 <= i < raw.functions@.len() && is_function_of(
                functions[k],
                #[trigger] raw.functions@[i],
            ),
{
    lemma_functions(raw.functions@);
    if let Ok((functions, _)) = decoded(raw) {
        if 0 <= k < functions.len() {
            let unsorted = functions_of(raw.functions@)->Ok_0;
            assert(functions.contains(functions[k]));
            lemma_stable_sort_contains(unsorted, functions[k]);
            let i = choose|i: int| 0 <= i < unsorted.len() && unsorted[i] == functions[k];
            assert(is_function_of(unsorted[i], raw.functions@[i]));
        }
    }
}

/// A decoded export has the names of the records, in their order.
pub proof fn lemma_every_name_is_decoded(raw: RawModel, i: int)
    requires
        0 <= i < raw.names@.len(),
    ensures
        decoded(raw) matches Ok((_, names)) ==> names.len() == raw.names@.len() && is_name_of(
            names[i],
            raw.names@[i],
        ),
{
    lemma_names(sections_of(raw.segments@), raw.names@);
    if let Ok((_, names)) = decoded(raw) {
        assert(is_name_of(names[i], raw.names@[i]));
    }
}

/// An export is refused where a function of it is not sound.
pub proof fn lemma_unsound_functions_are_refused(raw: RawModel, i: int)
    requires
        0 <= i < raw.functions@.len(),
        !is_sound_function(raw.functions@[i]),
    ensures
        decoded(raw) is Err,
{
    lemma_functions(raw.functions@);
}

/// An export without names is decoded where all of its functions are sound.
pub proof fn lemma_sound_functions_are_decoded(raw: RawModel)
    requires
        raw.names@.len() == 0,
        forall|i: int|
            0 <= i < raw.functions@.len() ==> is_sound_function(#[trigger] raw.functions@[i]),
    ensures
        decoded(raw) is Ok,
{
    lemma_functions(raw.functions@);
}

} // verus!
