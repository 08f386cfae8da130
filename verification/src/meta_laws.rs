//! What holds of split metadata: made-up names lead back to their addresses, the
//! note gives every address, and an address stands at the index that its symbol
//! has in the finished object.

use crate::addresses::lemma_digits_read_back;
use crate::bytes::{
    le32, le32_bytes, le64, lemma_le32_round_trip, lemma_le32_subrange, lemma_le64_round_trip,
};
use crate::coff::{
    aux_count, auxes_valid, at_index, grown_from, keeps_records, layout_of,
    lemma_with_symbol_keeps_records, no_records, size_at, with_symbol, FunctionSize, Grown, Layout,
};
use crate::function_code::case_label;
use crate::model::SegClass;
use crate::ownership::{anchor_text, class_field};
use crate::seqs::{first_index, lemma_first_index};
use crate::sorting::{
    in_key_order, lemma_place_before, lemma_place_before_monotone, place_before, HasKey,
};
use crate::split_meta::{
    address_bytes, address_width, addresses_bytes, anchor_address, behind_last_underscore,
    label_address, note_bytes, owner_bytes, records_before, spread, spread_addresses,
};
use crate::text::{digit_char, digits, hex_value, pad_zeros};
use vstd::prelude::*;

verus! {

// ---------------------------------------------------------------------------
// Names that lead back to addresses
// ---------------------------------------------------------------------------

/// The name of a case label leads back to the address that it was made for.
pub proof fn lemma_case_labels_lead_back(address: u64)
    ensures
        label_address(case_label(address)) == Some(address),
{
    let s = digits(address as nat, 16, true);
    let name = case_label(address);
    lemma_digits_read_back(address as nat, true);
    reveal_strlit("$L_");
    assert(name.take(3) =~= "$L_"@);
    assert(name.skip(3) =~= s);
}

/// The name of a discovered table leads back to the address that it was made for.
pub proof fn lemma_table_names_lead_back(address: u64)
    ensures
        label_address("jpt_"@ + digits(address as nat, 16, true)) == Some(address),
{
    let s = digits(address as nat, 16, true);
    let name = "jpt_"@ + s;
    lemma_digits_read_back(address as nat, true);
    reveal_strlit("$L_");
    reveal_strlit("jpt_");
    assert(name.take(4) =~= "jpt_"@);
    assert(name.skip(4) =~= s);
    assert(name.take(3)[0] != "$L_"@[0]);
}

proof fn lemma_zeros_then_digits(n: nat, zeros: nat)
    ensures
        hex_value(Seq::new(zeros, |i: int| '0') + digits(n, 16, false)) == Some(n as int),
    decreases digits(n, 16, false).len(),
{
    let z = Seq::new(zeros, |i: int| '0');
    let s = digits(n, 16, false);
    reveal_with_fuel(hex_value, 2);
    if n < 16 {
        lemma_zeros_are_zero(zeros);
        assert((z + s).drop_last() =~= z);
    } else {
        let high = digits(n / 16, 16, false);
        assert(s.drop_last() =~= high);
        lemma_zeros_then_digits(n / 16, zeros);
        assert((z + s).drop_last() =~= z + high);
    }
}

proof fn lemma_zeros_are_zero(zeros: nat)
    ensures
        hex_value(Seq::new(zeros, |i: int| '0')) == Some(0int),
    decreases zeros,
{
    let z = Seq::new(zeros, |i: int| '0');
    if zeros > 0 {
        lemma_zeros_are_zero((zeros - 1) as nat);
        assert(z.drop_last() =~= Seq::new((zeros - 1) as nat, |i: int| '0'));
    }
}

/// A numeral holds nothing but digits.
proof fn lemma_digits_are_plain(n: nat)
    ensures
        digits(n, 16, false).len() > 0,
        forall|i: int|
            0 <= i < digits(n, 16, false).len() ==> (#[trigger] digits(n, 16, false)[i]) != '_'
                && digits(n, 16, false)[i] != '+',
    decreases n,
{
    let s = digits(n, 16, false);
    if n >= 16 {
        let high = digits(n / 16, 16, false);
        lemma_digits_are_plain(n / 16);
        assert(s =~= high.push(digit_char((n % 16) as int, false)));
        assert forall|i: int| 0 <= i < s.len() implies (#[trigger] s[i]) != '_' && s[i] != '+' by {
            if i < high.len() {
                assert(s[i] == high[i]);
            }
        }
    }
}

proof fn lemma_last_underscore(s: Seq<char>, tail: Seq<char>)
    requires
        s.len() > 0,
        s.last() == '_',
        forall|i: int| 0 <= i < tail.len() ==> (#[trigger] tail[i]) != '_',
    ensures
        behind_last_underscore(s + tail) == Some(s.len() as int),
    decreases tail.len(),
{
    if tail.len() == 0 {
        assert(s + tail =~= s);
    } else {
        assert((s + tail).drop_last() =~= s + tail.drop_last());
        lemma_last_underscore(s, tail.drop_last());
        assert((s + tail).last() == tail[tail.len() - 1]);
    }
}

/// The anchor of a data range leads back to the start of the range.
pub proof fn lemma_anchors_lead_back(class: SegClass, start: u64)
    ensures
        anchor_address(anchor_text(class, start)) == Some(start),
{
    let s = digits(start as nat, 16, false);
    let tail = pad_zeros(s, 16);
    let head = class_field(class) + "_"@;
    let name = anchor_text(class, start);
    reveal_strlit("__delink_ida_");
    reveal_strlit("_");
    lemma_digits_are_plain(start as nat);
    let zeros = if s.len() < 16 {
        (16 - s.len()) as nat
    } else {
        0
    };
    assert(tail =~= Seq::new(zeros, |i: int| '0') + s);
    lemma_zeros_then_digits(start as nat, zeros);
    assert(name.take(13) =~= "__delink_ida_"@);
    assert(name.skip(13) =~= head + tail);
    lemma_last_underscore(head, tail);
    assert((head + tail).skip(head.len() as int) =~= tail);
    assert(tail[0] != '+');
}

// ---------------------------------------------------------------------------
// The note
// ---------------------------------------------------------------------------

proof fn lemma_addresses_bytes(addresses: Seq<u64>, wide: bool, i: int)
    ensures
        addresses_bytes(addresses, wide).len() == addresses.len() * address_width(wide),
        0 <= i < addresses.len() ==> addresses_bytes(addresses, wide).subrange(
            i * address_width(wide),
            i * address_width(wide) + address_width(wide),
        ) == address_bytes(addresses[i], wide),
    decreases addresses.len(),
{
    let w = address_width(wide);
    if addresses.len() > 0 {
        let init = addresses.drop_last();
        let all = addresses_bytes(addresses, wide);
        lemma_addresses_bytes(init, wide, i);
        let before = addresses_bytes(init, wide);
        let last = address_bytes(addresses.last(), wide);
        assert(last.len() == w);
        assert(all =~= before + last);
        assert((addresses.len() - 1) * w + w == addresses.len() * w) by (nonlinear_arith);
        if 0 <= i < init.len() {
            assert(i * w + w <= init.len() * w) by (nonlinear_arith)
                requires
                    0 <= i < init.len(),
                    w > 0,
            ;
            assert(0 <= i * w) by (nonlinear_arith)
                requires
                    0 <= i,
                    w > 0,
            ;
            assert(all.subrange(i * w, i * w + w) =~= before.subrange(i * w, i * w + w));
        } else if i == init.len() {
            assert(all.subrange(i * w, i * w + w) =~= last);
        }
    }
}

/// A note is as long as its lengths say, and gives every address: all of it in
/// a wide note, its low 32 bits in another.
pub proof fn lemma_note_gives_addresses(addresses: Seq<u64>, wide: bool, i: int)
    requires
        note_bytes(addresses, wide) is Ok,
        0 <= i < addresses.len(),
    ensures
        ({
            let note = note_bytes(addresses, wide)->Ok_0;
            &&& le32(note, 0) == 6
            &&& le32(note, 4) == addresses.len() * address_width(wide)
            &&& note.len() == 20 + addresses.len() * address_width(wide)
            &&& wide ==> le64(note, 20 + 8 * i) == addresses[i]
            &&& !wide ==> le32(note, 20 + 4 * i) == addresses[i] % 0x1_0000_0000
        }),
{
    let w = address_width(wide);
    let size = addresses.len() * w;
    let body = addresses_bytes(addresses, wide);
    let head = le32_bytes(6) + le32_bytes(size) + le32_bytes(0x56495254) + owner_bytes();
    let note = note_bytes(addresses, wide)->Ok_0;
    assert(note =~= head + body);
    lemma_addresses_bytes(addresses, wide, i);
    assert(size >= 0) by (nonlinear_arith)
        requires
            w > 0,
            size == addresses.len() * w,
    ;
    assert(i * w + w <= addresses.len() * w) by (nonlinear_arith)
        requires
            0 <= i < addresses.len(),
            w > 0,
    ;
    lemma_le32_round_trip(6);
    lemma_le32_round_trip(size);
    assert(note.subrange(0, 4) =~= le32_bytes(6));
    assert(note.subrange(4, 8) =~= le32_bytes(size));
    lemma_le32_subrange(note, 0);
    lemma_le32_subrange(note, 4);
    let at = 20 + i * w;
    assert(note.subrange(at, at + w) =~= body.subrange(i * w, i * w + w));
    if wide {
        let field = note.subrange(at, at + 8);
        lemma_le64_round_trip(addresses[i] as int);
        assert(field.subrange(0, 4) =~= note.subrange(at, at + 4));
        assert(field.subrange(4, 8) =~= note.subrange(at + 4, at + 8));
        lemma_le32_subrange(note, at);
        lemma_le32_subrange(note, at + 4);
        lemma_le32_subrange(field, 0);
        lemma_le32_subrange(field, 4);
    } else {
        lemma_le32_round_trip((addresses[i] % 0x1_0000_0000) as int);
        lemma_le32_subrange(note, at);
    }
}

// ---------------------------------------------------------------------------
// Indices
// ---------------------------------------------------------------------------

/// Whether reading the symbols from record `i` on comes upon a symbol at record
/// `k`, and not upon an auxiliary record.
pub open spec fn is_symbol(d: Seq<u8>, layout: Layout, i: int, k: int) -> bool
    decreases k - i,
{
    let next = i + 1 + aux_count(d, layout, i);
    if i >= k {
        i == k
    } else if next > k {
        false
    } else {
        is_symbol(d, layout, next, k)
    }
}

proof fn lemma_none_between(auxes: Seq<FunctionSize>, lo: int, hi: int)
    requires
        in_key_order(auxes),
        lo <= hi,
        forall|j: int| 0 <= j < auxes.len() ==> !(lo <= (#[trigger] auxes[j]).index < hi),
    ensures
        place_before(auxes, lo) == place_before(auxes, hi),
{
    lemma_place_before(auxes, lo);
    lemma_place_before(auxes, hi);
    lemma_place_before_monotone(auxes, lo, hi);
    let p = place_before(auxes, lo);
    if p < place_before(auxes, hi) {
        assert(auxes[p].spec_key() < hi);
        assert(auxes[p].spec_key() >= lo);
    }
}

proof fn lemma_one_at(auxes: Seq<FunctionSize>, i: int, j: int)
    requires
        in_key_order(auxes),
        0 <= j < auxes.len(),
        auxes[j].index == i,
        forall|a: int, b: int|
            0 <= a < b < auxes.len() ==> (#[trigger] auxes[a]).index != (#[trigger] auxes[b]).index,
    ensures
        place_before(auxes, i + 1) == place_before(auxes, i) + 1,
{
    lemma_place_before(auxes, i);
    lemma_place_before(auxes, i + 1);
    let p = place_before(auxes, i);
    let q = place_before(auxes, i + 1);
    assert(auxes[j].spec_key() == i);
    if p + 1 < q {
        assert(auxes[p].spec_key() == i) by {
            assert(auxes[p].spec_key() >= i && auxes[p].spec_key() < i + 1);
        }
        assert(auxes[p + 1].spec_key() == i) by {
            assert(auxes[p + 1].spec_key() >= i && auxes[p + 1].spec_key() < i + 1);
        }
        assert(auxes[p].index != auxes[p + 1].index);
    }
}

/// Whether the first `i` records were moved behind as many more as there are
/// functions before them.
pub open spec fn moved(auxes: Seq<FunctionSize>, g: Grown, i: int) -> bool {
    &&& g.map.len() == i
    &&& g.records.len() == 18 * (i + place_before(auxes, i))
    &&& forall|k: int| 0 <= k < i ==> #[trigger] g.map[k] == k + place_before(auxes, k)
}

proof fn lemma_with_symbol_moves(
    d: Seq<u8>,
    layout: Layout,
    auxes: Seq<FunctionSize>,
    g: Grown,
    i: int,
)
    requires
        layout.fits(d.len()),
        in_key_order(auxes),
        auxes_valid(auxes, layout.symbol_count as int),
        0 <= i < layout.symbol_count,
        keeps_records(d, layout, g, i),
        moved(auxes, g, i),
        forall|j: int|
            0 <= j < auxes.len() && (#[trigger] auxes[j]).index >= i ==> is_symbol(
                d,
                layout,
                i,
                auxes[j].index as int,
            ),
    ensures
        with_symbol(d, layout, auxes, g, i) matches Ok(next) ==> moved(
            auxes,
            next,
            i + 1 + aux_count(d, layout, i),
        ),
{
    let aux = aux_count(d, layout, i);
    let new = g.records.len() as int / 18;
    if let Ok(next) = with_symbol(d, layout, auxes, g, i) {
        lemma_first_index(auxes, at_index(i));
        lemma_place_before(auxes, i);
        let after = i + 1 + aux;
        if let Some(j) = first_index(auxes, at_index(i)) {
            lemma_one_at(auxes, i, j);
            assert(crate::coff::records_of(d, layout, i, i + 1).len() == 18);
            assert(crate::coff::aux_record(size_at(auxes, i)->0).len() == 18);
            assert forall|k: int| 0 <= k < i + 1 implies #[trigger] next.map[k] == k + place_before(
                auxes,
                k,
            ) by {
                if k < i {
                    assert(next.map[k] == g.map[k]);
                }
            }
        } else {
            assert forall|j: int| 0 <= j < auxes.len() implies !(i <= (#[trigger] auxes[j]).index
                < after) by {
                if i <= auxes[j].index < after {
                    assert(is_symbol(d, layout, i, auxes[j].index as int));
                    assert(auxes[j].index != i);
                }
            }
            lemma_none_between(auxes, i, after);
            assert forall|k: int| 0 <= k < after implies #[trigger] next.map[k] == k + place_before(
                auxes,
                k,
            ) by {
                if k < i {
                    assert(next.map[k] == g.map[k]);
                } else {
                    assert(next.map[k] == (new + (k - i)) as u64);
                    assert forall|j: int| 0 <= j < auxes.len() implies !(i <= (
                    #[trigger] auxes[j]).index < k) by {
                        assert(!(i <= auxes[j].index < after));
                    }
                    lemma_none_between(auxes, i, k);
                }
            }
            assert(crate::coff::records_of(d, layout, i, after).len() == 18 * (1 + aux)) by (
                nonlinear_arith)
                requires
                    layout.fits(d.len()),
                    0 <= i,
                    after == i + 1 + aux,
                    after <= layout.symbol_count,
                    aux >= 0,
            ;
        }
    }
}

proof fn lemma_grown_moves(
    d: Seq<u8>,
    layout: Layout,
    auxes: Seq<FunctionSize>,
    g: Grown,
    i: int,
)
    requires
        layout.fits(d.len()),
        in_key_order(auxes),
        auxes_valid(auxes, layout.symbol_count as int),
        0 <= i <= layout.symbol_count,
        keeps_records(d, layout, g, i),
        moved(auxes, g, i),
        forall|j: int|
            0 <= j < auxes.len() && (#[trigger] auxes[j]).index >= i ==> is_symbol(
                d,
                layout,
                i,
                auxes[j].index as int,
            ),
    ensures
        grown_from(d, layout, auxes, g, i) matches Ok(all) ==> moved(
            auxes,
            all,
            layout.symbol_count as int,
        ),
    decreases layout.symbol_count - i,
{
    if i < layout.symbol_count {
        let after = i + 1 + aux_count(d, layout, i);
        lemma_with_symbol_moves(d, layout, auxes, g, i);
        lemma_with_symbol_keeps_records(d, layout, auxes, g, i);
        if let Ok(next) = with_symbol(d, layout, auxes, g, i) {
            assert forall|j: int|
                0 <= j < auxes.len() && (#[trigger] auxes[j]).index >= after implies is_symbol(
                d,
                layout,
                after,
                auxes[j].index as int,
            ) by {
                assert(is_symbol(d, layout, i, auxes[j].index as int));
            }
            lemma_grown_moves(d, layout, auxes, next, after);
        }
    }
}

proof fn lemma_spread_at(
    auxes: Seq<FunctionSize>,
    addresses: Seq<u64>,
    out: Seq<u64>,
    k: int,
)
    requires
        in_key_order(auxes),
        out.len() >= addresses.len() + auxes.len(),
    ensures
        spread(auxes, addresses, out).len() == out.len(),
        0 <= k < addresses.len() ==> spread(auxes, addresses, out)[k + records_before(auxes, k)]
            == addresses[k],
    decreases addresses.len(),
{
    if addresses.len() > 0 {
        let i = addresses.len() - 1;
        lemma_spread_at(auxes, addresses.drop_last(), out, k);
        lemma_place_before(auxes, i);
        if 0 <= k < i {
            lemma_place_before_monotone(auxes, k, i);
        }
    }
}

/// The address of a symbol stands at the index that the symbol has once
/// functions have auxiliary records.
pub proof fn lemma_addresses_follow_symbols(
    d: Seq<u8>,
    layout: Layout,
    auxes: Seq<FunctionSize>,
    addresses: Seq<u64>,
    k: int,
)
    requires
        layout_of(d) == Ok::<Layout, Seq<char>>(layout),
        in_key_order(auxes),
        auxes_valid(auxes, layout.symbol_count as int),
        forall|j: int|
            0 <= j < auxes.len() ==> is_symbol(d, layout, 0, (#[trigger] auxes[j]).index as int),
        addresses.len() == layout.symbol_count,
        0 <= k < layout.symbol_count,
    ensures
        grown_from(d, layout, auxes, no_records(), 0) matches Ok(g) ==> spread_addresses(
            auxes,
            addresses,
        )[g.map[k] as int] == addresses[k],
{
    lemma_place_before(auxes, 0);
    let p = place_before(auxes, 0);
    assert(p == 0) by {
        if p > 0 {
            assert(auxes[0].spec_key() < 0);
        }
    }
    lemma_grown_moves(d, layout, auxes, no_records(), 0);
    lemma_spread_at(
        auxes,
        addresses,
        Seq::new((addresses.len() + auxes.len()) as nat, |i: int| 0u64),
        k,
    );
}

} // verus!
