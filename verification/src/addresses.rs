//! Addresses as a grouping file writes them.

use crate::export::SizeValue;
use crate::groups::{DataRange, GroupView, ObjectGroup};
use crate::seqs::views;
use crate::text::{
    after_prefix, begins_with, chars_of, digit_char, digit_of, digits, hex_digit, hex_upper_string,
    hex_upper_text, hex_value, parse_hex, parse_hex_chars, Error,
};
use vstd::prelude::*;

verus! {

/// What is wrong with the first digits of a number, read from the left: a
/// character that is no digit, or a value that 64 bits do not hold.
pub open spec fn digits_fault(s: Seq<char>) -> Option<Seq<char>>
    decreases s.len(),
{
    if s.len() == 0 {
        None
    } else {
        match digits_fault(s.drop_last()) {
            Some(e) => Some(e),
            None => if hex_digit(s.last()) is None {
                Some("invalid digit found in string"@)
            } else if hex_value(s)->0 > u64::MAX {
                Some("number too large to fit in target type"@)
            } else {
                None
            },
        }
    }
}

/// What is wrong with a hexadecimal number, where `parse_hex` gives none.
pub open spec fn hex_fault(s: Seq<char>) -> Seq<char> {
    let number = if s.len() > 0 && s[0] == '+' {
        s.skip(1)
    } else {
        s
    };
    if s.len() == 0 {
        "cannot parse integer from empty string"@
    } else {
        match digits_fault(number) {
            Some(e) => e,
            None => "invalid digit found in string"@,
        }
    }
}

/// The address that a value stands for.
pub open spec fn address_of(value: SizeValue) -> Result<u64, Seq<char>> {
    match value {
        SizeValue::Text(text) => address_in(text@),
        SizeValue::Unsigned(v) => Ok(v),
        SizeValue::OtherNumber => Err("address must be nonnegative"@),
        SizeValue::Other => Err("address must be hexadecimal or an integer"@),
    }
}

/// The address that a text writes.
pub open spec fn address_in(text: Seq<char>) -> Result<u64, Seq<char>> {
    let digits = match after_prefix(text, "0x"@) {
        Some(rest) => Some(rest),
        None => after_prefix(text, "0X"@),
    };
    match digits {
        None => Err("address must be hexadecimal"@),
        Some(rest) => match parse_hex(rest) {
            Some(v) => Ok(v),
            None => Err(hex_fault(rest)),
        },
    }
}

proof fn lemma_digits_fault_stays(s: Seq<char>, n: int)
    requires
        0 <= n <= s.len(),
        digits_fault(s.take(n)) is Some,
    ensures
        digits_fault(s) == digits_fault(s.take(n)),
    decreases s.len(),
{
    if n < s.len() {
        assert(s.drop_last().take(n) =~= s.take(n));
        lemma_digits_fault_stays(s.drop_last(), n);
    } else {
        assert(s.take(n) =~= s);
    }
}

fn explain_hex(chars: &[char], from: usize) -> (r: Error)
    requires
        from <= chars@.len(),
    ensures
        r@ == hex_fault(chars@.skip(from as int)),
{
    let ghost s = chars@.skip(from as int);
    if from == chars.len() {
        return Error::new("cannot parse integer from empty string");
    }
    let start: usize = if chars[from] == '+' {
        from + 1
    } else {
        from
    };
    let ghost t = chars@.skip(start as int);
    proof {
        if start > from {
            assert(s.skip(1) =~= t);
        }
    }
    let mut value: u64 = 0;
    let mut i: usize = start;
    assert(t.take(0) =~= Seq::<char>::empty());
    while i < chars.len()
        invariant
            from < chars@.len(),
            from <= start <= i <= chars@.len(),
            s == chars@.skip(from as int),
            t == chars@.skip(start as int),
            t == if s.len() > 0 && s[0] == '+' {
                s.skip(1)
            } else {
                s
            },
            digits_fault(t.take(i - start)) is None,
            hex_value(t.take(i - start)) == Some(value as int),
        decreases chars@.len() - i,
    {
        proof {
            assert(t.take(i - start + 1).drop_last() =~= t.take(i - start));
            if digits_fault(t.take(i - start + 1)) is Some {
                lemma_digits_fault_stays(t, i - start + 1);
            }
        }
        let d: u64 = match digit_of(chars[i]) {
            Some(d) => d,
            None => {
                return Error::new("invalid digit found in string");
            },
        };
        if value > 0x0fff_ffff_ffff_ffff {
            return Error::new("number too large to fit in target type");
        }
        value = 16 * value + d;
        i += 1;
    }
    assert(t.take(t.len() as int) =~= t);
    Error::new("invalid digit found in string")
}

/// The address that a value stands for: a hexadecimal string or an integer.
pub fn parse_address(value: &SizeValue) -> (r: Result<u64, Error>)
    ensures
        match r {
            Ok(v) => address_of(*value) == Ok::<u64, Seq<char>>(v),
            Err(e) => address_of(*value) == Err::<u64, Seq<char>>(e@),
        },
{
    match value {
        SizeValue::Text(text) => {
            let chars = chars_of(text.as_str());
            proof {
                reveal_strlit("0x");
                reveal_strlit("0X");
            }
            if begins_with(chars.as_slice(), "0x") || begins_with(chars.as_slice(), "0X") {
                match parse_hex_chars(chars.as_slice(), 2) {
                    Some(v) => Ok(v),
                    None => Err(explain_hex(chars.as_slice(), 2)),
                }
            } else {
                Err(Error::new("address must be hexadecimal"))
            }
        },
        SizeValue::Unsigned(v) => Ok(*v),
        SizeValue::OtherNumber => Err(Error::new("address must be nonnegative")),
        SizeValue::Other => Err(Error::new("address must be hexadecimal or an integer")),
    }
}

/// An address as a grouping file writes it.
pub fn address_string(address: u64) -> (r: String)
    ensures
        r@ == hex_upper_text(address as int),
{
    hex_upper_string(address)
}

/// The range that a list of addresses stands for.
pub open spec fn range_in(values: Seq<u64>) -> Result<(u64, u64), Seq<char>> {
    if values.len() == 2 {
        Ok((values[0], values[1]))
    } else {
        Err("address range must contain two values"@)
    }
}

/// The range that a list of addresses stands for.
pub fn parse_range(values: &Vec<u64>) -> (r: Result<DataRange, Error>)
    ensures
        match r {
            Ok(range) => range_in(values@) == Ok::<(u64, u64), Seq<char>>(
                (range.spec_start(), range.spec_end()),
            ),
            Err(e) => range_in(values@) == Err::<(u64, u64), Seq<char>>(e@),
        },
{
    if values.len() != 2 {
        return Err(Error::new("address range must contain two values"));
    }
    Ok(DataRange([values[0], values[1]]))
}

// ---------------------------------------------------------------------------
// Groups
// ---------------------------------------------------------------------------

/// The addresses that values stand for.
pub open spec fn addresses_in(values: Seq<SizeValue>) -> Result<Seq<u64>, Seq<char>>
    decreases values.len(),
{
    if values.len() == 0 {
        Ok(Seq::empty())
    } else {
        match addresses_in(values.drop_last()) {
            Err(e) => Err(e),
            Ok(before) => match address_of(values.last()) {
                Err(e) => Err(e),
                Ok(a) => Ok(before.push(a)),
            },
        }
    }
}

proof fn lemma_addresses_in_err(values: Seq<SizeValue>, n: int)
    requires
        0 <= n <= values.len(),
        addresses_in(values.take(n)) is Err,
    ensures
        addresses_in(values) == addresses_in(values.take(n)),
    decreases values.len(),
{
    if n < values.len() {
        assert(values.drop_last().take(n) =~= values.take(n));
        lemma_addresses_in_err(values.drop_last(), n);
    } else {
        assert(values.take(n) =~= values);
    }
}

/// The addresses that values stand for.
pub fn parse_addresses(values: &Vec<SizeValue>) -> (r: Result<Vec<u64>, Error>)
    ensures
        match r {
            Ok(out) => addresses_in(values@) == Ok::<Seq<u64>, Seq<char>>(out@),
            Err(e) => addresses_in(values@) == Err::<Seq<u64>, Seq<char>>(e@),
        },
{
    let ghost all = values@;
    let mut out: Vec<u64> = Vec::new();
    let mut i: usize = 0;
    assert(all.take(0) =~= Seq::<SizeValue>::empty());
    while i < values.len()
        invariant
            i <= all.len(),
            all == values@,
            addresses_in(all.take(i as int)) == Ok::<Seq<u64>, Seq<char>>(out@),
        decreases all.len() - i,
    {
        proof {
            assert(all.take(i + 1).drop_last() =~= all.take(i as int));
            if addresses_in(all.take(i + 1)) is Err {
                lemma_addresses_in_err(all, i + 1);
            }
        }
        match parse_address(&values[i]) {
            Ok(a) => {
                out.push(a);
            },
            Err(e) => {
                return Err(e);
            },
        }
        i += 1;
    }
    assert(all.take(all.len() as int) =~= all);
    Ok(out)
}

/// The bounds of ranges.
pub open spec fn bounds(ranges: Seq<DataRange>) -> Seq<(u64, u64)> {
    ranges.map_values(|r: DataRange| (r.spec_start(), r.spec_end()))
}

/// The bounds of the range that values stand for.
pub open spec fn bounds_in(values: Seq<SizeValue>) -> Result<(u64, u64), Seq<char>> {
    match addresses_in(values) {
        Err(e) => Err(e),
        Ok(addresses) => range_in(addresses),
    }
}

/// The bounds of the ranges that lists of values stand for.
pub open spec fn ranges_in(lists: Seq<Vec<SizeValue>>) -> Result<Seq<(u64, u64)>, Seq<char>>
    decreases lists.len(),
{
    if lists.len() == 0 {
        Ok(Seq::empty())
    } else {
        match ranges_in(lists.drop_last()) {
            Err(e) => Err(e),
            Ok(before) => match bounds_in(lists.last()@) {
                Err(e) => Err(e),
                Ok(b) => Ok(before.push(b)),
            },
        }
    }
}

proof fn lemma_ranges_in_err(lists: Seq<Vec<SizeValue>>, n: int)
    requires
        0 <= n <= lists.len(),
        ranges_in(lists.take(n)) is Err,
    ensures
        ranges_in(lists) == ranges_in(lists.take(n)),
    decreases lists.len(),
{
    if n < lists.len() {
        assert(lists.drop_last().take(n) =~= lists.take(n));
        lemma_ranges_in_err(lists.drop_last(), n);
    } else {
        assert(lists.take(n) =~= lists);
    }
}

/// The ranges that lists of values stand for.
pub fn parse_ranges(lists: &Vec<Vec<SizeValue>>) -> (r: Result<Vec<DataRange>, Error>)
    ensures
        match r {
            Ok(out) => ranges_in(lists@) == Ok::<Seq<(u64, u64)>, Seq<char>>(bounds(out@)),
            Err(e) => ranges_in(lists@) == Err::<Seq<(u64, u64)>, Seq<char>>(e@),
        },
{
    let ghost all = lists@;
    let mut out: Vec<DataRange> = Vec::new();
    let mut i: usize = 0;
    assert(all.take(0) =~= Seq::<Vec<SizeValue>>::empty());
    assert(bounds(out@) =~= Seq::<(u64, u64)>::empty());
    while i < lists.len()
        invariant
            i <= all.len(),
            all == lists@,
            ranges_in(all.take(i as int)) == Ok::<Seq<(u64, u64)>, Seq<char>>(bounds(out@)),
        decreases all.len() - i,
    {
        proof {
            assert(all.take(i + 1).drop_last() =~= all.take(i as int));
            if ranges_in(all.take(i + 1)) is Err {
                lemma_ranges_in_err(all, i + 1);
            }
        }
        let addresses = match parse_addresses(&lists[i]) {
            Ok(addresses) => addresses,
            Err(e) => {
                return Err(e);
            },
        };
        match parse_range(&addresses) {
            Ok(range) => {
                let ghost before = out@;
                out.push(range);
                assert(bounds(out@) =~= bounds(before).push((range.spec_start(), range.spec_end())));
            },
            Err(e) => {
                return Err(e);
            },
        }
        i += 1;
    }
    assert(all.take(all.len() as int) =~= all);
    Ok(out)
}

/// A group as a grouping file writes it: field by field, or in the old form a
/// mere list of function addresses.
#[derive(Debug)]
pub enum GroupInput {
    Detailed {
        functions: Vec<SizeValue>,
        function_ranges: Vec<Vec<SizeValue>>,
        rdata: Vec<Vec<SizeValue>>,
        data: Vec<Vec<SizeValue>>,
        bss: Vec<Vec<SizeValue>>,
    },
    Functions(Vec<SizeValue>),
}

/// A group by the bounds of its ranges.
#[verifier::ext_equal]
pub struct GroupBounds {
    pub functions: Seq<u64>,
    pub function_ranges: Seq<(u64, u64)>,
    pub rdata: Seq<(u64, u64)>,
    pub data: Seq<(u64, u64)>,
    pub bss: Seq<(u64, u64)>,
}

pub open spec fn group_bounds(group: GroupView) -> GroupBounds {
    GroupBounds {
        functions: group.functions,
        function_ranges: bounds(group.function_ranges),
        rdata: bounds(group.rdata),
        data: bounds(group.data),
        bss: bounds(group.bss),
    }
}

/// The group that a grouping file writes.
pub open spec fn group_in(input: GroupInput) -> Result<GroupBounds, Seq<char>> {
    match input {
        GroupInput::Functions(values) => match addresses_in(values@) {
            Err(e) => Err(e),
            Ok(functions) => Ok(
                GroupBounds {
                    functions,
                    function_ranges: Seq::empty(),
                    rdata: Seq::empty(),
                    data: Seq::empty(),
                    bss: Seq::empty(),
                },
            ),
        },
        GroupInput::Detailed { functions, function_ranges, rdata, data, bss } => match (
            addresses_in(functions@),
            ranges_in(function_ranges@),
            ranges_in(rdata@),
            ranges_in(data@),
            ranges_in(bss@),
        ) {
            (Ok(functions), Ok(function_ranges), Ok(rdata), Ok(data), Ok(bss)) => Ok(
                GroupBounds { functions, function_ranges, rdata, data, bss },
            ),
            (Err(e), _, _, _, _) => Err(e),
            (_, Err(e), _, _, _) => Err(e),
            (_, _, Err(e), _, _) => Err(e),
            (_, _, _, Err(e), _) => Err(e),
            (_, _, _, _, Err(e)) => Err(e),
        },
    }
}

/// The group that a grouping file writes.
pub fn parse_group(input: &GroupInput) -> (r: Result<ObjectGroup, Error>)
    ensures
        match r {
            Ok(group) => group_in(*input) == Ok::<GroupBounds, Seq<char>>(group_bounds(group@)),
            Err(e) => group_in(*input) == Err::<GroupBounds, Seq<char>>(e@),
        },
{
    match input {
        GroupInput::Functions(values) => match parse_addresses(values) {
            Ok(functions) => {
                let mut group = ObjectGroup::default();
                group.functions = functions;
                assert(group_bounds(group@) =~= group_in(*input)->Ok_0);
                Ok(group)
            },
            Err(e) => Err(e),
        },
        GroupInput::Detailed { functions, function_ranges, rdata, data, bss } => {
            let functions = match parse_addresses(functions) {
                Ok(found) => found,
                Err(e) => {
                    return Err(e);
                },
            };
            let function_ranges = match parse_ranges(function_ranges) {
                Ok(found) => found,
                Err(e) => {
                    return Err(e);
                },
            };
            let rdata = match parse_ranges(rdata) {
                Ok(found) => found,
                Err(e) => {
                    return Err(e);
                },
            };
            let data = match parse_ranges(data) {
                Ok(found) => found,
                Err(e) => {
                    return Err(e);
                },
            };
            match parse_ranges(bss) {
                Ok(bss) => Ok(ObjectGroup { functions, function_ranges, rdata, data, bss }),
                Err(e) => Err(e),
            }
        },
    }
}

/// The texts of addresses.
pub open spec fn address_texts(addresses: Seq<u64>) -> Seq<Seq<char>> {
    addresses.map_values(|a: u64| hex_upper_text(a as int))
}

/// Addresses as a grouping file writes them.
pub fn address_strings(addresses: &Vec<u64>) -> (r: Vec<String>)
    ensures
        views(r@) == address_texts(addresses@),
{
    let mut out: Vec<String> = Vec::new();
    let mut i: usize = 0;
    while i < addresses.len()
        invariant
            i <= addresses@.len(),
            views(out@) =~= address_texts(addresses@).take(i as int),
        decreases addresses@.len() - i,
    {
        let ghost before = out@;
        let text = address_string(addresses[i]);
        out.push(text);
        i += 1;
        assert(views(out@) =~= views(before).push(text@));
    }
    assert(views(out@) =~= address_texts(addresses@));
    out
}

/// The texts of a range: those of its two bounds.
pub open spec fn range_text(range: DataRange) -> Seq<Seq<char>> {
    seq![
        hex_upper_text(range.spec_start() as int),
        hex_upper_text(range.spec_end() as int),
    ]
}

/// The texts of ranges.
pub open spec fn range_texts(ranges: Seq<DataRange>) -> Seq<Seq<Seq<char>>> {
    ranges.map_values(|r: DataRange| range_text(r))
}

/// A range as a grouping file writes it.
pub fn range_strings(range: DataRange) -> (r: Vec<String>)
    ensures
        views(r@) == range_text(range),
{
    let mut out: Vec<String> = Vec::new();
    let start = address_string(range.start());
    let end = address_string(range.end());
    out.push(start);
    out.push(end);
    assert(views(out@) =~= seq![start@, end@]);
    out
}

/// The texts in lists of strings.
pub open spec fn text_lists(lists: Seq<Vec<String>>) -> Seq<Seq<Seq<char>>> {
    lists.map_values(|list: Vec<String>| views(list@))
}

/// Ranges as a grouping file writes them.
fn all_range_strings(ranges: &Vec<DataRange>) -> (r: Vec<Vec<String>>)
    ensures
        text_lists(r@) == range_texts(ranges@),
{
    let mut out: Vec<Vec<String>> = Vec::new();
    let mut i: usize = 0;
    while i < ranges.len()
        invariant
            i <= ranges@.len(),
            text_lists(out@) =~= range_texts(ranges@).take(i as int),
        decreases ranges@.len() - i,
    {
        let ghost before = out@;
        let texts = range_strings(ranges[i]);
        out.push(texts);
        i += 1;
        assert(text_lists(out@) =~= text_lists(before).push(views(texts@)));
    }
    assert(text_lists(out@) =~= range_texts(ranges@));
    out
}

/// A group as a grouping file writes it.
#[derive(Debug)]
pub struct GroupTexts {
    pub functions: Vec<String>,
    pub function_ranges: Vec<Vec<String>>,
    pub rdata: Vec<Vec<String>>,
    pub data: Vec<Vec<String>>,
    pub bss: Vec<Vec<String>>,
}

#[verifier::ext_equal]
pub struct GroupTextsView {
    pub functions: Seq<Seq<char>>,
    pub function_ranges: Seq<Seq<Seq<char>>>,
    pub rdata: Seq<Seq<Seq<char>>>,
    pub data: Seq<Seq<Seq<char>>>,
    pub bss: Seq<Seq<Seq<char>>>,
}

impl View for GroupTexts {
    type V = GroupTextsView;

    open spec fn view(&self) -> GroupTextsView {
        GroupTextsView {
            functions: views(self.functions@),
            function_ranges: text_lists(self.function_ranges@),
            rdata: text_lists(self.rdata@),
            data: text_lists(self.data@),
            bss: text_lists(self.bss@),
        }
    }
}

/// The texts of a group: all five lists, empty ones too.
pub open spec fn group_texts(group: GroupView) -> GroupTextsView {
    GroupTextsView {
        functions: address_texts(group.functions),
        function_ranges: range_texts(group.function_ranges),
        rdata: range_texts(group.rdata),
        data: range_texts(group.data),
        bss: range_texts(group.bss),
    }
}

/// A group as a grouping file writes it.
pub fn group_strings(group: &ObjectGroup) -> (r: GroupTexts)
    ensures
        r@ == group_texts(group@),
{
    GroupTexts {
        functions: address_strings(&group.functions),
        function_ranges: all_range_strings(&group.function_ranges),
        rdata: all_range_strings(&group.rdata),
        data: all_range_strings(&group.data),
        bss: all_range_strings(&group.bss),
    }
}

// ---------------------------------------------------------------------------
// Laws
// ---------------------------------------------------------------------------

/// A hexadecimal numeral reads back as the number that it was written for.
pub proof fn lemma_digits_read_back(n: nat, upper: bool)
    ensures
        digits(n, 16, upper).len() > 0,
        digits(n, 16, upper)[0] != '+',
        hex_value(digits(n, 16, upper)) == Some(n as int),
    decreases n,
{
    reveal_with_fuel(hex_value, 2);
    if n < 16 {
        let s = digits(n, 16, upper);
        assert(s =~= seq![digit_char(n as int, upper)]);
        assert(s.drop_last() =~= Seq::<char>::empty());
    } else {
        lemma_digits_read_back(n / 16, upper);
        let high = digits(n / 16, 16, upper);
        let s = digits(n, 16, upper);
        assert(s.drop_last() =~= high);
        assert(s[0] == high[0]);
    }
}

/// An address reads back as it was written.
pub proof fn lemma_address_round_trip(address: u64)
    ensures
        address_in(hex_upper_text(address as int)) == Ok::<u64, Seq<char>>(address),
{
    let s = digits(address as nat, 16, true);
    reveal_strlit("0x");
    assert(hex_upper_text(address as int).take(2) =~= "0x"@);
    assert(hex_upper_text(address as int).skip(2) =~= s);
    lemma_digits_read_back(address as nat, true);
}

/// Whether the values are these texts.
pub open spec fn are_texts(values: Seq<SizeValue>, texts: Seq<Seq<char>>) -> bool {
    &&& values.len() == texts.len()
    &&& forall|i: int|
        0 <= i < values.len() ==> ((#[trigger] values[i]) matches SizeValue::Text(text) && text@
            == texts[i])
}

/// Whether the lists of values are these texts.
pub open spec fn are_text_lists(lists: Seq<Vec<SizeValue>>, texts: Seq<Seq<Seq<char>>>) -> bool {
    &&& lists.len() == texts.len()
    &&& forall|i: int| 0 <= i < lists.len() ==> are_texts((#[trigger] lists[i])@, texts[i])
}

/// Addresses read back as they were written.
pub proof fn lemma_addresses_round_trip(addresses: Seq<u64>, values: Seq<SizeValue>)
    requires
        are_texts(values, address_texts(addresses)),
    ensures
        addresses_in(values) == Ok::<Seq<u64>, Seq<char>>(addresses),
    decreases addresses.len(),
{
    if addresses.len() == 0 {
        assert(addresses =~= Seq::<u64>::empty());
    } else {
        let fewer = addresses.drop_last();
        assert forall|i: int| 0 <= i < values.drop_last().len() implies ((
        #[trigger] values.drop_last()[i]) matches SizeValue::Text(text) && text@ == address_texts(
            fewer,
        )[i]) by {
            assert(values.drop_last()[i] == values[i]);
        }
        lemma_addresses_round_trip(fewer, values.drop_last());
        assert(values[values.len() - 1] == values.last());
        lemma_address_round_trip(addresses.last());
        assert(fewer.push(addresses.last()) =~= addresses);
    }
}

/// Ranges read back as they were written.
pub proof fn lemma_ranges_round_trip(ranges: Seq<DataRange>, lists: Seq<Vec<SizeValue>>)
    requires
        are_text_lists(lists, range_texts(ranges)),
    ensures
        ranges_in(lists) == Ok::<Seq<(u64, u64)>, Seq<char>>(bounds(ranges)),
    decreases ranges.len(),
{
    if ranges.len() == 0 {
        assert(bounds(ranges) =~= Seq::<(u64, u64)>::empty());
    } else {
        let fewer = ranges.drop_last();
        assert forall|i: int| 0 <= i < lists.drop_last().len() implies are_texts(
            (#[trigger] lists.drop_last()[i])@,
            range_texts(fewer)[i],
        ) by {
            assert(lists.drop_last()[i] == lists[i]);
        }
        lemma_ranges_round_trip(fewer, lists.drop_last());
        let last = ranges.last();
        let ends = seq![last.spec_start(), last.spec_end()];
        assert(lists[lists.len() - 1] == lists.last());
        assert(address_texts(ends) =~= range_text(last));
        lemma_addresses_round_trip(ends, lists.last()@);
        assert(bounds(ranges) =~= bounds(fewer).push((last.spec_start(), last.spec_end())));
    }
}

/// A group reads back as it was written.
pub proof fn lemma_group_round_trip(group: GroupView, input: GroupInput)
    requires
        input matches GroupInput::Detailed { functions, function_ranges, rdata, data, bss } && {
            let texts = group_texts(group);
            &&& are_texts(functions@, texts.functions)
            &&& are_text_lists(function_ranges@, texts.function_ranges)
            &&& are_text_lists(rdata@, texts.rdata)
            &&& are_text_lists(data@, texts.data)
            &&& are_text_lists(bss@, texts.bss)
        },
    ensures
        group_in(input) == Ok::<GroupBounds, Seq<char>>(group_bounds(group)),
{
    if let GroupInput::Detailed { functions, function_ranges, rdata, data, bss } = input {
        lemma_addresses_round_trip(group.functions, functions@);
        lemma_ranges_round_trip(group.function_ranges, function_ranges@);
        lemma_ranges_round_trip(group.rdata, rdata@);
        lemma_ranges_round_trip(group.data, data@);
        lemma_ranges_round_trip(group.bss, bss@);
    }
}

} // verus!
