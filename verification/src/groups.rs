//! User-editable object grouping.
//!
//! Each output object lists its function start addresses and may also own
//! half-open virtual-address ranges of whole functions, `.rdata`, `.data`, and
//! logical `.bss`.

use crate::model::{Function, IdaModel};
use crate::seqs::keep;
use crate::text::{chars_of, digits, format_digits, string_of};
use crate::text_map::{
    lemma_place_of, lemma_put_named_keeps_order, lemma_put_named_then_read, named_value,
    names_increase, place_of, put_named, TextMap,
};
use std::ops::Range;
use vstd::prelude::*;
use vstd::string::StringSliceAdditionalSpecFns;
use vstd::utf8::{decode_utf8, encode_utf8, is_char_boundary};

verus! {

/// A half-open IDA virtual-address range `[start, end)`.
#[derive(Debug, Clone, Copy, PartialEq, Eq)]
pub struct DataRange(pub [u64; 2]);

impl DataRange {
    pub open spec fn spec_start(self) -> u64 {
        self.0@[0]
    }

    pub open spec fn spec_end(self) -> u64 {
        self.0@[1]
    }

    pub fn range(self) -> (r: Range<u64>)
        ensures
            r.start == self.spec_start(),
            r.end == self.spec_end(),
    {
        self.start()..self.end()
    }

    pub fn start(self) -> (r: u64)
        ensures
            r == self.spec_start(),
    {
        self.0[0]
    }

    pub fn end(self) -> (r: u64)
        ensures
            r == self.spec_end(),
    {
        self.0[1]
    }
}

/// Contents assigned to one output object.
#[derive(Debug, PartialEq, Eq)]
pub struct ObjectGroup {
    pub functions: Vec<u64>,
    /// Half-open ranges selecting whole functions by their `[start, end)`
    /// bounds. A range may not cut through a function.
    pub function_ranges: Vec<DataRange>,
    pub rdata: Vec<DataRange>,
    pub data: Vec<DataRange>,
    /// Half-open ranges emitted as zero-filled `.bss`. These may select an
    /// IDA BSS segment or a zero-initialized tail that IDA reports as DATA.
    pub bss: Vec<DataRange>,
}

/// What is assigned to one output object.
#[verifier::ext_equal]
pub struct GroupView {
    pub functions: Seq<u64>,
    pub function_ranges: Seq<DataRange>,
    pub rdata: Seq<DataRange>,
    pub data: Seq<DataRange>,
    pub bss: Seq<DataRange>,
}

impl View for ObjectGroup {
    type V = GroupView;

    open spec fn view(&self) -> GroupView {
        GroupView {
            functions: self.functions@,
            function_ranges: self.function_ranges@,
            rdata: self.rdata@,
            data: self.data@,
            bss: self.bss@,
        }
    }
}

pub open spec fn empty_group() -> GroupView {
    GroupView {
        functions: Seq::empty(),
        function_ranges: Seq::empty(),
        rdata: Seq::empty(),
        data: Seq::empty(),
        bss: Seq::empty(),
    }
}

impl Default for ObjectGroup {
    fn default() -> (r: Self)
        ensures
            r@ == empty_group(),
    {
        ObjectGroup {
            functions: Vec::new(),
            function_ranges: Vec::new(),
            rdata: Vec::new(),
            data: Vec::new(),
            bss: Vec::new(),
        }
    }
}

fn copy_ranges(ranges: &Vec<DataRange>) -> (r: Vec<DataRange>)
    ensures
        r@ == ranges@,
{
    vstd::slice::slice_to_vec(ranges.as_slice())
}

impl Clone for ObjectGroup {
    fn clone(&self) -> (r: Self)
        ensures
            r@ == self@,
    {
        ObjectGroup {
            functions: vstd::slice::slice_to_vec(self.functions.as_slice()),
            function_ranges: copy_ranges(&self.function_ranges),
            rdata: copy_ranges(&self.rdata),
            data: copy_ranges(&self.data),
            bss: copy_ranges(&self.bss),
        }
    }
}

impl ObjectGroup {
    /// Whether nothing is assigned.
    pub fn is_empty(&self) -> (r: bool)
        ensures
            r == (self@ == empty_group()),
    {
        let r = self.functions.len() == 0 && self.function_ranges.len() == 0 && self.rdata.len()
            == 0 && self.data.len() == 0 && self.bss.len() == 0;
        assert(r ==> self@ =~= empty_group());
        r
    }
}

/// Output filename to its explicit/ranged functions and initialized-data
/// ranges.
pub type IdaproJson = TextMap<ObjectGroup>;

// ---------------------------------------------------------------------------
// Default grouping
// ---------------------------------------------------------------------------

/// Whether `char::is_alphanumeric` holds of `c`.
pub uninterp spec fn alphanumeric(c: char) -> bool;

/// Letters and digits of ASCII.
pub open spec fn ascii_alphanumeric(c: char) -> bool {
    '0' <= c <= '9' || 'a' <= c <= 'z' || 'A' <= c <= 'Z'
}

/// `char::is_alphanumeric`: of the ASCII characters the letters and digits; which
/// of the others count is left to the name.
#[verifier::external_body]
fn is_alphanumeric(c: char) -> (r: bool)
    ensures
        r == alphanumeric(c),
        (c as u32) < 128 ==> r == ascii_alphanumeric(c),
{
    c.is_alphanumeric()
}

/// Letters and digits: of the ASCII characters those of ASCII, and of the others
/// what `char::is_alphanumeric` says.
pub open spec fn is_letter_or_digit(c: char) -> bool {
    if (c as u32) < 128 {
        ascii_alphanumeric(c)
    } else {
        alphanumeric(c)
    }
}

/// Characters that belong in a file name.
pub open spec fn is_safe(c: char) -> bool {
    is_letter_or_digit(c) || c == '_' || c == '-' || c == '.'
}

/// `c`, or an underscore where `c` does not belong in a file name.
pub open spec fn safe_char(c: char) -> char {
    if is_safe(c) {
        c
    } else {
        '_'
    }
}

/// The number of leading dots and underscores.
pub open spec fn leading_marks(s: Seq<char>) -> int
    decreases s.len(),
{
    if s.len() > 0 && (s[0] == '.' || s[0] == '_') {
        1 + leading_marks(s.skip(1))
    } else {
        0
    }
}

/// `name` in characters that belong in a file name, without leading dots and
/// underscores.
pub open spec fn safe_text(name: Seq<char>) -> Seq<char> {
    let s = name.map_values(|c: char| safe_char(c));
    s.skip(leading_marks(s))
}

/// Whether `s` can be cut after 200 bytes of UTF-8, or is not longer.
pub open spec fn can_cut(s: Seq<char>) -> bool {
    encode_utf8(s).len() <= 200 || is_char_boundary(encode_utf8(s), 200)
}

/// `s` cut after 200 bytes of UTF-8.
pub open spec fn cut(s: Seq<char>) -> Seq<char> {
    if encode_utf8(s).len() <= 200 {
        s
    } else {
        decode_utf8(encode_utf8(s).subrange(0, 200))
    }
}

/// The file stem for a symbol.
pub open spec fn file_stem(name: Seq<char>) -> Seq<char> {
    let s = cut(safe_text(name));
    if s.len() == 0 {
        "unknown"@
    } else {
        s
    }
}

fn make_safe(name: &str) -> (r: String)
    ensures
        r@ == safe_text(name@),
{
    let chars = chars_of(name);
    let mut out: Vec<char> = Vec::new();
    let mut i: usize = 0;
    let ghost s = name@.map_values(|c: char| safe_char(c));
    while i < chars.len()
        invariant
            i <= chars@.len(),
            chars@ == name@,
            s == name@.map_values(|c: char| safe_char(c)),
            out@ == s.take(i as int),
        decreases chars@.len() - i,
    {
        let c: char = chars[i];
        if is_alphanumeric(c) || c == '_' || c == '-' || c == '.' {
            out.push(c);
        } else {
            out.push('_');
        }
        i += 1;
        assert(out@ =~= s.take(i as int));
    }
    assert(out@ =~= s);
    let mut n: usize = 0;
    assert(s.skip(0) =~= s);
    while n < out.len() && (out[n] == '.' || out[n] == '_')
        invariant
            n <= out@.len(),
            out@ == s,
            leading_marks(s) == n + leading_marks(s.skip(n as int)),
        decreases out@.len() - n,
    {
        assert(s.skip(n as int).skip(1) =~= s.skip(n + 1));
        n += 1;
    }
    let r = string_of(out.as_slice(), n, out.len());
    assert(r@ =~= safe_text(name@));
    r
}

/// Whether the file stem for a symbol can be cut to length.
pub fn filename_fits(name: &str) -> (r: bool)
    ensures
        r == can_cut(safe_text(name@)),
        vstd::utf8::is_ascii_chars(name@) ==> r,
{
    proof {
        if vstd::utf8::is_ascii_chars(name@) {
            lemma_ascii_file_stem(name@);
        }
    }
    let trimmed = make_safe(name);
    let s = trimmed.as_str();
    proof {
        vstd::utf8::encode_utf8_valid_utf8(s@);
    }
    s.as_bytes().len() <= 200 || s.is_char_boundary(200)
}

/// The file stem for a symbol: safe characters, no leading dots or underscores,
/// at most 200 bytes.
pub fn sanitize_filename(name: &str) -> (r: String)
    requires
        can_cut(safe_text(name@)),
    ensures
        r@ == file_stem(name@),
        is_stem(r@),
        vstd::utf8::is_ascii_chars(name@) ==> vstd::utf8::is_ascii_chars(r@),
{
    proof {
        lemma_file_stem_is_safe(name@);
        if vstd::utf8::is_ascii_chars(name@) {
            lemma_ascii_file_stem(name@);
        }
    }
    let trimmed = make_safe(name);
    let s = trimmed.as_str();
    if s.as_bytes().len() <= 200 {
        if s.is_empty() {
            return "unknown".to_owned();
        }
        return trimmed;
    }
    proof {
        vstd::utf8::encode_utf8_valid_utf8(s@);
    }
    let (head, _) = s.split_at(200);
    proof {
        vstd::utf8::encode_utf8_decode_utf8(head@);
        assert(head@ == cut(s@));
    }
    if head.is_empty() {
        return "unknown".to_owned();
    }
    head.to_owned()
}

/// The file stem for a symbol, where its text can be cut to length.
pub fn try_sanitize_filename(name: &str) -> (r: Option<String>)
    ensures
        match r {
            Some(s) => can_cut(safe_text(name@)) && s@ == file_stem(name@) && is_stem(s@),
            None => !can_cut(safe_text(name@)),
        },
        vstd::utf8::is_ascii_chars(name@) ==> r is Some,
{
    if filename_fits(name) {
        Some(sanitize_filename(name))
    } else {
        None
    }
}

/// `n` underscores.
pub open spec fn underscores(n: nat) -> Seq<char> {
    Seq::new(n, |i: int| '_')
}

/// What tells the `k`th choice of a file name for a function from the first: the
/// start of the function, and as many underscores as it takes.
pub open spec fn file_suffix(start: u64, k: nat) -> Seq<char> {
    if k == 0 {
        Seq::empty()
    } else {
        "_"@ + digits(start as nat, 16, false) + underscores((k - 1) as nat)
    }
}

/// The `k`th choice of an output file for a function: its name, and from the
/// second on a suffix.
pub open spec fn file_choice(f: Function, ext: Seq<char>, k: nat) -> Seq<char> {
    file_stem(f.name@) + file_suffix(f.start, k) + "."@ + ext
}

/// The length of the longest file name.
pub open spec fn longest(json: Seq<(Seq<char>, GroupView)>) -> nat
    decreases json.len(),
{
    if json.len() == 0 {
        0
    } else {
        let before = longest(json.drop_last());
        if before >= json.last().0.len() {
            before
        } else {
            json.last().0.len()
        }
    }
}

/// The first choice of a file for a function, from the `k`th on, that is not
/// taken. One that is longer than every file name is not.
pub open spec fn first_free(
    json: Seq<(Seq<char>, GroupView)>,
    f: Function,
    ext: Seq<char>,
    k: nat,
) -> nat
    decreases longest(json) + 1 - k,
{
    if k > longest(json) || named_value(json, file_choice(f, ext, k)) is None {
        k
    } else {
        first_free(json, f, ext, k + 1)
    }
}

/// The output file of a function beside those that are taken.
pub open spec fn file_of(json: Seq<(Seq<char>, GroupView)>, f: Function, ext: Seq<char>) -> Seq<
    char,
> {
    file_choice(f, ext, first_free(json, f, ext, 0))
}

/// The group of one function.
pub open spec fn group_of_one(start: u64) -> GroupView {
    GroupView { functions: seq![start], ..empty_group() }
}

/// The grouping of one function per output file. Where a name is taken by an
/// earlier function, the file has a suffix.
pub open spec fn default_groups(functions: Seq<Function>, ext: Seq<char>) -> Seq<
    (Seq<char>, GroupView),
>
    decreases functions.len(),
{
    if functions.len() == 0 {
        Seq::empty()
    } else {
        let before = default_groups(functions.drop_last(), ext);
        let f = functions.last();
        if f.spec_size() == 0 {
            before
        } else {
            put_named(before, file_of(before, f, ext), group_of_one(f.start))
        }
    }
}

/// Functions that have a size.
pub open spec fn is_sized() -> spec_fn(Function) -> bool {
    |f: Function| f.spec_size() != 0
}

/// Whether a file holds the function that starts at `start`, and nothing else.
pub open spec fn has_file(json: Seq<(Seq<char>, GroupView)>, start: u64) -> bool {
    exists|j: int| 0 <= j < json.len() && (#[trigger] json[j]).1 == group_of_one(start)
}

/// Whether each file holds one function, and each function that has a size a
/// file of its own.
pub open spec fn one_per_file(functions: Seq<Function>, json: Seq<(Seq<char>, GroupView)>) -> bool {
    &&& forall|j: int| 0 <= j < json.len() ==> (#[trigger] json[j]).1.functions.len() == 1
    &&& forall|i: int|
        0 <= i < functions.len() && (#[trigger] functions[i]).spec_size() != 0 ==> has_file(
            json,
            functions[i].start,
        )
    &&& json.len() == keep(functions, is_sized()).len()
}

/// Whether every function that gets a file has a name that can be cut to length.
pub open spec fn names_can_cut(functions: Seq<Function>) -> bool {
    forall|i: int|
        0 <= i < functions.len() && (#[trigger] functions[i]).spec_size() != 0 ==> can_cut(
            safe_text(functions[i].name@),
        )
}

proof fn lemma_longest(json: Seq<(Seq<char>, GroupView)>, i: int)
    requires
        0 <= i < json.len(),
    ensures
        json[i].0.len() <= longest(json),
    decreases json.len(),
{
    if i < json.len() - 1 {
        lemma_longest(json.drop_last(), i);
    }
}

/// The file that a function gets was not taken.
proof fn lemma_free(json: Seq<(Seq<char>, GroupView)>, f: Function, ext: Seq<char>, k: nat)
    requires
        names_increase(json),
    ensures
        named_value(json, file_choice(f, ext, first_free(json, f, ext, k))) is None,
        k <= first_free(json, f, ext, k),
    decreases longest(json) + 1 - k,
{
    let file = file_choice(f, ext, k);
    if k > longest(json) {
        assert(file.len() >= k) by {
            reveal_strlit("_");
            reveal_strlit(".");
        }
        lemma_place_of(json, file);
        let i = place_of(json, file);
        if i < json.len() {
            lemma_longest(json, i);
        }
    } else if named_value(json, file) is Some {
        lemma_free(json, f, ext, k + 1);
    }
}

/// The output file of a function beside those of `json`.
fn choose_file(json: &IdaproJson, f: &Function, ext: &str) -> (r: String)
    requires
        json.wf(),
        can_cut(safe_text(f.name@)),
    ensures
        r@ == file_of(json@, *f, ext@),
{
    let mut stem = sanitize_filename(f.name.as_str());
    let ghost mut k: nat = 0;
    let mut first = true;
    assert(stem@ =~= file_stem(f.name@) + file_suffix(f.start, 0));
    loop
        invariant
            json.wf(),
            stem@ == file_stem(f.name@) + file_suffix(f.start, k),
            first == (k == 0),
            first_free(json@, *f, ext@, 0) == first_free(json@, *f, ext@, k),
        decreases longest(json@) + 1 - k,
    {
        let file = stem.clone().concat(".").concat(ext);
        assert(file@ == file_choice(*f, ext@, k));
        if json.get(file.as_str()).is_none() {
            return file;
        }
        proof {
            if k > longest(json@) {
                lemma_free(json@, *f, ext@, k);
            }
        }
        let ghost before = stem@;
        if first {
            let start = format_digits(f.start, 16, false);
            stem = stem.concat("_").concat(start.as_str());
            first = false;
            assert(stem@ =~= file_stem(f.name@) + file_suffix(f.start, 1));
        } else {
            stem = stem.concat("_");
            proof {
                reveal_strlit("_");
                assert(underscores(k) =~= underscores((k - 1) as nat) + "_"@);
                assert(stem@ =~= file_stem(f.name@) + file_suffix(f.start, k + 1));
            }
        }
        proof {
            k = k + 1;
        }
    }
}

/// Build a default grouping: one function per output file (extension `ext`,
/// e.g. `"obj"` for COFF or `"o"` for ELF). Where a file name is taken, the start
/// of the function tells the next one from it.
pub fn generate(model: &IdaModel, ext: &str) -> (r: IdaproJson)
    requires
        names_can_cut(model.functions@),
    ensures
        r.wf(),
        r@ == default_groups(model.functions@, ext@),
        one_per_file(model.functions@, r@),
        forall|i: int| 0 <= i < r@.len() ==> (#[trigger] r@[i]).1.functions.len() == 1,
{
    let ghost fs = model.functions@;
    let mut json: IdaproJson = TextMap::new();
    let mut i: usize = 0;
    assert(fs.take(0) =~= Seq::<Function>::empty());
    while i < model.functions.len()
        invariant
            i <= fs.len(),
            fs == model.functions@,
            names_can_cut(fs),
            json.wf(),
            json@ == default_groups(fs.take(i as int), ext@),
        decreases fs.len() - i,
    {
        let f = &model.functions[i];
        assert(fs.take(i + 1).drop_last() =~= fs.take(i as int));
        if f.size() != 0 {
            assert(fs[i as int].spec_size() != 0);
            let file = choose_file(&json, f, ext);
            let mut functions: Vec<u64> = Vec::new();
            functions.push(f.start);
            let mut group = ObjectGroup::default();
            group.functions = functions;
            assert(group@ =~= group_of_one(f.start));
            json.insert(file, group);
        }
        i += 1;
    }
    assert(fs.take(fs.len() as int) =~= fs);
    proof {
        lemma_one_per_file(fs, ext@);
    }
    json
}

/// The default grouping, where every name can be cut to length.
pub fn try_generate(model: &IdaModel, ext: &str) -> (r: Option<IdaproJson>)
    ensures
        match r {
            Some(json) => {
                &&& names_can_cut(model.functions@)
                &&& json.wf()
                &&& json@ == default_groups(model.functions@, ext@)
                &&& one_per_file(model.functions@, json@)
                &&& forall|i: int|
                    0 <= i < json@.len() ==> (#[trigger] json@[i]).1.functions.len() == 1
            },
            None => !names_can_cut(model.functions@),
        },
{
    let ghost fs = model.functions@;
    let mut i: usize = 0;
    while i < model.functions.len()
        invariant
            i <= fs.len(),
            fs == model.functions@,
            forall|k: int|
                0 <= k < i && (#[trigger] fs[k]).spec_size() != 0 ==> can_cut(
                    safe_text(fs[k].name@),
                ),
        decreases fs.len() - i,
    {
        let f = &model.functions[i];
        if f.size() != 0 && !filename_fits(f.name.as_str()) {
            assert(fs[i as int].spec_size() != 0);
            return None;
        }
        i += 1;
    }
    Some(generate(model, ext))
}

proof fn lemma_default_groups_sorted(functions: Seq<Function>, ext: Seq<char>)
    ensures
        names_increase(default_groups(functions, ext)),
    decreases functions.len(),
{
    if functions.len() > 0 {
        lemma_default_groups_sorted(functions.drop_last(), ext);
        let before = default_groups(functions.drop_last(), ext);
        let f = functions.last();
        lemma_put_named_keeps_order(before, file_of(before, f, ext), group_of_one(f.start));
    }
}

/// The default grouping has one function in each file, and a file for each
/// function that has a size.
pub proof fn lemma_one_per_file(functions: Seq<Function>, ext: Seq<char>)
    ensures
        one_per_file(functions, default_groups(functions, ext)),
    decreases functions.len(),
{
    if functions.len() > 0 {
        let init = functions.drop_last();
        let f = functions.last();
        let before = default_groups(init, ext);
        let after = default_groups(functions, ext);
        let file = file_of(before, f, ext);
        let group = group_of_one(f.start);
        lemma_one_per_file(init, ext);
        lemma_default_groups_sorted(init, ext);
        lemma_free(before, f, ext, 0);
        lemma_place_of(before, file);
        let p = place_of(before, file);
        if f.spec_size() != 0 {
            assert(after == before.insert(p, (file, group)));
            assert forall|j: int| 0 <= j < after.len() implies (
            #[trigger] after[j]).1.functions.len() == 1 by {
                if j < p {
                    assert(after[j] == before[j]);
                } else if j > p {
                    assert(after[j] == before[j - 1]);
                }
            }
        }
        assert forall|i: int|
            0 <= i < functions.len() && (#[trigger] functions[i]).spec_size() != 0 implies has_file(
            after,
            functions[i].start,
        ) by {
            if i < init.len() {
                assert(init[i] == functions[i]);
                let j = choose|j: int|
                    0 <= j < before.len() && (#[trigger] before[j]).1 == group_of_one(
                        functions[i].start,
                    );
                if f.spec_size() != 0 {
                    if j < p {
                        assert(after[j] == before[j]);
                    } else {
                        assert(after[j + 1] == before[j]);
                    }
                }
            } else {
                assert(after[p] == (file, group));
            }
        }
    }
}

/// The default grouping has every function that has a size under a file of its
/// name, alone.
pub proof fn lemma_every_function_is_grouped(functions: Seq<Function>, ext: Seq<char>, i: int)
    requires
        0 <= i < functions.len(),
        functions[i].spec_size() != 0,
    ensures
        exists|k: nat|
            named_value(
                default_groups(functions, ext),
                #[trigger] file_choice(functions[i], ext, k),
            ) == Some(group_of_one(functions[i].start)),
    decreases functions.len(),
{
    let init = functions.drop_last();
    let before = default_groups(init, ext);
    let f = functions.last();
    let file = file_of(before, f, ext);
    lemma_default_groups_sorted(init, ext);
    lemma_free(before, f, ext, 0);
    if i < init.len() {
        assert(init[i] == functions[i]);
        lemma_every_function_is_grouped(init, ext, i);
        let k = choose|k: nat|
            named_value(before, #[trigger] file_choice(functions[i], ext, k)) == Some(
                group_of_one(functions[i].start),
            );
        lemma_put_named_then_read(
            before,
            file,
            group_of_one(f.start),
            file_choice(functions[i], ext, k),
        );
    } else {
        lemma_put_named_then_read(before, file, group_of_one(f.start), file);
    }
}

// ---------------------------------------------------------------------------
// File stems
// ---------------------------------------------------------------------------

/// Whether a text is a file stem: not empty, at most 200 bytes, of characters
/// that belong in a file name, and without a leading dot or underscore.
pub open spec fn is_stem(s: Seq<char>) -> bool {
    &&& s.len() > 0
    &&& encode_utf8(s).len() <= 200
    &&& forall|i: int| 0 <= i < s.len() ==> is_safe(#[trigger] s[i])
    &&& s[0] != '.'
    &&& s[0] != '_'
}

proof fn lemma_leading_marks(s: Seq<char>)
    ensures
        0 <= leading_marks(s) <= s.len(),
        leading_marks(s) < s.len() ==> s[leading_marks(s)] != '.' && s[leading_marks(s)] != '_',
    decreases s.len(),
{
    if s.len() > 0 && (s[0] == '.' || s[0] == '_') {
        lemma_leading_marks(s.skip(1));
    }
}

/// A file stem is what its making promises, and making it again changes nothing.
pub proof fn lemma_file_stem_is_safe(name: Seq<char>)
    requires
        can_cut(safe_text(name)),
    ensures
        is_stem(file_stem(name)),
        can_cut(safe_text(file_stem(name))),
        file_stem(file_stem(name)) == file_stem(name),
{
    let all = name.map_values(|c: char| safe_char(c));
    let text = safe_text(name);
    let bytes = encode_utf8(text);
    let head = cut(text);
    lemma_leading_marks(all);
    assert forall|i: int| 0 <= i < text.len() implies is_safe(#[trigger] text[i]) by {
        assert(text[i] == all[i + leading_marks(all)]);
    }
    vstd::utf8::encode_utf8_valid_utf8(text);
    vstd::utf8::encode_utf8_decode_utf8(text);
    if bytes.len() > 200 {
        let tail = decode_utf8(bytes.subrange(200, bytes.len() as int));
        vstd::utf8::valid_utf8_split(bytes, 200);
        vstd::utf8::decode_utf8_split(bytes, 200);
        vstd::utf8::decode_utf8_encode_utf8(bytes.subrange(0, 200));
        assert(text == head + tail);
        assert(encode_utf8(head) == bytes.subrange(0, 200));
        assert forall|i: int| 0 <= i < head.len() implies is_safe(#[trigger] head[i]) by {
            assert(text[i] == head[i]);
        }
        if head.len() > 0 {
            assert(text[0] == head[0]);
        }
    }
    if head.len() > 0 {
        assert(text[0] == all[leading_marks(all)]);
    } else {
        reveal_strlit("unknown");
        lemma_unknown_is_short();
    }
    lemma_stem_is_kept(file_stem(name));
}

proof fn lemma_unknown_is_short()
    ensures
        encode_utf8("unknown"@).len() == 7,
{
    reveal_strlit("unknown");
    assert(vstd::utf8::is_ascii_chars("unknown"@));
    vstd::utf8::is_ascii_chars_encode_utf8("unknown"@);
}

/// A file stem stays as it is.
proof fn lemma_stem_is_kept(s: Seq<char>)
    requires
        is_stem(s),
    ensures
        safe_text(s) == s,
        can_cut(s),
        file_stem(s) == s,
{
    let all = s.map_values(|c: char| safe_char(c));
    assert(all =~= s) by {
        assert forall|i: int| 0 <= i < s.len() implies all[i] == s[i] by {
            assert(is_safe(s[i]));
        }
    }
    assert(s.skip(0) =~= s);
}

/// An ASCII name can always be cut to length, and its file stem is ASCII and no
/// longer than 200 characters.
pub proof fn lemma_ascii_file_stem(name: Seq<char>)
    requires
        vstd::utf8::is_ascii_chars(name),
    ensures
        can_cut(safe_text(name)),
        vstd::utf8::is_ascii_chars(file_stem(name)),
        file_stem(name).len() <= 200,
{
    let all = name.map_values(|c: char| safe_char(c));
    let text = safe_text(name);
    lemma_leading_marks(all);
    assert forall|i: int| 0 <= i < text.len() implies '\0' <= #[trigger] text[i] <= '\u{7f}' by {
        let j = i + leading_marks(all);
        assert(text[i] == all[j]);
        assert('\0' <= name[j] <= '\u{7f}');
    }
    assert(vstd::utf8::is_ascii_chars(text));
    let bytes = encode_utf8(text);
    vstd::utf8::is_ascii_chars_encode_utf8(text);
    vstd::utf8::encode_utf8_valid_utf8(text);
    vstd::utf8::encode_utf8_decode_utf8(text);
    if bytes.len() > 200 {
        assert(text[200] as u8 == bytes[200]);
        assert('\0' <= text[200] <= '\u{7f}');
        assert(bytes[200] < 0x80);
        assert(!vstd::utf8::is_continuation_byte(bytes[200]));
        vstd::utf8::is_char_boundary_iff_not_is_continuation_byte(bytes, 200);
        vstd::utf8::valid_utf8_split(bytes, 200);
        let head = cut(text);
        let tail = decode_utf8(bytes.subrange(200, bytes.len() as int));
        vstd::utf8::decode_utf8_split(bytes, 200);
        assert(text == head + tail);
        assert forall|i: int| 0 <= i < head.len() implies '\0' <= #[trigger] head[i]
            <= '\u{7f}' by {
            assert(text[i] == head[i]);
        }
        assert(vstd::utf8::is_ascii_chars(head));
    }
    reveal_strlit("unknown");
    assert(vstd::utf8::is_ascii_chars(file_stem(name)));
    lemma_file_stem_is_safe(name);
    vstd::utf8::is_ascii_chars_encode_utf8(file_stem(name));
}

} // verus!
