//! Text: numerals, trimming, code-point order, and the error type.

use vstd::prelude::*;

verus! {

/// The numeral for the digit `d`, letters in upper case where `upper`.
pub open spec fn digit_char(d: int, upper: bool) -> char {
    if d < 10 {
        (48 + d) as char
    } else if upper {
        (55 + d) as char
    } else {
        (87 + d) as char
    }
}

/// `n` written in `base`, without leading zeros.
pub open spec fn digits(n: nat, base: nat, upper: bool) -> Seq<char>
    recommends
        2 <= base <= 16,
    decreases n,
{
    if base < 2 || n < base {
        seq![digit_char(n as int, upper)]
    } else {
        proof {
            assert(n / base < n) by (nonlinear_arith)
                requires
                    2 <= base <= n,
            ;
        }
        digits(n / base, base, upper).push(digit_char((n % base) as int, upper))
    }
}

/// `n` in decimal.
pub open spec fn dec_text(n: int) -> Seq<char> {
    digits(n as nat, 10, false)
}

/// `n` in lower-case hexadecimal behind `0x`.
pub open spec fn hex_text(n: int) -> Seq<char> {
    "0x"@ + digits(n as nat, 16, false)
}

/// `n` in upper-case hexadecimal behind `0x`.
pub open spec fn hex_upper_text(n: int) -> Seq<char> {
    "0x"@ + digits(n as nat, 16, true)
}

/// `n` in lower-case hexadecimal behind `0x`, padded with zeros to four digits.
pub open spec fn hex4_text(n: int) -> Seq<char> {
    "0x"@ + pad_zeros(digits(n as nat, 16, false), 4)
}

/// `s` behind as many zeros as bring it to `width` characters.
pub open spec fn pad_zeros(s: Seq<char>, width: nat) -> Seq<char> {
    if s.len() < width {
        Seq::new((width - s.len()) as nat, |i: int| '0') + s
    } else {
        s
    }
}

/// `String::push` appends one character.
pub assume_specification[ String::push ](s: &mut String, c: char)
    ensures
        final(s)@ == old(s)@.push(c),
;

fn digit(d: u64, upper: bool) -> (r: char)
    requires
        d < 16,
    ensures
        r == digit_char(d as int, upper),
{
    if d < 10 {
        (48 + d as u8) as char
    } else if upper {
        (55 + d as u8) as char
    } else {
        (87 + d as u8) as char
    }
}

/// The digits of `n` in `base`.
pub fn format_digits(n: u64, base: u64, upper: bool) -> (r: String)
    requires
        2 <= base <= 16,
    ensures
        r@ == digits(n as nat, base as nat, upper),
    decreases n,
{
    if n < base {
        let mut s = String::new();
        s.push(digit(n, upper));
        s
    } else {
        assert(n / base < n) by (nonlinear_arith)
            requires
                2 <= base <= n,
        ;
        let mut s = format_digits(n / base, base, upper);
        s.push(digit(n % base, upper));
        s
    }
}

/// `n` in lower-case hexadecimal, padded with zeros to `width` digits.
pub fn padded_hex(n: u64, width: usize) -> (r: String)
    ensures
        r@ == pad_zeros(digits(n as nat, 16, false), width as nat),
{
    padded(format_digits(n, 16, false), width)
}

/// `digits` behind as many zeros as bring them to `width` characters.
pub fn padded(digits: String, width: usize) -> (r: String)
    ensures
        r@ == pad_zeros(digits@, width as nat),
{
    let mut padded = String::new();
    let mut i: usize = digits.as_str().unicode_len();
    let ghost len = digits@.len();
    while i < width
        invariant
            len <= i,
            len <= width ==> i <= width,
            len > width ==> i == len,
            padded@ == Seq::new((i - len) as nat, |k: int| '0'),
        decreases width - i,
    {
        padded.push('0');
        i += 1;
        assert(padded@ =~= Seq::new((i - len) as nat, |k: int| '0'));
    }
    padded.append(digits.as_str());
    assert(padded@ =~= pad_zeros(digits@, width as nat));
    padded
}

/// What the `Debug` form of a string looks like.
pub uninterp spec fn debug_text(s: Seq<char>) -> Seq<char>;

/// Characters that the `Debug` form of a string leaves as they are.
pub open spec fn is_plain(c: char) -> bool {
    ' ' <= c <= '~' && c != '"' && c != '\\'
}

/// The `Debug` form of a string: between double quotes, with the characters
/// escaped that need it. Printable ASCII other than quotes and backslashes stays
/// as it is; what becomes of other characters is left to the name.
#[verifier::external_body]
fn quoted(s: &str) -> (r: String)
    ensures
        r@ == debug_text(s@),
        (forall|i: int| 0 <= i < s@.len() ==> is_plain(#[trigger] s@[i])) ==> r@ == seq!['"'] + s@
            + seq!['"'],
{
    format!("{s:?}")
}

/// A text as messages quote it: printable ASCII other than quotes and backslashes
/// stands between double quotes as it is, and any other in its `Debug` form.
pub open spec fn quoted_text(s: Seq<char>) -> Seq<char> {
    if forall|i: int| 0 <= i < s.len() ==> is_plain(#[trigger] s[i]) {
        seq!['"'] + s + seq!['"']
    } else {
        debug_text(s)
    }
}

/// Whether two strings hold the same characters.
pub fn same_text(a: &str, b: &str) -> (r: bool)
    ensures
        r == (a@ == b@),
{
    a.to_owned() == b.to_owned()
}

/// What `String::from_utf8_lossy` makes of `bytes`.
pub uninterp spec fn utf8_lossy(bytes: Seq<u8>) -> Seq<char>;

/// `String::from_utf8_lossy`: the text that the bytes encode, each invalid
/// stretch replaced by U+FFFD. Valid UTF-8 comes out as it was encoded; where
/// the replacement characters stand in other input is left to the name.
#[verifier::external_body]
fn decode_lossy(bytes: &[u8]) -> (r: String)
    ensures
        r@ == utf8_lossy(bytes@),
        vstd::utf8::valid_utf8(bytes@) ==> r@ == vstd::utf8::decode_utf8(bytes@),
{
    String::from_utf8_lossy(bytes).into_owned()
}

/// The text of bytes: what they encode where they are valid UTF-8, and otherwise
/// what `String::from_utf8_lossy` makes of them.
pub open spec fn lossy_text(bytes: Seq<u8>) -> Seq<char> {
    if vstd::utf8::valid_utf8(bytes) {
        vstd::utf8::decode_utf8(bytes)
    } else {
        utf8_lossy(bytes)
    }
}

/// The text of bytes, each invalid stretch replaced.
pub fn text_of_bytes(bytes: &[u8]) -> (r: String)
    ensures
        r@ == lossy_text(bytes@),
{
    decode_lossy(bytes)
}

/// ASCII bytes are the text of their characters.
pub proof fn lemma_ascii_text(bytes: Seq<u8>, text: Seq<char>)
    requires
        vstd::utf8::is_ascii_chars(text),
        bytes.len() == text.len(),
        forall|i: int| 0 <= i < text.len() ==> bytes[i] == #[trigger] text[i] as u8,
    ensures
        lossy_text(bytes) == text,
{
    vstd::utf8::is_ascii_chars_encode_utf8(text);
    vstd::utf8::encode_utf8_valid_utf8(text);
    vstd::utf8::encode_utf8_decode_utf8(text);
    assert(bytes =~= vstd::utf8::encode_utf8(text));
}

/// The characters of `s`.
pub fn chars_of(s: &str) -> (r: Vec<char>)
    ensures
        r@ == s@,
{
    let mut out: Vec<char> = Vec::new();
    for c in it: s.chars()
        invariant
            out@ == it.seq().take(it.index()),
            it.seq() == s@,
    {
        out.push(c);
    }
    out
}

/// The characters from `from` up to `to`, as a string.
pub fn string_of(chars: &[char], from: usize, to: usize) -> (r: String)
    requires
        from <= to <= chars@.len(),
    ensures
        r@ == chars@.subrange(from as int, to as int),
{
    let mut out = String::new();
    let mut i: usize = from;
    while i < to
        invariant
            from <= i <= to <= chars@.len(),
            out@ == chars@.subrange(from as int, i as int),
        decreases to - i,
    {
        out.push(chars[i]);
        i += 1;
        assert(out@ =~= chars@.subrange(from as int, i as int));
    }
    out
}

/// `s` without the `c` that it ends in.
pub open spec fn trim_end(s: Seq<char>, c: char) -> Seq<char>
    decreases s.len(),
{
    if s.len() > 0 && s.last() == c {
        trim_end(s.drop_last(), c)
    } else {
        s
    }
}

/// `s` without the `c` that it ends in.
pub fn trim_end_char(s: &str, c: char) -> (r: String)
    ensures
        r@ == trim_end(s@, c),
{
    let chars = chars_of(s);
    let mut n: usize = chars.len();
    assert(chars@.subrange(0, n as int) =~= s@);
    while n > 0 && chars[n - 1] == c
        invariant
            n <= chars@.len(),
            chars@ == s@,
            trim_end(chars@.subrange(0, n as int), c) == trim_end(s@, c),
        decreases n,
    {
        assert(chars@.subrange(0, n as int).drop_last() =~= chars@.subrange(0, n - 1));
        n -= 1;
    }
    string_of(chars.as_slice(), 0, n)
}

/// The value of a hexadecimal digit.
pub open spec fn hex_digit(c: char) -> Option<int> {
    if '0' <= c <= '9' {
        Some(c as int - 48)
    } else if 'a' <= c <= 'f' {
        Some(c as int - 87)
    } else if 'A' <= c <= 'F' {
        Some(c as int - 55)
    } else {
        None
    }
}

/// The value of a string of hexadecimal digits.
pub open spec fn hex_value(s: Seq<char>) -> Option<int>
    decreases s.len(),
{
    if s.len() == 0 {
        Some(0)
    } else {
        match (hex_value(s.drop_last()), hex_digit(s.last())) {
            (Some(high), Some(low)) => Some(16 * high + low),
            _ => None,
        }
    }
}

/// The 64-bit number that hexadecimal digits behind an optional plus sign
/// write.
pub open spec fn parse_hex(s: Seq<char>) -> Option<u64> {
    let digits = if s.len() > 0 && s[0] == '+' {
        s.skip(1)
    } else {
        s
    };
    if digits.len() == 0 {
        None
    } else {
        match hex_value(digits) {
            Some(v) => if v <= u64::MAX {
                Some(v as u64)
            } else {
                None
            },
            None => None,
        }
    }
}

/// What follows `prefix` in `s`, where `s` begins with it.
pub open spec fn after_prefix(s: Seq<char>, prefix: Seq<char>) -> Option<Seq<char>> {
    if s.len() >= prefix.len() && s.take(prefix.len() as int) == prefix {
        Some(s.skip(prefix.len() as int))
    } else {
        None
    }
}

proof fn lemma_hex_value_nonnegative(s: Seq<char>)
    ensures
        hex_value(s) matches Some(v) ==> v >= 0,
    decreases s.len(),
{
    if s.len() > 0 {
        lemma_hex_value_nonnegative(s.drop_last());
    }
}

/// More digits do not make a number smaller, nor a bad digit good.
proof fn lemma_hex_value_prefix(s: Seq<char>, n: int)
    requires
        0 <= n <= s.len(),
    ensures
        hex_value(s) matches Some(v) ==> (hex_value(s.take(n)) matches Some(u) && 0 <= u <= v),
    decreases s.len(),
{
    lemma_hex_value_nonnegative(s);
    if n < s.len() {
        lemma_hex_value_prefix(s.drop_last(), n);
        assert(s.drop_last().take(n) =~= s.take(n));
    } else {
        assert(s.take(n) =~= s);
    }
}

pub(crate) fn digit_of(c: char) -> (r: Option<u64>)
    ensures
        match r {
            Some(d) => hex_digit(c) == Some(d as int) && d < 16,
            None => hex_digit(c) is None,
        },
{
    if '0' <= c && c <= '9' {
        Some(c as u64 - 48)
    } else if 'a' <= c && c <= 'f' {
        Some(c as u64 - 87)
    } else if 'A' <= c && c <= 'F' {
        Some(c as u64 - 55)
    } else {
        None
    }
}

/// The number that the hexadecimal digits from `from` on write, where it fits
/// in 64 bits.
pub fn parse_hex_chars(chars: &[char], from: usize) -> (r: Option<u64>)
    requires
        from <= chars@.len(),
    ensures
        r == parse_hex(chars@.skip(from as int)),
{
    let ghost s = chars@.skip(from as int);
    let start: usize = if from < chars.len() && chars[from] == '+' {
        from + 1
    } else {
        from
    };
    let ghost t = chars@.skip(start as int);
    proof {
        if start > from {
            assert(s.skip(1) =~= t);
        }
    }
    if start == chars.len() {
        return None;
    }
    let mut value: u64 = 0;
    let mut i: usize = start;
    assert(t.take(0) =~= Seq::<char>::empty());
    while i < chars.len()
        invariant
            from <= start <= i <= chars@.len(),
            s == chars@.skip(from as int),
            t == chars@.skip(start as int),
            t.len() > 0,
            t == if s.len() > 0 && s[0] == '+' {
                s.skip(1)
            } else {
                s
            },
            hex_value(t.take(i - start)) == Some(value as int),
        decreases chars@.len() - i,
    {
        proof {
            assert(t.take(i - start + 1).drop_last() =~= t.take(i - start));
            lemma_hex_value_prefix(t, i - start + 1);
        }
        let d: u64 = match digit_of(chars[i]) {
            Some(d) => d,
            None => {
                return None;
            },
        };
        if value > 0x0fff_ffff_ffff_ffff {
            return None;
        }
        value = 16 * value + d;
        i += 1;
    }
    assert(t.take(t.len() as int) =~= t);
    Some(value)
}

/// Whether the characters begin with `prefix`.
pub fn begins_with(chars: &[char], prefix: &str) -> (r: bool)
    ensures
        r == (after_prefix(chars@, prefix@) is Some),
        r ==> prefix@.len() <= chars@.len(),
{
    let p = chars_of(prefix);
    if chars.len() < p.len() {
        return false;
    }
    let mut i: usize = 0;
    while i < p.len()
        invariant
            i <= p@.len() <= chars@.len(),
            p@ == prefix@,
            forall|k: int| 0 <= k < i ==> chars@[k] == p@[k],
        decreases p@.len() - i,
    {
        if chars[i] != p[i] {
            assert(chars@.take(p@.len() as int)[i as int] != p@[i as int]);
            return false;
        }
        i += 1;
    }
    assert(chars@.take(p@.len() as int) =~= p@);
    true
}

/// What went wrong, as a line of text.
pub struct Error {
    pub message: String,
}

impl View for Error {
    type V = Seq<char>;

    open spec fn view(&self) -> Seq<char> {
        self.message@
    }
}

impl Error {
    pub fn new(text: &str) -> (r: Error)
        ensures
            r@ == text@,
    {
        Error { message: text.to_owned() }
    }

    /// The message with `text` behind it.
    pub fn text(self, text: &str) -> (r: Error)
        ensures
            r@ == self@ + text@,
    {
        Error { message: self.message.concat(text) }
    }

    /// The message with `n` in decimal behind it.
    pub fn dec(self, n: u64) -> (r: Error)
        ensures
            r@ == self@ + dec_text(n as int),
    {
        let digits = format_digits(n, 10, false);
        self.text(digits.as_str())
    }

    /// The message with `n` in hexadecimal behind it.
    pub fn hex(self, n: u64) -> (r: Error)
        ensures
            r@ == self@ + hex_text(n as int),
    {
        let digits = hex_string(n);
        self.text(digits.as_str())
    }

    /// The message with the quoted form of `text` behind it.
    pub fn quote(self, text: &str) -> (r: Error)
        ensures
            r@ == self@ + quoted_text(text@),
    {
        let q = quoted(text);
        self.text(q.as_str())
    }

    /// The message with `n` in hexadecimal, of at least four digits, behind it.
    pub fn hex4(self, n: u16) -> (r: Error)
        ensures
            r@ == self@ + hex4_text(n as int),
    {
        let padded = padded_hex(n as u64, 4);
        let digits = "0x".to_owned().concat(padded.as_str());
        self.text(digits.as_str())
    }

    /// The message of this error.
    pub fn message(&self) -> (r: &str)
        ensures
            r@ == self@,
    {
        self.message.as_str()
    }
}

/// `n` in lower-case hexadecimal behind `0x`.
pub fn hex_string(n: u64) -> (r: String)
    ensures
        r@ == hex_text(n as int),
{
    let digits = format_digits(n, 16, false);
    "0x".to_owned().concat(digits.as_str())
}

/// `n` in upper-case hexadecimal behind `0x`.
pub fn hex_upper_string(n: u64) -> (r: String)
    ensures
        r@ == hex_upper_text(n as int),
{
    let digits = format_digits(n, 16, true);
    "0x".to_owned().concat(digits.as_str())
}

} // verus!
