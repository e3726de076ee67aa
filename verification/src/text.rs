//! Byte and character helpers shared by the scanners: ASCII classes,
//! substring search, case-insensitive comparison and decimal rendering.
use vstd::prelude::*;
use vstd::string::StringSliceAdditionalSpecFns;
use vstd::utf8::encode_utf8;

verus! {

/// `String::push` appends one character to the end of the string.
pub assume_specification[ std::string::String::push ](s: &mut String, ch: char)
    ensures
        final(s)@ == old(s)@.push(ch),
;

pub open spec fn is_digit(b: u8) -> bool {
    48 <= b <= 57
}

pub open spec fn is_upper(b: u8) -> bool {
    65 <= b <= 90
}

pub open spec fn is_lower(b: u8) -> bool {
    97 <= b <= 122
}

pub open spec fn is_alpha(b: u8) -> bool {
    is_upper(b) || is_lower(b)
}

/// Space, tab, carriage return or line feed.
pub open spec fn is_space(b: u8) -> bool {
    b == 32 || b == 9 || b == 13 || b == 10
}

/// ASCII letters and digits, `_` and `-`.
pub open spec fn is_word(b: u8) -> bool {
    is_alpha(b) || is_digit(b) || b == 95 || b == 45
}

pub open spec fn lower_byte(b: u8) -> u8 {
    if is_upper(b) {
        (b + 32) as u8
    } else {
        b
    }
}

/// `needle` occurs in `hay` starting at position `i`.
pub open spec fn occurs_at<T>(hay: Seq<T>, needle: Seq<T>, i: int) -> bool {
    0 <= i && i + needle.len() <= hay.len() && hay.subrange(i, i + needle.len()) == needle
}

/// `needle` occurs somewhere in `hay`.
pub open spec fn seq_contains<T>(hay: Seq<T>, needle: Seq<T>) -> bool {
    exists|i: int| occurs_at(hay, needle, i)
}

/// Equal length and equal bytes once ASCII upper case is folded to lower case.
pub open spec fn eq_ignore_case(a: Seq<u8>, b: Seq<u8>) -> bool {
    a.len() == b.len() && forall|i: int| 0 <= i < a.len() ==> lower_byte(a[i]) == lower_byte(b[i])
}

/// The characters whose code points are the given bytes.
pub open spec fn bytes_as_chars(s: Seq<u8>) -> Seq<char> {
    s.map_values(|b: u8| b as char)
}

pub open spec fn all_ascii(s: Seq<u8>) -> bool {
    forall|i: int| 0 <= i < s.len() ==> s[i] < 128
}

/// The UTF-8 bytes of a string slice.
pub open spec fn utf8_of(s: &str) -> Seq<u8> {
    s.spec_bytes()
}

pub fn digit_byte(b: u8) -> (r: bool)
    ensures
        r == is_digit(b),
{
    b >= 48 && b <= 57
}

pub fn is_whitespace(b: u8) -> (r: bool)
    ensures
        r == is_space(b),
{
    b == 32 || b == 9 || b == 13 || b == 10
}

pub fn alpha_byte(b: u8) -> (r: bool)
    ensures
        r == is_alpha(b),
{
    (b >= 65 && b <= 90) || (b >= 97 && b <= 122)
}

pub fn is_word_char(b: u8) -> (r: bool)
    ensures
        r == is_word(b),
{
    alpha_byte(b) || digit_byte(b) || b == 95 || b == 45
}

pub fn to_lower_ascii(b: u8) -> (r: u8)
    ensures
        r == lower_byte(b),
{
    if b >= 65 && b <= 90 {
        b + 32
    } else {
        b
    }
}

/// Whether `needle` occurs at position `i` of `hay`.
fn matches_at(hay: &[u8], needle: &[u8], i: usize) -> (r: bool)
    requires
        i + needle@.len() <= hay@.len(),
    ensures
        r == occurs_at(hay@, needle@, i as int),
{
    let n = hay.len();
    let mut k: usize = 0;
    while k < needle.len()
        invariant
            k <= needle@.len(),
            n == hay@.len(),
            i + needle@.len() <= hay@.len(),
            forall|m: int| 0 <= m < k ==> hay@[i + m] == needle@[m],
        decreases needle@.len() - k,
    {
        if hay[i + k] != needle[k] {
            assert(hay@.subrange(i as int, i + needle@.len())[k as int] != needle@[k as int]);
            return false;
        }
        k = k + 1;
    }
    assert(hay@.subrange(i as int, i + needle@.len()) =~= needle@);
    true
}

proof fn lemma_occurs_in_suffix(hay: Seq<u8>, from: int, needle: Seq<u8>, j: int)
    requires
        0 <= from <= hay.len(),
    ensures
        occurs_at(hay.subrange(from, hay.len() as int), needle, j) <==> (0 <= j && occurs_at(
            hay,
            needle,
            from + j,
        )),
{
    let suf = hay.subrange(from, hay.len() as int);
    if 0 <= j && j + needle.len() <= suf.len() {
        assert(suf.subrange(j, j + needle.len()) =~= hay.subrange(from + j, from + j + needle.len()));
    }
}

/// Substring search over the bytes of `hay` from position `from` on.
pub fn bytes_contain_from(hay: &[u8], from: usize, needle: &[u8]) -> (r: bool)
    requires
        from <= hay@.len(),
    ensures
        r == seq_contains(hay@.subrange(from as int, hay@.len() as int), needle@),
{
    let ghost suf = hay@.subrange(from as int, hay@.len() as int);
    if needle.len() > hay.len() - from {
        assert forall|j: int| !occurs_at(suf, needle@, j) by {
        }
        return false;
    }
    let last = hay.len() - needle.len();
    let mut i: usize = from;
    loop
        invariant
            from <= i <= last,
            last + needle@.len() == hay@.len(),
            suf == hay@.subrange(from as int, hay@.len() as int),
            forall|j: int| from <= j < i ==> !occurs_at(hay@, needle@, j),
        ensures
            forall|j: int| from <= j <= last ==> !occurs_at(hay@, needle@, j),
        decreases last - i,
    {
        if matches_at(hay, needle, i) {
            proof {
                lemma_occurs_in_suffix(hay@, from as int, needle@, i - from);
            }
            return true;
        }
        if i == last {
            break;
        }
        i = i + 1;
    }
    assert forall|j: int| !occurs_at(suf, needle@, j) by {
        lemma_occurs_in_suffix(hay@, from as int, needle@, j);
    }
    false
}

/// Substring search over bytes.
pub fn bytes_contain(hay: &[u8], needle: &[u8]) -> (r: bool)
    ensures
        r == seq_contains(hay@, needle@),
{
    let r = bytes_contain_from(hay, 0, needle);
    assert(hay@.subrange(0, hay@.len() as int) =~= hay@);
    r
}

/// ASCII case-insensitive equality of two byte strings.
pub fn bytes_eq_ignore_case(a: &[u8], b: &[u8]) -> (r: bool)
    ensures
        r == eq_ignore_case(a@, b@),
{
    if a.len() != b.len() {
        return false;
    }
    let mut i: usize = 0;
    while i < a.len()
        invariant
            a@.len() == b@.len(),
            forall|m: int| 0 <= m < i ==> lower_byte(a@[m]) == lower_byte(b@[m]),
        decreases a@.len() - i,
    {
        if to_lower_ascii(a[i]) != to_lower_ascii(b[i]) {
            return false;
        }
        i = i + 1;
    }
    true
}

/// Builds a string whose characters are the given ASCII bytes.
pub fn ascii_string(bytes: &[u8]) -> (s: String)
    requires
        all_ascii(bytes@),
    ensures
        s@ == bytes_as_chars(bytes@),
{
    let mut s = String::new();
    let mut i: usize = 0;
    while i < bytes.len()
        invariant
            i <= bytes@.len(),
            s@ =~= bytes_as_chars(bytes@.subrange(0, i as int)),
        decreases bytes@.len() - i,
    {
        s.push(bytes[i] as char);
        assert(bytes@.subrange(0, i + 1) =~= bytes@.subrange(0, i as int).push(bytes@[i as int]));
        i = i + 1;
    }
    assert(bytes@.subrange(0, bytes@.len() as int) =~= bytes@);
    s
}

pub open spec fn digit_char(d: nat) -> char {
    (48 + d % 10) as char
}

/// Decimal digits of a natural number, most significant first.
pub open spec fn nat_decimal(n: nat) -> Seq<char>
    decreases n,
{
    if n < 10 {
        seq![digit_char(n)]
    } else {
        nat_decimal(n / 10).push(digit_char(n % 10))
    }
}

/// Decimal rendering of an integer, with a leading `-` when negative.
pub open spec fn int_decimal(v: int) -> Seq<char> {
    if v < 0 {
        seq!['-'] + nat_decimal((-v) as nat)
    } else {
        nat_decimal(v as nat)
    }
}

/// Appends the decimal digits of `n` to `s`.
fn push_decimal(s: &mut String, n: u64)
    ensures
        final(s)@ == old(s)@ + nat_decimal(n as nat),
    decreases n,
{
    if n >= 10 {
        push_decimal(s, n / 10);
    }
    let d: u8 = (n % 10) as u8;
    s.push((d + 48) as char);
}

/// Decimal rendering of a signed 64-bit integer.
pub fn i64_decimal(v: i64) -> (s: String)
    ensures
        s@ == int_decimal(v as int),
{
    let mut s = String::new();
    if v < 0 {
        s.push('-');
        let mag: u64 = if v == i64::MIN {
            9223372036854775808u64
        } else {
            (-v) as u64
        };
        push_decimal(&mut s, mag);
    } else {
        push_decimal(&mut s, v as u64);
    }
    s
}

#[verifier::external_type_specification]
#[verifier::external_body]
pub struct ExParseIntError(std::num::ParseIntError);

/// The Unicode lower-case mapping of a text, as `str::to_lowercase` computes it.
pub uninterp spec fn unicode_lower(s: Seq<char>) -> Seq<char>;

/// `str::to_lowercase`: claims that the result is the lower-case mapping
/// named `unicode_lower` of the text.
#[verifier::external_body]
pub(crate) fn lowercase(s: &str) -> (r: String)
    ensures
        r@ == unicode_lower(s@),
{
    s.to_lowercase()
}

/// Every `from` character of `s` replaced by the text `to`.
pub open spec fn replace_char(s: Seq<char>, from: char, to: Seq<char>) -> Seq<char>
    decreases s.len(),
{
    if s.len() == 0 {
        seq![]
    } else {
        replace_char(s.drop_last(), from, to) + if s.last() == from {
            to
        } else {
            seq![s.last()]
        }
    }
}

/// `str::replace` with a character pattern: each occurrence of the
/// character is replaced by the text, as its documentation says.
#[verifier::external_body]
pub(crate) fn replace_all(s: &str, from: char, to: &str) -> (r: String)
    ensures
        r@ == replace_char(s@, from, to@),
{
    s.replace(from, to)
}

pub open spec fn all_decimal(s: Seq<char>) -> bool {
    forall|i: int| 0 <= i < s.len() ==> '0' <= #[trigger] s[i] <= '9'
}

pub open spec fn decimal_value(s: Seq<char>) -> int
    decreases s.len(),
{
    if s.len() == 0 {
        0
    } else {
        decimal_value(s.drop_last()) * 10 + (s.last() as int - 48)
    }
}

/// The value `i64::from_str` reads: an optional `+` or `-`, then one or
/// more ASCII digits, and a value in the range of `i64`.
pub open spec fn i64_text_value(s: Seq<char>) -> Option<int> {
    let neg = s.len() > 0 && s[0] == '-';
    let body = if s.len() > 0 && (s[0] == '-' || s[0] == '+') {
        s.drop_first()
    } else {
        s
    };
    let v = if neg {
        -decimal_value(body)
    } else {
        decimal_value(body)
    };
    if body.len() == 0 || !all_decimal(body) || v < i64::MIN || v > i64::MAX {
        None
    } else {
        Some(v)
    }
}

/// `str::parse::<i64>`: claims what the documentation of `i64::from_str`
/// states, that a sign and decimal digits in range are read, else an error.
#[verifier::external_body]
pub(crate) fn parse_i64(s: &str) -> (r: Result<i64, std::num::ParseIntError>)
    ensures
        r is Ok <==> i64_text_value(s@) is Some,
        r matches Ok(v) ==> i64_text_value(s@) == Some(v as int),
{
    s.parse::<i64>()
}

/// ASCII case-insensitive equality of a text and an ASCII word, as
/// `str::eq_ignore_ascii_case` compares them: byte by byte.
pub open spec fn text_eq_ignore_case(s: Seq<char>, word: Seq<u8>) -> bool {
    eq_ignore_case(encode_utf8(s), word)
}

/// The UTF-8 text of `s` contains the bytes `word`, as `str::contains`
/// finds them.
pub open spec fn text_contains(s: Seq<char>, word: Seq<u8>) -> bool {
    seq_contains(encode_utf8(s), word)
}

pub fn str_eq_ignore_case(s: &str, word: &[u8]) -> (r: bool)
    ensures
        r == text_eq_ignore_case(s@, word@),
{
    bytes_eq_ignore_case(s.as_bytes(), word)
}

pub fn str_contains(s: &str, word: &[u8]) -> (r: bool)
    ensures
        r == text_contains(s@, word@),
{
    bytes_contain(s.as_bytes(), word)
}

} // verus!
