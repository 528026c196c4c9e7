//! Text helpers: comparing and building strings, and the small grammars the
//! format writes into text fields (lines, comma-separated fields, decimal
//! numbers, hexadecimal digits).

use vstd::prelude::*;
use vstd::string::StringSliceAdditionalSpecFns;
use vstd::utf8::{decode_utf8, encode_utf8, valid_utf8};

verus! {

/// `String::push` appends one character to the string.
pub assume_specification[ std::string::String::push ](s: &mut std::string::String, c: char)
    ensures
        final(s)@ == old(s)@.push(c),
;

/// The error of `String::from_utf8`; the library only tests for it.
#[verifier::external_type_specification]
#[verifier::external_body]
pub struct ExFromUtf8Error(std::string::FromUtf8Error);

/// `String::from_utf8` succeeds exactly on well-formed UTF-8 and then holds
/// the characters those bytes encode.
pub assume_specification[ std::string::String::from_utf8 ](bytes: std::vec::Vec<u8>) -> (r:
    std::result::Result<std::string::String, std::string::FromUtf8Error>)
    ensures
        r is Ok <==> valid_utf8(bytes@),
        r is Ok ==> r->Ok_0@ == decode_utf8(bytes@),
;

/// Two character sequences with the same UTF-8 encoding are equal.
pub proof fn lemma_utf8_injective(a: Seq<char>, b: Seq<char>)
    requires
        encode_utf8(a) == encode_utf8(b),
    ensures
        a == b,
{
    vstd::utf8::encode_utf8_decode_utf8(a);
    vstd::utf8::encode_utf8_decode_utf8(b);
}

/// Whether two byte slices hold the same bytes.
pub fn bytes_eq(a: &[u8], b: &[u8]) -> (r: bool)
    ensures
        r == (a@ == b@),
{
    if a.len() != b.len() {
        return false;
    }
    let mut i: usize = 0;
    while i < a.len()
        invariant
            a.len() == b.len(),
            i <= a.len(),
            a@.take(i as int) == b@.take(i as int),
        decreases a.len() - i,
    {
        if a[i] != b[i] {
            return false;
        }
        assert(a@.take(i as int + 1) == a@.take(i as int).push(a@[i as int]));
        assert(b@.take(i as int + 1) == b@.take(i as int).push(b@[i as int]));
        i += 1;
    }
    assert(a@ == a@.take(a.len() as int));
    assert(b@ == b@.take(b.len() as int));
    true
}

/// Whether two strings hold the same characters.
pub fn str_eq(a: &str, b: &str) -> (r: bool)
    ensures
        r == (a@ == b@),
{
    let r = bytes_eq(a.as_bytes(), b.as_bytes());
    proof {
        if r {
            lemma_utf8_injective(a@, b@);
        }
    }
    r
}

/// The characters of a string, in order.
pub fn to_chars(s: &str) -> (v: Vec<char>)
    ensures
        v@ == s@,
{
    let mut v: Vec<char> = Vec::new();
    for c in it: s.chars()
        invariant
            v@ == it.seq().take(it.index()),
            it.seq() == s@,
    {
        v.push(c);
    }
    v
}

/// The string made of the given characters.
pub fn from_chars(chars: &[char]) -> (s: String)
    ensures
        s@ == chars@,
{
    let mut s = String::new();
    let mut i: usize = 0;
    while i < chars.len()
        invariant
            i <= chars.len(),
            s@ == chars@.take(i as int),
        decreases chars.len() - i,
    {
        s.push(chars[i]);
        i += 1;
    }
    s
}


/// Whether `c` is one of the ten decimal digits.
pub open spec fn is_digit(c: char) -> bool {
    '0' <= c <= '9'
}

/// The number a decimal digit stands for.
pub open spec fn digit_value(c: char) -> nat
    recommends
        is_digit(c),
{
    (c as int - '0' as int) as nat
}

/// Whether every character of `s` is a decimal digit.
pub open spec fn all_digits(s: Seq<char>) -> bool {
    forall|i: int| 0 <= i < s.len() ==> is_digit(#[trigger] s[i])
}

/// The number that a run of decimal digits denotes, most significant digit
/// first. The empty run denotes zero.
pub open spec fn digits_value(s: Seq<char>) -> nat
    decreases s.len(),
{
    if s.len() == 0 {
        0
    } else {
        digits_value(s.drop_last()) * 10 + digit_value(s.last())
    }
}

/// The 32-bit signed integer that `s` denotes in decimal: an optional `+` or
/// `-`, then at least one digit and nothing else, the value within range.
/// Leading zeros are allowed. Anything else denotes no integer.
pub open spec fn spec_parse_i32(s: Seq<char>) -> Option<i32> {
    let negative = s.len() > 0 && s[0] == '-';
    let signed = s.len() > 0 && (s[0] == '-' || s[0] == '+');
    let digits = if signed { s.skip(1) } else { s };
    let magnitude = digits_value(digits) as int;
    let value = if negative { -magnitude } else { magnitude };
    if digits.len() > 0 && all_digits(digits) && i32::MIN <= value <= i32::MAX {
        Some(value as i32)
    } else {
        None
    }
}

/// A longer run of digits denotes at least as much as any of its prefixes.
pub proof fn lemma_digits_value_prefix(s: Seq<char>, n: int)
    requires
        0 <= n <= s.len(),
    ensures
        digits_value(s.take(n)) <= digits_value(s),
    decreases s.len() - n,
{
    if n == s.len() {
        assert(s.take(n) == s);
    } else {
        lemma_digits_value_prefix(s, n + 1);
        assert(s.take(n + 1).drop_last() == s.take(n));
    }
}

/// Reads a decimal 32-bit signed integer.
pub fn parse_i32(s: &[char]) -> (r: Option<i32>)
    ensures
        r == spec_parse_i32(s@),
{
    let n = s.len();
    let mut start: usize = 0;
    let mut negative = false;
    if n > 0 && s[0] == '-' {
        negative = true;
        start = 1;
    } else if n > 0 && s[0] == '+' {
        start = 1;
    }
    if start == n {
        return None;
    }
    let ghost digits = s@.skip(start as int);
    assert(s@.skip(0) == s@);
    let mut acc: i64 = 0;
    let mut i: usize = start;
    while i < n
        invariant
            start <= i <= n,
            n == s.len(),
            digits == s@.skip(start as int),
            digits == if s@[0] == '-' || s@[0] == '+' { s@.skip(1) } else { s@ },
            negative == (s@[0] == '-'),
            start == if s@[0] == '-' || s@[0] == '+' { 1int } else { 0int },
            start < n,
            all_digits(digits.take(i - start)),
            acc == digits_value(digits.take(i - start)),
            0 <= acc <= 0x8000_0000,
        decreases n - i,
    {
        let c = s[i];
        if !('0' <= c && c <= '9') {
            assert(!is_digit(digits[i - start]));
            return None;
        }
        let d: i64 = (c as u32 - '0' as u32) as i64;
        let next: i64 = acc * 10 + d;
        proof {
            let k = i - start;
            assert(digits.take(k + 1).drop_last() == digits.take(k));
            assert(digits.take(k + 1).last() == c);
            assert(next == digits_value(digits.take(k + 1)));
            assert forall|j: int| 0 <= j < k + 1 implies is_digit(#[trigger] digits.take(k + 1)[j]) by {
                if j < k {
                    assert(digits.take(k)[j] == digits.take(k + 1)[j]);
                }
            }
        }
        if next > 0x8000_0000 {
            proof {
                lemma_digits_value_prefix(digits, i - start + 1);
            }
            return None;
        }
        acc = next;
        i += 1;
    }
    assert(digits.take(n - start) == digits);
    if negative {
        Some((-acc) as i32)
    } else if acc <= 0x7fff_ffff {
        Some(acc as i32)
    } else {
        None
    }
}

/// The character for a digit below ten.
pub open spec fn digit_char(d: nat) -> char
    recommends
        d < 10,
{
    ('0' as int + d) as char
}

/// The decimal digits of a natural number, without leading zeros.
pub open spec fn nat_digits(n: nat) -> Seq<char>
    decreases n,
{
    if n < 10 {
        seq![digit_char(n)]
    } else {
        nat_digits(n / 10).push(digit_char(n % 10))
    }
}

/// The decimal text of an integer: a `-` for a negative one, then the digits
/// of its magnitude.
pub open spec fn decimal_text(n: int) -> Seq<char> {
    if n < 0 {
        seq!['-'] + nat_digits((-n) as nat)
    } else {
        nat_digits(n as nat)
    }
}

/// The digits written for a number are digits, and denote that number.
pub proof fn lemma_nat_digits(n: nat)
    ensures
        nat_digits(n).len() > 0,
        all_digits(nat_digits(n)),
        digits_value(nat_digits(n)) == n,
    decreases n,
{
    if n < 10 {
        let s = nat_digits(n);
        assert(s.drop_last().len() == 0);
        assert(digits_value(s.drop_last()) == 0);
    } else {
        lemma_nat_digits(n / 10);
        let s = nat_digits(n);
        assert(s.drop_last() == nat_digits(n / 10));
        assert(s.last() == digit_char(n % 10));
    }
}

/// Reading back the decimal text of a 32-bit integer gives that integer.
pub proof fn lemma_parse_decimal_text(n: i32)
    ensures
        spec_parse_i32(decimal_text(n as int)) == Some(n),
        decimal_text(n as int).len() > 0,
{
    let s = decimal_text(n as int);
    if n < 0 {
        let m = (-(n as int)) as nat;
        lemma_nat_digits(m);
        assert(s.skip(1) == nat_digits(m));
        assert(s[0] == '-');
    } else {
        lemma_nat_digits(n as nat);
        assert(is_digit(s[0]));
        assert(s[0] != '-' && s[0] != '+');
    }
}

/// Writes a 32-bit signed integer in decimal.
pub fn format_i32(n: i32) -> (r: String)
    ensures
        r@ == decimal_text(n as int),
{
    // The digits come out least significant first.
    let mut rev: Vec<char> = Vec::new();
    let mut m: u32 = if n < 0 { (-(n as i64)) as u32 } else { n as u32 };
    let ghost magnitude = m as nat;
    rev.push(digit_of(m % 10));
    m = m / 10;
    while m > 0
        invariant
            rev@.len() > 0,
            m <= magnitude,
            m > 0 ==> nat_digits(magnitude) == nat_digits(m as nat) + rev@.reverse(),
            m == 0 ==> nat_digits(magnitude) == rev@.reverse(),
        decreases m,
    {
        rev.push(digit_of(m % 10));
        m = m / 10;
    }
    let mut r = String::new();
    if n < 0 {
        r.push('-');
    }
    let ghost head = r@;
    let mut i: usize = rev.len();
    while i > 0
        invariant
            i <= rev.len(),
            r@ == head + rev@.reverse().take(rev.len() - i),
        decreases i,
    {
        i -= 1;
        r.push(rev[i]);
    }
    assert(rev@.reverse().take(rev.len() as int) == rev@.reverse());
    r
}

/// The character for a digit below ten.
fn digit_of(d: u32) -> (c: char)
    requires
        d < 10,
    ensures
        c == digit_char(d as nat),
{
    (48u8 + d as u8) as char
}


/// Whether `c` is a hexadecimal digit, in either case.
pub open spec fn is_hex_digit(c: char) -> bool {
    ('0' <= c <= '9') || ('a' <= c <= 'f') || ('A' <= c <= 'F')
}

/// The number below sixteen that a hexadecimal digit stands for.
pub open spec fn hex_value(c: char) -> nat
    recommends
        is_hex_digit(c),
{
    if '0' <= c <= '9' {
        (c as int - '0' as int) as nat
    } else if 'a' <= c <= 'f' {
        (c as int - 'a' as int + 10) as nat
    } else {
        (c as int - 'A' as int + 10) as nat
    }
}

/// The value of a hexadecimal digit, or nothing for any other character.
pub fn hex_digit_value(c: char) -> (r: Option<u8>)
    ensures
        r is Some <==> is_hex_digit(c),
        r is Some ==> r->Some_0 == hex_value(c),
{
    if '0' <= c && c <= '9' {
        Some((c as u32 - '0' as u32) as u8)
    } else if 'a' <= c && c <= 'f' {
        Some((c as u32 - 'a' as u32 + 10) as u8)
    } else if 'A' <= c && c <= 'F' {
        Some((c as u32 - 'A' as u32 + 10) as u8)
    } else {
        None
    }
}

/// The lower-case hexadecimal digit for a number below sixteen.
pub open spec fn hex_char(v: nat) -> char
    recommends
        v < 16,
{
    if v < 10 {
        ('0' as int + v) as char
    } else {
        ('a' as int + v - 10) as char
    }
}

/// A byte written as two lower-case hexadecimal digits, high digit first.
pub open spec fn hex_pair(b: u8) -> Seq<char> {
    seq![hex_char((b / 16) as nat), hex_char((b % 16) as nat)]
}

/// Reading a written hexadecimal digit gives its number back.
pub proof fn lemma_hex_char_value(v: nat)
    requires
        v < 16,
    ensures
        is_hex_digit(hex_char(v)),
        hex_value(hex_char(v)) == v,
{
}

fn hex_char_of(v: u8) -> (c: char)
    requires
        v < 16,
    ensures
        c == hex_char(v as nat),
{
    if v < 10 {
        (48u8 + v) as char
    } else {
        (97u8 + (v - 10)) as char
    }
}

/// Writes a byte as two lower-case hexadecimal digits.
pub fn hex_byte(b: u8) -> (r: String)
    ensures
        r@ == hex_pair(b),
{
    let mut r = String::new();
    r.push(hex_char_of(b / 16));
    r.push(hex_char_of(b % 16));
    r
}

/// Whether `c` is white space: a character with the Unicode property
/// `White_Space`.
pub open spec fn is_whitespace(c: char) -> bool {
    ||| c == ' '
    ||| '\u{9}' <= c <= '\u{d}'
    ||| c == '\u{85}'
    ||| c == '\u{a0}'
    ||| c == '\u{1680}'
    ||| '\u{2000}' <= c <= '\u{200a}'
    ||| c == '\u{2028}'
    ||| c == '\u{2029}'
    ||| c == '\u{202f}'
    ||| c == '\u{205f}'
    ||| c == '\u{3000}'
}

/// Tests a character for white space.
pub fn char_is_whitespace(c: char) -> (r: bool)
    ensures
        r == is_whitespace(c),
{
    c == ' ' || ('\u{9}' <= c && c <= '\u{d}') || c == '\u{85}' || c == '\u{a0}' || c == '\u{1680}'
        || ('\u{2000}' <= c && c <= '\u{200a}') || c == '\u{2028}' || c == '\u{2029}' || c
        == '\u{202f}' || c == '\u{205f}' || c == '\u{3000}'
}

/// `s` without its leading white space.
pub open spec fn trim_start(s: Seq<char>) -> Seq<char>
    decreases s.len(),
{
    if s.len() > 0 && is_whitespace(s[0]) {
        trim_start(s.skip(1))
    } else {
        s
    }
}

/// `s` without its trailing white space.
pub open spec fn trim_end(s: Seq<char>) -> Seq<char>
    decreases s.len(),
{
    if s.len() > 0 && is_whitespace(s.last()) {
        trim_end(s.drop_last())
    } else {
        s
    }
}

/// `s` without its leading and trailing white space.
pub open spec fn trim(s: Seq<char>) -> Seq<char> {
    trim_end(trim_start(s))
}

/// Cuts the leading and trailing white space off a run of characters.
pub fn trimmed(s: &[char]) -> (r: &[char])
    ensures
        r@ == trim(s@),
{
    let n = s.len();
    let mut start: usize = 0;
    assert(s@.skip(0) == s@);
    while start < n && char_is_whitespace(s[start])
        invariant
            start <= n,
            n == s.len(),
            trim_start(s@) == trim_start(s@.skip(start as int)),
        decreases n - start,
    {
        assert(s@.skip(start as int).skip(1) == s@.skip(start as int + 1));
        start += 1;
    }
    assert(trim_start(s@) == s@.skip(start as int));
    let mut end: usize = n;
    while end > start && char_is_whitespace(s[end - 1])
        invariant
            start <= end <= n,
            n == s.len(),
            trim(s@) == trim_end(s@.subrange(start as int, end as int)),
        decreases end,
    {
        assert(s@.subrange(start as int, end as int).drop_last() == s@.subrange(
            start as int,
            end as int - 1,
        ));
        end -= 1;
    }
    vstd::slice::slice_subrange(s, start, end)
}

/// The position of the first `c` in `s`, or the length of `s` where it holds
/// none.
pub open spec fn index_of(s: Seq<char>, c: char) -> int
    decreases s.len(),
{
    if s.len() == 0 || s[0] == c {
        0
    } else {
        1 + index_of(s.skip(1), c)
    }
}

/// `index_of` is within the sequence or just behind it; where it is within,
/// the character there is `c`; no earlier character is.
pub proof fn lemma_index_of(s: Seq<char>, c: char)
    ensures
        0 <= index_of(s, c) <= s.len(),
        index_of(s, c) < s.len() ==> s[index_of(s, c)] == c,
        forall|j: int| 0 <= j < index_of(s, c) ==> #[trigger] s[j] != c,
    decreases s.len(),
{
    if s.len() == 0 || s[0] == c {
    } else {
        lemma_index_of(s.skip(1), c);
        assert forall|j: int| 0 <= j < index_of(s, c) implies #[trigger] s[j] != c by {
            if j > 0 {
                assert(s.skip(1)[j - 1] == s[j]);
            }
        }
    }
}

/// The position of the first `c` at or after `from`, or the length of `s`.
pub fn find_from(s: &[char], from: usize, c: char) -> (i: usize)
    requires
        from <= s.len(),
    ensures
        i == from + index_of(s@.skip(from as int), c),
        from <= i <= s.len(),
{
    let mut i: usize = from;
    proof {
        lemma_index_of(s@.skip(from as int), c);
    }
    while i < s.len() && s[i] != c
        invariant
            from <= i <= s.len(),
            from + index_of(s@.skip(from as int), c) == i + index_of(s@.skip(i as int), c),
        decreases s.len() - i,
    {
        assert(s@.skip(i as int).skip(1) == s@.skip(i as int + 1));
        i += 1;
    }
    i
}

/// `s` without one trailing carriage return.
pub open spec fn strip_cr(s: Seq<char>) -> Seq<char> {
    if s.len() > 0 && s.last() == '\r' {
        s.drop_last()
    } else {
        s
    }
}

/// The lines of a text. A line ends at a line feed; the line feed, and a
/// carriage return right before it, belong to no line. Text behind the last
/// line feed is a line of its own unless it is empty.
pub open spec fn lines(s: Seq<char>) -> Seq<Seq<char>>
    decreases s.len(),
{
    let i = index_of(s, '\n');
    if s.len() == 0 {
        seq![]
    } else if 0 <= i < s.len() {
        seq![strip_cr(s.take(i))] + lines(s.skip(i + 1))
    } else {
        seq![s]
    }
}

/// The fields of a text that `sep` separates: one more than it holds
/// separators, each possibly empty.
pub open spec fn fields(s: Seq<char>, sep: char) -> Seq<Seq<char>>
    decreases s.len(),
{
    let i = index_of(s, sep);
    if 0 <= i < s.len() {
        seq![s.take(i)] + fields(s.skip(i + 1), sep)
    } else {
        seq![s]
    }
}

/// The character sequences that a sequence of vectors holds.
pub open spec fn char_views(v: Seq<Vec<char>>) -> Seq<Seq<char>> {
    v.map_values(|x: Vec<char>| x@)
}

/// Copies the characters from `from` up to `to`.
fn copy_range(s: &[char], from: usize, to: usize) -> (v: Vec<char>)
    requires
        from <= to <= s.len(),
    ensures
        v@ == s@.subrange(from as int, to as int),
{
    let mut v: Vec<char> = Vec::new();
    let mut i: usize = from;
    while i < to
        invariant
            from <= i <= to <= s.len(),
            v@ == s@.subrange(from as int, i as int),
        decreases to - i,
    {
        v.push(s[i]);
        i += 1;
    }
    v
}

/// Splits a text into its lines.
pub fn split_lines(s: &[char]) -> (out: Vec<Vec<char>>)
    ensures
        char_views(out@) == lines(s@),
{
    let n = s.len();
    let mut out: Vec<Vec<char>> = Vec::new();
    let mut pos: usize = 0;
    assert(s@.skip(0) == s@);
    while pos < n
        invariant
            pos <= n,
            n == s.len(),
            lines(s@) == char_views(out@) + lines(s@.skip(pos as int)),
        decreases n - pos,
    {
        let ghost rest = s@.skip(pos as int);
        let end = find_from(s, pos, '\n');
        let ghost before = out@;
        if end == n {
            let line = copy_range(s, pos, n);
            assert(line@ == rest);
            out.push(line);
            assert(char_views(out@) == char_views(before).push(rest));
            pos = n;
            assert(lines(s@.skip(n as int)) == Seq::<Seq<char>>::empty());
        } else {
            let mut stop = end;
            if stop > pos && s[stop - 1] == '\r' {
                stop -= 1;
            }
            let line = copy_range(s, pos, stop);
            assert(rest.take(end - pos) == s@.subrange(pos as int, end as int));
            assert(line@ == strip_cr(rest.take(end - pos)));
            out.push(line);
            assert(char_views(out@) == char_views(before).push(line@));
            assert(rest.skip(end - pos + 1) == s@.skip(end as int + 1));
            pos = end + 1;
        }
    }
    assert(lines(s@.skip(n as int)) == Seq::<Seq<char>>::empty());
    out
}

/// Splits a text into the fields that `sep` separates.
pub fn split_fields(s: &[char], sep: char) -> (out: Vec<Vec<char>>)
    ensures
        char_views(out@) == fields(s@, sep),
{
    let n = s.len();
    let mut out: Vec<Vec<char>> = Vec::new();
    let mut pos: usize = 0;
    assert(s@.skip(0) == s@);
    loop
        invariant_except_break
            fields(s@, sep) == char_views(out@) + fields(s@.skip(pos as int), sep),
        invariant
            pos <= n,
            n == s.len(),
        ensures
            char_views(out@) == fields(s@, sep),
        decreases n - pos,
    {
        let ghost rest = s@.skip(pos as int);
        let end = find_from(s, pos, sep);
        let ghost before = out@;
        let field = copy_range(s, pos, end);
        assert(rest.take(end - pos) == s@.subrange(pos as int, end as int));
        if end == n {
            assert(field@ == rest);
            out.push(field);
            assert(char_views(out@) == char_views(before).push(rest));
            break;
        }
        out.push(field);
        assert(char_views(out@) == char_views(before).push(field@));
        assert(rest.skip(end - pos + 1) == s@.skip(end as int + 1));
        pos = end + 1;
    }
    out
}

/// The parts written one after another with `sep` between neighbours.
pub open spec fn join(parts: Seq<Seq<char>>, sep: Seq<char>) -> Seq<char>
    decreases parts.len(),
{
    if parts.len() == 0 {
        seq![]
    } else if parts.len() == 1 {
        parts[0]
    } else {
        join(parts.drop_last(), sep) + sep + parts.last()
    }
}

/// The character sequences that a sequence of strings holds.
pub open spec fn string_views(v: Seq<String>) -> Seq<Seq<char>> {
    v.map_values(|x: String| x@)
}

/// `Itertools::join` on an iterator over strings: the first string, then for
/// each further one the separator and that string.
#[verifier::external_body]
pub(crate) fn join_strings(parts: &Vec<String>, sep: &str) -> (r: String)
    ensures
        r@ == join(string_views(parts@), sep@),
{
    itertools::Itertools::join(&mut parts.iter(), sep)
}

/// Whether `s` holds the character `c`.
pub open spec fn has_char(s: Seq<char>, c: char) -> bool {
    exists|i: int| 0 <= i < s.len() && #[trigger] s[i] == c
}

/// Where a text does not hold `c`, `index_of` is behind its end.
pub proof fn lemma_index_of_absent(s: Seq<char>, c: char)
    requires
        !has_char(s, c),
    ensures
        index_of(s, c) == s.len(),
{
    lemma_index_of(s, c);
    if index_of(s, c) < s.len() {
        assert(s[index_of(s, c)] == c);
    }
}

/// The first `c` behind a text that holds none is where that text ends.
pub proof fn lemma_index_of_after(a: Seq<char>, c: char, b: Seq<char>)
    requires
        !has_char(a, c),
    ensures
        index_of(a + seq![c] + b, c) == a.len(),
{
    let s = a + seq![c] + b;
    lemma_index_of(s, c);
    let i = index_of(s, c);
    assert(s[a.len() as int] == c);
    if i < a.len() {
        assert(a[i] == c);
    }
}

/// Joining at least two parts: the first part, the separator, and the rest
/// joined.
pub proof fn lemma_join_front(parts: Seq<Seq<char>>, sep: Seq<char>)
    requires
        parts.len() >= 2,
    ensures
        join(parts, sep) == parts[0] + sep + join(parts.skip(1), sep),
    decreases parts.len(),
{
    let rest = parts.skip(1);
    if parts.len() == 2 {
        assert(parts.drop_last().len() == 1);
        assert(rest.len() == 1);
        assert(join(parts.drop_last(), sep) == parts[0]);
        assert(join(rest, sep) == parts[1]);
        assert(join(parts, sep) =~= parts[0] + sep + parts[1]);
    } else {
        lemma_join_front(parts.drop_last(), sep);
        assert(parts.drop_last().skip(1) == rest.drop_last());
        assert(parts.drop_last()[0] == parts[0]);
        assert(rest.last() == parts.last());
        assert(join(parts, sep) =~= parts[0] + sep + join(rest, sep));
    }
}

/// A text joined from parts holds a character only where a part or the
/// separator holds it.
pub proof fn lemma_join_chars(parts: Seq<Seq<char>>, sep: Seq<char>, c: char)
    requires
        !has_char(sep, c),
        forall|i: int| 0 <= i < parts.len() ==> !has_char(#[trigger] parts[i], c),
    ensures
        !has_char(join(parts, sep), c),
    decreases parts.len(),
{
    if parts.len() == 0 {
    } else if parts.len() == 1 {
    } else {
        let front = parts.drop_last();
        assert forall|i: int| 0 <= i < front.len() implies !has_char(#[trigger] front[i], c) by {
            assert(front[i] == parts[i]);
        }
        lemma_join_chars(front, sep, c);
        let s = join(parts, sep);
        let a = join(front, sep);
        if has_char(s, c) {
            let k = choose|k: int| 0 <= k < s.len() && #[trigger] s[k] == c;
            if k < a.len() {
                assert(a[k] == c);
            } else if k < a.len() + sep.len() {
                assert(sep[k - a.len()] == c);
            } else {
                assert(parts.last()[k - a.len() - sep.len()] == c);
            }
        }
    }
}

/// The lines of rows that were joined with line feeds: each row but the last
/// without a carriage return at its end, and the last row unless it is
/// empty.
pub open spec fn joined_lines(rows: Seq<Seq<char>>) -> Seq<Seq<char>>
    decreases rows.len(),
{
    if rows.len() == 0 {
        Seq::empty()
    } else if rows.len() == 1 {
        if rows[0].len() == 0 {
            Seq::empty()
        } else {
            seq![rows[0]]
        }
    } else {
        seq![strip_cr(rows[0])] + joined_lines(rows.skip(1))
    }
}

/// Splitting what was joined with line feeds, where no row holds one.
pub proof fn lemma_lines_of_join(rows: Seq<Seq<char>>)
    requires
        forall|i: int| 0 <= i < rows.len() ==> !has_char(#[trigger] rows[i], '\n'),
    ensures
        lines(join(rows, seq!['\n'])) == joined_lines(rows),
    decreases rows.len(),
{
    let text = join(rows, seq!['\n']);
    if rows.len() == 0 {
    } else if rows.len() == 1 {
        lemma_index_of_absent(rows[0], '\n');
    } else {
        let rest = rows.skip(1);
        lemma_join_front(rows, seq!['\n']);
        let tail = join(rest, seq!['\n']);
        assert(text == rows[0] + seq!['\n'] + tail);
        lemma_index_of_after(rows[0], '\n', tail);
        assert(text.take(rows[0].len() as int) == rows[0]);
        assert(text.skip(rows[0].len() as int + 1) == tail);
        assert forall|i: int| 0 <= i < rest.len() implies !has_char(#[trigger] rest[i], '\n') by {
            assert(rest[i] == rows[i + 1]);
        }
        lemma_lines_of_join(rest);
    }
}

/// What stands at a place of the lines of joined rows: the row of that
/// place, and nothing behind the last row that is not empty.
pub proof fn lemma_joined_lines(rows: Seq<Seq<char>>, y: int)
    requires
        0 <= y < rows.len(),
    ensures
        joined_lines(rows).len() <= rows.len(),
        joined_lines(rows).len() >= rows.len() - 1,
        y < joined_lines(rows).len() ==> joined_lines(rows)[y] == if y < rows.len() - 1 {
            strip_cr(rows[y])
        } else {
            rows[y]
        },
        y >= joined_lines(rows).len() ==> rows[y].len() == 0,
    decreases rows.len(),
{
    if rows.len() >= 2 {
        let rest = rows.skip(1);
        if y > 0 {
            lemma_joined_lines(rest, y - 1);
            assert(rest[y - 1] == rows[y]);
        } else {
            lemma_joined_lines(rest, 0);
        }
    }
}

/// Splitting what was joined with a separator gives the parts back, where
/// there is a part and no part holds the separator.
pub proof fn lemma_fields_of_join(parts: Seq<Seq<char>>, sep: char)
    requires
        parts.len() >= 1,
        forall|i: int| 0 <= i < parts.len() ==> !has_char(#[trigger] parts[i], sep),
    ensures
        fields(join(parts, seq![sep]), sep) == parts,
    decreases parts.len(),
{
    let text = join(parts, seq![sep]);
    if parts.len() == 1 {
        lemma_index_of_absent(parts[0], sep);
        assert(fields(text, sep) =~= parts);
    } else {
        let rest = parts.skip(1);
        lemma_join_front(parts, seq![sep]);
        let tail = join(rest, seq![sep]);
        lemma_index_of_after(parts[0], sep, tail);
        assert(text.take(parts[0].len() as int) == parts[0]);
        assert(text.skip(parts[0].len() as int + 1) == tail);
        assert forall|i: int| 0 <= i < rest.len() implies !has_char(#[trigger] rest[i], sep) by {
            assert(rest[i] == parts[i + 1]);
        }
        lemma_fields_of_join(rest, sep);
        assert(fields(text, sep) =~= parts);
    }
}

/// The decimal digits of a number are digits.
pub proof fn lemma_decimal_text_chars(n: int)
    ensures
        decimal_text(n).len() > 0,
        forall|i: int|
            0 <= i < decimal_text(n).len() ==> is_digit(#[trigger] decimal_text(n)[i]) || decimal_text(
                n,
            )[i] == '-',
{
    if n < 0 {
        lemma_nat_digits((-n) as nat);
        let d = nat_digits((-n) as nat);
        assert forall|i: int| 0 <= i < decimal_text(n).len() implies is_digit(
            #[trigger] decimal_text(n)[i],
        ) || decimal_text(n)[i] == '-' by {
            if i > 0 {
                assert(decimal_text(n)[i] == d[i - 1]);
            }
        }
    } else {
        lemma_nat_digits(n as nat);
    }
}

/// A text whose first and last characters are no white space is its own
/// trimming.
pub proof fn lemma_trim_nothing(s: Seq<char>)
    requires
        s.len() > 0 ==> !is_whitespace(s[0]) && !is_whitespace(s.last()),
    ensures
        trim(s) == s,
{
}

} // verus!
