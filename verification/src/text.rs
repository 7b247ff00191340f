//! Reading typed values out of cell text.
//!
//! [`FromText`] is the capability a column's target type needs. This module
//! provides it for the common integer types, with decimal integer text defined
//! by [`integer_text`], and tells by [`is_float_text`] which texts read as
//! floating-point numbers. Both follow the standard library's parsers: what
//! they read, these read, and nothing else.

use vstd::prelude::*;
use vstd::std_specs::iter::IteratorSpec;

verus! {

/// The characters of a text, in order: what contracts say of a `&str`.
pub type Characters = Seq<char>;

/// A type whose values can be read from text.
pub trait FromText: Sized {
    /// The value that `text` denotes, or `None` where it denotes none.
    spec fn parsed(text: Characters) -> Option<Self>;

    /// Reads a value from `text` in a single attempt.
    fn from_text(text: &str) -> (value: Option<Self>)
        ensures
            value == Self::parsed(text@),
    ;
}

/// Tells whether two texts hold the same characters.
pub fn same_text(a: &str, b: &str) -> (same: bool)
    ensures
        same == (a@ == b@),
{
    broadcast use vstd::string::group_string_axioms;

    let mut rest_a = a.chars();
    let mut rest_b = b.chars();
    let ghost mut i: int = 0;
    loop
        invariant
            0 <= i <= a@.len(),
            i <= b@.len(),
            a@.take(i) == b@.take(i),
            rest_a.obeys_prophetic_iter_laws(),
            rest_b.obeys_prophetic_iter_laws(),
            rest_a.remaining() == a@.skip(i),
            rest_b.remaining() == b@.skip(i),
        decreases a@.len() - i,
    {
        match (rest_a.next(), rest_b.next()) {
            (None, None) => {
                proof {
                    assert(a@ =~= a@.take(i));
                    assert(b@ =~= b@.take(i));
                }
                return true;
            },
            (Some(c), Some(d)) => {
                if c != d {
                    assert(a@[i] != b@[i]);
                    return false;
                }
                proof {
                    assert(a@.take(i + 1) =~= a@.take(i).push(c));
                    assert(b@.take(i + 1) =~= b@.take(i).push(d));
                    assert(a@.skip(i).drop_first() =~= a@.skip(i + 1));
                    assert(b@.skip(i).drop_first() =~= b@.skip(i + 1));
                    i = i + 1;
                }
            },
            _ => {
                assert(a@.len() != b@.len());
                return false;
            },
        }
    }
}

/// Whether `c` is one of the decimal digits `0` to `9`.
pub open spec fn is_digit(c: char) -> bool {
    '0' <= c && c <= '9'
}

/// The number a decimal digit stands for.
pub open spec fn digit_value(c: char) -> int {
    c as int - '0' as int
}

/// Whether every character of `s` is a decimal digit.
pub open spec fn all_digits(s: Seq<char>) -> bool {
    forall|i: int| 0 <= i < s.len() ==> is_digit(#[trigger] s[i])
}

/// The number that a sequence of decimal digits denotes, most significant
/// digit first. The empty sequence denotes zero.
pub open spec fn decimal_value(digits: Seq<char>) -> int
    decreases digits.len(),
{
    if digits.len() == 0 {
        0
    } else {
        10 * decimal_value(digits.drop_last()) + digit_value(digits.last())
    }
}

/// Whether `s` starts with a sign: `+`, or `-` where negative numbers are
/// read (`signed`).
pub open spec fn has_sign(s: Seq<char>, signed: bool) -> bool {
    s.len() > 0 && (s[0] == '+' || (signed && s[0] == '-'))
}

/// The integer that `s` denotes: an optional sign followed by one or more
/// decimal digits and nothing else. Without `signed`, a leading `-` is no sign
/// and the text denotes nothing.
pub open spec fn integer_text(s: Seq<char>, signed: bool) -> Option<int> {
    let digits = if has_sign(s, signed) { s.skip(1) } else { s };
    if digits.len() > 0 && all_digits(digits) {
        if has_sign(s, signed) && s[0] == '-' {
            Some(-decimal_value(digits))
        } else {
            Some(decimal_value(digits))
        }
    } else {
        None
    }
}

/// The integer that `s` denotes if it lies between `lo` and `hi`. Negative
/// numbers are read exactly when `lo` is negative.
pub open spec fn integer_in(s: Seq<char>, lo: int, hi: int) -> Option<int> {
    match integer_text(s, lo < 0) {
        Some(v) => if lo <= v <= hi { Some(v) } else { None },
        None => None,
    }
}

/// The digits of `s` that lie before position `upto`, the sign left out.
pub open spec fn digits_before(s: Seq<char>, signed: bool, upto: int) -> Seq<char> {
    if has_sign(s, signed) && upto > 0 {
        s.subrange(1, upto)
    } else {
        s.subrange(0, upto)
    }
}

/// A digit sequence denotes at least what any of its prefixes denotes.
pub proof fn lemma_decimal_value_grows(digits: Seq<char>, k: int)
    requires
        all_digits(digits),
        0 <= k <= digits.len(),
    ensures
        0 <= decimal_value(digits.take(k)) <= decimal_value(digits),
    decreases digits.len(),
{
    if digits.len() == 0 {
        assert(digits.take(k) =~= digits);
    } else if k == digits.len() {
        assert(digits.take(k) =~= digits);
        lemma_decimal_value_grows(digits.drop_last(), k - 1);
        assert(is_digit(digits.last()));
    } else {
        lemma_decimal_value_grows(digits.drop_last(), k);
        assert(digits.drop_last().take(k) =~= digits.take(k));
        assert(is_digit(digits.last()));
    }
}

/// Reads the decimal integer in `text`, provided it lies between `lo` and
/// `hi`. Negative numbers are read exactly when `lo` is negative.
pub fn parse_integer(text: &str, lo: i128, hi: i128) -> (value: Option<i128>)
    requires
        -0x1_0000_0000_0000_0000 <= lo <= 0,
        0 <= hi <= 0x1_0000_0000_0000_0000,
    ensures
        match value {
            Some(v) => integer_in(text@, lo as int, hi as int) == Some(v as int),
            None => integer_in(text@, lo as int, hi as int).is_none(),
        },
{
    let signed = lo < 0;
    let mut sign_seen = false;
    let mut negative = false;
    let mut any_digit = false;
    let mut first = true;
    let mut limit: i128 = hi;
    let mut acc: i128 = 0;
    for c in it: text.chars()
        invariant
            it.seq() == text@,
            signed == (lo < 0),
            -0x1_0000_0000_0000_0000 <= lo <= 0,
            0 <= hi <= 0x1_0000_0000_0000_0000,
            first == (it.index() == 0),
            sign_seen == (it.index() > 0 && has_sign(text@, signed)),
            negative == (sign_seen && text@[0] == '-'),
            limit == (if negative { -lo } else { hi as int }),
            any_digit == (digits_before(text@, signed, it.index()).len() > 0),
            all_digits(digits_before(text@, signed, it.index())),
            acc == decimal_value(digits_before(text@, signed, it.index())),
            0 <= acc <= limit,
    {
        let ghost i = it.index();
        let ghost before = digits_before(text@, signed, i);
        let ghost after = digits_before(text@, signed, i + 1);
        if first && (c == '+' || (signed && c == '-')) {
            sign_seen = true;
            negative = c == '-';
            if negative {
                limit = -lo;
            }
            assert(after =~= before);
        } else if c >= '0' && c <= '9' {
            let d: i128 = (c as u32 - '0' as u32) as i128;
            let wide: i128 = acc * 10 + d;
            proof {
                assert(after =~= before.push(c));
                assert(after.drop_last() =~= before);
                assert(wide == decimal_value(after));
            }
            if wide > limit {
                proof {
                    let digits = if has_sign(text@, signed) { text@.skip(1) } else { text@ };
                    if all_digits(digits) {
                        assert(digits.take(after.len() as int) =~= after);
                        lemma_decimal_value_grows(digits, after.len() as int);
                    }
                }
                return None;
            }
            acc = wide;
            any_digit = true;
        } else {
            proof {
                let digits = if has_sign(text@, signed) { text@.skip(1) } else { text@ };
                if has_sign(text@, signed) {
                    assert(i >= 1);
                    assert(digits[i - 1] == c);
                } else {
                    assert(digits[i] == c);
                }
                assert(!is_digit(c));
            }
            return None;
        }
        first = false;
    }
    proof {
        let digits = if has_sign(text@, signed) { text@.skip(1) } else { text@ };
        assert(digits_before(text@, signed, text@.len() as int) =~= digits);
    }
    if !any_digit {
        return None;
    }
    if negative {
        Some(-acc)
    } else {
        Some(acc)
    }
}

impl FromText for i32 {
    open spec fn parsed(text: Seq<char>) -> Option<i32> {
        match integer_in(text, i32::MIN as int, i32::MAX as int) {
            Some(v) => Some(v as i32),
            None => None,
        }
    }

    fn from_text(text: &str) -> (value: Option<i32>) {
        match parse_integer(text, i32::MIN as i128, i32::MAX as i128) {
            Some(v) => Some(v as i32),
            None => None,
        }
    }
}

impl FromText for i64 {
    open spec fn parsed(text: Seq<char>) -> Option<i64> {
        match integer_in(text, i64::MIN as int, i64::MAX as int) {
            Some(v) => Some(v as i64),
            None => None,
        }
    }

    fn from_text(text: &str) -> (value: Option<i64>) {
        match parse_integer(text, i64::MIN as i128, i64::MAX as i128) {
            Some(v) => Some(v as i64),
            None => None,
        }
    }
}

impl FromText for u32 {
    open spec fn parsed(text: Seq<char>) -> Option<u32> {
        match integer_in(text, u32::MIN as int, u32::MAX as int) {
            Some(v) => Some(v as u32),
            None => None,
        }
    }

    fn from_text(text: &str) -> (value: Option<u32>) {
        match parse_integer(text, u32::MIN as i128, u32::MAX as i128) {
            Some(v) => Some(v as u32),
            None => None,
        }
    }
}

impl FromText for u64 {
    open spec fn parsed(text: Seq<char>) -> Option<u64> {
        match integer_in(text, u64::MIN as int, u64::MAX as int) {
            Some(v) => Some(v as u64),
            None => None,
        }
    }

    fn from_text(text: &str) -> (value: Option<u64>) {
        match parse_integer(text, u64::MIN as i128, u64::MAX as i128) {
            Some(v) => Some(v as u64),
            None => None,
        }
    }
}

impl FromText for usize {
    open spec fn parsed(text: Seq<char>) -> Option<usize> {
        match integer_in(text, usize::MIN as int, usize::MAX as int) {
            Some(v) => Some(v as usize),
            None => None,
        }
    }

    fn from_text(text: &str) -> (value: Option<usize>) {
        match parse_integer(text, usize::MIN as i128, usize::MAX as i128) {
            Some(v) => Some(v as usize),
            None => None,
        }
    }
}

/// Whether `c` is `+` or `-`.
pub open spec fn is_sign(c: char) -> bool {
    c == '+' || c == '-'
}

/// Whether `c` is a given letter in either case.
pub open spec fn is_letter(c: char, lower: char, upper: char) -> bool {
    c == lower || c == upper
}

/// The position just past the run of decimal digits of `s` that starts at
/// `from`; `from` itself where no digit stands there.
pub open spec fn digits_end(s: Seq<char>, from: int) -> int
    decreases s.len() - from,
{
    if 0 <= from < s.len() && is_digit(s[from]) {
        digits_end(s, from + 1)
    } else {
        from
    }
}

/// Whether `s` from position `at` to its end is an exponent: `e` or `E`, an
/// optional sign, and one or more digits.
pub open spec fn is_exponent_text(s: Seq<char>, at: int) -> bool {
    &&& 0 <= at < s.len()
    &&& is_letter(s[at], 'e', 'E')
    &&& {
        let first = if at + 1 < s.len() && is_sign(s[at + 1]) { at + 2 } else { at + 1 };
        first < digits_end(s, first) == s.len()
    }
}

/// Whether `s` from position `from` to its end is a decimal number: digits
/// with at most one `.` among them, before them or after them, at least one
/// digit in all, and then an optional exponent.
pub open spec fn is_number_text(s: Seq<char>, from: int) -> bool {
    let whole_end = digits_end(s, from);
    let has_point = whole_end < s.len() && s[whole_end] == '.';
    let mantissa_end = if has_point { digits_end(s, whole_end + 1) } else { whole_end };
    let digit_count = if has_point { mantissa_end - from - 1 } else { mantissa_end - from };
    &&& digit_count > 0
    &&& (mantissa_end == s.len() || is_exponent_text(s, mantissa_end))
}

/// Whether `s` from position `from` to its end spells `inf`, `infinity` or
/// `nan`, in any mix of upper and lower case.
pub open spec fn is_special_text(s: Seq<char>, from: int) -> bool {
    let w = s.skip(from);
    let inf = is_letter(w[0], 'i', 'I') && is_letter(w[1], 'n', 'N') && is_letter(w[2], 'f', 'F');
    let nan = is_letter(w[0], 'n', 'N') && is_letter(w[1], 'a', 'A') && is_letter(w[2], 'n', 'N');
    let inity = is_letter(w[3], 'i', 'I') && is_letter(w[4], 'n', 'N') && is_letter(w[5], 'i', 'I')
        && is_letter(w[6], 't', 'T') && is_letter(w[7], 'y', 'Y');
    ||| w.len() == 3 && (inf || nan)
    ||| w.len() == 8 && inf && inity
}

/// Whether `s` reads as a floating-point number: an optional sign, then a
/// decimal number or one of the special words. Surrounding blanks, digit
/// separators and anything else make the text read as no number.
pub open spec fn is_float_text(s: Seq<char>) -> bool {
    &&& s.len() > 0
    &&& {
        let from = if is_sign(s[0]) { 1int } else { 0int };
        is_number_text(s, from) || is_special_text(s, from)
    }
}

/// The characters of `text`, one by one.
fn chars_of(text: &str) -> (chars: Vec<char>)
    ensures
        chars@ == text@,
{
    let mut chars: Vec<char> = Vec::new();
    for c in it: text.chars()
        invariant
            it.seq() == text@,
            chars@ == text@.take(it.index()),
    {
        chars.push(c);
    }
    chars
}

/// Steps over the decimal digits that start at `from`.
fn skip_digits(s: &Vec<char>, from: usize) -> (end: usize)
    requires
        from <= s.len(),
    ensures
        end == digits_end(s@, from as int),
        from <= end <= s.len(),
{
    let mut end = from;
    while end < s.len() && s[end] >= '0' && s[end] <= '9'
        invariant
            from <= end <= s.len(),
            digits_end(s@, from as int) == digits_end(s@, end as int),
        decreases s.len() - end,
    {
        end = end + 1;
    }
    end
}

fn same_letter(c: char, lower: char, upper: char) -> (b: bool)
    ensures
        b == is_letter(c, lower, upper),
{
    c == lower || c == upper
}

fn special_at(s: &Vec<char>, from: usize) -> (b: bool)
    requires
        from <= s.len(),
    ensures
        b == is_special_text(s@, from as int),
{
    let n = s.len() - from;
    if n != 3 && n != 8 {
        return false;
    }
    proof {
        let w = s@.skip(from as int);
        assert(forall|i: int| 0 <= i < w.len() ==> w[i] == s@[from + i]);
    }
    let inf = same_letter(s[from], 'i', 'I') && same_letter(s[from + 1], 'n', 'N') && same_letter(
        s[from + 2],
        'f',
        'F',
    );
    if n == 3 {
        let nan = same_letter(s[from], 'n', 'N') && same_letter(s[from + 1], 'a', 'A')
            && same_letter(s[from + 2], 'n', 'N');
        inf || nan
    } else {
        inf && same_letter(s[from + 3], 'i', 'I') && same_letter(s[from + 4], 'n', 'N')
            && same_letter(s[from + 5], 'i', 'I') && same_letter(s[from + 6], 't', 'T')
            && same_letter(s[from + 7], 'y', 'Y')
    }
}

fn exponent_at(s: &Vec<char>, at: usize) -> (b: bool)
    requires
        at < s.len(),
    ensures
        b == is_exponent_text(s@, at as int),
{
    if !same_letter(s[at], 'e', 'E') {
        return false;
    }
    let first = if at + 1 < s.len() && (s[at + 1] == '+' || s[at + 1] == '-') {
        at + 2
    } else {
        at + 1
    };
    let end = skip_digits(s, first);
    first < end && end == s.len()
}

fn number_at(s: &Vec<char>, from: usize) -> (b: bool)
    requires
        from <= s.len(),
    ensures
        b == is_number_text(s@, from as int),
{
    let whole_end = skip_digits(s, from);
    let has_point = whole_end < s.len() && s[whole_end] == '.';
    let mantissa_end = if has_point { skip_digits(s, whole_end + 1) } else { whole_end };
    let digit_count = if has_point { mantissa_end - from - 1 } else { mantissa_end - from };
    if digit_count == 0 {
        return false;
    }
    mantissa_end == s.len() || exponent_at(s, mantissa_end)
}

/// Tells whether `text` reads as a floating-point number.
pub fn reads_as_float(text: &str) -> (b: bool)
    ensures
        b == is_float_text(text@),
{
    let s = chars_of(text);
    if s.len() == 0 {
        return false;
    }
    let from: usize = if s[0] == '+' || s[0] == '-' { 1 } else { 0 };
    number_at(&s, from) || special_at(&s, from)
}

/// Where only digits stand from `from` on, the run of digits ends with `s`.
proof fn lemma_digits_end_of_digits(s: Seq<char>, from: int)
    requires
        0 <= from <= s.len(),
        forall|i: int| from <= i < s.len() ==> is_digit(#[trigger] s[i]),
    ensures
        digits_end(s, from) == s.len(),
    decreases s.len() - from,
{
    if from < s.len() {
        lemma_digits_end_of_digits(s, from + 1);
    }
}

/// Every text that reads as an integer reads as a floating-point number too,
/// so the order of the two attempts decides what such a text becomes.
pub proof fn lemma_integer_reads_as_float(text: Seq<char>)
    requires
        integer_text(text, true).is_some(),
    ensures
        is_float_text(text),
{
    let from = if has_sign(text, true) { 1int } else { 0int };
    let digits = if has_sign(text, true) { text.skip(1) } else { text };
    assert(all_digits(digits));
    assert forall|i: int| from <= i < text.len() implies is_digit(#[trigger] text[i]) by {
        assert(text[i] == digits[i - from]);
    }
    lemma_digits_end_of_digits(text, from);
}

} // verus!
