//! Reading and classifying numbers and characters.
use vstd::prelude::*;

verus! {

#[verifier::external_type_specification]
#[verifier::external_body]
pub struct ExParseIntError(std::num::ParseIntError);

/// Whether `char::is_numeric` holds of `c`: the Unicode general categories
/// for numbers, a table of its own.
pub uninterp spec fn char_numeric(c: char) -> bool;

/// Whether `char::is_alphanumeric` holds of `c`: the Unicode `Alphabetic`
/// property or the number categories.
pub uninterp spec fn char_alphanumeric(c: char) -> bool;

/// `char::is_numeric`; among ASCII characters it holds of the digits
/// `0`-`9` alone, as its documentation's categories give.
#[verifier::external_body]
pub(crate) fn char_is_numeric(c: char) -> (b: bool)
    ensures
        b == char_numeric(c),
        c <= '\x7f' ==> (b <==> ('0' <= c && c <= '9')),
{
    c.is_numeric()
}

/// `char::is_alphanumeric`; among ASCII characters it holds of the
/// letters and the digits alone, as its documentation's categories give.
#[verifier::external_body]
pub(crate) fn char_is_alphanumeric(c: char) -> (b: bool)
    ensures
        b == char_alphanumeric(c),
        c <= '\x7f' ==> (b <==> (('0' <= c && c <= '9') || ('a' <= c && c <= 'z') || ('A' <= c
            && c <= 'Z'))),
{
    c.is_alphanumeric()
}

/// The value of a digit in the bases up to 36 (`0-9`, `a-z`, `A-Z`), or 36
/// for a character that is no digit.
pub open spec fn digit_value(c: char) -> int {
    if '0' <= c && c <= '9' {
        c as int - '0' as int
    } else if 'a' <= c && c <= 'z' {
        c as int - 'a' as int + 10
    } else if 'A' <= c && c <= 'Z' {
        c as int - 'A' as int + 10
    } else {
        36
    }
}

/// The number that the digits `s` write in base `radix`.
pub open spec fn digits_value(s: Seq<char>, radix: int) -> int
    decreases s.len(),
{
    if s.len() == 0 {
        0
    } else {
        digits_value(s.drop_last(), radix) * radix + digit_value(s.last())
    }
}

/// `s` without a leading `+` or `-`.
pub open spec fn sign_stripped(s: Seq<char>) -> Seq<char> {
    if s.len() > 0 && (s[0] == '+' || s[0] == '-') {
        s.drop_first()
    } else {
        s
    }
}

/// Every character of `d` is a digit of base `radix`.
pub open spec fn all_digits(d: Seq<char>, radix: int) -> bool {
    forall|i: int| 0 <= i < d.len() ==> #[trigger] digit_value(d[i]) < radix
}

/// The `i64` that `s` writes in base `radix`, as `i64::from_str_radix`
/// documents it: an optional `+` or `-`, then one or more digits of the
/// base, with a value that fits an `i64`.
pub open spec fn parse_int_radix(s: Seq<char>, radix: int) -> Option<int> {
    let neg = s.len() > 0 && s[0] == '-';
    let digits = sign_stripped(s);
    if digits.len() == 0 || !all_digits(digits, radix) {
        None
    } else {
        let v = if neg {
            -digits_value(digits, radix)
        } else {
            digits_value(digits, radix)
        };
        if i64::MIN <= v <= i64::MAX {
            Some(v)
        } else {
            None
        }
    }
}

/// `i64::from_str_radix`: documented to read an optional sign and digits of
/// the base, and to fail on anything else or on a value past the `i64` range.
#[verifier::external_body]
pub(crate) fn i64_from_str_radix(s: &str, radix: u32) -> (r: Result<i64, std::num::ParseIntError>)
    requires
        2 <= radix <= 36,
    ensures
        r is Ok <==> parse_int_radix(s@, radix as int) is Some,
        r matches Ok(v) ==> parse_int_radix(s@, radix as int) == Some(v as int),
{
    i64::from_str_radix(s, radix)
}

/// `str::parse::<i64>`, which `i64`'s `FromStr` documents as reading base 10
/// as `from_str_radix` does.
#[verifier::external_body]
pub(crate) fn i64_parse(s: &str) -> (r: Result<i64, std::num::ParseIntError>)
    ensures
        r is Ok <==> parse_int_radix(s@, 10) is Some,
        r matches Ok(v) ==> parse_int_radix(s@, 10) == Some(v as int),
{
    s.parse::<i64>()
}

} // verus!
