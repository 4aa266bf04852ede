//! Character-level helpers shared by the lexer and the parser: character
//! classification, and conversions between `String` and `Vec<char>`.
use vstd::prelude::*;
use vstd::string::StrSliceExecFns;

verus! {

/// ASCII whitespace, as std documents it: space, horizontal tab, line feed,
/// form feed, carriage return.
pub open spec fn is_json_ws(c: char) -> bool {
    c == ' ' || c == '\t' || c == '\n' || c == '\u{0c}' || c == '\r'
}

/// An ASCII decimal digit.
pub open spec fn is_digit(c: char) -> bool {
    48 <= c as u32 && c as u32 <= 57
}

/// An ASCII hexadecimal digit, either case.
pub open spec fn is_hex_digit(c: char) -> bool {
    is_digit(c) || (97 <= c as u32 && c as u32 <= 102) || (65 <= c as u32 && c as u32 <= 70)
}

/// The numeric value of a hexadecimal digit.
pub open spec fn hex_digit_value(c: char) -> u32 {
    if is_digit(c) {
        (c as u32 - 48) as u32
    } else if 97 <= c as u32 && c as u32 <= 102 {
        (c as u32 - 87) as u32
    } else {
        (c as u32 - 55) as u32
    }
}

/// Whether `c` is ASCII whitespace.
pub(crate) fn ws_char(c: char) -> (r: bool)
    ensures
        r == is_json_ws(c),
{
    c == ' ' || c == '\t' || c == '\n' || c == '\u{0c}' || c == '\r'
}

/// Whether `c` is an ASCII decimal digit.
pub(crate) fn digit_char(c: char) -> (r: bool)
    ensures
        r == is_digit(c),
{
    let u = c as u32;
    48 <= u && u <= 57
}

/// The value of `c` as a hexadecimal digit, or `None` if it is not one.
pub(crate) fn hex_char_value(c: char) -> (r: Option<u32>)
    ensures
        r matches Some(v) ==> is_hex_digit(c) && v == hex_digit_value(c),
        r is None ==> !is_hex_digit(c),
{
    let u = c as u32;
    if 48 <= u && u <= 57 {
        Some(u - 48)
    } else if 97 <= u && u <= 102 {
        Some(u - 87)
    } else if 65 <= u && u <= 70 {
        Some(u - 55)
    } else {
        None
    }
}

/// The characters of `s`, in order.
pub(crate) fn chars_of(s: &str) -> (r: Vec<char>)
    ensures
        r@ == s@,
{
    let n: usize = s.unicode_len();
    let mut r: Vec<char> = Vec::new();
    let mut i: usize = 0;
    while i < n
        invariant
            i <= n,
            n == s@.len(),
            r@ == s@.subrange(0, i as int),
        decreases n - i,
    {
        let c = s.get_char(i);
        r.push(c);
        i = i + 1;
        proof {
            assert(r@ =~= s@.subrange(0, i as int));
        }
    }
    proof {
        assert(r@ =~= s@);
    }
    r
}

/// Relies on String's FromIterator implementation over char: collecting
/// characters yields the string of exactly those characters, in order.
#[verifier::external_body]
pub(crate) fn chars_to_string(cs: &Vec<char>) -> (s: String)
    ensures
        s@ == cs@,
{
    cs.iter().collect()
}

/// Relies on char::from_u32: it returns the character with scalar value `v`
/// exactly when `v` is a Unicode scalar value (not a surrogate and at most
/// char::MAX), and `None` otherwise.
#[verifier::external_body]
pub(crate) fn char_from_u32(v: u32) -> (r: Option<char>)
    ensures
        r == (if v < 0xD800 || (0xE000 <= v && v <= 0x10FFFF) {
            Some(v as char)
        } else {
            None::<char>
        }),
{
    char::from_u32(v)
}

} // verus!
