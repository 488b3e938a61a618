//! Parsing integers out of text, with the exact condition under which a
//! parse succeeds.

use vstd::prelude::*;

verus! {

/// The value of a decimal digit character, if it is one.
pub open spec fn digit_of(c: char) -> Option<int> {
    if c == '0' {
        Some(0int)
    } else if c == '1' {
        Some(1int)
    } else if c == '2' {
        Some(2int)
    } else if c == '3' {
        Some(3int)
    } else if c == '4' {
        Some(4int)
    } else if c == '5' {
        Some(5int)
    } else if c == '6' {
        Some(6int)
    } else if c == '7' {
        Some(7int)
    } else if c == '8' {
        Some(8int)
    } else if c == '9' {
        Some(9int)
    } else {
        None
    }
}

/// Whether every character of `s` is a decimal digit.
pub open spec fn all_digits(s: Seq<char>) -> bool {
    forall|i: int| 0 <= i < s.len() ==> #[trigger] digit_of(s[i]) is Some
}

/// The number written by a sequence of decimal digits, most significant
/// digit first.
pub open spec fn digits_val(s: Seq<char>) -> int
    decreases s.len(),
{
    if s.len() == 0 {
        0
    } else {
        match digit_of(s.last()) {
            Some(d) => 10 * digits_val(s.drop_last()) + d,
            None => 0,
        }
    }
}

/// What parsing a piece of text as an `i32` yields: an optional `+` or `-`
/// sign followed by one or more decimal digits, whose value fits in `i32`;
/// anything else is rejected.
pub open spec fn parsed_i32(s: Seq<char>) -> Option<i32> {
    let neg = s.len() > 0 && s[0] == '-';
    let body = if s.len() > 0 && (s[0] == '-' || s[0] == '+') {
        s.drop_first()
    } else {
        s
    };
    if body.len() > 0 && all_digits(body) {
        let v = if neg {
            -digits_val(body)
        } else {
            digits_val(body)
        };
        if i32::MIN <= v <= i32::MAX {
            Some(v as i32)
        } else {
            None
        }
    } else {
        None
    }
}

#[verifier::external_type_specification]
#[verifier::external_body]
pub struct ExParseIntError(core::num::ParseIntError);

/// Relies on `str::parse::<i32>` (core's `FromStr` for `i32`): it succeeds
/// exactly on an optional sign followed by decimal digits whose value fits
/// in `i32`, and then returns that value.
#[verifier::external_body]
fn parse_i32(s: &str) -> (r: Result<i32, core::num::ParseIntError>)
    ensures
        r is Ok <==> parsed_i32(s@) is Some,
        r matches Ok(v) ==> parsed_i32(s@) == Some(v),
{
    s.parse::<i32>()
}

/// Parses `"123"` and then `"24a"`. The second text has a letter where only
/// digits may stand, so this function always reports that parse's error.
pub fn try_to_parse() -> (r: Result<i32, core::num::ParseIntError>)
    ensures
        r is Err,
{
    let x: i32 = match parse_i32("123") {
        Ok(v) => v,
        Err(e) => return Err(e),
    };
    let y: i32 = match parse_i32("24a") {
        Ok(v) => v,
        Err(e) => return Err(e),
    };
    proof {
        reveal_strlit("24a");
        assert(digit_of("24a"@[2]) is None);
        assert(parsed_i32("24a"@) is None);
        assert(false);
    }
    Ok(x + y)
}

} // verus!
