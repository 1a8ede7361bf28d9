//! Code units written as four hexadecimal digits, and the decoding of a run
//! of UTF-16 code units into characters.

use vstd::prelude::*;
use crate::error::ErrorType;

verus! {

/// `char::from_u32` gives the character with the number `i`, if there is
/// one: every number up to 0x10FFFF but the surrogates 0xD800 to 0xDFFF.
pub assume_specification[ char::from_u32 ](i: u32) -> (c: Option<char>)
    ensures
        c == if i <= 0xD7FF || 0xE000 <= i <= 0x10FFFF {
            Some(i as char)
        } else {
            None::<char>
        },
;

/// The value of a hexadecimal digit.
pub open spec fn hex_digit(c: char) -> Option<nat> {
    if '0' <= c <= '9' {
        Some((c as nat - '0' as nat) as nat)
    } else if 'a' <= c <= 'f' {
        Some((c as nat - 'a' as nat + 10) as nat)
    } else if 'A' <= c <= 'F' {
        Some((c as nat - 'A' as nat + 10) as nat)
    } else {
        None
    }
}

/// Every character of `s` is a hexadecimal digit.
pub open spec fn all_hex(s: Seq<char>) -> bool {
    forall|i: int| 0 <= i < s.len() ==> (#[trigger] hex_digit(s[i])) is Some
}

/// The number that the hexadecimal digits `s` write.
pub open spec fn hex_value(s: Seq<char>) -> nat
    decreases s.len(),
{
    if s.len() == 0 {
        0
    } else {
        hex_value(s.drop_last()) * 16 + hex_digit(s.last())->0
    }
}

/// `s` without a leading `+`.
pub open spec fn unsigned_part(s: Seq<char>) -> Seq<char> {
    if s.len() > 0 && s[0] == '+' {
        s.skip(1)
    } else {
        s
    }
}

/// The 16-bit number that `s` writes in base 16: an optional `+`, then at
/// least one hexadecimal digit, of either case.
pub open spec fn radix16(s: Seq<char>) -> Option<u16> {
    let digits = unsigned_part(s);
    if digits.len() > 0 && all_hex(digits) && hex_value(digits) <= u16::MAX {
        Some(hex_value(digits) as u16)
    } else {
        None
    }
}

/// The error that `u16::from_str_radix` returns for text that is no number
/// in base 16.
pub uninterp spec fn radix16_failure(s: Seq<char>) -> std::num::ParseIntError;

/// `u16::from_str_radix` reads text as a number in the base `radix`, which
/// must be from 2 to 36. In base 16 it returns the number that [`radix16`]
/// describes where there is one, and else an error that is a function of the
/// text. Nothing is said here of other bases.
pub assume_specification[ u16::from_str_radix ](src: &str, radix: u32) -> (r: Result<
    u16,
    std::num::ParseIntError,
>)
    requires
        2 <= radix <= 36,
    ensures
        radix == 16 ==> (r matches Ok(v) ==> radix16(src@) == Some(v)),
        radix == 16 ==> (r matches Err(e) ==> radix16(src@) is None && e == radix16_failure(src@)),
;

/// The code unit that the four characters after `\u` write. They must be
/// four hexadecimal digits: a sign is no digit.
pub open spec fn code_unit(digits: Seq<char>) -> Result<u16, ErrorType> {
    if digits.len() > 0 && digits[0] == '+' {
        Err(ErrorType::MalformedEscape)
    } else if digits.len() > 0 && all_hex(digits) && hex_value(digits) <= u16::MAX {
        Ok(hex_value(digits) as u16)
    } else {
        Err(ErrorType::Unicode(radix16_failure(digits)))
    }
}

/// Reads the characters after `\u` as one code unit.
pub fn parse_code_unit(digits: &str) -> (r: Result<u16, ErrorType>)
    ensures
        r == code_unit(digits@),
{
    let signed = digits.unicode_len() > 0 && digits.get_char(0) == '+';
    if signed {
        return Err(ErrorType::MalformedEscape);
    }
    match u16::from_str_radix(digits, 16) {
        Ok(unit) => Ok(unit),
        Err(e) => Err(ErrorType::Unicode(e)),
    }
}

/// Four hexadecimal digits always write a code unit: the first digit
/// counts 4096, the second 256, the third 16 and the last 1.
pub proof fn lemma_code_unit_of_digits(digits: Seq<char>)
    requires
        digits.len() == 4,
        all_hex(digits),
    ensures
        code_unit(digits) == Ok::<u16, ErrorType>(
            (hex_digit(digits[0])->0 * 4096 + hex_digit(digits[1])->0 * 256 + hex_digit(
                digits[2],
            )->0 * 16 + hex_digit(digits[3])->0) as u16,
        ),
{
    let d3 = digits.drop_last();
    let d2 = d3.drop_last();
    let d1 = d2.drop_last();
    assert(hex_value(d1.drop_last()) == 0);
    assert(hex_digit(digits[0]) is Some && hex_digit(digits[1]) is Some && hex_digit(digits[2])
        is Some && hex_digit(digits[3]) is Some);
    assert(hex_value(d1) == hex_digit(digits[0])->0);
    assert(hex_value(d2) == hex_value(d1) * 16 + hex_digit(digits[1])->0);
    assert(hex_value(d3) == hex_value(d2) * 16 + hex_digit(digits[2])->0);
}

/// A high surrogate and a low surrogate are one character; a surrogate
/// alone is none.
pub proof fn lemma_decode_surrogates(high: u16, low: u16)
    requires
        is_high_surrogate(high),
        is_low_surrogate(low),
    ensures
        decode_utf16(seq![high, low]) == Some(seq![pair_scalar(high, low)]),
        decode_utf16(seq![high]) is None,
        decode_utf16(seq![low]) is None,
        decode_utf16(seq![low, high]) is None,
{
    assert(seq![high, low].skip(2) == Seq::<u16>::empty());
    assert(decode_utf16(Seq::<u16>::empty()) == Some(Seq::<char>::empty()));
    assert(seq![pair_scalar(high, low)] + Seq::<char>::empty() == seq![pair_scalar(high, low)]);
}

/// The first unit of a surrogate pair.
pub open spec fn is_high_surrogate(u: u16) -> bool {
    0xD800 <= u <= 0xDBFF
}

/// The second unit of a surrogate pair.
pub open spec fn is_low_surrogate(u: u16) -> bool {
    0xDC00 <= u <= 0xDFFF
}

/// The character that a surrogate pair encodes.
pub open spec fn pair_scalar(high: u16, low: u16) -> char {
    (0x10000 + (high - 0xD800) * 0x400 + (low - 0xDC00)) as char
}

/// The characters that a run of UTF-16 code units encodes, or nothing if a
/// surrogate stands without its partner.
pub open spec fn decode_utf16(units: Seq<u16>) -> Option<Seq<char>>
    decreases units.len(),
{
    if units.len() == 0 {
        Some(Seq::empty())
    } else if !is_high_surrogate(units[0]) && !is_low_surrogate(units[0]) {
        match decode_utf16(units.skip(1)) {
            Some(rest) => Some(seq![units[0] as char] + rest),
            None => None,
        }
    } else if is_high_surrogate(units[0]) && units.len() >= 2 && is_low_surrogate(units[1]) {
        match decode_utf16(units.skip(2)) {
            Some(rest) => Some(seq![pair_scalar(units[0], units[1])] + rest),
            None => None,
        }
    } else {
        None
    }
}

/// Decodes a run of UTF-16 code units.
pub fn decode_units(units: &Vec<u16>) -> (decoded: Option<String>)
    ensures
        match decode_utf16(units@) {
            Some(chars) => decoded matches Some(text) && text@ == chars,
            None => decoded is None,
        },
{
    let mut out = String::new();
    let mut i: usize = 0;
    proof {
        assert(units@.skip(0) == units@);
        if let Some(all) = decode_utf16(units@) {
            assert(out@ + all == all);
        }
    }
    while i < units.len()
        invariant
            i <= units@.len(),
            match decode_utf16(units@.skip(i as int)) {
                Some(rest) => decode_utf16(units@) == Some(out@ + rest),
                None => decode_utf16(units@) is None,
            },
        decreases units@.len() - i,
    {
        let unit: u16 = units[i];
        let ghost here = units@.skip(i as int);
        let ghost before = out@;
        assert(here[0] == unit);
        if unit < 0xD800 || unit > 0xDFFF {
            assert(here.skip(1) == units@.skip(i + 1));
            match char::from_u32(unit as u32) {
                Some(c) => {
                    out.push(c);
                },
                None => {
                    return None;
                },
            }
            proof {
                if let Some(rest) = decode_utf16(units@.skip(i + 1)) {
                    assert(before + (seq![unit as char] + rest) == out@ + rest);
                }
            }
            i += 1;
        } else if unit <= 0xDBFF && i + 1 < units.len() && 0xDC00 <= units[i + 1] && units[i + 1]
            <= 0xDFFF {
            let low: u16 = units[i + 1];
            assert(here[1] == low);
            assert(here.skip(2) == units@.skip(i + 2));
            let scalar: u32 = 0x10000 + ((unit - 0xD800) as u32) * 0x400 + ((low - 0xDC00) as u32);
            match char::from_u32(scalar) {
                Some(c) => {
                    out.push(c);
                },
                None => {
                    return None;
                },
            }
            proof {
                if let Some(rest) = decode_utf16(units@.skip(i + 2)) {
                    assert(before + (seq![pair_scalar(unit, low)] + rest) == out@ + rest);
                }
            }
            i += 2;
        } else {
            return None;
        }
    }
    assert(units@.skip(i as int) == Seq::<u16>::empty());
    assert(out@ + Seq::<char>::empty() == out@);
    Some(out)
}

} // verus!
