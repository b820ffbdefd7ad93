//! Record text in the database's text encoding: UTF-8, or UTF-16 in either
//! byte order.
use vstd::prelude::*;
use vstd::utf8::{decode_utf8, valid_utf8};

use crate::geometry::TextEncoding;

verus! {

/// The UTF-16 code units stored in `raw`, two bytes each, in the given byte order.
pub open spec fn utf16_units(raw: Seq<u8>, little: bool) -> Seq<u16> {
    Seq::new(
        raw.len() / 2,
        |i: int|
            if little {
                (raw[2 * i] as int + raw[2 * i + 1] as int * 256) as u16
            } else {
                (raw[2 * i] as int * 256 + raw[2 * i + 1] as int) as u16
            },
    )
}

pub open spec fn is_high_surrogate(unit: u16) -> bool {
    0xD800 <= unit <= 0xDBFF
}

pub open spec fn is_low_surrogate(unit: u16) -> bool {
    0xDC00 <= unit <= 0xDFFF
}

/// The character that a surrogate pair encodes.
pub open spec fn pair_char(high: u16, low: u16) -> char {
    (0x10000 + (high - 0xD800) * 0x400 + (low - 0xDC00)) as char
}

/// UTF-16 decoding from unit `i` on: a high surrogate followed by a low one
/// is one character, any other surrogate is invalid, and every other unit is
/// itself a character.
pub open spec fn decode_from(units: Seq<u16>, i: int) -> Option<Seq<char>>
    decreases units.len() - i,
{
    if i < 0 || i >= units.len() {
        Some(seq![])
    } else if is_high_surrogate(units[i]) {
        if i + 1 < units.len() && is_low_surrogate(units[i + 1]) {
            match decode_from(units, i + 2) {
                Some(rest) => Some(seq![pair_char(units[i], units[i + 1])] + rest),
                None => None,
            }
        } else {
            None
        }
    } else if is_low_surrogate(units[i]) {
        None
    } else {
        match decode_from(units, i + 1) {
            Some(rest) => Some(seq![units[i] as char] + rest),
            None => None,
        }
    }
}

/// The characters that valid UTF-16 `units` encode.
pub open spec fn decode_utf16(units: Seq<u16>) -> Option<Seq<char>> {
    decode_from(units, 0)
}

/// The number of bytes that UTF-8 takes for `c`.
pub open spec fn utf8_width(c: char) -> int {
    if (c as u32) < 0x80 {
        1
    } else if (c as u32) < 0x800 {
        2
    } else if (c as u32) < 0x10000 {
        3
    } else {
        4
    }
}

/// The number of bytes that UTF-8 takes for `chars`.
pub open spec fn utf8_total(chars: Seq<char>) -> int
    decreases chars.len(),
{
    if chars.len() == 0 {
        0
    } else {
        utf8_total(chars.drop_last()) + utf8_width(chars.last())
    }
}

/// The characters that `raw` holds in `encoding`, if it holds valid text.
pub open spec fn spec_decode_text(raw: Seq<u8>, encoding: TextEncoding) -> Option<Seq<char>> {
    match encoding {
        TextEncoding::Utf8 => if valid_utf8(raw) { Some(decode_utf8(raw)) } else { None },
        TextEncoding::Utf16Le => if raw.len() % 2 == 0 { decode_utf16(utf16_units(raw, true)) } else { None },
        TextEncoding::Utf16Be => if raw.len() % 2 == 0 { decode_utf16(utf16_units(raw, false)) } else { None },
    }
}

/// Whether `raw` is valid UTF-8, as `std::str::from_utf8` decides it. The
/// standard library validates UTF-8 as the Unicode standard defines it: no
/// overlong forms, no surrogates, nothing above U+10FFFF; `valid_utf8` states
/// the same definition.
#[verifier::external_body]
fn is_utf8(raw: &[u8]) -> (r: bool)
    ensures
        r == valid_utf8(raw@),
{
    std::str::from_utf8(raw).is_ok()
}

/// `String::from_utf8`: the text of `bytes` when they are valid UTF-8. The
/// standard library returns an error exactly for invalid UTF-8, and otherwise
/// a string of the characters the bytes encode.
#[verifier::external_body]
fn string_from_utf8(bytes: Vec<u8>) -> (r: Option<String>)
    ensures
        r is Some <==> valid_utf8(bytes@),
        r matches Some(s) ==> s@ == decode_utf8(bytes@),
{
    String::from_utf8(bytes).ok()
}

/// `String::from_utf16`: the text of `units` when they are valid UTF-16. The
/// standard library returns an error exactly when a surrogate is unpaired,
/// and otherwise the string of the decoded characters.
#[verifier::external_body]
fn string_from_utf16(units: &[u16]) -> (r: Option<String>)
    ensures
        match decode_utf16(units@) {
            Some(chars) => r matches Some(s) && s@ == chars,
            None => r is None,
        },
{
    String::from_utf16(units).ok()
}

/// The UTF-16 code units stored in `raw`.
pub fn utf16_units_of(raw: &[u8], little: bool) -> (r: Vec<u16>)
    requires
        raw@.len() % 2 == 0,
    ensures
        r@ == utf16_units(raw@, little),
{
    let mut units: Vec<u16> = Vec::new();
    let mut i: usize = 0;
    while i < raw.len() / 2
        invariant
            raw@.len() % 2 == 0,
            i <= raw@.len() / 2,
            units@ == utf16_units(raw@, little).subrange(0, i as int),
        decreases raw@.len() / 2 - i,
    {
        let first = raw[2 * i] as u16;
        let second = raw[2 * i + 1] as u16;
        let unit = if little { first + second * 256 } else { first * 256 + second };
        units.push(unit);
        assert(units@ =~= utf16_units(raw@, little).subrange(0, i + 1));
        i = i + 1;
    }
    assert(units@ =~= utf16_units(raw@, little));
    units
}

/// The UTF-8 length of the text that `units` encode, when they are valid UTF-16.
pub fn utf16_text_length(units: &Vec<u16>) -> (r: Option<u64>)
    requires
        units@.len() <= 0x3fff_ffff_ffff_ffff,
    ensures
        match decode_utf16(units@) {
            Some(chars) => r == Some(utf8_total(chars) as u64) && 0 <= utf8_total(chars) <= 3 * units@.len(),
            None => r is None,
        },
{
    let mut total: u64 = 0;
    let mut i: usize = 0;
    let ghost mut decoded: Seq<char> = seq![];
    while i < units.len()
        invariant
            i <= units@.len(),
            units@.len() <= 0x3fff_ffff_ffff_ffff,
            total <= 3 * i,
            total == utf8_total(decoded),
            decode_utf16(units@) == match decode_from(units@, i as int) {
                Some(rest) => Some(decoded + rest),
                None => None::<Seq<char>>,
            },
        decreases units@.len() - i,
    {
        let unit = units[i];
        if 0xD800 <= unit && unit <= 0xDBFF {
            if i + 1 < units.len() && 0xDC00 <= units[i + 1] && units[i + 1] <= 0xDFFF {
                proof {
                    let c = pair_char(unit, units@[i + 1]);
                    assert(c as u32 >= 0x10000);
                    assert(decoded.push(c).drop_last() =~= decoded);
                    match decode_from(units@, i + 2) {
                        Some(rest) => {
                            assert(decoded + (seq![c] + rest) =~= decoded.push(c) + rest);
                        },
                        None => {},
                    }
                    decoded = decoded.push(c);
                }
                total = total + 4;
                i = i + 2;
            } else {
                return None;
            }
        } else if 0xDC00 <= unit && unit <= 0xDFFF {
            return None;
        } else {
            let width: u64 = if unit < 0x80 { 1 } else if unit < 0x800 { 2 } else { 3 };
            proof {
                let c = unit as char;
                assert(c as u32 == unit);
                assert(decoded.push(c).drop_last() =~= decoded);
                match decode_from(units@, i + 1) {
                    Some(rest) => {
                        assert(decoded + (seq![c] + rest) =~= decoded.push(c) + rest);
                    },
                    None => {},
                }
                decoded = decoded.push(c);
            }
            total = total + width;
            i = i + 1;
        }
    }
    proof {
        assert(decoded + seq![] =~= decoded);
    }
    Some(total)
}

/// The UTF-8 length that the text in `raw` decodes to, if it is valid text.
pub open spec fn spec_text_length(raw: Seq<u8>, encoding: TextEncoding) -> Option<int> {
    match encoding {
        TextEncoding::Utf8 => if valid_utf8(raw) { Some(raw.len() as int) } else { None },
        _ => match spec_decode_text(raw, encoding) {
            Some(chars) => Some(utf8_total(chars)),
            None => None,
        },
    }
}

/// Measures the text in `raw` before any string is built: its UTF-8 length,
/// or an error when it is not valid text in `encoding`.
pub fn decoded_text_length(raw: &[u8], encoding: TextEncoding) -> (r: Result<u64, ()>)
    requires
        raw@.len() <= isize::MAX,
    ensures
        spec_text_length(raw@, encoding) matches Some(n) ==> 0 <= n <= 2 * raw@.len(),
        match spec_text_length(raw@, encoding) {
            Some(n) => r == Ok::<u64, ()>(n as u64),
            None => r is Err,
        },
{
    match encoding {
        TextEncoding::Utf8 => {
            if is_utf8(raw) {
                Ok(raw.len() as u64)
            } else {
                Err(())
            }
        },
        _ => {
            if raw.len() % 2 != 0 {
                return Err(());
            }
            let little = match encoding {
                TextEncoding::Utf16Le => true,
                _ => false,
            };
            let units = utf16_units_of(raw, little);
            match utf16_text_length(&units) {
                Some(n) => Ok(n),
                None => Err(()),
            }
        },
    }
}

/// A copy of `raw`.
pub fn copy_bytes(raw: &[u8]) -> (r: Vec<u8>)
    ensures
        r@ == raw@,
{
    let mut bytes: Vec<u8> = Vec::new();
    let mut i: usize = 0;
    while i < raw.len()
        invariant
            i <= raw@.len(),
            bytes@ == raw@.subrange(0, i as int),
        decreases raw@.len() - i,
    {
        bytes.push(raw[i]);
        assert(bytes@ =~= raw@.subrange(0, i + 1));
        i = i + 1;
    }
    assert(raw@.subrange(0, raw@.len() as int) =~= raw@);
    bytes
}

/// Decodes the text in `raw`, or reports that it is not valid text in `encoding`.
pub fn decode_text(raw: &[u8], encoding: TextEncoding) -> (r: Result<String, ()>)
    ensures
        match spec_decode_text(raw@, encoding) {
            Some(chars) => r matches Ok(s) && s@ == chars,
            None => r is Err,
        },
{
    match encoding {
        TextEncoding::Utf8 => match string_from_utf8(copy_bytes(raw)) {
            Some(s) => Ok(s),
            None => Err(()),
        },
        _ => {
            if raw.len() % 2 != 0 {
                return Err(());
            }
            let little = match encoding {
                TextEncoding::Utf16Le => true,
                _ => false,
            };
            let units = utf16_units_of(raw, little);
            match string_from_utf16(units.as_slice()) {
                Some(s) => Ok(s),
                None => Err(()),
            }
        },
    }
}

} // verus!
