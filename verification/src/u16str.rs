//! Strings of the dictionary: a length, followed by UTF-16 code units in little-endian
//! byte order.
use crate::error::{ErrorKind, NomErr, SudachiNomError, SudachiNomResult};
use crate::text::lemma_encode_push;
use vstd::prelude::*;
use vstd::utf8::*;

verus! {

// ---------------------------------------------------------------------------
// UTF-16
// ---------------------------------------------------------------------------
/// The first half of a surrogate pair.
pub open spec fn is_high_surrogate(unit: u16) -> bool {
    0xD800 <= unit < 0xDC00
}

/// The second half of a surrogate pair.
pub open spec fn is_low_surrogate(unit: u16) -> bool {
    0xDC00 <= unit < 0xE000
}

/// The code point that a surrogate pair stands for.
pub open spec fn pair_code_point(high: u16, low: u16) -> int {
    0x10000 + (high - 0xD800) * 0x400 + (low - 0xDC00)
}

/// The code units of one character.
pub open spec fn encode_char_utf16(c: char) -> Seq<u16> {
    let cp = c as int;
    if cp < 0x10000 {
        seq![cp as u16]
    } else {
        seq![
            (0xD800 + (cp - 0x10000) / 0x400) as u16,
            (0xDC00 + (cp - 0x10000) % 0x400) as u16,
        ]
    }
}

/// The code units of text.
pub open spec fn encode_utf16(s: Seq<char>) -> Seq<u16>
    decreases s.len(),
{
    if s.len() == 0 {
        Seq::empty()
    } else {
        encode_char_utf16(s[0]) + encode_utf16(s.drop_first())
    }
}

/// `c` followed by `rest`, if there is a rest.
pub open spec fn prepend(c: char, rest: Option<Seq<char>>) -> Option<Seq<char>> {
    match rest {
        Some(t) => Some(seq![c] + t),
        None => None,
    }
}

/// The text that code units stand for; there is none if a surrogate has no partner.
pub open spec fn decode_utf16(units: Seq<u16>) -> Option<Seq<char>>
    decreases units.len(),
{
    if units.len() == 0 {
        Some(Seq::empty())
    } else if !is_high_surrogate(units[0]) && !is_low_surrogate(units[0]) {
        prepend(units[0] as char, decode_utf16(units.skip(1)))
    } else if is_high_surrogate(units[0]) && units.len() >= 2 && is_low_surrogate(units[1]) {
        prepend(pair_code_point(units[0], units[1]) as char, decode_utf16(units.skip(2)))
    } else {
        None
    }
}

/// The code units in a byte buffer; the last byte of an odd number of bytes is left out.
pub open spec fn units_of_le_bytes(data: Seq<u8>) -> Seq<u16> {
    Seq::new((data.len() / 2) as nat, |i: int| (data[2 * i] + 0x100 * data[2 * i + 1]) as u16)
}

/// The little-endian bytes of code units.
pub open spec fn le_bytes_of_units(units: Seq<u16>) -> Seq<u8> {
    Seq::new(
        2 * units.len(),
        |j: int|
            if j % 2 == 0 {
                (units[j / 2] % 0x100) as u8
            } else {
                (units[j / 2] / 0x100) as u8
            },
    )
}

/// Returns the string held by bytes in UTF-8, and nothing if they are no UTF-8.
///
/// Stands for `String::from_utf8`: it succeeds on valid UTF-8 and on nothing else, and the
/// string has the given bytes.
#[verifier::external_body]
fn string_from_utf8(bytes: Vec<u8>) -> (r: Option<String>)
    ensures
        r is Some <==> valid_utf8(bytes@),
        r matches Some(s) ==> encode_utf8(s@) == bytes@,
{
    String::from_utf8(bytes).ok()
}

/// Appends the UTF-8 encoding of a code point.
fn push_utf8(out: &mut Vec<u8>, cp: u32)
    requires
        is_scalar(cp),
    ensures
        final(out)@ == old(out)@ + encode_scalar(cp),
{
    if cp < 0x80 {
        assert((cp & 0x7F) as u8 == cp as u8) by (bit_vector)
            requires
                cp < 0x80,
        ;
        out.push(cp as u8);
    } else if cp < 0x800 {
        assert(0xC0u8 | (cp >> 6) as u8 == 0xC0u8 | ((cp >> 6) & 0x1F) as u8) by (bit_vector)
            requires
                cp < 0x800,
        ;
        out.push(0xC0 | (cp >> 6) as u8);
        out.push(0x80 | (cp & 0x3F) as u8);
    } else if cp < 0x10000 {
        assert(0xE0u8 | (cp >> 12) as u8 == 0xE0u8 | ((cp >> 12) & 0x0F) as u8) by (bit_vector)
            requires
                cp < 0x10000,
        ;
        out.push(0xE0 | (cp >> 12) as u8);
        out.push(0x80 | ((cp >> 6) & 0x3F) as u8);
        out.push(0x80 | (cp & 0x3F) as u8);
    } else {
        assert(0xF0u8 | (cp >> 18) as u8 == 0xF0u8 | ((cp >> 18) & 0x7) as u8) by (bit_vector)
            requires
                cp <= 0x10FFFF,
        ;
        out.push(0xF0 | (cp >> 18) as u8);
        out.push(0x80 | ((cp >> 12) & 0x3F) as u8);
        out.push(0x80 | ((cp >> 6) & 0x3F) as u8);
        out.push(0x80 | (cp & 0x3F) as u8);
    }
    assert(out@ =~= old(out)@ + encode_scalar(cp));
}

fn unit_at(data: &[u8], i: usize) -> (r: u16)
    requires
        2 * i + 1 < data@.len(),
    ensures
        r == units_of_le_bytes(data@)[i as int],
{
    assert(data@.len() == data.len());
    data[2 * i] as u16 + 0x100 * (data[2 * i + 1] as u16)
}

/// Decodes little-endian UTF-16 bytes into a string.
///
/// Returns nothing if the data contains unpaired surrogates.
pub fn decode_utf16_le(data: &[u8]) -> (r: Option<String>)
    ensures
        r is Some <==> decode_utf16(units_of_le_bytes(data@)) is Some,
        r matches Some(s) ==> decode_utf16(units_of_le_bytes(data@)) == Some(s@),
{
    let n_units: usize = data.len() / 2;
    let mut out: Vec<u8> = Vec::with_capacity(data.len());
    let ghost units = units_of_le_bytes(data@);
    let ghost mut chars = Seq::<char>::empty();
    let mut i: usize = 0;
    assert(units.skip(0) =~= units);
    proof {
        assert(forall|t: Seq<char>| chars + t =~= t);
    }
    while i < n_units
        invariant
            i <= n_units,
            n_units == data@.len() / 2,
            units == units_of_le_bytes(data@),
            out@ == encode_utf8(chars),
            decode_utf16(units) == (match decode_utf16(units.skip(i as int)) {
                Some(t) => Some(chars + t),
                None => None,
            }),
        decreases n_units - i,
    {
        let ghost before = chars;
        let ghost at = i as int;
        let u: u16 = unit_at(data, i);
        i = i + 1;
        if u < 0xD800 || u >= 0xE000 {
            push_utf8(&mut out, u as u32);
            proof {
                chars = chars.push(u as char);
                lemma_encode_push(before, u as char);
                assert(units.skip(at).skip(1) =~= units.skip(i as int));
            }
        } else {
            if u >= 0xDC00 || i >= n_units {
                return None;
            }
            let low: u16 = unit_at(data, i);
            i = i + 1;
            if low < 0xDC00 || low >= 0xE000 {
                return None;
            }
            let cp: u32 = 0x10000 + (u as u32 - 0xD800) * 0x400 + (low as u32 - 0xDC00);
            push_utf8(&mut out, cp);
            proof {
                chars = chars.push(cp as char);
                lemma_encode_push(before, cp as char);
                assert(units.skip(at).skip(2) =~= units.skip(i as int));
            }
        }
        proof {
            assert(forall|t: Seq<char>| before + (seq![chars.last()] + t) =~= chars + t);
        }
    }
    proof {
        assert(units.skip(i as int) =~= Seq::empty());
        assert(chars + Seq::<char>::empty() =~= chars);
        encode_utf8_valid_utf8(chars);
        encode_utf8_decode_utf8(chars);
    }
    let r = string_from_utf8(out);
    proof {
        encode_utf8_decode_utf8(r->Some_0@);
    }
    r
}

// ---------------------------------------------------------------------------
// Length prefixed strings
// ---------------------------------------------------------------------------
/// The length at the start of `input`, in code units, and the number of bytes it takes:
/// one byte below 128, else two bytes, the high one first and with its top bit set.
pub open spec fn string_length(input: Seq<u8>) -> Option<(int, int)> {
    if input.len() == 0 {
        None
    } else if input[0] < 128 {
        Some((input[0] as int, 1))
    } else if input.len() == 1 {
        None
    } else {
        Some(((input[0] - 128) * 0x100 + input[1], 2))
    }
}

/// Where the code units of the string at the start of `input` begin and end, in bytes.
pub open spec fn string_span(input: Seq<u8>) -> Option<(int, int)> {
    match string_length(input) {
        Some((units, width)) if width + 2 * units <= input.len() => Some(
            (width, width + 2 * units),
        ),
        _ => None,
    }
}

/// The text of the string at the start of `input`.
pub open spec fn string_text(input: Seq<u8>) -> Option<Seq<char>> {
    match string_span(input) {
        Some((start, end)) => decode_utf16(units_of_le_bytes(input.subrange(start, end))),
        None => None,
    }
}

/// The length of a string as it stands before its code units.
pub open spec fn encode_length(units: int) -> Seq<u8> {
    if units < 128 {
        seq![units as u8]
    } else {
        seq![(128 + units / 0x100) as u8, (units % 0x100) as u8]
    }
}

/// Whether `err` says that the input ended where a byte of the length was expected.
pub open spec fn is_eof(err: NomErr<SudachiNomError<&[u8]>>) -> bool {
    err matches NomErr::Error(SudachiNomError::Nom(at, ErrorKind::Eof)) && at@.len() == 0
}

/// Whether `err` says that a string is truncated or malformed.
pub open spec fn is_bad_string(err: NomErr<SudachiNomError<&[u8]>>) -> bool {
    err matches NomErr::Failure(SudachiNomError::Utf16String)
}

/// Reads one byte.
///
/// Stands for `nom::number::complete::le_u8`: it splits off the first byte, and on an
/// empty input fails with a recoverable error at that input.
#[verifier::external_body]
fn le_u8(input: &[u8]) -> (r: Result<(&[u8], u8), NomErr<&[u8]>>)
    ensures
        match r {
            Ok((rest, byte)) => input@.len() > 0 && rest@ == input@.skip(1) && byte == input@[0],
            Err(NomErr::Error(at)) => input@.len() == 0 && at@ == input@,
            Err(_) => false,
        },
{
    match nom::number::complete::le_u8::<&[u8], nom::error::Error<&[u8]>>(input) {
        Ok((rest, byte)) => Ok((rest, byte)),
        Err(nom::Err::Incomplete(_)) => Err(NomErr::Incomplete),
        Err(nom::Err::Error(e)) => Err(NomErr::Error(e.input)),
        Err(nom::Err::Failure(e)) => Err(NomErr::Failure(e.input)),
    }
}

/// Reads one byte of a dictionary; the only thing that can go wrong is the end of the input.
fn read_byte(input: &[u8]) -> (r: SudachiNomResult<&[u8], u8>)
    ensures
        r is Ok <==> input@.len() > 0,
        r matches Ok((rest, byte)) ==> rest@ == input@.skip(1) && byte == input@[0],
        r matches Err(e) ==> is_eof(e),
{
    match le_u8(input) {
        Ok((rest, byte)) => Ok((rest, byte)),
        Err(NomErr::Incomplete) => Err(NomErr::Incomplete),
        Err(NomErr::Error(at)) => Err(NomErr::Error(SudachiNomError::Nom(at, ErrorKind::Eof))),
        Err(NomErr::Failure(at)) => Err(NomErr::Failure(SudachiNomError::Nom(at, ErrorKind::Eof))),
    }
}

/// Parses the length of a string, in code units.
pub fn string_length_parser(input: &[u8]) -> (r: SudachiNomResult<&[u8], u16>)
    ensures
        r is Ok <==> string_length(input@) is Some,
        r matches Ok((rest, length)) ==> {
            let (units, width) = string_length(input@)->Some_0;
            length == units && rest@ == input@.skip(width)
        },
        r matches Err(e) ==> is_eof(e),
{
    let (rest, length) = match read_byte(input) {
        Ok(ok) => ok,
        Err(e) => return Err(e),
    };
    if length < 128 {
        return Ok((rest, length as u16));
    }
    let (rest, low) = match read_byte(rest) {
        Ok(ok) => ok,
        Err(e) => return Err(e),
    };
    proof {
        assert(input@.skip(1).skip(1) =~= input@.skip(2));
        assert(((length as u16 & 0x7F) << 8) | low as u16 == (length - 128) * 0x100 + low)
            by (bit_vector)
            requires
                length >= 128,
        ;
    }
    Ok((rest, ((length as u16 & 0x7F) << 8) | low as u16))
}

/// Parses a string without decoding it: returns the bytes of its code units.
pub fn utf16_string_data(input: &[u8]) -> (r: SudachiNomResult<&[u8], &[u8]>)
    ensures
        r is Ok <==> string_span(input@) is Some,
        r matches Ok((rest, data)) ==> {
            let (start, end) = string_span(input@)->Some_0;
            data@ == input@.subrange(start, end) && rest@ == input@.skip(end)
        },
        r matches Err(e) ==> if string_length(input@) is None {
            is_eof(e)
        } else {
            is_bad_string(e)
        },
{
    let (rest, length) = match string_length_parser(input) {
        Ok(ok) => ok,
        Err(e) => return Err(e),
    };
    let num_bytes: usize = (length * 2) as usize;
    if rest.len() < num_bytes {
        return Err(NomErr::Failure(SudachiNomError::Utf16String));
    }
    let (data, rest) = rest.split_at(num_bytes);
    proof {
        let (start, end) = string_span(input@)->Some_0;
        assert(data@ =~= input@.subrange(start, end));
        assert(rest@ =~= input@.skip(end));
    }
    Ok((rest, data))
}

/// Parses a string.
pub fn utf16_string_parser(input: &[u8]) -> (r: SudachiNomResult<&[u8], String>)
    ensures
        r is Ok <==> string_text(input@) is Some,
        r matches Ok((rest, text)) ==> string_text(input@) == Some(text@) && rest@ == input@.skip(
            string_span(input@)->Some_0.1,
        ),
        r matches Err(e) ==> if string_length(input@) is None {
            is_eof(e)
        } else {
            is_bad_string(e)
        },
{
    let (rest, data) = match utf16_string_data(input) {
        Ok(ok) => ok,
        Err(e) => return Err(e),
    };
    if data.is_empty() {
        proof {
            let units = units_of_le_bytes(data@);
            assert(units.len() == 0);
        }
        Ok((rest, String::new()))
    } else {
        match decode_utf16_le(data) {
            Some(text) => Ok((rest, text)),
            None => Err(NomErr::Failure(SudachiNomError::Utf16String)),
        }
    }
}

/// Skips a string, whatever its code units; the returned string is empty.
pub fn skip_u16_string(input: &[u8]) -> (r: SudachiNomResult<&[u8], String>)
    ensures
        r is Ok <==> string_span(input@) is Some,
        r matches Ok((rest, text)) ==> text@ == Seq::<char>::empty() && rest@ == input@.skip(
            string_span(input@)->Some_0.1,
        ),
        r matches Err(e) ==> if string_length(input@) is None {
            is_eof(e)
        } else {
            is_bad_string(e)
        },
{
    match utf16_string_data(input) {
        Ok((rest, _)) => Ok((rest, String::new())),
        Err(e) => Err(e),
    }
}

// ---------------------------------------------------------------------------
// Laws
// ---------------------------------------------------------------------------
proof fn lemma_decode_char(c: char, rest: Seq<u16>)
    ensures
        decode_utf16(encode_char_utf16(c) + rest) == prepend(c, decode_utf16(rest)),
{
    let units = encode_char_utf16(c) + rest;
    let above = c as int - 0x10000;
    if above < 0 {
        assert(units[0] as char == c);
        assert(units.skip(1) =~= rest);
    } else {
        assert(0 <= above / 0x400 < 0x400 && 0 <= above % 0x400 < 0x400);
        assert(pair_code_point(units[0], units[1]) == c as int);
        assert(units.skip(2) =~= rest);
    }
}

/// Decoding gives back what was encoded.
pub proof fn law_utf16_encode_decode(s: Seq<char>)
    ensures
        decode_utf16(encode_utf16(s)) == Some(s),
    decreases s.len(),
{
    if s.len() > 0 {
        law_utf16_encode_decode(s.drop_first());
        lemma_decode_char(s[0], encode_utf16(s.drop_first()));
        assert(s =~= seq![s[0]] + s.drop_first());
    } else {
        assert(s =~= Seq::empty());
    }
}

/// Only the encoding of a text decodes to it.
pub proof fn law_utf16_decode_encode(units: Seq<u16>)
    ensures
        decode_utf16(units) matches Some(s) ==> encode_utf16(s) == units,
    decreases units.len(),
{
    if let Some(s) = decode_utf16(units) {
        if units.len() == 0 {
            assert(encode_utf16(s) =~= units);
        } else if !is_high_surrogate(units[0]) {
            law_utf16_decode_encode(units.skip(1));
            let rest = decode_utf16(units.skip(1))->Some_0;
            assert(s.drop_first() =~= rest);
            assert(encode_utf16(s) =~= units);
        } else {
            law_utf16_decode_encode(units.skip(2));
            let rest = decode_utf16(units.skip(2))->Some_0;
            assert(s.drop_first() =~= rest);
            assert(encode_utf16(s) =~= units);
        }
    }
}

/// Code units written as little-endian bytes are read back unchanged.
pub proof fn law_le_bytes_round_trip(units: Seq<u16>)
    ensures
        units_of_le_bytes(le_bytes_of_units(units)) == units,
{
    let bytes = le_bytes_of_units(units);
    assert forall|i: int| 0 <= i < units.len() implies units_of_le_bytes(bytes)[i] == units[i] by {
        assert(bytes[2 * i] == (units[i] % 0x100) as u8);
        assert(bytes[2 * i + 1] == (units[i] / 0x100) as u8);
    }
    assert(units_of_le_bytes(bytes) =~= units);
}

/// A string of the dictionary is read back as it was written, and what follows it is left.
/// A length has 15 bits.
pub proof fn law_string_round_trip(s: Seq<char>, tail: Seq<u8>)
    requires
        encode_utf16(s).len() < 0x8000,
    ensures
        ({
            let units = encode_utf16(s);
            let input = encode_length(units.len() as int) + le_bytes_of_units(units) + tail;
            &&& string_text(input) == Some(s)
            &&& string_span(input) matches Some((_, end)) && input.skip(end) == tail
        }),
{
    let units = encode_utf16(s);
    let prefix = encode_length(units.len() as int);
    let bytes = le_bytes_of_units(units);
    let input = prefix + bytes + tail;
    assert(string_length(input) == Some((units.len() as int, prefix.len() as int)));
    assert(input.subrange(prefix.len() as int, (prefix.len() + 2 * units.len()) as int) =~= bytes);
    assert(input.skip((prefix.len() + 2 * units.len()) as int) =~= tail);
    law_le_bytes_round_trip(units);
    law_utf16_encode_decode(s);
}

/// A string that can be parsed can be skipped too; both leave what follows its span.
pub proof fn law_parsed_string_can_be_skipped(input: Seq<u8>)
    ensures
        string_text(input) is Some ==> string_span(input) is Some,
{
}

/// How much is skipped depends on the length alone, not on the code units.
pub proof fn law_skip_ignores_code_units(input: Seq<u8>, other: Seq<u8>)
    requires
        input.len() == other.len(),
        string_length(input) == string_length(other),
    ensures
        string_span(input) == string_span(other),
{
}

/// Whether the code unit at `i` is a surrogate without its partner.
pub open spec fn is_unpaired(units: Seq<u16>, i: int) -> bool {
    ||| is_high_surrogate(units[i]) && !(i + 1 < units.len() && is_low_surrogate(units[i + 1]))
    ||| is_low_surrogate(units[i]) && !(i > 0 && is_high_surrogate(units[i - 1]))
}

/// Decoding fails on unpaired surrogates, and on nothing else.
pub proof fn law_decode_fails_on_unpaired_surrogates(units: Seq<u16>)
    ensures
        decode_utf16(units) is None <==> exists|i: int|
            0 <= i < units.len() && #[trigger] is_unpaired(units, i),
    decreases units.len(),
{
    if units.len() > 0 {
        let width: int = if !is_high_surrogate(units[0]) && !is_low_surrogate(units[0]) {
            1
        } else if is_high_surrogate(units[0]) && units.len() >= 2 && is_low_surrogate(units[1]) {
            2
        } else {
            0
        };
        if width == 0 {
            assert(is_unpaired(units, 0));
        } else {
            let rest = units.skip(width);
            law_decode_fails_on_unpaired_surrogates(rest);
            assert forall|i: int| 0 <= i < rest.len() implies #[trigger] is_unpaired(rest, i)
                == is_unpaired(units, i + width) by {}
            if exists|i: int| 0 <= i < units.len() && #[trigger] is_unpaired(units, i) {
                let i = choose|i: int| 0 <= i < units.len() && #[trigger] is_unpaired(units, i);
                assert(is_unpaired(rest, i - width));
            }
        }
    }
}

} // verus!
