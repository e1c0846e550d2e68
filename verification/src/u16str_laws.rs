//! What the strings of a dictionary owe to whoever writes them: each code unit, each pair of
//! code units and each length is read as the format has it.
use crate::error::{ErrorKind, NomErr, SudachiNomError};
use crate::u16str::{
    decode_utf16, is_bad_string, is_eof, string_length, string_span, string_text,
    units_of_le_bytes,
};
use vstd::prelude::*;

verus! {

// ---------------------------------------------------------------------------
// Code units
// ---------------------------------------------------------------------------
/// The code units of a buffer are its pairs of bytes, each with the low byte first; a last
/// byte without a partner belongs to none.
pub proof fn law_code_units_are_little_endian(data: Seq<u8>, i: int)
    ensures
        units_of_le_bytes(data).len() == data.len() / 2,
        0 <= 2 * i < data.len() - 1 ==> units_of_le_bytes(data)[i] == (data[2 * i] as u16) | (
        data[2 * i + 1] as u16) << 8,
{
    let low = data[2 * i] as u16;
    let high = data[2 * i + 1] as u16;
    assert(low | high << 8 == low + 0x100 * high) by (bit_vector)
        requires
            low < 0x100,
            high < 0x100,
    ;
}

/// A code unit that is no surrogate stands for the character with its number, whatever
/// follows.
pub proof fn law_single_unit_is_a_character(unit: u16, rest: Seq<u16>)
    requires
        unit < 0xD800 || 0xE000 <= unit,
    ensures
        decode_utf16(seq![unit] + rest) == (match decode_utf16(rest) {
            Some(text) => Some(seq![unit as char] + text),
            None => None,
        }),
{
    assert((seq![unit] + rest).skip(1) =~= rest);
}

/// A surrogate pair stands for one character beyond the first 0x10000: ten bits of its
/// number are in the first unit, the other ten in the second.
pub proof fn law_surrogate_pair_is_a_character(high: u16, low: u16, rest: Seq<u16>)
    requires
        high & 0xFC00 == 0xD800,
        low & 0xFC00 == 0xDC00,
    ensures
        decode_utf16(seq![high, low] + rest) == (match decode_utf16(rest) {
            Some(text) => Some(
                seq![(0x10000 + ((high & 0x3FF) as u32 * 0x400 + (low & 0x3FF) as u32)) as char]
                    + text,
            ),
            None => None,
        }),
{
    assert(0xD800 <= high < 0xDC00 && high & 0x3FF == high - 0xD800) by (bit_vector)
        requires
            high & 0xFC00 == 0xD800,
    ;
    assert(0xDC00 <= low < 0xE000 && low & 0x3FF == low - 0xDC00) by (bit_vector)
        requires
            low & 0xFC00 == 0xDC00,
    ;
    assert((seq![high, low] + rest).skip(2) =~= rest);
}

/// Nothing can be decoded that starts with the second half of a pair, or with a first half
/// that no second half follows.
pub proof fn law_lone_surrogate_is_no_character(unit: u16, rest: Seq<u16>)
    requires
        unit & 0xF800 == 0xD800,
        unit & 0xFC00 == 0xD800 ==> rest.len() == 0 || rest[0] & 0xFC00 != 0xDC00,
    ensures
        decode_utf16(seq![unit] + rest) is None,
{
    let units = seq![unit] + rest;
    assert(0xD800 <= unit < 0xE000 && (unit & 0xFC00 == 0xD800 <==> unit < 0xDC00)) by (bit_vector)
        requires
            unit & 0xF800 == 0xD800,
    ;
    if rest.len() > 0 {
        let next = rest[0];
        assert(units[1] == next);
        assert(next & 0xFC00 == 0xDC00 <==> 0xDC00 <= next < 0xE000) by (bit_vector);
    }
}

/// Decoding goes from left to right: if the first code units stand for a text, the text of
/// all of them is that text followed by what the others stand for.
pub proof fn law_decoding_goes_on(first: Seq<u16>, rest: Seq<u16>)
    requires
        decode_utf16(first) is Some,
    ensures
        decode_utf16(first + rest) == (match decode_utf16(rest) {
            Some(text) => Some(decode_utf16(first)->Some_0 + text),
            None => None,
        }),
        decode_utf16(Seq::empty()) == Some(Seq::<char>::empty()),
    decreases first.len(),
{
    let none = Seq::<char>::empty();
    if first.len() == 0 {
        assert(first + rest =~= rest);
        assert(forall|text: Seq<char>| #![trigger none + text] none + text =~= text);
    } else {
        let unit = first[0];
        let width: int = if unit < 0xD800 || 0xE000 <= unit {
            1
        } else {
            2
        };
        let after = first.skip(width);
        law_decoding_goes_on(after, rest);
        assert((first + rest).skip(width) =~= after + rest);
        let c = decode_utf16(first)->Some_0[0];
        let middle = decode_utf16(after)->Some_0;
        assert(decode_utf16(first)->Some_0 =~= seq![c] + middle);
        if let Some(text) = decode_utf16(rest) {
            assert(seq![c] + (middle + text) =~= (seq![c] + middle) + text);
        }
    }
}

// ---------------------------------------------------------------------------
// Lengths
// ---------------------------------------------------------------------------
/// A length below 128 is read from one byte, and every length of 15 bits from two, of which
/// the first holds the high bits under a set top bit.
pub proof fn law_length_is_read_back(units: int, tail: Seq<u8>)
    ensures
        0 <= units < 128 ==> string_length(seq![units as u8] + tail) == Some((units, 1int)),
        0 <= units < 0x8000 ==> string_length(
            seq![(128 + units / 256) as u8, (units % 256) as u8] + tail,
        ) == Some((units, 2int)),
{
}

/// A length cannot be read if the input ends before its last byte, and only then; no string
/// can be read without its length.
pub proof fn law_length_needs_its_bytes(input: Seq<u8>)
    ensures
        string_length(input) is None <==> input.len() == 0 || (input.len() == 1 && input[0] & 0x80
            == 0x80),
        string_length(input) is None ==> string_span(input) is None && string_text(input) is None,
{
    if input.len() > 0 {
        let first = input[0];
        assert(first & 0x80 == 0x80 <==> first >= 128) by (bit_vector);
    }
}

/// After the bytes of a length come two bytes for each code unit; these are decoded, and
/// what follows them is left. If they are not all there, there is no string.
pub proof fn law_string_follows_its_length(prefix: Seq<u8>, units: int, data: Seq<u8>)
    requires
        string_length(prefix + data) == Some((units, prefix.len() as int)),
        0 <= units,
    ensures
        2 * units <= data.len() ==> {
            &&& string_span(prefix + data) == Some(
                (prefix.len() as int, prefix.len() + 2 * units),
            )
            &&& string_text(prefix + data) == decode_utf16(
                units_of_le_bytes(data.subrange(0, 2 * units)),
            )
        },
        2 * units > data.len() ==> string_span(prefix + data) is None && string_text(prefix + data)
            is None,
{
    let start = prefix.len() as int;
    if 2 * units <= data.len() {
        assert((prefix + data).subrange(start, start + 2 * units) =~= data.subrange(0, 2 * units));
    }
}

/// The two things that can go wrong are told apart: the end of the input, with nothing left,
/// is an error after which something else may be tried, a bad string is a failure that
/// stands.
pub proof fn law_errors_differ(at: &[u8])
    requires
        at@.len() == 0,
    ensures
        is_eof(NomErr::Error(SudachiNomError::Nom(at, ErrorKind::Eof))),
        is_bad_string(NomErr::Failure(SudachiNomError::Utf16String)),
        forall|err: NomErr<SudachiNomError<&[u8]>>| #[trigger]
            is_eof(err) ==> (match err {
                NomErr::Error(SudachiNomError::Nom(rest, kind)) => rest@.len() == 0 && kind
                    == ErrorKind::Eof,
                _ => false,
            }),
        forall|err: NomErr<SudachiNomError<&[u8]>>| #[trigger]
            is_bad_string(err) ==> (match err {
                NomErr::Failure(SudachiNomError::Utf16String) => true,
                _ => false,
            }),
{
}

} // verus!
