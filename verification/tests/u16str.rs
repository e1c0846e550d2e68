use sudachi::error::{ErrorKind, NomErr, SudachiNomError};
use sudachi::u16str::{
    decode_utf16_le, skip_u16_string, string_length_parser, utf16_string_data,
    utf16_string_parser,
};

fn enc(s: &str) -> Vec<u8> {
    s.encode_utf16().flat_map(|u| u.to_le_bytes()).collect()
}

fn is_eof<T>(r: Result<T, NomErr<SudachiNomError<&[u8]>>>) -> bool {
    matches!(r, Err(NomErr::Error(SudachiNomError::Nom(at, ErrorKind::Eof))) if at.is_empty())
}

fn is_failure<T>(r: Result<T, NomErr<SudachiNomError<&[u8]>>>) -> bool {
    matches!(r, Err(NomErr::Failure(SudachiNomError::Utf16String)))
}

#[test]
fn roundtrip() {
    for s in ["", "a", "é", "東京都", "\u{1F600}x", "aあ\u{10000}", "ｱｲｳ"] {
        assert_eq!(decode_utf16_le(&enc(s)).as_deref(), Some(s));
    }
}

#[test]
fn invalid_surrogates() {
    assert_eq!(decode_utf16_le(&[0x00, 0xD8]), None);
    assert_eq!(decode_utf16_le(&[0x00, 0xDC, 0x41, 0x00]), None);
    assert_eq!(decode_utf16_le(&[0x00, 0xD8, 0x41, 0x00]), None);
}

#[test]
fn every_width_is_decoded() {
    let s = "\u{0}\u{7F}\u{80}\u{7FF}\u{800}\u{D7FF}\u{E000}\u{FFFF}\u{10000}\u{10FFFF}";
    assert_eq!(decode_utf16_le(&enc(s)).as_deref(), Some(s));
}

#[test]
fn odd_byte_is_left_out() {
    assert_eq!(decode_utf16_le(&[0x41, 0x00, 0x42]).as_deref(), Some("A"));
    assert_eq!(decode_utf16_le(&[0x42]).as_deref(), Some(""));
}

#[test]
fn length_of_one_and_two_bytes() {
    assert_eq!(string_length_parser(&[0, 9]).unwrap(), (&[9u8][..], 0));
    assert_eq!(string_length_parser(&[127, 9]).unwrap(), (&[9u8][..], 127));
    assert_eq!(string_length_parser(&[128, 200, 9]).unwrap(), (&[9u8][..], 200));
    assert_eq!(string_length_parser(&[0x81, 0x02]).unwrap(), (&[][..], 258));
    assert_eq!(string_length_parser(&[0xFF, 0xFF]).unwrap(), (&[][..], 0x7FFF));
    assert!(is_eof(string_length_parser(&[])));
    assert!(is_eof(string_length_parser(&[0x80])));
}

#[test]
fn string_is_read_and_the_rest_is_left() {
    let mut input = vec![3];
    input.extend(enc("東京都"));
    input.extend_from_slice(&[7, 8]);
    let (rest, text) = utf16_string_parser(&input).unwrap();
    assert_eq!(text, "東京都");
    assert_eq!(rest, &[7, 8]);
    let (rest, data) = utf16_string_data(&input).unwrap();
    assert_eq!(data, &enc("東京都")[..]);
    assert_eq!(rest, &[7, 8]);
    let (rest, text) = skip_u16_string(&input).unwrap();
    assert_eq!(text, "");
    assert_eq!(rest, &[7, 8]);
}

#[test]
fn long_string_is_read() {
    let s = "あ".repeat(300);
    let mut input = vec![0x81, 300u16 as u8];
    input.extend(enc(&s));
    let (rest, text) = utf16_string_parser(&input).unwrap();
    assert_eq!(text, s);
    assert!(rest.is_empty());
}

#[test]
fn empty_string_is_read() {
    let (rest, text) = utf16_string_parser(&[0, 1, 2]).unwrap();
    assert_eq!(text, "");
    assert_eq!(rest, &[1, 2]);
    let (_, data) = utf16_string_data(&[0]).unwrap();
    assert!(data.is_empty());
}

#[test]
fn truncated_strings_are_refused() {
    assert!(is_failure(utf16_string_parser(&[2, 0x41, 0, 0x42])));
    assert!(is_failure(utf16_string_data(&[1])));
    assert!(is_failure(skip_u16_string(&[1, 0x41])));
    assert!(is_eof(utf16_string_parser(&[])));
    assert!(is_eof(utf16_string_data(&[0x80])));
    assert!(is_eof(skip_u16_string(&[])));
}

#[test]
fn malformed_string_is_refused_but_skipped() {
    let input = [1, 0x00, 0xD8, 5];
    assert!(is_failure(utf16_string_parser(&input)));
    let (rest, _) = skip_u16_string(&input).unwrap();
    assert_eq!(rest, &[5]);
}
