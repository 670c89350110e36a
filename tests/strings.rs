use uefi_strings::chars::{CharConversionError, Char16, Char8, Character};
use uefi_strings::encoder::{encode, encode_graphemes, StrEncodeError};
use uefi_strings::strs::{CStr, FromIntsWithNulError};

fn ints16(s: &str) -> Vec<u16> {
    s.chars().map(|c| c as u32 as u16).collect()
}

#[test]
fn test_no_panic() {
    assert!(true)
}

#[test]
fn char8_from_char_round_trips_latin1() {
    for c in ['\0', 'A', '\u{7f}', '\u{e9}', '\u{ff}'] {
        let x = Char8::from_char(c).unwrap();
        assert_eq!(x.to_char(), c);
        assert_eq!(x.to_int() as u32, c as u32);
    }
}

#[test]
fn char8_from_char_refuses_wider() {
    assert_eq!(Char8::from_char('\u{100}'), Err(CharConversionError::TooWide));
    assert_eq!(Char8::from_char('\u{20ac}'), Err(CharConversionError::TooWide));
}

#[test]
fn char8_from_int_takes_every_byte() {
    for b in 0..=255u8 {
        assert_eq!(Char8::from_int(b).unwrap().to_int(), b);
        assert_eq!(Char8::from_u8(b).to_u8(), b);
    }
}

#[test]
fn char16_from_char_round_trips_bmp() {
    for c in ['A', '\u{20ac}', '\u{d7ff}', '\u{e000}', '\u{fffd}', '\u{ffff}'] {
        let x = Char16::from_char(c).unwrap();
        assert_eq!(x.to_char(), c);
        assert_eq!(x.to_int() as u32, c as u32);
    }
}

#[test]
fn char16_from_char_refuses_wider() {
    assert_eq!(Char16::from_char('\u{10000}'), Err(CharConversionError::TooWide));
    assert_eq!(Char16::from_char('\u{1f600}'), Err(CharConversionError::TooWide));
}

#[test]
fn char16_from_int_refuses_surrogates() {
    for v in 0xD800..=0xDFFFu16 {
        assert_eq!(Char16::from_int(v), Err(CharConversionError::InvalidChar));
    }
    for v in [0u16, 0x41, 0xD7FF, 0xE000, 0xFFFD, 0xFFFF] {
        assert_eq!(Char16::from_int(v).unwrap().to_int(), v);
    }
}

#[test]
fn sentinels() {
    assert_eq!(Char8::nul().to_int(), 0);
    assert_eq!(Char16::nul().to_int(), 0);
    assert_eq!(Char8::replacement().to_char(), '?');
    assert_eq!(Char16::replacement().to_char(), '\u{fffd}');
    assert!(Char16::nul().is_nul());
    assert!(!Char16::carriage_return().is_nul());
    assert_eq!(Char8::carriage_return().to_int(), 13);
}

#[test]
fn chars_order_by_value() {
    assert!(Char8::from_u8(1) < Char8::from_u8(2));
    assert!(Char16::from_int(0x41).unwrap() < Char16::from_int(0xFFFD).unwrap());
}

#[test]
fn validate_accepts_terminated() {
    let codes = [65u16, 66, 0];
    let s = CStr::<Char16>::from_ints_with_nul(&codes).ok().unwrap();
    assert_eq!(s.to_ints_slice(), &[65, 66]);
    assert_eq!(s.to_ints_slice_with_nul(), &[65, 66, 0]);
    let codes8 = [65u8, 66, 0];
    let s8 = CStr::<Char8>::from_ints_with_nul(&codes8).ok().unwrap();
    assert_eq!(s8.to_ints_slice(), b"AB");
}

#[test]
fn validate_accepts_lone_terminator() {
    let codes = [0u8];
    let s = CStr::<Char8>::from_ints_with_nul(&codes).ok().unwrap();
    assert_eq!(s.to_ints_slice(), &[] as &[u8]);
}

#[test]
fn validate_reports_interior_nul() {
    let codes = [65u16, 0, 66, 0];
    assert_eq!(
        CStr::<Char16>::from_ints_with_nul(&codes).err(),
        Some(FromIntsWithNulError::InteriorNul(1))
    );
}

#[test]
fn validate_reports_missing_terminator() {
    let codes = [65u16, 66];
    assert_eq!(
        CStr::<Char16>::from_ints_with_nul(&codes).err(),
        Some(FromIntsWithNulError::NotNulTerminated)
    );
    let empty: [u16; 0] = [];
    assert_eq!(
        CStr::<Char16>::from_ints_with_nul(&empty).err(),
        Some(FromIntsWithNulError::NotNulTerminated)
    );
}

#[test]
fn validate_reports_invalid_char_first() {
    let codes = [65u16, 0xD800, 0, 0];
    assert_eq!(
        CStr::<Char16>::from_ints_with_nul(&codes).err(),
        Some(FromIntsWithNulError::InvalidChar(1))
    );
}

#[test]
fn unchecked_view_keeps_units() {
    let codes = [104u16, 105, 0];
    let s = CStr::<Char16>::from_ints_with_nul_unchecked(&codes);
    assert_eq!(s.to_ints_slice(), &[104, 105]);
}

#[test]
fn encode_round_trip_doubles_line_feeds() {
    let mut buf = [0xFFFFu16; 32];
    let (s, rem) = encode::<Char16>("Hi\nthere\u{e9}\u{20ac}", &mut buf).ok().unwrap();
    assert_eq!(s.to_ints_slice(), &ints16("Hi\r\nthere\u{e9}\u{20ac}")[..]);
    assert_eq!(s.to_ints_slice_with_nul().last(), Some(&0));
    assert_eq!(rem, None);
}

#[test]
fn encode_exact_fit_has_no_remainder() {
    let mut buf = [7u8; 4];
    let (s, rem) = encode::<Char8>("a\nb", &mut buf).ok().unwrap();
    assert_eq!(s.to_ints_slice(), b"a\r\n");
    assert_eq!(rem, Some("b"));
    let mut buf = [7u8; 5];
    let (s, rem) = encode::<Char8>("a\nb", &mut buf).ok().unwrap();
    assert_eq!(s.to_ints_slice(), b"a\r\nb");
    assert_eq!(rem, None);
}

#[test]
fn encode_empty_text() {
    let mut buf = [9u16; 1];
    let (s, rem) = encode::<Char16>("", &mut buf).ok().unwrap();
    assert_eq!(s.to_ints_slice_with_nul(), &[0]);
    assert_eq!(rem, None);
}

#[test]
fn encode_buffer_too_small() {
    let mut buf = [0u16; 1];
    assert_eq!(encode::<Char16>("a", &mut buf).err(), Some(StrEncodeError::BufferTooSmall));
    let mut buf = [0u8; 1];
    assert_eq!(encode::<Char8>("xyz", &mut buf).err(), Some(StrEncodeError::BufferTooSmall));
    let mut buf = [0u16; 2];
    assert_eq!(encode::<Char16>("\n", &mut buf).err(), Some(StrEncodeError::BufferTooSmall));
}

#[test]
fn encode_interior_nul_at_byte_offset() {
    let mut buf = [0u16; 16];
    assert_eq!(encode::<Char16>("ab\0c", &mut buf).err(), Some(StrEncodeError::InteriorNul(2)));
    let mut buf = [0u16; 16];
    assert_eq!(
        encode::<Char16>("\u{e9}x\0", &mut buf).err(),
        Some(StrEncodeError::InteriorNul(3))
    );
    let mut buf = [0u16; 1];
    assert_eq!(encode::<Char16>("\0", &mut buf).err(), Some(StrEncodeError::InteriorNul(0)));
}

#[test]
fn encode_unsupported_char() {
    let mut buf = [0u8; 16];
    assert_eq!(
        encode::<Char8>("a\u{20ac}b", &mut buf).err(),
        Some(StrEncodeError::UnsupportedChar(1))
    );
    let mut buf = [0u16; 16];
    assert_eq!(
        encode::<Char16>("\u{e9}\u{1f600}", &mut buf).err(),
        Some(StrEncodeError::UnsupportedChar(2))
    );
}

#[test]
fn encode_content_error_after_full_clusters() {
    let mut buf = [0u8; 3];
    assert_eq!(
        encode::<Char8>("ab\u{20ac}", &mut buf).err(),
        Some(StrEncodeError::UnsupportedChar(2))
    );
    let mut buf = [0u8; 2];
    let (s, rem) = encode::<Char8>("ab\u{20ac}", &mut buf).ok().unwrap();
    assert_eq!(s.to_ints_slice(), b"a");
    assert_eq!(rem, Some("b\u{20ac}"));
}

#[test]
fn encode_truncates_at_cluster_boundary() {
    let text = "ae\u{301}";
    let mut buf = [0u16; 3];
    let (s, rem) = encode::<Char16>(text, &mut buf).ok().unwrap();
    assert_eq!(s.to_ints_slice(), &[97]);
    assert_eq!(s.to_ints_slice_with_nul(), &[97, 0]);
    assert_eq!(rem, Some("e\u{301}"));
    let mut buf = [0u16; 4];
    let (s, rem) = encode::<Char16>(text, &mut buf).ok().unwrap();
    assert_eq!(s.to_ints_slice(), &[97, 101, 0x301]);
    assert_eq!(rem, None);
}

#[test]
fn encode_resumes_from_remainder() {
    let text = "ab\ncd e\u{301}f";
    let mut full = [0u16; 64];
    let (whole, _) = encode::<Char16>(text, &mut full).ok().unwrap();
    let whole: Vec<u16> = whole.to_ints_slice().to_vec();
    let mut pieces: Vec<u16> = Vec::new();
    let mut rest = Some(text);
    let mut rounds = 0;
    while let Some(t) = rest {
        let mut buf = [0u16; 4];
        let (s, r) = encode::<Char16>(t, &mut buf).ok().unwrap();
        pieces.extend_from_slice(s.to_ints_slice());
        rest = r;
        rounds += 1;
    }
    assert!(rounds > 1);
    assert_eq!(pieces, whole);
    assert_eq!(whole, ints16("ab\r\ncd e\u{301}f"));
}

#[test]
fn encode_graphemes_follows_given_clusters() {
    let text = "abc";
    let clusters = vec!["ab", "c"];
    let mut buf = [0u8; 3];
    let (s, rem) = encode_graphemes::<Char8>(text, &clusters, &mut buf).ok().unwrap();
    assert_eq!(s.to_ints_slice(), b"ab");
    assert_eq!(rem, Some("c"));
    let clusters = vec!["abc"];
    let mut buf = [0u8; 3];
    assert_eq!(
        encode_graphemes::<Char8>(text, &clusters, &mut buf).err(),
        Some(StrEncodeError::BufferTooSmall)
    );
}

#[test]
fn equal_values_give_equal_chars() {
    assert_eq!(Char8::from_u8(0x3F), Char8::replacement());
    assert_eq!(Char8::from_int(0x3F).unwrap(), Char8::from_u8(0x3F));
    assert_eq!(Char16::from_int(0xFFFD).unwrap(), Char16::replacement());
    assert_eq!(Char16::replacement().to_int(), 0xFFFD);
    assert_eq!(Char8::replacement().to_int(), b'?');
}
