use std::num::IntErrorKind;
use calamine::{
    builtin_format_by_code, builtin_format_by_id, datetime_type, format_excel_i64, CellFormat,
    Color, Data, ExcelDateTime, ExcelDateTimeType,
};

#[test]
fn parses_argb_hex() {
    assert_eq!(
        Color::from_argb_hex("FFFF0000").unwrap(),
        Color { r: 255, g: 0, b: 0, a: 255 }
    );
    assert_eq!(
        Color::from_argb_hex("80a0b1c2").unwrap(),
        Color { r: 0xa0, g: 0xb1, b: 0xc2, a: 0x80 }
    );
    // each field is read as `u8::from_str_radix` reads it, so a `+` sign is accepted
    assert_eq!(
        Color::from_argb_hex("+F+F+F+F").unwrap(),
        Color { r: 15, g: 15, b: 15, a: 15 }
    );
}

#[test]
fn rejects_bad_argb_hex() {
    assert!(Color::from_argb_hex("FF0000").is_err());
    assert!(Color::from_argb_hex("").is_err());
    assert!(Color::from_argb_hex("FFFF00000").is_err());
    assert!(Color::from_argb_hex("FFGG0000").is_err());
    assert!(Color::from_argb_hex("FF-F0000").is_err());
    assert!(Color::from_argb_hex(" FF00000").is_err());
    // non-ASCII text that slices cleanly is rejected too
    assert!(Color::from_argb_hex("FF\u{e9}0000").is_err());
}

#[test]
fn parses_rgb_hex() {
    assert_eq!(
        Color::from_rgb_hex("1F497D").unwrap(),
        Color { r: 0x1f, g: 0x49, b: 0x7d, a: 255 }
    );
    assert!(Color::from_rgb_hex("FF1F497D").is_err());
    assert!(Color::from_rgb_hex("1F497Z").is_err());
}

#[test]
fn formats_argb_hex() {
    assert_eq!(Color { r: 255, g: 0, b: 0, a: 255 }.to_argb_hex(), "FFFF0000");
    assert_eq!(Color { r: 1, g: 0xab, b: 0x10, a: 0 }.to_argb_hex(), "0001AB10");
}

#[test]
fn argb_hex_round_trip() {
    for (r, g, b, a) in [(0u8, 0u8, 0u8, 0u8), (255, 255, 255, 255), (18, 52, 86, 120), (9, 10, 160, 15)] {
        let c = Color { r, g, b, a };
        assert_eq!(Color::from_argb_hex(&c.to_argb_hex()).unwrap(), c);
    }
}

#[test]
fn builtin_formats_by_id() {
    assert_eq!(builtin_format_by_id(b"14"), CellFormat::DateTime);
    assert_eq!(builtin_format_by_id(b"22"), CellFormat::DateTime);
    assert_eq!(builtin_format_by_id(b"45"), CellFormat::DateTime);
    assert_eq!(builtin_format_by_id(b"47"), CellFormat::DateTime);
    assert_eq!(builtin_format_by_id(b"46"), CellFormat::TimeDelta);
    assert_eq!(builtin_format_by_id(b"13"), CellFormat::Other);
    assert_eq!(builtin_format_by_id(b"23"), CellFormat::Other);
    assert_eq!(builtin_format_by_id(b"014"), CellFormat::Other);
    assert_eq!(builtin_format_by_id(b""), CellFormat::Other);
}

#[test]
fn builtin_formats_by_code() {
    assert_eq!(builtin_format_by_code(14), CellFormat::DateTime);
    assert_eq!(builtin_format_by_code(20), CellFormat::DateTime);
    assert_eq!(builtin_format_by_code(46), CellFormat::TimeDelta);
    assert_eq!(builtin_format_by_code(0), CellFormat::Other);
    assert_eq!(builtin_format_by_code(48), CellFormat::Other);
    assert_eq!(builtin_format_by_code(u16::MAX), CellFormat::Other);
}

#[test]
fn builtin_id_and_code_agree() {
    for code in 0u16..=1000 {
        assert_eq!(
            builtin_format_by_id(code.to_string().as_bytes()),
            builtin_format_by_code(code)
        );
    }
}

#[test]
fn integer_cells_by_format() {
    assert_eq!(format_excel_i64(42, None, false), Data::Int(42));
    assert_eq!(format_excel_i64(42, Some(&CellFormat::Other), true), Data::Int(42));
    assert_eq!(
        format_excel_i64(45000, Some(&CellFormat::DateTime), false),
        Data::DateTime(ExcelDateTime {
            value: 45000,
            datetime_type: ExcelDateTimeType::DateTime,
            is_1904: false
        })
    );
    assert_eq!(
        format_excel_i64(-3, Some(&CellFormat::TimeDelta), true),
        Data::DateTime(ExcelDateTime {
            value: -3,
            datetime_type: ExcelDateTimeType::TimeDelta,
            is_1904: true
        })
    );
}

#[test]
fn datetime_kinds() {
    assert_eq!(datetime_type(None), None);
    assert_eq!(datetime_type(Some(&CellFormat::Other)), None);
    assert_eq!(datetime_type(Some(&CellFormat::DateTime)), Some(ExcelDateTimeType::DateTime));
    assert_eq!(datetime_type(Some(&CellFormat::TimeDelta)), Some(ExcelDateTimeType::TimeDelta));
}

#[test]
fn rgb_is_argb_with_opaque_alpha() {
    for s in ["1F497D", "000000", "ffffff", "12345G", "+1+2+3", "ABC"] {
        let argb = format!("FF{}", s);
        assert_eq!(Color::from_rgb_hex(s).ok(), Color::from_argb_hex(&argb).ok());
    }
}

#[test]
fn argb_hex_errors_are_those_of_the_failing_field() {
    let empty = u8::from_str_radix("", 16).unwrap_err();
    assert_eq!(Color::from_argb_hex("FF0000").unwrap_err(), empty);
    assert_eq!(Color::from_rgb_hex("").unwrap_err(), empty);
    let bad = u8::from_str_radix("GG", 16).unwrap_err();
    assert_eq!(Color::from_argb_hex("FFGG00ZZ").unwrap_err(), bad);
    assert_ne!(Color::from_argb_hex("FFGG00ZZ").unwrap_err(), empty);
}

#[test]
fn argb_hex_error_kinds() {
    assert_eq!(Color::from_argb_hex("FF0000").unwrap_err().kind(), &IntErrorKind::Empty);
    assert_eq!(Color::from_argb_hex("").unwrap_err().kind(), &IntErrorKind::Empty);
    assert_eq!(Color::from_argb_hex("GG000000").unwrap_err().kind(), &IntErrorKind::InvalidDigit);
    assert_eq!(Color::from_argb_hex("FF00+-00").unwrap_err().kind(), &IntErrorKind::InvalidDigit);
    assert_eq!(Color::from_rgb_hex("FFFF").unwrap_err().kind(), &IntErrorKind::Empty);
    assert_eq!(Color::from_rgb_hex("00 000").unwrap_err().kind(), &IntErrorKind::InvalidDigit);
}

#[test]
fn argb_hex_reformat_is_upper_case() {
    for s in ["ff00aa11", "FFFF0000", "0a1B2c3D", "00000000"] {
        assert_eq!(Color::from_argb_hex(s).unwrap().to_argb_hex(), s.to_ascii_uppercase());
    }
}
