//! Cell number formats, colors and cell styles.

use std::num::ParseIntError;
use vstd::prelude::*;
use vstd::string::StrSliceExecFns;
use vstd::string::StringExecFns;
use vstd::string::StringSliceAdditionalSpecFns;

use vstd::utf8::{
    encode_utf8, is_ascii_chars, is_char_boundary_iff_not_is_continuation_byte,
    is_char_boundary_start_end_of_seq, valid_utf8,
};

use crate::number_format::ascii_upper;
use crate::hex::{
    field_end_splits_char, hex_digits_value, hex_fields_error, int_error_kind, ParseIntErrorKind, hex_field, hex_fields_ok_before,
    hex_fields_slice_cleanly, parse_hex_fields, radix16_u8, spec_hex_fields,
};

verus! {

/// What a cell's number format makes of a number in it.
#[derive(Debug, Clone, Copy, PartialEq, Eq)]
pub enum CellFormat {
    Other,
    DateTime,
    TimeDelta,
}

/// ARGB color representation
#[derive(Debug, Clone, Copy, PartialEq, Eq)]
pub struct Color {
    /// Red component (0-255)
    pub r: u8,
    /// Green component (0-255)
    pub g: u8,
    /// Blue component (0-255)
    pub b: u8,
    /// Alpha component (0-255, 255 = fully opaque)
    pub a: u8,
}

/// Font style information
#[derive(Debug, Clone, PartialEq)]
pub struct FontStyle {
    /// Bold font
    pub bold: Option<bool>,
    /// Italic font
    pub italic: Option<bool>,
    /// Font color
    pub color: Option<Color>,
}

/// Fill style information
#[derive(Debug, Clone, PartialEq)]
pub struct FillStyle {
    /// Background color
    pub background_color: Option<Color>,
}

/// Complete cell style with all formatting
#[derive(Debug, Clone, PartialEq)]
pub struct CellStyle {
    /// Font styling
    pub font: Option<FontStyle>,
    /// Fill styling
    pub fill: Option<FillStyle>,
    /// Number format ID
    pub number_format_id: Option<u32>,
}

/// Whether a serial value counts days and time of day, or a duration.
#[derive(Debug, Clone, Copy, PartialEq, Eq)]
pub enum ExcelDateTimeType {
    DateTime,
    TimeDelta,
}

/// A serial date-time value read from an integer cell, with its kind and date system.
#[derive(Debug, Clone, Copy, PartialEq, Eq)]
pub struct ExcelDateTime {
    /// The serial value: days since the epoch of the date system.
    pub value: i64,
    pub datetime_type: ExcelDateTimeType,
    /// The workbook counts from 1904 rather than 1900.
    pub is_1904: bool,
}

/// The value of an integer cell once its format is taken into account.
#[derive(Debug, Clone, Copy, PartialEq, Eq)]
pub enum Data {
    Int(i64),
    DateTime(ExcelDateTime),
}

/// Builtin format ids, as decimal text, that display dates or times: 14 to 22, 45 and 47.
pub open spec fn is_builtin_date_id(id: Seq<u8>) -> bool {
    &&& id.len() == 2
    &&& {
        ||| id[0] == 0x31 && 0x34 <= id[1] <= 0x39  // 14..19
        ||| id[0] == 0x32 && 0x30 <= id[1] <= 0x32  // 20..22
        ||| id[0] == 0x34 && (id[1] == 0x35 || id[1] == 0x37)  // 45, 47

    }
}

/// The builtin format id, as decimal text, of the elapsed-time format `[h]:mm:ss`: 46.
pub open spec fn is_builtin_duration_id(id: Seq<u8>) -> bool {
    id.len() == 2 && id[0] == 0x34 && id[1] == 0x36
}

pub open spec fn spec_builtin_format_by_id(id: Seq<u8>) -> CellFormat {
    if is_builtin_date_id(id) {
        CellFormat::DateTime
    } else if is_builtin_duration_id(id) {
        CellFormat::TimeDelta
    } else {
        CellFormat::Other
    }
}

pub open spec fn spec_builtin_format_by_code(code: u16) -> CellFormat {
    if (14 <= code <= 22) || code == 45 || code == 47 {
        CellFormat::DateTime
    } else if code == 46 {
        CellFormat::TimeDelta
    } else {
        CellFormat::Other
    }
}

/// The kind of serial value that a cell format makes of a number, if any.
pub open spec fn spec_datetime_type(format: Option<CellFormat>) -> Option<ExcelDateTimeType> {
    match format {
        Some(CellFormat::DateTime) => Some(ExcelDateTimeType::DateTime),
        Some(CellFormat::TimeDelta) => Some(ExcelDateTimeType::TimeDelta),
        _ => None,
    }
}

pub fn builtin_format_by_id(id: &[u8]) -> (r: CellFormat)
    ensures
        r == spec_builtin_format_by_id(id@),
{
    if id.len() != 2 {
        return CellFormat::Other;
    }
    let (d0, d1) = (id[0], id[1]);
    if (d0 == 0x31 && 0x34 <= d1 && d1 <= 0x39)  // mm-dd-yy, d-mmm-yy, d-mmm, mmm-yy, h:mm AM/PM, h:mm:ss AM/PM
     || (d0 == 0x32 && 0x30 <= d1 && d1 <= 0x32)  // h:mm, h:mm:ss, m/d/yy h:mm
     || (d0 == 0x34 && (d1 == 0x35 || d1 == 0x37))  // mm:ss, mmss.0
    {
        CellFormat::DateTime
    } else if d0 == 0x34 && d1 == 0x36 {
        // [h]:mm:ss
        CellFormat::TimeDelta
    } else {
        CellFormat::Other
    }
}

/// Check if code corresponds to builtin date format
///
/// See `builtin_format_by_id`
pub fn builtin_format_by_code(code: u16) -> (r: CellFormat)
    ensures
        r == spec_builtin_format_by_code(code),
{
    if (14 <= code && code <= 22) || code == 45 || code == 47 {
        CellFormat::DateTime
    } else if code == 46 {
        CellFormat::TimeDelta
    } else {
        CellFormat::Other
    }
}

/// The kind of serial value that a cell format makes of a number: none for `Other`.
pub fn datetime_type(format: Option<&CellFormat>) -> (r: Option<ExcelDateTimeType>)
    ensures
        r == spec_datetime_type(
            match format {
                Some(f) => Some(*f),
                None => None,
            },
        ),
{
    match format {
        Some(CellFormat::DateTime) => Some(ExcelDateTimeType::DateTime),
        Some(CellFormat::TimeDelta) => Some(ExcelDateTimeType::TimeDelta),
        _ => None,
    }
}

// convert i64 to date, if format == Date
pub fn format_excel_i64(value: i64, format: Option<&CellFormat>, is_1904: bool) -> (r: Data)
    ensures
        r == (match spec_datetime_type(
            match format {
                Some(f) => Some(*f),
                None => None,
            },
        ) {
            Some(t) => Data::DateTime(ExcelDateTime { value, datetime_type: t, is_1904 }),
            None => Data::Int(value),
        }),
{
    match datetime_type(format) {
        Some(datetime_type) => Data::DateTime(ExcelDateTime { value, datetime_type, is_1904 }),
        None => Data::Int(value),
    }
}

/// Decimal text of a number, without leading zeros.
pub open spec fn decimal_text(n: nat) -> Seq<u8>
    decreases n,
{
    if n < 10 {
        seq![(0x30 + n) as u8]
    } else {
        decimal_text(n / 10).push((0x30 + n % 10) as u8)
    }
}

proof fn lemma_decimal_text_len(n: nat)
    ensures
        n >= 10 ==> decimal_text(n).len() >= 2,
        n >= 100 ==> decimal_text(n).len() >= 3,
        n < 10 ==> decimal_text(n).len() == 1,
    decreases n,
{
    if n >= 10 {
        lemma_decimal_text_len(n / 10);
    }
}

/// A builtin format looked up by its id as decimal text or by its numeric code gives the
/// same kind.
pub proof fn lemma_builtin_format_id_matches_code(code: u16)
    ensures
        spec_builtin_format_by_id(decimal_text(code as nat)) == spec_builtin_format_by_code(code),
{
    lemma_decimal_text_len(code as nat);
    if 10 <= code < 100 {
        let t = decimal_text(code as nat);
        assert(decimal_text((code / 10) as nat) == seq![(0x30 + code / 10) as u8]);
        assert(t[0] == (0x30 + code / 10) as u8);
        assert(t[1] == (0x30 + code % 10) as u8);
    }
}

/// The builtin number formats that show dates or times are 14 to 22 (`mm-dd-yy` ...
/// `m/d/yy h:mm`), 45 (`mm:ss`) and 47 (`mmss.0`); 46 (`[h]:mm:ss`) shows a duration; every
/// other code shows neither. Looked up by code or by its decimal text as id, alike.
pub proof fn lemma_builtin_format_table(code: u16)
    ensures
        (14 <= code <= 22 || code == 45 || code == 47) ==> spec_builtin_format_by_code(code)
            == CellFormat::DateTime && spec_builtin_format_by_id(decimal_text(code as nat))
            == CellFormat::DateTime,
        code == 46 ==> spec_builtin_format_by_code(code) == CellFormat::TimeDelta
            && spec_builtin_format_by_id(decimal_text(code as nat)) == CellFormat::TimeDelta,
        !(14 <= code <= 22 || code == 45 || code == 46 || code == 47)
            ==> spec_builtin_format_by_code(code) == CellFormat::Other
            && spec_builtin_format_by_id(decimal_text(code as nat)) == CellFormat::Other,
{
    lemma_builtin_format_id_matches_code(code);
}

/// An id that names a builtin date, time or duration format is the decimal text of one of
/// the codes 14 to 22 or 45 to 47; any other byte string names none.
pub proof fn lemma_builtin_format_ids(id: Seq<u8>)
    ensures
        spec_builtin_format_by_id(id) != CellFormat::Other ==> exists|code: u16|
            (14 <= code <= 22 || 45 <= code <= 47) && id == #[trigger] decimal_text(code as nat),
{
    if spec_builtin_format_by_id(id) != CellFormat::Other {
        let code = (10 * (id[0] - 0x30) + (id[1] - 0x30)) as u16;
        let t = decimal_text(code as nat);
        assert(decimal_text((code / 10) as nat) == seq![(0x30 + code / 10) as u8]);
        assert(t =~= id);
    }
}

/// The color that an 8-byte ARGB hex string denotes: the fields are alpha, red, green, blue.
pub open spec fn spec_argb(bytes: Seq<u8>) -> Option<Color> {
    match spec_hex_fields(bytes, 4) {
        Some(f) => Some(Color { a: f[0], r: f[1], g: f[2], b: f[3] }),
        None => None,
    }
}

/// The opaque color that a 6-byte RGB hex string denotes: the fields are red, green, blue.
pub open spec fn spec_rgb(bytes: Seq<u8>) -> Option<Color> {
    match spec_hex_fields(bytes, 3) {
        Some(f) => Some(Color { a: 255, r: f[0], g: f[1], b: f[2] }),
        None => None,
    }
}

/// Upper-case hexadecimal digit for `d < 16`.
pub open spec fn upper_hex_char(d: nat) -> char {
    if d < 10 {
        (0x30 + d) as char
    } else {
        (0x41 + d - 10) as char
    }
}

/// The two upper-case hexadecimal digits of a byte.
pub open spec fn hex2(x: u8) -> Seq<char> {
    seq![upper_hex_char((x / 16) as nat), upper_hex_char((x % 16) as nat)]
}

/// The ARGB hex text of a color: alpha, red, green, blue, two upper-case digits each.
pub open spec fn spec_argb_hex(c: Color) -> Seq<char> {
    hex2(c.a) + hex2(c.r) + hex2(c.g) + hex2(c.b)
}

/// Appends the two upper-case hexadecimal digits of `x` to `s`.
fn push_hex_byte(s: &mut String, x: u8)
    ensures
        final(s)@ == old(s)@ + hex2(x),
{
    let digits = "0123456789ABCDEF";
    proof {
        reveal_strlit("0123456789ABCDEF");
        assert(digits.is_ascii());
        assert forall|i: int| 0 <= i < 16 implies digits@[i] == upper_hex_char(i as nat) by {
            assert(digits@[i] == upper_hex_char(i as nat));
        }
    }
    let hi = (x / 16) as usize;
    let lo = (x % 16) as usize;
    s.append(digits.substring_ascii(hi, hi + 1));
    s.append(digits.substring_ascii(lo, lo + 1));
    proof {
        assert(digits@.subrange(hi as int, hi + 1) =~= seq![upper_hex_char(hi as nat)]);
        assert(digits@.subrange(lo as int, lo + 1) =~= seq![upper_hex_char(lo as nat)]);
    }
}

impl Color {
    /// Parse from ARGB hex string (e.g., "FFFF0000" for opaque red)
    pub fn from_argb_hex(hex: &str) -> (res: Result<Self, ParseIntError>)
        requires
            hex_fields_slice_cleanly(hex.spec_bytes(), 4),
        ensures
            res is Ok <==> spec_argb(hex.spec_bytes()) is Some,
            res matches Ok(c) ==> spec_argb(hex.spec_bytes()) == Some(c),
            res matches Err(e) ==> e == hex_fields_error(hex.spec_bytes(), 4),
            res matches Err(e) ==> int_error_kind(e) == if hex.spec_bytes().len() != 8 {
                ParseIntErrorKind::Empty
            } else {
                ParseIntErrorKind::InvalidDigit
            },
    {
        let f = parse_hex_fields(hex, 4)?;
        Ok(Color { a: f[0], r: f[1], g: f[2], b: f[3] })
    }

    /// Parse from RGB hex string (e.g., "FF0000" for red); the color is fully opaque.
    pub fn from_rgb_hex(hex: &str) -> (res: Result<Self, ParseIntError>)
        requires
            hex_fields_slice_cleanly(hex.spec_bytes(), 3),
        ensures
            res is Ok <==> spec_rgb(hex.spec_bytes()) is Some,
            res matches Ok(c) ==> spec_rgb(hex.spec_bytes()) == Some(c),
            res matches Err(e) ==> e == hex_fields_error(hex.spec_bytes(), 3),
            res matches Err(e) ==> int_error_kind(e) == if hex.spec_bytes().len() != 6 {
                ParseIntErrorKind::Empty
            } else {
                ParseIntErrorKind::InvalidDigit
            },
    {
        let f = parse_hex_fields(hex, 3)?;
        Ok(Color { a: 255, r: f[0], g: f[1], b: f[2] })
    }

    /// Convert to ARGB hex string (e.g., "FFFF0000")
    pub fn to_argb_hex(&self) -> (res: String)
        ensures
            res@ == spec_argb_hex(*self),
    {
        let mut s = String::new();
        push_hex_byte(&mut s, self.a);
        push_hex_byte(&mut s, self.r);
        push_hex_byte(&mut s, self.g);
        push_hex_byte(&mut s, self.b);
        proof {
            assert(s@ =~= spec_argb_hex(*self));
        }
        s
    }
}

proof fn lemma_upper_hex_char(d: nat)
    requires
        d < 16,
    ensures
        crate::hex::hex_digit_value(upper_hex_char(d) as u8) == Some(d),
        upper_hex_char(d) as u8 as char == upper_hex_char(d),
{
    if d < 10 {
        assert((0x30 + d) as char as u8 == 0x30 + d);
    } else {
        assert((0x41 + d - 10) as char as u8 == 0x41 + d - 10);
    }
}

/// The bytes of the two upper-case digits of `x` parse back to `x`.
proof fn lemma_hex2_parses(x: u8)
    ensures
        radix16_u8(seq![hex2(x)[0] as u8, hex2(x)[1] as u8]) == Some(x),
{
    let d = seq![hex2(x)[0] as u8, hex2(x)[1] as u8];
    let hi = x / 16;
    let lo = x % 16;
    lemma_upper_hex_char(hi as nat);
    lemma_upper_hex_char(lo as nat);
    assert(d.drop_last() =~= seq![hex2(x)[0] as u8]);
    assert(d.drop_last().drop_last() =~= Seq::<u8>::empty());
    assert(hex_digits_value(d.drop_last().drop_last()) == Some(0nat));
    assert(d.drop_last().last() == upper_hex_char(hi as nat) as u8);
    assert(d.last() == upper_hex_char(lo as nat) as u8);
    assert(hex_digits_value(d.drop_last()) == Some(hi as nat));
    assert(hex_digits_value(d) == Some((hi * 16 + lo) as nat));
}

/// An RGB hex text denotes the same color as the ARGB hex text with alpha `FF` in front,
/// and slices as cleanly.
pub proof fn lemma_rgb_is_opaque_argb(b: Seq<u8>)
    requires
        valid_utf8(b),
    ensures
        spec_argb(seq![0x46u8, 0x46u8] + b) == spec_rgb(b),
        hex_fields_slice_cleanly(seq![0x46u8, 0x46u8] + b, 4) == hex_fields_slice_cleanly(b, 3),
{
    let ff = seq![0x46u8, 0x46u8];
    let a = ff + b;
    if b.len() == 6 {
        assert(ff == seq![hex2(255)[0] as u8, hex2(255)[1] as u8]) by {
            lemma_upper_hex_char(15);
        }
        lemma_hex2_parses(255);
        assert(a.subrange(0, 2) =~= ff);
        assert(hex_field(a, 0) == Some(255u8));
        assert forall|k: int| 0 <= k < 3 implies #[trigger] hex_field(a, k + 1) == hex_field(b, k) by {
            assert(a.subrange(2 * (k + 1), 2 * (k + 1) + 2) =~= b.subrange(2 * k, 2 * k + 2));
        }
        assert forall|k: int| 0 <= k <= 3 implies hex_fields_ok_before(a, k + 1)
            == hex_fields_ok_before(b, k) by {
            if hex_fields_ok_before(b, k) {
                assert forall|j: int| 0 <= j < k + 1 implies #[trigger] hex_field(a, j) is Some by {
                    if j > 0 {
                        assert(hex_field(a, (j - 1) + 1) == hex_field(b, j - 1));
                    }
                }
            }
            if hex_fields_ok_before(a, k + 1) {
                assert forall|j: int| 0 <= j < k implies #[trigger] hex_field(b, j) is Some by {
                    assert(hex_field(a, j + 1) == hex_field(b, j));
                }
            }
        }
        assert forall|k: int| 0 <= k < 3 implies field_end_splits_char(a, k + 1)
            == field_end_splits_char(b, k) by {
            if 2 * k + 2 < b.len() {
                assert(a[2 * (k + 1) + 2] == b[2 * k + 2]);
            }
        }
        assert(!field_end_splits_char(a, 0)) by {
            assert(a[2] == b[0]);
            is_char_boundary_start_end_of_seq(b);
            is_char_boundary_iff_not_is_continuation_byte(b, 0);
        }
        if hex_fields_ok_before(a, 4) {
            let fa = spec_hex_fields(a, 4).unwrap();
            let fb = spec_hex_fields(b, 3).unwrap();
            assert(hex_fields_ok_before(a, 3int + 1) == hex_fields_ok_before(b, 3int));
            assert(hex_field(a, 0int + 1) == hex_field(b, 0));
            assert(hex_field(a, 1int + 1) == hex_field(b, 1));
            assert(hex_field(a, 2int + 1) == hex_field(b, 2));
            assert(fa[1] == fb[0] && fa[2] == fb[1] && fa[3] == fb[2]);
        } else {
            assert(hex_fields_ok_before(a, 3int + 1) == hex_fields_ok_before(b, 3int));
        }
        if hex_fields_slice_cleanly(b, 3) {
            assert forall|k: int| 0 <= k < 4 && hex_fields_ok_before(a, k) implies
                !#[trigger] field_end_splits_char(a, k) by {
                if k > 0 {
                    assert(hex_fields_ok_before(a, (k - 1) + 1) == hex_fields_ok_before(b, k - 1));
                    assert(field_end_splits_char(a, (k - 1) + 1) == field_end_splits_char(b, k - 1));
                }
            }
        }
        if hex_fields_slice_cleanly(a, 4) {
            assert forall|k: int| 0 <= k < 3 && hex_fields_ok_before(b, k) implies
                !#[trigger] field_end_splits_char(b, k) by {
                assert(hex_fields_ok_before(a, k + 1) == hex_fields_ok_before(b, k));
                assert(field_end_splits_char(a, k + 1) == field_end_splits_char(b, k));
            }
        }
    }
}

proof fn lemma_upper_hex_char_of_digit(x: u8)
    requires
        crate::hex::hex_digit_value(x) is Some,
    ensures
        upper_hex_char(crate::hex::hex_digit_value(x).unwrap()) == ascii_upper(x as char),
{
}

/// Parsing eight hexadecimal digits as ARGB text and formatting the color again gives the
/// text back in upper case (and the parse slices the text cleanly).
#[verifier::spinoff_prover]
#[verifier::rlimit(40)]
pub proof fn lemma_argb_hex_reformat(text: Seq<char>)
    requires
        text.len() == 8,
        forall|i: int| 0 <= i < 8 ==> '\0' <= #[trigger] text[i] <= '\u{7f}'
            && crate::hex::hex_digit_value(text[i] as u8) is Some,
    ensures
        hex_fields_slice_cleanly(encode_utf8(text), 4),
        spec_argb(encode_utf8(text)) matches Some(c) && spec_argb_hex(c) == text.map_values(
            |ch: char| ascii_upper(ch),
        ),
{
    broadcast use vstd::utf8::group_utf8_lib;

    let b = encode_utf8(text);
    assert(is_ascii_chars(text));
    assert(b.len() == 8);
    assert forall|k: int| 0 <= k < 4 implies #[trigger] hex_field(b, k) == Some(
        (crate::hex::hex_digit_value(b[2 * k]).unwrap() * 16 + crate::hex::hex_digit_value(
            b[2 * k + 1],
        ).unwrap()) as u8,
    ) by {
        let b0 = b[2 * k];
        let b1 = b[2 * k + 1];
        assert(b0 == text[2 * k] as u8 && b1 == text[2 * k + 1] as u8);
        assert(b.subrange(2 * k, 2 * k + 2) =~= seq![b0, b1]);
        crate::hex::lemma_short_digit_values(b0, b1);
        assert(seq![b0, b1][0] != 0x2b);
    }
    assert(hex_fields_ok_before(b, 4));
    assert forall|k: int| 0 <= k < 4 && hex_fields_ok_before(b, k) implies
        !#[trigger] field_end_splits_char(b, k) by {
        if 2 * k + 2 < b.len() {
            assert(b[2 * k + 2] == text[2 * k + 2] as u8);
        }
    }
    let f = spec_hex_fields(b, 4).unwrap();
    let c = spec_argb(b).unwrap();
    let up = text.map_values(|ch: char| ascii_upper(ch));
    assert forall|i: int| 0 <= i < 8 implies #[trigger] spec_argb_hex(c)[i] == up[i] by {
        let k = i / 2;
        let d0 = crate::hex::hex_digit_value(b[2 * k]).unwrap();
        let d1 = crate::hex::hex_digit_value(b[2 * k + 1]).unwrap();
        let v = (d0 * 16 + d1) as u8;
        assert(hex_field(b, k) == Some(v));
        assert(f[k] == v);
        assert(v / 16 == d0 && v % 16 == d1);
        assert(b[2 * k] == text[2 * k] as u8 && b[2 * k + 1] == text[2 * k + 1] as u8);
        lemma_upper_hex_char_of_digit(b[2 * k]);
        lemma_upper_hex_char_of_digit(b[2 * k + 1]);
        assert(text[2 * k] as u8 as char == text[2 * k]);
        assert(text[2 * k + 1] as u8 as char == text[2 * k + 1]);
        let parts = seq![c.a, c.r, c.g, c.b];
        assert(parts[k] == f[k]);
        assert(spec_argb_hex(c) =~= hex2(parts[0]) + hex2(parts[1]) + hex2(parts[2]) + hex2(
            parts[3],
        ));
        assert(spec_argb_hex(c)[2 * k] == hex2(parts[k])[0]);
        assert(spec_argb_hex(c)[2 * k + 1] == hex2(parts[k])[1]);
    }
    assert(spec_argb_hex(c) =~= up);
}

/// Formatting a color as ARGB hex text and parsing that text back gives the same color
/// (and the parse slices the text cleanly, so `from_argb_hex` accepts it).
pub proof fn lemma_argb_hex_round_trip(c: Color)
    ensures
        hex_fields_slice_cleanly(encode_utf8(spec_argb_hex(c)), 4),
        spec_argb(encode_utf8(spec_argb_hex(c))) == Some(c),
{
    broadcast use vstd::utf8::group_utf8_lib;

    let chars = spec_argb_hex(c);
    let b = encode_utf8(chars);
    assert(is_ascii_chars(chars));
    assert(b.len() == 8);
    let parts = seq![c.a, c.r, c.g, c.b];
    assert forall|k: int| 0 <= k < 4 implies #[trigger] hex_field(b, k) == Some(parts[k]) by {
        lemma_hex2_parses(parts[k]);
        assert(chars[2 * k] == hex2(parts[k])[0]);
        assert(chars[2 * k + 1] == hex2(parts[k])[1]);
        assert(b.subrange(2 * k, 2 * k + 2) =~= seq![hex2(parts[k])[0] as u8, hex2(parts[k])[1] as u8]);
    }
    assert(hex_fields_ok_before(b, 4));
    assert forall|k: int| 0 <= k < 4 && hex_fields_ok_before(b, k) implies !#[trigger] field_end_splits_char(b, k) by {
        if 2 * k + 2 < b.len() {
            assert(b[2 * k + 2] == chars[2 * k + 2] as u8);
        }
    }
    let f = spec_hex_fields(b, 4).unwrap();
    assert(f[0] == c.a && f[1] == c.r && f[2] == c.g && f[3] == c.b);
}

} // verus!
