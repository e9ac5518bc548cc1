//! Hexadecimal fields of color strings, parsed as `u8::from_str_radix(.., 16)` does.

use std::num::ParseIntError;
use vstd::prelude::*;
use vstd::string::StringSliceAdditionalSpecFns;
use vstd::utf8::*;

verus! {

broadcast use vstd::utf8::group_utf8_lib;

#[verifier::external_type_specification]
#[verifier::external_body]
pub struct ExParseIntError(ParseIntError);

/// Value of one ASCII hexadecimal digit (either case).
pub open spec fn hex_digit_value(b: u8) -> Option<nat> {
    if 0x30 <= b <= 0x39 {
        Some((b - 0x30) as nat)
    } else if 0x41 <= b <= 0x46 {
        Some((b - 0x41 + 10) as nat)
    } else if 0x61 <= b <= 0x66 {
        Some((b - 0x61 + 10) as nat)
    } else {
        None
    }
}

/// Value of a sequence of hexadecimal digits, most significant first.
pub open spec fn hex_digits_value(d: Seq<u8>) -> Option<nat>
    decreases d.len(),
{
    if d.len() == 0 {
        Some(0)
    } else {
        match (hex_digits_value(d.drop_last()), hex_digit_value(d.last())) {
            (Some(v), Some(x)) => Some(v * 16 + x),
            _ => None,
        }
    }
}

/// The digits of a radix-16 string: the bytes after an optional leading `+`.
pub open spec fn radix16_digits(s: Seq<u8>) -> Seq<u8> {
    if s.len() > 0 && s[0] == 0x2b {
        s.drop_first()
    } else {
        s
    }
}

/// The value that `u8::from_str_radix(s, 16)` gives for a string whose bytes are `s`:
/// an optional `+`, then at least one hexadecimal digit, with a value that fits a `u8`.
pub open spec fn radix16_u8(s: Seq<u8>) -> Option<u8> {
    let digits = radix16_digits(s);
    if digits.len() == 0 {
        None
    } else {
        match hex_digits_value(digits) {
            Some(v) => if v <= 255 { Some(v as u8) } else { None },
            None => None,
        }
    }
}

/// The error that `u8::from_str_radix(s, 16)` gives for a string whose bytes are `s`, when
/// it gives one. The function depends on its argument alone.
pub uninterp spec fn radix16_u8_error(s: Seq<u8>) -> ParseIntError;

/// The kinds of integer parse error that std's `IntErrorKind` tells apart.
#[derive(Debug, Clone, Copy, PartialEq, Eq)]
pub enum ParseIntErrorKind {
    /// The value being parsed is empty.
    Empty,
    /// A character is not a digit in its place (a misplaced or lone sign among others).
    InvalidDigit,
    /// The value is too large for the integer type.
    PosOverflow,
    /// The value is too small for the integer type.
    NegOverflow,
    /// The value is zero where that is not allowed.
    Zero,
    /// A kind added to std later.
    Other,
}

/// The kind that `ParseIntError::kind` reports of an error.
pub uninterp spec fn int_error_kind(e: ParseIntError) -> ParseIntErrorKind;

/// `u8::from_str_radix(s, 16)`. Its documentation says that the string must be an optional
/// `+` sign followed by digits of the radix, and that an empty digit string or a value above
/// `u8::MAX` is an error. The contract states exactly when it succeeds and the value; the
/// error is named as a function of the string. Of its kind (`IntErrorKind`), the contract
/// states what the documentation of the kinds gives: `Empty` for an empty string,
/// `PosOverflow` for well-formed digits whose value exceeds `u8::MAX`, and `InvalidDigit`
/// for a failing string of one or two bytes (which can neither be empty nor overflow). Which
/// kind a longer string with both a bad digit and too large a value gets is not stated.
#[verifier::external_body]
fn u8_from_hex_str(s: &str) -> (r: Result<u8, ParseIntError>)
    ensures
        r is Ok <==> radix16_u8(s.spec_bytes()) is Some,
        r matches Ok(v) ==> radix16_u8(s.spec_bytes()) == Some(v),
        r matches Err(e) ==> e == radix16_u8_error(s.spec_bytes()),
        r matches Err(e) ==> s.spec_bytes().len() == 0 ==> int_error_kind(e)
            == ParseIntErrorKind::Empty,
        r matches Err(e) ==> 1 <= s.spec_bytes().len() <= 2 ==> int_error_kind(e)
            == ParseIntErrorKind::InvalidDigit,
        r matches Err(e) ==> radix16_digits(s.spec_bytes()).len() > 0 && hex_digits_value(
            radix16_digits(s.spec_bytes()),
        ) is Some ==> int_error_kind(e) == ParseIntErrorKind::PosOverflow,
{
    u8::from_str_radix(s, 16)
}

/// The `k`-th two-byte field of `b`, parsed as a hexadecimal `u8`.
pub open spec fn hex_field(b: Seq<u8>, k: int) -> Option<u8> {
    radix16_u8(b.subrange(2 * k, 2 * k + 2))
}

/// The fields before field `k` all parse.
pub open spec fn hex_fields_ok_before(b: Seq<u8>, k: int) -> bool {
    forall|j: int| 0 <= j < k ==> #[trigger] hex_field(b, j) is Some
}

/// The end of field `k` falls inside a multi-byte character.
pub open spec fn field_end_splits_char(b: Seq<u8>, k: int) -> bool {
    2 * k + 2 < b.len() && is_continuation_byte(b[2 * k + 2])
}

/// Slicing out the two-byte fields of a `2 * n`-byte string, one after the other and
/// stopping at the first field that fails to parse, never cuts a character in two.
/// (Slicing a `str` inside a character panics.)
pub open spec fn hex_fields_slice_cleanly(b: Seq<u8>, n: nat) -> bool {
    b.len() == 2 * n ==> forall|k: int|
        0 <= k < n && hex_fields_ok_before(b, k) ==> !#[trigger] field_end_splits_char(b, k)
}

/// The `n` hexadecimal fields of `b`, when `b` has exactly `2 * n` bytes and every field parses.
pub open spec fn spec_hex_fields(b: Seq<u8>, n: nat) -> Option<Seq<u8>> {
    if b.len() == 2 * n && hex_fields_ok_before(b, n as int) {
        Some(Seq::new(n, |k: int| hex_field(b, k).unwrap()))
    } else {
        None
    }
}

fn is_hex_digit(b: u8) -> (r: bool)
    ensures
        r == (hex_digit_value(b) is Some),
{
    (0x30 <= b && b <= 0x39) || (0x41 <= b && b <= 0x46) || (0x61 <= b && b <= 0x66)
}

/// The value of one or two hexadecimal digits.
pub proof fn lemma_short_digit_values(b0: u8, b1: u8)
    ensures
        hex_digits_value(seq![b1]) == match hex_digit_value(b1) {
            Some(x) => Some(x),
            None => None::<nat>,
        },
        hex_digits_value(seq![b0, b1]) == match (hex_digit_value(b0), hex_digit_value(b1)) {
            (Some(x), Some(y)) => Some(x * 16 + y),
            _ => None::<nat>,
        },
{
    assert(seq![b1].drop_last() =~= Seq::<u8>::empty());
    assert(seq![b0, b1].drop_last() =~= seq![b0]);
    assert(seq![b0].drop_last() =~= Seq::<u8>::empty());
    assert(hex_digits_value(Seq::<u8>::empty()) == Some(0nat));
    assert(hex_digits_value(seq![b0]) == match hex_digit_value(b0) {
        Some(x) => Some(x),
        None => None::<nat>,
    });
    assert(seq![b0, b1].last() == b1);
}

/// Whether a two-byte field parses as a hexadecimal `u8`.
fn field_parses(b0: u8, b1: u8) -> (r: bool)
    ensures
        r == (radix16_u8(seq![b0, b1]) is Some),
{
    proof {
        lemma_short_digit_values(b0, b1);
        assert(seq![b0, b1].drop_first() =~= seq![b1]);
    }
    if b0 == 0x2b {
        is_hex_digit(b1)
    } else {
        is_hex_digit(b0) && is_hex_digit(b1)
    }
}

/// Whether slicing the `n` two-byte fields out of `hex` (as `parse_hex_fields` does) keeps
/// to character boundaries, so that the parse can go ahead.
pub fn hex_fields_slice_cleanly_exec(hex: &str, n: usize) -> (r: bool)
    ensures
        r == hex_fields_slice_cleanly(hex.spec_bytes(), n as nat),
{
    let b = hex.as_bytes();
    let len = b.len();
    if len % 2 != 0 || len / 2 != n {
        return true;
    }
    let ghost bs = b@;
    let mut k: usize = 0;
    while k < n
        invariant
            bs == b@,
            bs == hex.spec_bytes(),
            len == bs.len(),
            len == 2 * n,
            k <= n,
            hex_fields_ok_before(bs, k as int),
            forall|j: int|
                0 <= j < k && hex_fields_ok_before(bs, j) ==> !#[trigger] field_end_splits_char(bs, j),
        decreases n - k,
    {
        if 2 * k + 2 < len && 0x80 <= b[2 * k + 2] && b[2 * k + 2] <= 0xbf {
            assert(field_end_splits_char(bs, k as int));
            return false;
        }
        let ok = field_parses(b[2 * k], b[2 * k + 1]);
        proof {
            assert(bs.subrange(2 * k, 2 * k + 2) =~= seq![b[2 * k as int], b[2 * k + 1]]);
        }
        if !ok {
            assert forall|j: int| 0 <= j < n && hex_fields_ok_before(bs, j) implies !#[trigger] field_end_splits_char(bs, j) by {
                if j > k {
                    assert(hex_field(bs, k as int) is Some);
                }
            }
            return true;
        }
        k = k + 1;
        assert(hex_fields_ok_before(bs, k as int)) by {
            assert forall|j: int| 0 <= j < k implies #[trigger] hex_field(bs, j) is Some by {
                if j < k - 1 {
                    assert(hex_fields_ok_before(bs, (k - 1) as int));
                }
            }
        }
    }
    true
}

/// The first field of `b` that fails to parse, all earlier ones parsing.
pub open spec fn is_first_failing_field(b: Seq<u8>, n: nat, k: int) -> bool {
    0 <= k < n && hex_fields_ok_before(b, k) && hex_field(b, k) is None
}

/// The error of reading `n` hexadecimal fields from `b`: that of an empty string when `b`
/// does not have `2 * n` bytes, else that of the first field that fails to parse.
pub open spec fn hex_fields_error(b: Seq<u8>, n: nat) -> ParseIntError {
    if b.len() != 2 * n {
        radix16_u8_error(Seq::empty())
    } else {
        let k = choose|k: int| is_first_failing_field(b, n, k);
        radix16_u8_error(b.subrange(2 * k, 2 * k + 2))
    }
}

/// The error that `u8::from_str_radix("", 16)` gives.
fn empty_input_error() -> (e: ParseIntError)
    ensures
        e == radix16_u8_error(Seq::empty()),
        int_error_kind(e) == ParseIntErrorKind::Empty,
{
    let empty = "";
    proof {
        reveal_strlit("");
        assert(empty.spec_bytes() =~= Seq::<u8>::empty());
    }
    match u8_from_hex_str(empty) {
        Err(e) => e,
        Ok(_) => vstd::pervasive::unreached(),
    }
}

/// Parses `hex` as `n` consecutive two-character hexadecimal fields.
pub fn parse_hex_fields(hex: &str, n: usize) -> (r: Result<Vec<u8>, ParseIntError>)
    requires
        hex_fields_slice_cleanly(hex.spec_bytes(), n as nat),
    ensures
        r is Ok <==> spec_hex_fields(hex.spec_bytes(), n as nat) is Some,
        r matches Ok(v) ==> spec_hex_fields(hex.spec_bytes(), n as nat) == Some(v@),
        r matches Err(e) ==> e == hex_fields_error(hex.spec_bytes(), n as nat),
        r matches Err(e) ==> int_error_kind(e) == if hex.spec_bytes().len() != 2 * n {
            ParseIntErrorKind::Empty
        } else {
            ParseIntErrorKind::InvalidDigit
        },
{
    let ghost b = hex.spec_bytes();
    let len = hex.as_bytes().len();
    if len % 2 != 0 || len / 2 != n {
        return Err(empty_input_error());
    }
    let mut rest = hex;
    let mut out: Vec<u8> = Vec::new();
    let mut k: usize = 0;
    while k < n
        invariant
            b == hex.spec_bytes(),
            b.len() == 2 * n,
            hex_fields_slice_cleanly(b, n as nat),
            k <= n,
            rest.spec_bytes() == b.subrange(2 * k, b.len() as int),
            hex_fields_ok_before(b, k as int),
            out@.len() == k,
            forall|j: int| 0 <= j < k ==> Some(#[trigger] out@[j]) == hex_field(b, j),
        decreases n - k,
    {
        let ghost rb = rest.spec_bytes();
        proof {
            assert(valid_utf8(rb));
            if rb.len() == 2 {
                is_char_boundary_start_end_of_seq(rb);
            } else {
                assert(!field_end_splits_char(b, k as int));
                assert(rb[2] == b[2 * k + 2]);
                is_char_boundary_iff_not_is_continuation_byte(rb, 2);
            }
        }
        let (field, tail) = rest.split_at(2);
        proof {
            assert(field.spec_bytes() =~= b.subrange(2 * k, 2 * k + 2));
            assert(tail.spec_bytes() =~= b.subrange(2 * (k + 1), b.len() as int));
        }
        match u8_from_hex_str(field) {
            Ok(v) => {
                out.push(v);
            },
            Err(e) => {
                assert(!hex_fields_ok_before(b, n as int)) by {
                    assert(hex_field(b, k as int) is None);
                }
                proof {
                    assert(is_first_failing_field(b, n as nat, k as int));
                    let c = choose|c: int| is_first_failing_field(b, n as nat, c);
                    if c < k {
                        assert(hex_field(b, c) is Some);
                    } else if c > k {
                        assert(hex_field(b, k as int) is Some);
                    }
                    assert(c == k);
                }
                return Err(e);
            },
        }
        rest = tail;
        k = k + 1;
        assert(hex_fields_ok_before(b, k as int)) by {
            assert forall|j: int| 0 <= j < k implies #[trigger] hex_field(b, j) is Some by {
                if j < k - 1 {
                    assert(hex_fields_ok_before(b, (k - 1) as int));
                }
            }
        }
    }
    proof {
        assert(out@ =~= Seq::new(n as nat, |j: int| hex_field(b, j).unwrap()));
    }
    Ok(out)
}

} // verus!
