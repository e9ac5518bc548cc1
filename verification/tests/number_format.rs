use calamine::{detect_custom_number_format, number_format_fits, CellFormat};

/// Cases from openpyxl's number style tests, MIT License
/// https://foss.heptapod.net/openpyxl/openpyxl/-/blob/a5e197c530aaa49814fd1d993dd776edcec35105/openpyxl/styles/tests/test_number_style.py
#[test]
fn test_is_date_format() {
    assert_eq!(
        detect_custom_number_format("DD/MM/YY"),
        CellFormat::DateTime
    );
    assert_eq!(
        detect_custom_number_format("H:MM:SS;@"),
        CellFormat::DateTime
    );
    assert_eq!(
        detect_custom_number_format("#,##0\\ [$\\u20bd-46D]"),
        CellFormat::Other
    );
    assert_eq!(
        detect_custom_number_format("m\"M\"d\"D\";@"),
        CellFormat::DateTime
    );
    assert_eq!(
        detect_custom_number_format("[h]:mm:ss"),
        CellFormat::TimeDelta
    );
    assert_eq!(
        detect_custom_number_format("\"Y: \"0.00\"m\";\"Y: \"-0.00\"m\";\"Y: <num>m\";@"),
        CellFormat::Other
    );
    assert_eq!(
        detect_custom_number_format("#,##0\\ [$''u20bd-46D]"),
        CellFormat::Other
    );
    assert_eq!(
        detect_custom_number_format("\"$\"#,##0_);[Red](\"$\"#,##0)"),
        CellFormat::Other
    );
    assert_eq!(
        detect_custom_number_format("[$-404]e\"\\xfc\"m\"\\xfc\"d\"\\xfc\""),
        CellFormat::DateTime
    );
    assert_eq!(
        detect_custom_number_format("0_ ;[Red]\\-0\\ "),
        CellFormat::Other
    );
    assert_eq!(detect_custom_number_format("\\Y000000"), CellFormat::Other);
    assert_eq!(
        detect_custom_number_format("#,##0.0####\" YMD\""),
        CellFormat::Other
    );
    assert_eq!(detect_custom_number_format("[h]"), CellFormat::TimeDelta);
    assert_eq!(detect_custom_number_format("[ss]"), CellFormat::TimeDelta);
    assert_eq!(
        detect_custom_number_format("[s].000"),
        CellFormat::TimeDelta
    );
    assert_eq!(detect_custom_number_format("[m]"), CellFormat::TimeDelta);
    assert_eq!(detect_custom_number_format("[mm]"), CellFormat::TimeDelta);
    assert_eq!(
        detect_custom_number_format("[Blue]\\+[h]:mm;[Red]\\-[h]:mm;[Green][h]:mm"),
        CellFormat::TimeDelta
    );
    assert_eq!(
        detect_custom_number_format("[>=100][Magenta][s].00"),
        CellFormat::TimeDelta
    );
    assert_eq!(
        detect_custom_number_format("[h]:mm;[=0]\\-"),
        CellFormat::TimeDelta
    );
    assert_eq!(
        detect_custom_number_format("[>=100][Magenta].00"),
        CellFormat::Other
    );
    assert_eq!(
        detect_custom_number_format("[>=100][Magenta]General"),
        CellFormat::Other
    );
    assert_eq!(
        detect_custom_number_format("ha/p\\\\m"),
        CellFormat::DateTime
    );
    assert_eq!(
        detect_custom_number_format("#,##0.00\\ _M\"H\"_);[Red]#,##0.00\\ _M\"S\"_)"),
        CellFormat::Other
    );
}

#[test]
fn only_first_section_counts() {
    assert_eq!(detect_custom_number_format("0.00;yyyy"), CellFormat::Other);
    assert_eq!(detect_custom_number_format("0.00"), CellFormat::Other);
    // a quoted or escaped `;` does not end the first section
    assert_eq!(detect_custom_number_format("\";\"yyyy"), CellFormat::DateTime);
    assert_eq!(detect_custom_number_format("\\;yyyy"), CellFormat::DateTime);
}

#[test]
fn verdict_ignores_what_follows() {
    assert_eq!(detect_custom_number_format("d"), CellFormat::DateTime);
    assert_eq!(detect_custom_number_format("d;0.00"), CellFormat::DateTime);
    assert_eq!(detect_custom_number_format("[h]"), CellFormat::TimeDelta);
    assert_eq!(detect_custom_number_format("[h]yyyy"), CellFormat::TimeDelta);
}

#[test]
fn am_pm_markers() {
    assert_eq!(detect_custom_number_format("a/p"), CellFormat::DateTime);
    assert_eq!(detect_custom_number_format("AM/PM"), CellFormat::DateTime);
    // after an `a`, date letters other than `m` no longer decide
    assert_eq!(detect_custom_number_format("ad"), CellFormat::Other);
}

#[test]
fn brackets_and_durations() {
    assert_eq!(detect_custom_number_format("[Red]0"), CellFormat::Other);
    assert_eq!(detect_custom_number_format("[hh]"), CellFormat::TimeDelta);
    assert_eq!(detect_custom_number_format("[hm]"), CellFormat::Other);
    assert_eq!(detect_custom_number_format("]d"), CellFormat::DateTime);
    assert_eq!(detect_custom_number_format("[[h]]"), CellFormat::TimeDelta);
    assert_eq!(detect_custom_number_format(""), CellFormat::Other);
}

#[test]
fn deep_brackets_within_the_counter() {
    let format = "[".repeat(255);
    assert_eq!(detect_custom_number_format(&format), CellFormat::Other);
}

#[test]
fn quoted_literals_and_escapes_are_ignored() {
    let d = detect_custom_number_format;
    for (a, b) in [("0.00", ""), ("#,##0", " yy"), ("", "[h]:mm"), ("0", "[Red]0")] {
        let ab = format!("{a}{b}");
        assert_eq!(d(&format!("{a}\"days hms\"{b}")), d(&ab));
        assert_eq!(d(&format!("{a}\\d{b}")), d(&ab));
        assert_eq!(d(&format!("{a}_y{b}")), d(&ab));
        assert_eq!(d(&format!("{a}\\;{b}")), d(&ab));
    }
    assert_eq!(d("0\"h\"[h]"), CellFormat::TimeDelta);
}

#[test]
fn ascii_case_is_ignored() {
    for f in ["DD/MM/YY", "h:mm AM/PM", "[hh]:mm", "[Red]0.00", "\"Y: \"0.00", "aA/p", "[S].0"] {
        let kind = detect_custom_number_format(f);
        assert_eq!(detect_custom_number_format(&f.to_ascii_uppercase()), kind);
        assert_eq!(detect_custom_number_format(&f.to_ascii_lowercase()), kind);
    }
}

#[test]
fn bracket_depth_check() {

    assert!(number_format_fits("[h]:mm"));
    assert!(number_format_fits(""));
    assert!(number_format_fits(&"[".repeat(255)));
    assert!(!number_format_fits(&"[".repeat(256)));
    // closed brackets do not count, nor quoted or escaped ones, nor what follows a verdict
    assert!(number_format_fits(&"[]".repeat(300)));
    assert!(number_format_fits(&format!("\"{}\"", "[".repeat(300))));
    assert!(number_format_fits(&"\\[".repeat(300)));
    assert!(number_format_fits(&format!("d{}", "[".repeat(300))));
}
