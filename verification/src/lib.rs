//! Cell formats, colors, comments and workbook themes of spreadsheet files.

pub mod comments;
pub mod formats;
pub mod hex;
pub mod number_format;
pub mod theme;

pub use comments::{Person, RichTextRun, ThreadedComment};
pub use formats::{
    builtin_format_by_code, builtin_format_by_id, datetime_type, format_excel_i64, CellFormat,
    CellStyle, Color, Data, ExcelDateTime, ExcelDateTimeType, FillStyle, FontStyle,
};
pub use number_format::{detect_custom_number_format, number_format_fits};
pub use theme::{Theme, ThemeAction, ThemeError, ThemeReader, XmlAttribute, XmlElement, XmlEvent};
