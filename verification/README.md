# calamine (verified core)

Cell number formats, colors, comments and workbook themes of spreadsheet files, with
their behaviour stated in Verus contracts and proved.

- `src/number_format.rs`: whether a custom number format code shows dates, durations or
  neither, as a character-by-character scan (`number_format_kind`), with the laws that
  only the first section counts, that a verdict is final, that quoted literals and
  escaped characters are ignored, and that ASCII case does not matter.
- `src/formats.rs`: `CellFormat`, `Color` (ARGB / RGB hex text both ways, round trip
  proved), styles, builtin formats by id and by code (proved to agree), integer cells.
- `src/hex.rs`: the two-character hexadecimal fields of color text, read with
  `u8::from_str_radix`.
- `src/theme.rs`: `Theme` and `ThemeReader`, a state machine that takes the XML events of a
  theme part and says what to do next (read on, skip an element, done, failed); `theme_from_events` gives what a whole event
  sequence yields, and an element other than a theme color inside a scheme is proved to
  change nothing.
- `src/comments.rs`: threaded comments, persons and rich text runs.
- `app/`: reading theme events with `quick-xml` and driving `ThemeReader`; float cell
  values; legacy comments with floating-point positions.
