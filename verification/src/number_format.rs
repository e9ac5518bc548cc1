//! Deciding from a custom number format code whether it displays dates or durations.

use vstd::prelude::*;

use crate::formats::CellFormat;

verus! {

/// Where the left-to-right scan of a format code stands.
#[derive(Debug, Clone, Copy)]
pub struct ScanState {
    /// The previous character was an escape (`\` or `_`): this one is skipped.
    pub escaped: bool,
    /// Inside a `"..."` literal.
    pub is_quote: bool,
    /// How many `[` are open.
    pub brackets: u8,
    /// The previous character.
    pub prev: char,
    /// The last token looks like the start of an elapsed-time field such as `[h`.
    pub hms: bool,
    /// An `a`/`A` was seen outside brackets: an AM/PM marker may follow.
    pub ap: bool,
}

/// One step of the scan: go on in a new state, stop with a verdict, or overflow the
/// bracket counter (more than 255 `[` open at once).
#[derive(Debug, Clone, Copy)]
pub enum ScanStep {
    Continue(ScanState),
    Decided(CellFormat),
    Overflow,
}

/// The state before the first character.
pub open spec fn initial_scan_state() -> ScanState {
    ScanState { escaped: false, is_quote: false, brackets: 0, prev: ' ', hms: false, ap: false }
}

/// Letters that make a date or time format when they stand outside brackets.
pub open spec fn is_date_letter(c: char) -> bool {
    c == 'd' || c == 'm' || c == 'h' || c == 'y' || c == 's' || c == 'D' || c == 'M' || c == 'H'
        || c == 'Y' || c == 'S'
}

/// Characters that, after an `a`, complete an AM/PM marker (`am/pm`, `a/p`).
pub open spec fn is_ampm_letter(c: char) -> bool {
    c == 'p' || c == 'm' || c == '/' || c == 'P' || c == 'M'
}

/// Letters of an elapsed-time field (`[h]`, `[mm]`, `[ss]`).
pub open spec fn is_duration_letter(c: char) -> bool {
    c == 'm' || c == 'h' || c == 's' || c == 'M' || c == 'H' || c == 'S'
}

/// ASCII lower case of a character; other characters are unchanged.
pub open spec fn ascii_lower(c: char) -> char {
    if 'A' <= c <= 'Z' {
        ((c as u32) + 32) as char
    } else {
        c
    }
}

/// The state after `c`, for a character that does not decide anything.
pub open spec fn advance(st: ScanState, c: char) -> ScanStep {
    ScanStep::Continue(ScanState { prev: c, ..st })
}

/// How one character of a format code moves the scan on.
pub open spec fn scan_step(st: ScanState, c: char) -> ScanStep {
    if st.escaped {
        // an escaped character is skipped
        advance(ScanState { escaped: false, ..st }, c)
    } else if c == '_' || c == '\\' {
        advance(ScanState { escaped: true, ..st }, c)
    } else if st.is_quote {
        // inside a literal only the closing quote counts
        if c == '"' {
            advance(ScanState { is_quote: false, ..st }, c)
        } else {
            advance(st, c)
        }
    } else if c == '"' {
        advance(ScanState { is_quote: true, ..st }, c)
    } else if c == ';' {
        // only the first section of the format is looked at
        ScanStep::Decided(CellFormat::Other)
    } else if c == '[' {
        if st.brackets == 255 {
            ScanStep::Overflow
        } else {
            advance(ScanState { brackets: (st.brackets + 1) as u8, ..st }, c)
        }
    } else if c == ']' && st.brackets == 1 && st.hms {
        // closing an elapsed-time field such as `[h]`
        ScanStep::Decided(CellFormat::TimeDelta)
    } else if c == ']' {
        advance(
            ScanState { brackets: if st.brackets == 0 { 0 } else { (st.brackets - 1) as u8 }, ..st },
            c,
        )
    } else if (c == 'a' || c == 'A') && !st.ap && st.brackets == 0 {
        advance(ScanState { ap: true, ..st }, c)
    } else if is_ampm_letter(c) && st.ap && st.brackets == 0 {
        ScanStep::Decided(CellFormat::DateTime)
    } else if is_date_letter(c) && !st.ap && st.brackets == 0 {
        ScanStep::Decided(CellFormat::DateTime)
    } else if st.hms && ascii_lower(c) == ascii_lower(st.prev) {
        // a repeated letter of the same elapsed-time field
        advance(st, c)
    } else {
        advance(ScanState { hms: st.prev == '[' && is_duration_letter(c), ..st }, c)
    }
}

/// Runs the scan over `s` from state `st`: the state reached at the end of `s`, or the
/// verdict or overflow at which the scan stopped.
pub open spec fn run_scan(s: Seq<char>, st: ScanState) -> ScanStep
    decreases s.len(),
{
    if s.len() == 0 {
        ScanStep::Continue(st)
    } else {
        match scan_step(st, s[0]) {
            ScanStep::Continue(next) => run_scan(s.drop_first(), next),
            stop => stop,
        }
    }
}

/// The kind of a custom number format code: the verdict of the scan, `Other` when the scan
/// reaches the end undecided, and `None` when more than 255 brackets would be open at once.
pub open spec fn number_format_kind(format: Seq<char>) -> Option<CellFormat> {
    match run_scan(format, initial_scan_state()) {
        ScanStep::Continue(_) => Some(CellFormat::Other),
        ScanStep::Decided(f) => Some(f),
        ScanStep::Overflow => None,
    }
}

/// Scanning `s + t` is scanning `s`, then going on with `t` from where `s` left the scan.
pub proof fn lemma_run_scan_concat(s: Seq<char>, t: Seq<char>, st: ScanState)
    ensures
        run_scan(s + t, st) == match run_scan(s, st) {
            ScanStep::Continue(mid) => run_scan(t, mid),
            stop => stop,
        },
    decreases s.len(),
{
    if s.len() == 0 {
        assert(s + t =~= t);
    } else {
        assert((s + t)[0] == s[0]);
        assert((s + t).drop_first() =~= s.drop_first() + t);
        match scan_step(st, s[0]) {
            ScanStep::Continue(next) => {
                lemma_run_scan_concat(s.drop_first(), t, next);
            },
            _ => {},
        }
    }
}

/// Once the scan of a format code has reached a verdict, nothing appended to the code
/// changes the kind.
pub proof fn lemma_verdict_ignores_rest(s: Seq<char>, t: Seq<char>)
    requires
        run_scan(s, initial_scan_state()) is Decided,
    ensures
        number_format_kind(s + t) == number_format_kind(s),
{
    lemma_run_scan_concat(s, t, initial_scan_state());
}

/// Text that leaves the scan as it started, outside quotes, escapes and brackets and with
/// no AM/PM marker begun: none of `[`, `"`, `\`, `_`, `;`, `a`, `A`, and no date letter.
pub open spec fn is_neutral_text(a: Seq<char>) -> bool {
    forall|i: int|
        0 <= i < a.len() ==> {
            let c = #[trigger] a[i];
            &&& c != '[' && c != '"' && c != '\\' && c != '_' && c != ';' && c != 'a' && c != 'A'
            &&& c != 'd' && c != 'm' && c != 'h' && c != 'y' && c != 's'
            &&& c != 'D' && c != 'M' && c != 'H' && c != 'Y' && c != 'S'
        }
}

proof fn lemma_neutral_run(a: Seq<char>, st: ScanState)
    requires
        is_neutral_text(a),
        !st.escaped,
        !st.is_quote,
        !st.ap,
        st.brackets == 0,
    ensures
        run_scan(a, st) matches ScanStep::Continue(e) && !e.escaped && !e.is_quote && !e.ap
            && e.brackets == 0,
    decreases a.len(),
{
    if a.len() > 0 {
        let c = a[0];
        assert(is_neutral_text(a.drop_first())) by {
            assert forall|i: int| 0 <= i < a.drop_first().len() implies {
                let c = #[trigger] a.drop_first()[i];
                &&& c != '[' && c != '"' && c != '\\' && c != '_' && c != ';' && c != 'a' && c != 'A'
                &&& c != 'd' && c != 'm' && c != 'h' && c != 'y' && c != 's'
                &&& c != 'D' && c != 'M' && c != 'H' && c != 'Y' && c != 'S'
            } by {
                assert(a.drop_first()[i] == a[i + 1]);
            }
        }
        assert(scan_step(st, c) is Continue);
        lemma_neutral_run(a.drop_first(), scan_step(st, c)->Continue_0);
    }
}

/// A date letter (`d`, `m`, `h`, `y` or `s`, either case) that comes outside quotes,
/// escapes and brackets, before any `a`/`A`, makes the format a date format, whatever
/// follows: here after neutral text, and in particular as the first character.
pub proof fn lemma_date_letter_decides(a: Seq<char>, c: char, t: Seq<char>)
    requires
        is_neutral_text(a),
        c == 'd' || c == 'm' || c == 'h' || c == 'y' || c == 's' || c == 'D' || c == 'M' || c
            == 'H' || c == 'Y' || c == 'S',
    ensures
        number_format_kind(a + seq![c] + t) == Some(CellFormat::DateTime),
        number_format_kind(seq![c] + t) == Some(CellFormat::DateTime),
{
    let init = initial_scan_state();
    lemma_neutral_run(a, init);
    let st = run_scan(a, init)->Continue_0;
    lemma_run_scan_concat(a, seq![c] + t, init);
    assert(a + seq![c] + t =~= a + (seq![c] + t));
    assert((seq![c] + t)[0] == c);
    assert(scan_step(st, c) == ScanStep::Decided(CellFormat::DateTime));
    assert(scan_step(init, c) == ScanStep::Decided(CellFormat::DateTime));
}

/// Only the first section of a format code counts: when the scan reaches a `;` that is
/// neither escaped nor quoted, the sections after it do not change the kind, which is
/// that of the first section alone.
pub proof fn lemma_first_section_only(s: Seq<char>, t: Seq<char>)
    requires
        run_scan(s, initial_scan_state()) is Continue,
        !run_scan(s, initial_scan_state())->Continue_0.escaped,
        !run_scan(s, initial_scan_state())->Continue_0.is_quote,
    ensures
        number_format_kind(s + seq![';'] + t) == Some(CellFormat::Other),
        number_format_kind(s + seq![';'] + t) == number_format_kind(s),
{
    let init = initial_scan_state();
    let mid = run_scan(s, init)->Continue_0;
    lemma_run_scan_concat(s, seq![';'] + t, init);
    assert(s + seq![';'] + t =~= s + (seq![';'] + t));
    assert((seq![';'] + t)[0] == ';');
    assert(scan_step(mid, ';') == ScanStep::Decided(CellFormat::Other));
}

/// `s` has no character `c`.
pub open spec fn lacks(s: Seq<char>, c: char) -> bool {
    forall|i: int| 0 <= i < s.len() ==> s[i] != c
}

/// Two states with no bracket open that differ at most in the previous character and the
/// elapsed-time flag (which only matter inside brackets).
pub open spec fn alike_outside_brackets(x: ScanState, y: ScanState) -> bool {
    &&& x.escaped == y.escaped
    &&& x.is_quote == y.is_quote
    &&& x.ap == y.ap
    &&& x.brackets == 0
    &&& y.brackets == 0
}

/// Two scan results that lead to the same kind, the states going on alike.
pub open spec fn alike_results(x: ScanStep, y: ScanStep) -> bool {
    match (x, y) {
        (ScanStep::Continue(a), ScanStep::Continue(b)) => alike_outside_brackets(a, b),
        (ScanStep::Decided(f), ScanStep::Decided(g)) => f == g,
        _ => false,
    }
}

/// Without `[`, the previous character and the elapsed-time flag never change the outcome.
proof fn lemma_alike_runs(s: Seq<char>, x: ScanState, y: ScanState)
    requires
        lacks(s, '['),
        alike_outside_brackets(x, y),
    ensures
        alike_results(run_scan(s, x), run_scan(s, y)),
    decreases s.len(),
{
    if s.len() > 0 {
        let c = s[0];
        assert(c != '[');
        match (scan_step(x, c), scan_step(y, c)) {
            (ScanStep::Continue(x2), ScanStep::Continue(y2)) => {
                assert(lacks(s.drop_first(), '['));
                lemma_alike_runs(s.drop_first(), x2, y2);
            },
            _ => {},
        }
    }
}

/// A run with no bracket open, outside quotes and escapes, over text without `[`, `"`,
/// `\` or `_`, stays that way unless it decides.
proof fn lemma_plain_run(a: Seq<char>, st: ScanState)
    requires
        lacks(a, '['),
        lacks(a, '"'),
        lacks(a, '\\'),
        lacks(a, '_'),
        !st.escaped,
        !st.is_quote,
        st.brackets == 0,
    ensures
        run_scan(a, st) is Decided || (run_scan(a, st) matches ScanStep::Continue(e) && !e.escaped
            && !e.is_quote && e.brackets == 0),
    decreases a.len(),
{
    if a.len() > 0 {
        let c = a[0];
        assert(c != '[' && c != '"' && c != '\\' && c != '_');
        if let ScanStep::Continue(next) = scan_step(st, c) {
            assert(lacks(a.drop_first(), '[') && lacks(a.drop_first(), '"') && lacks(
                a.drop_first(),
                '\\',
            ) && lacks(a.drop_first(), '_'));
            lemma_plain_run(a.drop_first(), next);
        }
    }
}

/// Inside a quoted literal, text without `"`, `\` or `_` changes nothing but the previous
/// character.
proof fn lemma_inside_quotes(q: Seq<char>, st: ScanState)
    requires
        lacks(q, '"'),
        lacks(q, '\\'),
        lacks(q, '_'),
        !st.escaped,
        st.is_quote,
    ensures
        run_scan(q, st) matches ScanStep::Continue(e) && e == (ScanState { prev: e.prev, ..st }),
    decreases q.len(),
{
    if q.len() > 0 {
        let c = q[0];
        assert(c != '"' && c != '\\' && c != '_');
        assert(lacks(q.drop_first(), '"') && lacks(q.drop_first(), '\\') && lacks(
            q.drop_first(),
            '_',
        ));
        lemma_inside_quotes(q.drop_first(), ScanState { prev: c, ..st });
    }
}

/// Whatever a piece `x` of a format code does to the state, when the state after it is alike
/// the state before it, dropping the piece keeps the kind, given plain text before it and
/// no `[` after it.
proof fn lemma_inert_piece(a: Seq<char>, x: Seq<char>, b: Seq<char>)
    requires
        lacks(a, '['),
        lacks(a, '"'),
        lacks(a, '\\'),
        lacks(a, '_'),
        lacks(b, '['),
        forall|st: ScanState|
            !st.escaped && !st.is_quote && st.brackets == 0 ==> (#[trigger] run_scan(x, st)
                matches ScanStep::Continue(e) && alike_outside_brackets(e, st)),
    ensures
        number_format_kind(a + x + b) == number_format_kind(a + b),
{
    let init = initial_scan_state();
    lemma_run_scan_concat(a, x + b, init);
    lemma_run_scan_concat(a, b, init);
    assert(a + x + b =~= a + (x + b));
    lemma_plain_run(a, init);
    if let ScanStep::Continue(st) = run_scan(a, init) {
        lemma_run_scan_concat(x, b, st);
        let e = run_scan(x, st)->Continue_0;
        lemma_alike_runs(b, e, st);
    }
}

/// A quoted literal (text without `"`, `\` or `_` between quotes) put into a format code
/// does not change its kind, when the text before it has no `[`, `"`, `\` or `_` and the
/// text after it has no `[`.
pub proof fn lemma_quoted_literal_ignored(a: Seq<char>, q: Seq<char>, b: Seq<char>)
    requires
        lacks(a, '['),
        lacks(a, '"'),
        lacks(a, '\\'),
        lacks(a, '_'),
        lacks(b, '['),
        lacks(q, '"'),
        lacks(q, '\\'),
        lacks(q, '_'),
    ensures
        number_format_kind(a + seq!['"'] + q + seq!['"'] + b) == number_format_kind(a + b),
{
    let x = seq!['"'] + q + seq!['"'];
    assert forall|st: ScanState|
        !st.escaped && !st.is_quote && st.brackets == 0 implies (#[trigger] run_scan(x, st)
        matches ScanStep::Continue(e) && alike_outside_brackets(e, st)) by {
        let opened = ScanState { is_quote: true, prev: '"', ..st };
        assert(scan_step(st, '"') == ScanStep::Continue(opened));
        lemma_inside_quotes(q, opened);
        let inside = run_scan(q, opened)->Continue_0;
        assert(scan_step(inside, '"') == ScanStep::Continue(
            ScanState { is_quote: false, prev: '"', ..inside },
        ));
        lemma_run_scan_concat(seq!['"'], q + seq!['"'], st);
        lemma_run_scan_concat(q, seq!['"'], opened);
        assert(x =~= seq!['"'] + (q + seq!['"']));
        assert(seq!['"'].drop_first() =~= Seq::<char>::empty());
        lemma_run_one('"', st);
        lemma_run_one('"', inside);
        assert(run_scan(seq!['"'], st) == ScanStep::Continue(opened));
        assert(seq!['"'][0] == '"');
        assert(run_scan(seq!['"'], inside) == ScanStep::Continue(
            ScanState { is_quote: false, prev: '"', ..inside },
        ));
    }
    lemma_inert_piece(a, x, b);
    assert(a + seq!['"'] + q + seq!['"'] + b =~= a + x + b);
}

proof fn lemma_run_one(c: char, st: ScanState)
    ensures
        run_scan(seq![c], st) == scan_step(st, c),
{
    assert(seq![c].drop_first() =~= Seq::<char>::empty());
    assert(seq![c][0] == c);
    if let ScanStep::Continue(next) = scan_step(st, c) {
        assert(run_scan(Seq::<char>::empty(), next) == ScanStep::Continue(next));
    }
}

proof fn lemma_escape_pair(esc: char, c: char, st: ScanState)
    requires
        esc == '\\' || esc == '_',
        !st.escaped,
        !st.is_quote,
        st.brackets == 0,
    ensures
        run_scan(seq![esc, c], st) matches ScanStep::Continue(e) && alike_outside_brackets(e, st),
{
    let escaped = ScanState { escaped: true, prev: esc, ..st };
    assert(scan_step(st, esc) == ScanStep::Continue(escaped));
    assert(seq![esc, c].drop_first() =~= seq![c]);
    assert(seq![c].drop_first() =~= Seq::<char>::empty());
    lemma_run_one(c, escaped);
    assert(run_scan(seq![c], escaped) == ScanStep::Continue(
        ScanState { escaped: false, prev: c, ..escaped },
    ));
}

/// An escaped character (`\c` or `_c`) put into a format code does not change its kind,
/// when the text before it has no `[`, `"`, `\` or `_` and the text after it has no `[`.
pub proof fn lemma_escaped_char_ignored(a: Seq<char>, c: char, b: Seq<char>)
    requires
        lacks(a, '['),
        lacks(a, '"'),
        lacks(a, '\\'),
        lacks(a, '_'),
        lacks(b, '['),
    ensures
        number_format_kind(a + seq!['\\', c] + b) == number_format_kind(a + b),
        number_format_kind(a + seq!['_', c] + b) == number_format_kind(a + b),
{
    let x1 = seq!['\\', c];
    let x2 = seq!['_', c];
    assert forall|st: ScanState| !st.escaped && !st.is_quote && st.brackets == 0 implies (
    #[trigger] run_scan(x1, st) matches ScanStep::Continue(e) && alike_outside_brackets(e, st)) by {
        lemma_escape_pair('\\', c, st);
    }
    assert forall|st: ScanState| !st.escaped && !st.is_quote && st.brackets == 0 implies (
    #[trigger] run_scan(x2, st) matches ScanStep::Continue(e) && alike_outside_brackets(e, st)) by {
        lemma_escape_pair('_', c, st);
    }
    lemma_inert_piece(a, seq!['\\', c], b);
    lemma_inert_piece(a, seq!['_', c], b);
}

/// ASCII upper case of a character; other characters are unchanged.
pub open spec fn ascii_upper(c: char) -> char {
    if 'a' <= c <= 'z' {
        ((c as u32) - 32) as char
    } else {
        c
    }
}

/// The character in ASCII upper case (`upper`) or lower case.
pub open spec fn recase(c: char, upper: bool) -> char {
    if upper {
        ascii_upper(c)
    } else {
        ascii_lower(c)
    }
}

pub open spec fn recase_state(st: ScanState, upper: bool) -> ScanState {
    ScanState { prev: recase(st.prev, upper), ..st }
}

pub open spec fn recase_step(r: ScanStep, upper: bool) -> ScanStep {
    match r {
        ScanStep::Continue(st) => ScanStep::Continue(recase_state(st, upper)),
        other => other,
    }
}

proof fn lemma_recase_char(c: char, upper: bool)
    ensures
        (recase(c, upper) == '_') == (c == '_'),
        (recase(c, upper) == '\\') == (c == '\\'),
        (recase(c, upper) == '"') == (c == '"'),
        (recase(c, upper) == ';') == (c == ';'),
        (recase(c, upper) == '[') == (c == '['),
        (recase(c, upper) == ']') == (c == ']'),
        (recase(c, upper) == 'a' || recase(c, upper) == 'A') == (c == 'a' || c == 'A'),
        is_ampm_letter(recase(c, upper)) == is_ampm_letter(c),
        is_date_letter(recase(c, upper)) == is_date_letter(c),
        is_duration_letter(recase(c, upper)) == is_duration_letter(c),
        ascii_lower(recase(c, upper)) == ascii_lower(c),
{
}

proof fn lemma_recase_step(st: ScanState, c: char, upper: bool)
    ensures
        scan_step(recase_state(st, upper), recase(c, upper)) == recase_step(scan_step(st, c), upper),
{
    lemma_recase_char(c, upper);
    lemma_recase_char(st.prev, upper);
}

proof fn lemma_recase_run(s: Seq<char>, st: ScanState, upper: bool)
    ensures
        run_scan(s.map_values(|c: char| recase(c, upper)), recase_state(st, upper)) == recase_step(
            run_scan(s, st),
            upper,
        ),
    decreases s.len(),
{
    let t = s.map_values(|c: char| recase(c, upper));
    if s.len() > 0 {
        lemma_recase_step(st, s[0], upper);
        assert(t[0] == recase(s[0], upper));
        assert(t.drop_first() =~= s.drop_first().map_values(|c: char| recase(c, upper)));
        if let ScanStep::Continue(next) = scan_step(st, s[0]) {
            lemma_recase_run(s.drop_first(), next, upper);
        }
    }
}

/// Changing the ASCII case of a format code does not change its kind.
pub proof fn lemma_ascii_case_ignored(s: Seq<char>)
    ensures
        number_format_kind(s.map_values(|c: char| ascii_upper(c))) == number_format_kind(s),
        number_format_kind(s.map_values(|c: char| ascii_lower(c))) == number_format_kind(s),
{
    let init = initial_scan_state();
    assert(recase_state(init, true) == init);
    assert(recase_state(init, false) == init);
    lemma_recase_run(s, init, true);
    lemma_recase_run(s, init, false);
    assert(s.map_values(|c: char| ascii_upper(c)) =~= s.map_values(|c: char| recase(c, true)));
    assert(s.map_values(|c: char| ascii_lower(c)) =~= s.map_values(|c: char| recase(c, false)));
}

fn is_duration_letter_exec(c: char) -> (r: bool)
    ensures
        r == is_duration_letter(c),
{
    c == 'm' || c == 'h' || c == 's' || c == 'M' || c == 'H' || c == 'S'
}

/// `a.eq_ignore_ascii_case(&b)`.
fn eq_ignore_ascii_case(a: char, b: char) -> (r: bool)
    ensures
        r == (ascii_lower(a) == ascii_lower(b)),
{
    let x: u32 = if 'A' <= a && a <= 'Z' { (a as u32) + 32 } else { a as u32 };
    let y: u32 = if 'A' <= b && b <= 'Z' { (b as u32) + 32 } else { b as u32 };
    proof {
        assert(ascii_lower(a) as u32 == x);
        assert(ascii_lower(b) as u32 == y);
    }
    x == y
}

/// One step of the scan.
fn step(st: ScanState, c: char) -> (r: ScanStep)
    ensures
        r == scan_step(st, c),
{
    let mut next = st;
    if st.escaped {
        next.escaped = false;
    } else if c == '_' || c == '\\' {
        next.escaped = true;
    } else if st.is_quote {
        if c == '"' {
            next.is_quote = false;
        }
    } else if c == '"' {
        next.is_quote = true;
    } else if c == ';' {
        return ScanStep::Decided(CellFormat::Other);
    } else if c == '[' {
        if st.brackets == 255 {
            return ScanStep::Overflow;
        }
        next.brackets = st.brackets + 1;
    } else if c == ']' && st.brackets == 1 && st.hms {
        return ScanStep::Decided(CellFormat::TimeDelta);
    } else if c == ']' {
        next.brackets = st.brackets.saturating_sub(1);
    } else if (c == 'a' || c == 'A') && !st.ap && st.brackets == 0 {
        next.ap = true;
    } else if (c == 'p' || c == 'm' || c == '/' || c == 'P' || c == 'M') && st.ap && st.brackets
        == 0 {
        return ScanStep::Decided(CellFormat::DateTime);
    } else if (c == 'd' || c == 'm' || c == 'h' || c == 'y' || c == 's' || c == 'D' || c == 'M'
        || c == 'H' || c == 'Y' || c == 'S') && !st.ap && st.brackets == 0 {
        return ScanStep::Decided(CellFormat::DateTime);
    } else if st.hms && eq_ignore_ascii_case(c, st.prev) {
        // ok ...
    } else {
        next.hms = st.prev == '[' && is_duration_letter_exec(c);
    }
    next.prev = c;
    ScanStep::Continue(next)
}

/// Whether `detect_custom_number_format` can take `format`: its scan never has more than
/// 255 brackets open at once.
pub fn number_format_fits(format: &str) -> (r: bool)
    ensures
        r == (number_format_kind(format@) is Some),
{
    broadcast use vstd::string::group_string_axioms;

    let ghost all = format@;
    let mut st = ScanState {
        escaped: false,
        is_quote: false,
        brackets: 0,
        prev: ' ',
        hms: false,
        ap: false,
    };
    assert(all.skip(0) =~= all);
    for s in it: format.chars()
        invariant
            all == format@,
            it.seq() == all,
            run_scan(all, initial_scan_state()) == run_scan(all.skip(it.index() as int), st),
    {
        let ghost i = it.index() as int;
        proof {
            assert(all.skip(i)[0] == s);
            assert(all.skip(i).drop_first() =~= all.skip(i + 1));
        }
        match step(st, s) {
            ScanStep::Continue(next) => {
                st = next;
            },
            ScanStep::Decided(_) => {
                return true;
            },
            ScanStep::Overflow => {
                return false;
            },
        }
    }
    proof {
        assert(all.skip(all.len() as int) =~= Seq::<char>::empty());
    }
    true
}

/// Check excel number format is datetime
pub fn detect_custom_number_format(format: &str) -> (r: CellFormat)
    requires
        number_format_kind(format@) is Some,
    ensures
        number_format_kind(format@) == Some(r),
{
    broadcast use vstd::string::group_string_axioms;

    let ghost all = format@;
    let mut st = ScanState {
        escaped: false,
        is_quote: false,
        brackets: 0,
        prev: ' ',
        hms: false,
        ap: false,
    };
    assert(all.skip(0) =~= all);
    for s in it: format.chars()
        invariant
            all == format@,
            number_format_kind(all) is Some,
            it.seq() == all,
            run_scan(all, initial_scan_state()) == run_scan(all.skip(it.index() as int), st),
    {
        let ghost i = it.index() as int;
        proof {
            assert(all.skip(i)[0] == s);
            assert(all.skip(i).drop_first() =~= all.skip(i + 1));
        }
        match step(st, s) {
            ScanStep::Continue(next) => {
                st = next;
            },
            ScanStep::Decided(f) => {
                return f;
            },
            ScanStep::Overflow => {
                return vstd::pervasive::unreached();
            },
        }
    }
    proof {
        assert(all.skip(all.len() as int) =~= Seq::<char>::empty());
    }
    CellFormat::Other
}

} // verus!
