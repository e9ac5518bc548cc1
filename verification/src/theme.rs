//! Workbook themes: the twelve theme colors, and the scan of a theme part's XML events
//! that collects them from its color scheme.

use vstd::prelude::*;
use vstd::string::StringSliceAdditionalSpecFns;
use vstd::utf8::valid_utf8;

use crate::formats::{spec_rgb, Color};
use crate::hex::{hex_fields_slice_cleanly, hex_fields_slice_cleanly_exec};

verus! {

/// Parsed workbook theme containing theme color definitions.
#[derive(Debug, Clone, Copy, PartialEq)]
pub struct Theme {
    colors: [Option<Color>; 12],
}

impl View for Theme {
    type V = Seq<Option<Color>>;

    closed spec fn view(&self) -> Seq<Option<Color>> {
        self.colors@
    }
}

impl Default for Theme {
    fn default() -> (r: Self)
        ensures
            r@ == Seq::new(12, |i: int| None::<Color>),
    {
        let r = Self { colors: [None;12] };
        proof {
            assert(r@ =~= Seq::new(12, |i: int| None::<Color>));
        }
        r
    }
}

impl Theme {
    /// A theme always holds twelve slots.
    pub proof fn lemma_twelve_slots(&self)
        ensures
            self@.len() == 12,
    {
    }

    /// Returns the resolved theme color at the given index (0-11).
    pub fn color(&self, index: usize) -> (r: Option<Color>)
        ensures
            r == (if index < 12 {
                self@[index as int]
            } else {
                None
            }),
    {
        if index < 12 {
            self.colors[index]
        } else {
            None
        }
    }

    /// Returns all parsed theme colors in SpreadsheetML order.
    pub fn colors(&self) -> (r: &[Option<Color>; 12])
        ensures
            r@ == self@,
    {
        &self.colors
    }

    fn set_color(&mut self, index: usize, color: Color)
        ensures
            final(self)@ == (if index < 12 {
                old(self)@.update(index as int, Some(color))
            } else {
                old(self)@
            }),
        no_unwind
    {
        if index < 12 {
            self.colors[index] = Some(color);
        }
    }
}

/// An attribute of an XML element: its qualified key and its raw (unescaped) value.
#[derive(Debug, Clone, PartialEq, Eq)]
pub struct XmlAttribute {
    pub key: Vec<u8>,
    pub value: Vec<u8>,
}

/// A start or empty tag: its qualified name, its local name, and its attributes in
/// document order. `malformed_attribute` records that reading the attributes stopped at a
/// malformed one, after those listed.
#[derive(Debug, Clone, PartialEq, Eq)]
pub struct XmlElement {
    pub name: Vec<u8>,
    pub local_name: Vec<u8>,
    pub attributes: Vec<XmlAttribute>,
    pub malformed_attribute: bool,
}

/// The XML events that the theme scan tells apart.
#[derive(Debug, Clone, PartialEq, Eq)]
pub enum XmlEvent {
    Start(XmlElement),
    Empty(XmlElement),
    End { name: Vec<u8>, local_name: Vec<u8> },
    Eof,
    /// Text, comments and every other kind of event.
    Other,
}

/// Why reading a theme failed.
#[derive(Debug, Clone, Copy, PartialEq, Eq)]
pub enum ThemeError {
    /// The document ended inside `clrScheme`.
    ColorSchemeEof,
    /// The document ended inside a theme color element.
    ThemeColorEof,
    /// An attribute of a color element is malformed.
    MalformedAttribute,
    /// A color attribute's value is not UTF-8.
    InvalidUtf8,
}

/// `std::str::from_utf8(v)`, with the error dropped. Its documentation: the bytes are
/// returned as a string slice exactly when they are valid UTF-8.
#[verifier::external_body]
fn str_from_utf8(v: &[u8]) -> (r: Option<&str>)
    ensures
        r is Some <==> valid_utf8(v@),
        r matches Some(s) ==> s.spec_bytes() == v@,
{
    std::str::from_utf8(v).ok()
}

fn bytes_to_str(value: &[u8]) -> (r: Result<&str, ThemeError>)
    ensures
        r is Ok <==> valid_utf8(value@),
        r matches Ok(s) ==> s.spec_bytes() == value@,
        r matches Err(e) ==> e == ThemeError::InvalidUtf8,
{
    match str_from_utf8(value) {
        Some(s) => Ok(s),
        None => Err(ThemeError::InvalidUtf8),
    }
}

fn bytes_eq(a: &[u8], b: &[u8]) -> (r: bool)
    ensures
        r == (a@ == b@),
{
    if a.len() != b.len() {
        return false;
    }
    let mut i: usize = 0;
    while i < a.len()
        invariant
            a@.len() == b@.len(),
            i <= a@.len(),
            forall|j: int| 0 <= j < i ==> a@[j] == b@[j],
        decreases a@.len() - i,
    {
        if a[i] != b[i] {
            return false;
        }
        i = i + 1;
    }
    proof {
        assert(a@ =~= b@);
    }
    true
}

/// The slot of a theme color element, by its local name, in SpreadsheetML order.
pub open spec fn spec_theme_index(name: Seq<u8>) -> Option<usize> {
    if name == "lt1".spec_bytes() {
        Some(0)
    } else if name == "dk1".spec_bytes() {
        Some(1)
    } else if name == "lt2".spec_bytes() {
        Some(2)
    } else if name == "dk2".spec_bytes() {
        Some(3)
    } else if name == "accent1".spec_bytes() {
        Some(4)
    } else if name == "accent2".spec_bytes() {
        Some(5)
    } else if name == "accent3".spec_bytes() {
        Some(6)
    } else if name == "accent4".spec_bytes() {
        Some(7)
    } else if name == "accent5".spec_bytes() {
        Some(8)
    } else if name == "accent6".spec_bytes() {
        Some(9)
    } else if name == "hlink".spec_bytes() {
        Some(10)
    } else if name == "folHlink".spec_bytes() {
        Some(11)
    } else {
        None
    }
}

/// The names of the twelve theme colors, in SpreadsheetML order.
pub open spec fn theme_color_name(k: int) -> Seq<u8> {
    if k == 0 {
        "lt1".spec_bytes()
    } else     if k == 1 {
        "dk1".spec_bytes()
    } else     if k == 2 {
        "lt2".spec_bytes()
    } else     if k == 3 {
        "dk2".spec_bytes()
    } else     if k == 4 {
        "accent1".spec_bytes()
    } else     if k == 5 {
        "accent2".spec_bytes()
    } else     if k == 6 {
        "accent3".spec_bytes()
    } else     if k == 7 {
        "accent4".spec_bytes()
    } else     if k == 8 {
        "accent5".spec_bytes()
    } else     if k == 9 {
        "accent6".spec_bytes()
    } else     if k == 10 {
        "hlink".spec_bytes()
    } else     if k == 11 {
        "folHlink".spec_bytes()
    } else {
        Seq::empty()
    }
}

/// Each of the twelve theme color names stands for its own slot, in SpreadsheetML order.
pub proof fn lemma_theme_slot_names(k: int)
    requires
        0 <= k < 12,
    ensures
        spec_theme_index(theme_color_name(k)) == Some(k as usize),
{
    broadcast use vstd::utf8::group_utf8_lib;

    reveal_strlit("lt1");
    reveal_strlit("dk1");
    reveal_strlit("lt2");
    reveal_strlit("dk2");
    reveal_strlit("accent1");
    reveal_strlit("accent2");
    reveal_strlit("accent3");
    reveal_strlit("accent4");
    reveal_strlit("accent5");
    reveal_strlit("accent6");
    reveal_strlit("hlink");
    reveal_strlit("folHlink");
    assert(vstd::utf8::is_ascii_chars("lt1"@));
    assert("lt1".spec_bytes() =~= seq![0x6cu8, 0x74u8, 0x31u8]);
    assert(vstd::utf8::is_ascii_chars("dk1"@));
    assert("dk1".spec_bytes() =~= seq![0x64u8, 0x6bu8, 0x31u8]);
    assert(vstd::utf8::is_ascii_chars("lt2"@));
    assert("lt2".spec_bytes() =~= seq![0x6cu8, 0x74u8, 0x32u8]);
    assert(vstd::utf8::is_ascii_chars("dk2"@));
    assert("dk2".spec_bytes() =~= seq![0x64u8, 0x6bu8, 0x32u8]);
    assert(vstd::utf8::is_ascii_chars("accent1"@));
    assert("accent1".spec_bytes() =~= seq![0x61u8, 0x63u8, 0x63u8, 0x65u8, 0x6eu8, 0x74u8, 0x31u8]);
    assert(vstd::utf8::is_ascii_chars("accent2"@));
    assert("accent2".spec_bytes() =~= seq![0x61u8, 0x63u8, 0x63u8, 0x65u8, 0x6eu8, 0x74u8, 0x32u8]);
    assert(vstd::utf8::is_ascii_chars("accent3"@));
    assert("accent3".spec_bytes() =~= seq![0x61u8, 0x63u8, 0x63u8, 0x65u8, 0x6eu8, 0x74u8, 0x33u8]);
    assert(vstd::utf8::is_ascii_chars("accent4"@));
    assert("accent4".spec_bytes() =~= seq![0x61u8, 0x63u8, 0x63u8, 0x65u8, 0x6eu8, 0x74u8, 0x34u8]);
    assert(vstd::utf8::is_ascii_chars("accent5"@));
    assert("accent5".spec_bytes() =~= seq![0x61u8, 0x63u8, 0x63u8, 0x65u8, 0x6eu8, 0x74u8, 0x35u8]);
    assert(vstd::utf8::is_ascii_chars("accent6"@));
    assert("accent6".spec_bytes() =~= seq![0x61u8, 0x63u8, 0x63u8, 0x65u8, 0x6eu8, 0x74u8, 0x36u8]);
    assert(vstd::utf8::is_ascii_chars("hlink"@));
    assert("hlink".spec_bytes() =~= seq![0x68u8, 0x6cu8, 0x69u8, 0x6eu8, 0x6bu8]);
    assert(vstd::utf8::is_ascii_chars("folHlink"@));
    assert("folHlink".spec_bytes() =~= seq![0x66u8, 0x6fu8, 0x6cu8, 0x48u8, 0x6cu8, 0x69u8, 0x6eu8, 0x6bu8]);
}

/// Theme color slots are numbered 0 to 11, and each slot has exactly one name: a name that
/// gets slot `i` is the `i`-th theme color name.
pub proof fn lemma_theme_index_one_to_one(x: Seq<u8>, y: Seq<u8>)
    ensures
        spec_theme_index(x) matches Some(i) ==> i < 12 && x == theme_color_name(i as int),
        spec_theme_index(x) is Some && spec_theme_index(x) == spec_theme_index(y) ==> x == y,
{
}

fn theme_index(name: &[u8]) -> (r: Option<usize>)
    ensures
        r == spec_theme_index(name@),
{
    if bytes_eq(name, "lt1".as_bytes()) {
        Some(0)
    } else if bytes_eq(name, "dk1".as_bytes()) {
        Some(1)
    } else if bytes_eq(name, "lt2".as_bytes()) {
        Some(2)
    } else if bytes_eq(name, "dk2".as_bytes()) {
        Some(3)
    } else if bytes_eq(name, "accent1".as_bytes()) {
        Some(4)
    } else if bytes_eq(name, "accent2".as_bytes()) {
        Some(5)
    } else if bytes_eq(name, "accent3".as_bytes()) {
        Some(6)
    } else if bytes_eq(name, "accent4".as_bytes()) {
        Some(7)
    } else if bytes_eq(name, "accent5".as_bytes()) {
        Some(8)
    } else if bytes_eq(name, "accent6".as_bytes()) {
        Some(9)
    } else if bytes_eq(name, "hlink".as_bytes()) {
        Some(10)
    } else if bytes_eq(name, "folHlink".as_bytes()) {
        Some(11)
    } else {
        None
    }
}

/// An attribute that carries a color: `val` of `srgbClr`, or `lastClr` of `sysClr`.
pub open spec fn is_color_attribute(local_name: Seq<u8>, key: Seq<u8>) -> bool {
    ||| key == "val".spec_bytes() && local_name == "srgbClr".spec_bytes()
    ||| key == "lastClr".spec_bytes() && local_name == "sysClr".spec_bytes()
}

fn is_color_attribute_exec(local_name: &[u8], key: &[u8]) -> (r: bool)
    ensures
        r == is_color_attribute(local_name@, key@),
{
    (bytes_eq(key, "val".as_bytes()) && bytes_eq(local_name, "srgbClr".as_bytes())) || (
    bytes_eq(key, "lastClr".as_bytes()) && bytes_eq(local_name, "sysClr".as_bytes()))
}

/// What reading the color of an element gives: the last color that one of its color
/// attributes holds (if any), an error, or a color text whose hex fields cannot be sliced
/// without cutting a character (on which parsing it panics).
#[derive(Debug, Clone, Copy, PartialEq, Eq)]
pub enum ChildColor {
    Found(Option<Color>),
    Failed(ThemeError),
    SplitsChar,
}

/// Reads the color attributes of `attrs` in order, `found` being the last color so far.
/// A value that is not UTF-8 stops the reading with an error; a valid value that is not an
/// RGB hex color is passed over.
pub open spec fn scan_color_attributes(
    local_name: Seq<u8>,
    attrs: Seq<XmlAttribute>,
    found: Option<Color>,
) -> ChildColor
    decreases attrs.len(),
{
    if attrs.len() == 0 {
        ChildColor::Found(found)
    } else {
        let a = attrs[0];
        if !is_color_attribute(local_name, a.key@) {
            scan_color_attributes(local_name, attrs.drop_first(), found)
        } else if !valid_utf8(a.value@) {
            ChildColor::Failed(ThemeError::InvalidUtf8)
        } else if !hex_fields_slice_cleanly(a.value@, 3) {
            ChildColor::SplitsChar
        } else {
            let next = match spec_rgb(a.value@) {
                Some(c) => Some(c),
                None => found,
            };
            scan_color_attributes(local_name, attrs.drop_first(), next)
        }
    }
}

/// The color that an element holds, read from its attributes.
pub open spec fn spec_color_from_child(e: XmlElement) -> ChildColor {
    match scan_color_attributes(e.local_name@, e.attributes@, None) {
        ChildColor::Found(c) => if e.malformed_attribute {
            ChildColor::Failed(ThemeError::MalformedAttribute)
        } else {
            ChildColor::Found(c)
        },
        other => other,
    }
}

fn child_color(e: &XmlElement) -> (r: ChildColor)
    ensures
        r == spec_color_from_child(*e),
{
    let ghost local = e.local_name@;
    let ghost attrs = e.attributes@;
    let mut rgb: Option<Color> = None;
    let mut i: usize = 0;
    assert(attrs.skip(0) =~= attrs);
    while i < e.attributes.len()
        invariant
            local == e.local_name@,
            attrs == e.attributes@,
            i <= attrs.len(),
            scan_color_attributes(local, attrs, None) == scan_color_attributes(
                local,
                attrs.skip(i as int),
                rgb,
            ),
        decreases attrs.len() - i,
    {
        let a = &e.attributes[i];
        proof {
            assert(attrs.skip(i as int)[0] == *a);
            assert(attrs.skip(i as int).drop_first() =~= attrs.skip(i + 1));
        }
        if is_color_attribute_exec(e.local_name.as_slice(), a.key.as_slice()) {
            match bytes_to_str(a.value.as_slice()) {
                Err(err) => {
                    return ChildColor::Failed(err);
                },
                Ok(hex) => {
                    if !hex_fields_slice_cleanly_exec(hex, 3) {
                        return ChildColor::SplitsChar;
                    }
                    if let Ok(color) = Color::from_rgb_hex(hex) {
                        rgb = Some(color);
                    }
                },
            }
        }
        i = i + 1;
    }
    proof {
        assert(attrs.skip(i as int) =~= Seq::<XmlAttribute>::empty());
    }
    if e.malformed_attribute {
        ChildColor::Failed(ThemeError::MalformedAttribute)
    } else {
        ChildColor::Found(rgb)
    }
}

/// The color that a child of a theme color element holds.
fn color_from_child(e: &XmlElement) -> (r: Result<Option<Color>, ThemeError>)
    requires
        !(spec_color_from_child(*e) is SplitsChar),
    ensures
        spec_color_from_child(*e) matches ChildColor::Found(c) ==> r == Ok::<
            Option<Color>,
            ThemeError,
        >(c),
        spec_color_from_child(*e) matches ChildColor::Failed(err) ==> r == Err::<
            Option<Color>,
            ThemeError,
        >(err),
{
    match child_color(e) {
        ChildColor::Found(c) => Ok(c),
        ChildColor::Failed(err) => Err(err),
        ChildColor::SplitsChar => vstd::pervasive::unreached(),
    }
}

/// Where the scan of a theme part stands.
#[derive(Debug, Clone, PartialEq, Eq)]
pub enum ScanMode {
    /// Outside any color scheme.
    Document,
    /// Inside the color scheme whose start tag has the qualified name `end`.
    Scheme { end: Vec<u8> },
    /// Inside the theme color element for `slot`, whose start tag has the qualified name
    /// `parent`, within the color scheme `end`; `color` is the last color that its children
    /// held so far.
    Slot { end: Vec<u8>, parent: Vec<u8>, slot: usize, color: Option<Color> },
    /// The scan is over.
    Finished,
}

/// `ScanMode` with names as byte sequences.
pub enum ModeView {
    Document,
    Scheme { end: Seq<u8> },
    Slot { end: Seq<u8>, parent: Seq<u8>, slot: usize, color: Option<Color> },
    Finished,
}

impl View for ScanMode {
    type V = ModeView;

    open spec fn view(&self) -> ModeView {
        match self {
            ScanMode::Document => ModeView::Document,
            ScanMode::Scheme { end } => ModeView::Scheme { end: end@ },
            ScanMode::Slot { end, parent, slot, color } => ModeView::Slot {
                end: end@,
                parent: parent@,
                slot: *slot,
                color: *color,
            },
            ScanMode::Finished => ModeView::Finished,
        }
    }
}

/// What the driver of the scan does next.
#[derive(Debug, Clone, PartialEq)]
pub enum ThemeAction {
    /// Read the next event and hand it to `step`.
    Next,
    /// Skip past the end of the element with this qualified name, then read the next event.
    SkipTo(Vec<u8>),
    /// The scan is over: this is the theme.
    Done(Theme),
    /// The scan failed.
    Fail(ThemeError),
}

/// `ThemeAction` with names as byte sequences and the theme as its colors.
pub enum ActionView {
    Next,
    SkipTo(Seq<u8>),
    Done(Seq<Option<Color>>),
    Fail(ThemeError),
}

impl View for ThemeAction {
    type V = ActionView;

    open spec fn view(&self) -> ActionView {
        match self {
            ThemeAction::Next => ActionView::Next,
            ThemeAction::SkipTo(name) => ActionView::SkipTo(name@),
            ThemeAction::Done(t) => ActionView::Done(t@),
            ThemeAction::Fail(e) => ActionView::Fail(*e),
        }
    }
}

/// The theme with `color`, if there is one, put in `slot`.
pub open spec fn put_color(t: Seq<Option<Color>>, slot: usize, color: Option<Color>) -> Seq<
    Option<Color>,
> {
    match color {
        Some(c) => t.update(slot as int, Some(c)),
        None => t,
    }
}

/// How one XML event moves the scan on: the new mode, the new theme colors and the action.
///
/// Outside a scheme, `clrScheme` opens one and the end of `themeElements` (or of the
/// document) finishes with the theme. In a scheme, a theme color element (`lt1` ...
/// `folHlink`) is entered when it has content, and read on the spot when empty; other
/// elements are skipped whole. In a theme color element, each child may hold a color, the
/// last one found wins, and it is stored in the slot when the element closes. The document
/// ending inside a scheme is an error.
pub open spec fn theme_step(m: ModeView, t: Seq<Option<Color>>, ev: XmlEvent) -> (
    ModeView,
    Seq<Option<Color>>,
    ActionView,
) {
    match m {
        ModeView::Document => match ev {
            XmlEvent::Start(e) => if e.local_name@ == "clrScheme".spec_bytes() {
                (ModeView::Scheme { end: e.name@ }, t, ActionView::Next)
            } else {
                (m, t, ActionView::Next)
            },
            XmlEvent::End { name, local_name } => if local_name@ == "themeElements".spec_bytes() {
                (ModeView::Finished, t, ActionView::Done(t))
            } else {
                (m, t, ActionView::Next)
            },
            XmlEvent::Eof => (ModeView::Finished, t, ActionView::Done(t)),
            _ => (m, t, ActionView::Next),
        },
        ModeView::Scheme { end } => match ev {
            XmlEvent::Start(e) => match spec_theme_index(e.local_name@) {
                Some(slot) => (
                    ModeView::Slot { end, parent: e.name@, slot, color: None },
                    t,
                    ActionView::Next,
                ),
                None => (m, t, ActionView::SkipTo(e.name@)),
            },
            XmlEvent::Empty(e) => match spec_theme_index(e.local_name@) {
                Some(slot) => match spec_color_from_child(e) {
                    ChildColor::Found(c) => (m, put_color(t, slot, c), ActionView::Next),
                    ChildColor::Failed(err) => (ModeView::Finished, t, ActionView::Fail(err)),
                    // not reached: `step` requires that the event reads cleanly
                    ChildColor::SplitsChar => (m, t, ActionView::Next),
                },
                None => (m, t, ActionView::Next),
            },
            XmlEvent::End { name, local_name } => if name@ == end {
                (ModeView::Document, t, ActionView::Next)
            } else {
                (m, t, ActionView::Next)
            },
            XmlEvent::Eof => (
                ModeView::Finished,
                t,
                ActionView::Fail(ThemeError::ColorSchemeEof),
            ),
            XmlEvent::Other => (m, t, ActionView::Next),
        },
        ModeView::Slot { end, parent, slot, color } => match ev {
            XmlEvent::Start(e) => match spec_color_from_child(e) {
                ChildColor::Found(c) => (
                    ModeView::Slot {
                        end,
                        parent,
                        slot,
                        color: if c is Some {
                            c
                        } else {
                            color
                        },
                    },
                    t,
                    ActionView::SkipTo(e.name@),
                ),
                ChildColor::Failed(err) => (ModeView::Finished, t, ActionView::Fail(err)),
                // not reached: `step` requires that the event reads cleanly
                ChildColor::SplitsChar => (m, t, ActionView::Next),
            },
            XmlEvent::Empty(e) => match spec_color_from_child(e) {
                ChildColor::Found(c) => (
                    ModeView::Slot {
                        end,
                        parent,
                        slot,
                        color: if c is Some {
                            c
                        } else {
                            color
                        },
                    },
                    t,
                    ActionView::Next,
                ),
                ChildColor::Failed(err) => (ModeView::Finished, t, ActionView::Fail(err)),
                // not reached: `step` requires that the event reads cleanly
                ChildColor::SplitsChar => (m, t, ActionView::Next),
            },
            XmlEvent::End { name, local_name } => if name@ == parent {
                (ModeView::Scheme { end }, put_color(t, slot, color), ActionView::Next)
            } else {
                (m, t, ActionView::Next)
            },
            XmlEvent::Eof => (ModeView::Finished, t, ActionView::Fail(ThemeError::ThemeColorEof)),
            XmlEvent::Other => (m, t, ActionView::Next),
        },
        ModeView::Finished => (m, t, ActionView::Next),
    }
}

/// The event does not make the scan parse a color text whose hex fields cannot be sliced
/// without cutting a character.
pub open spec fn step_reads_cleanly(m: ModeView, ev: XmlEvent) -> bool {
    match (m, ev) {
        (ModeView::Scheme { .. }, XmlEvent::Empty(e)) => spec_theme_index(e.local_name@) is Some
            ==> !(spec_color_from_child(e) is SplitsChar),
        (ModeView::Slot { .. }, XmlEvent::Empty(e)) => !(spec_color_from_child(e) is SplitsChar),
        (ModeView::Slot { .. }, XmlEvent::Start(e)) => !(spec_color_from_child(e) is SplitsChar),
        _ => true,
    }
}

/// A step finishes the scan exactly when it hands back the theme or an error.
pub proof fn lemma_step_finishes_with_outcome(m: ModeView, t: Seq<Option<Color>>, ev: XmlEvent)
    requires
        !(m is Finished),
    ensures
        theme_step(m, t, ev).0 is Finished <==> (theme_step(m, t, ev).2 is Done
            || theme_step(m, t, ev).2 is Fail),
{
}

/// The theme handed back when the scan ends is the one collected so far.
pub proof fn lemma_done_gives_collected_theme(m: ModeView, t: Seq<Option<Color>>, ev: XmlEvent)
    ensures
        theme_step(m, t, ev).2 matches ActionView::Done(th) ==> th == t,
{
}

/// A theme color, once read, is never cleared: a step keeps every slot that holds a color
/// holding one (a later element of the same slot may replace it).
pub proof fn lemma_colors_never_cleared(
    m: ModeView,
    t: Seq<Option<Color>>,
    ev: XmlEvent,
    j: int,
)
    requires
        t.len() == 12,
        m matches ModeView::Slot { slot, .. } ==> slot < 12,
        0 <= j < 12,
        t[j] is Some,
    ensures
        theme_step(m, t, ev).1.len() == 12,
        theme_step(m, t, ev).1[j] is Some,
{
    match (m, ev) {
        (ModeView::Scheme { .. }, XmlEvent::Empty(e)) => {
            assert(spec_theme_index(e.local_name@) matches Some(slot) ==> slot < 12);
        },
        _ => {},
    }
}

/// Where a driver of the theme scan stands: the scan's mode and colors, and, while it skips
/// an element (as told by `SkipTo`), that element's qualified name and how many elements of
/// the same name are open inside it.
pub struct DriveState {
    pub mode: ModeView,
    pub colors: Seq<Option<Color>>,
    pub skipping: Option<(Seq<u8>, nat)>,
}

/// How reading a theme ends.
pub enum ThemeOutcome {
    /// The theme colors.
    Theme(Seq<Option<Color>>),
    /// The scan failed.
    Failed(ThemeError),
    /// The document ended inside an element being skipped.
    UnclosedSkip,
}

/// A driver still reading, or done.
pub enum Drive {
    Running(DriveState),
    Over(ThemeOutcome),
}

/// How a driver takes one event: while skipping, it only counts elements of the skipped
/// name until the one skipped closes (as `read_to_end_into` does); otherwise it hands the
/// event to the scan and does what the action says.
pub open spec fn drive_event(st: DriveState, ev: XmlEvent) -> Drive {
    match st.skipping {
        Some((name, depth)) => match ev {
            XmlEvent::Start(e) => if e.name@ == name {
                Drive::Running(DriveState { skipping: Some((name, depth + 1)), ..st })
            } else {
                Drive::Running(st)
            },
            XmlEvent::End { name: n, local_name } => if n@ == name {
                if depth == 0 {
                    Drive::Running(DriveState { skipping: None, ..st })
                } else {
                    Drive::Running(DriveState { skipping: Some((name, (depth - 1) as nat)), ..st })
                }
            } else {
                Drive::Running(st)
            },
            XmlEvent::Eof => Drive::Over(ThemeOutcome::UnclosedSkip),
            _ => Drive::Running(st),
        },
        None => {
            let (m, t, a) = theme_step(st.mode, st.colors, ev);
            match a {
                ActionView::Next => Drive::Running(DriveState { mode: m, colors: t, skipping: None }),
                ActionView::SkipTo(n) => Drive::Running(
                    DriveState { mode: m, colors: t, skipping: Some((n, 0)) },
                ),
                ActionView::Done(th) => Drive::Over(ThemeOutcome::Theme(th)),
                ActionView::Fail(e) => Drive::Over(ThemeOutcome::Failed(e)),
            }
        },
    }
}

/// A driver taking the events in order.
pub open spec fn drive(d: Drive, evs: Seq<XmlEvent>) -> Drive
    decreases evs.len(),
{
    if evs.len() == 0 {
        d
    } else {
        match d {
            Drive::Running(st) => drive(drive_event(st, evs[0]), evs.drop_first()),
            over => over,
        }
    }
}

/// The driver at the start of a document.
pub open spec fn initial_drive() -> DriveState {
    DriveState {
        mode: ModeView::Document,
        colors: Seq::new(12, |i: int| None::<Color>),
        skipping: None,
    }
}

/// What reading a theme from these events gives: the outcome, or where the reading stands
/// when the events run out.
pub open spec fn theme_from_events(evs: Seq<XmlEvent>) -> Drive {
    drive(Drive::Running(initial_drive()), evs)
}

/// Taking `p + r` is taking `p`, then `r`.
pub proof fn lemma_drive_concat(d: Drive, p: Seq<XmlEvent>, r: Seq<XmlEvent>)
    ensures
        drive(d, p + r) == drive(drive(d, p), r),
    decreases p.len(),
{
    if p.len() == 0 {
        assert(p + r =~= r);
    } else {
        assert((p + r)[0] == p[0]);
        assert((p + r).drop_first() =~= p.drop_first() + r);
        match d {
            Drive::Running(st) => lemma_drive_concat(drive_event(st, p[0]), p.drop_first(), r),
            Drive::Over(o) => {
                if r.len() > 0 {
                    assert(drive(d, r) == d);
                }
            },
        }
    }
}

/// The events are the content of an element named `name`, with `depth` elements of that
/// name still open: starts and ends of that name pair up, none closes more than is open,
/// and the document does not end.
pub open spec fn well_nested(evs: Seq<XmlEvent>, name: Seq<u8>, depth: nat) -> bool
    decreases evs.len(),
{
    if evs.len() == 0 {
        depth == 0
    } else {
        match evs[0] {
            XmlEvent::Eof => false,
            XmlEvent::Start(e) => if e.name@ == name {
                well_nested(evs.drop_first(), name, depth + 1)
            } else {
                well_nested(evs.drop_first(), name, depth)
            },
            XmlEvent::End { name: n, local_name } => if n@ == name {
                depth > 0 && well_nested(evs.drop_first(), name, (depth - 1) as nat)
            } else {
                well_nested(evs.drop_first(), name, depth)
            },
            _ => well_nested(evs.drop_first(), name, depth),
        }
    }
}

/// Skipping goes through well-nested content and comes out still skipping, at the depth
/// at which it went in.
proof fn lemma_skip_through(
    evs: Seq<XmlEvent>,
    st: DriveState,
    name: Seq<u8>,
    k: nat,
    j: nat,
)
    requires
        well_nested(evs, name, j),
        st.skipping == Some((name, k + j)),
    ensures
        drive(Drive::Running(st), evs) == Drive::Running(
            DriveState { skipping: Some((name, k)), ..st },
        ),
    decreases evs.len(),
{
    if evs.len() == 0 {
        assert(st == DriveState { skipping: Some((name, k)), ..st });
    } else {
        match evs[0] {
            XmlEvent::Start(e) => if e.name@ == name {
                lemma_skip_through(
                    evs.drop_first(),
                    DriveState { skipping: Some((name, k + j + 1)), ..st },
                    name,
                    k,
                    j + 1,
                );
            } else {
                lemma_skip_through(evs.drop_first(), st, name, k, j);
            },
            XmlEvent::End { name: n, local_name } => if n@ == name {
                lemma_skip_through(
                    evs.drop_first(),
                    DriveState { skipping: Some((name, (k + j - 1) as nat)), ..st },
                    name,
                    k,
                    (j - 1) as nat,
                );
            } else {
                lemma_skip_through(evs.drop_first(), st, name, k, j);
            },
            XmlEvent::Eof => {},
            _ => {
                lemma_skip_through(evs.drop_first(), st, name, k, j);
            },
        }
    }
}

/// The events of one element that is not a theme color: an empty tag, or a start tag,
/// well-nested content and the matching end tag, its local name not one of the twelve.
pub open spec fn is_other_element(s: Seq<XmlEvent>) -> bool {
    if s.len() == 1 {
        match s[0] {
            XmlEvent::Empty(e) => spec_theme_index(e.local_name@) is None,
            _ => false,
        }
    } else if s.len() >= 2 {
        match (s[0], s.last()) {
            (XmlEvent::Start(e), XmlEvent::End { name, .. }) => spec_theme_index(e.local_name@)
                is None && name@ == e.name@ && well_nested(s.subrange(1, s.len() - 1), e.name@, 0),
            _ => false,
        }
    } else {
        false
    }
}

proof fn lemma_drive_one(st: DriveState, ev: XmlEvent)
    ensures
        drive(Drive::Running(st), seq![ev]) == drive_event(st, ev),
{
    assert(seq![ev].drop_first() =~= Seq::<XmlEvent>::empty());
    assert(seq![ev][0] == ev);
    let d = drive_event(st, ev);
    assert(drive(d, Seq::<XmlEvent>::empty()) == d);
}

/// Inside a color scheme, between its children, an element that is not a theme color
/// leaves the reading where it was.
pub proof fn lemma_other_element_passes(st: DriveState, s: Seq<XmlEvent>)
    requires
        st.mode is Scheme,
        st.skipping is None,
        is_other_element(s),
    ensures
        drive(Drive::Running(st), s) == Drive::Running(st),
{
    if s.len() == 1 {
        assert(s =~= seq![s[0]]);
        lemma_drive_one(st, s[0]);
    } else {
        let e = s[0]->Start_0;
        let name = e.name@;
        let mid = s.subrange(1, s.len() - 1);
        let skipping = DriveState { skipping: Some((name, 0nat)), ..st };
        assert(s =~= seq![s[0]] + mid + seq![s.last()]);
        lemma_drive_concat(Drive::Running(st), seq![s[0]] + mid, seq![s.last()]);
        lemma_drive_concat(Drive::Running(st), seq![s[0]], mid);
        lemma_drive_one(st, s[0]);
        lemma_drive_one(skipping, s.last());
        assert(drive(Drive::Running(st), seq![s[0]]) == Drive::Running(skipping));
        lemma_skip_through(mid, skipping, name, 0, 0);
        assert(DriveState { skipping: Some((name, 0nat)), ..skipping } == skipping);
        assert(drive(Drive::Running(skipping), mid) == Drive::Running(skipping));
        assert(drive(Drive::Running(st), seq![s[0]] + mid) == Drive::Running(skipping));
        assert(seq![s.last()].drop_first() =~= Seq::<XmlEvent>::empty());
        assert(drive(Drive::Running(skipping), seq![s.last()]) == Drive::Running(st));
    }
}

/// An element that is not a theme color (with whatever it holds, color elements included),
/// put between the children of a color scheme, changes neither the resulting theme nor
/// the error.
pub proof fn lemma_other_element_in_scheme_ignored(
    p: Seq<XmlEvent>,
    s: Seq<XmlEvent>,
    r: Seq<XmlEvent>,
)
    requires
        theme_from_events(p) matches Drive::Running(st) && st.mode is Scheme && st.skipping is None,
        is_other_element(s),
    ensures
        theme_from_events(p + s + r) == theme_from_events(p + r),
{
    let d0 = Drive::Running(initial_drive());
    let st = theme_from_events(p)->Running_0;
    lemma_drive_concat(d0, p + s, r);
    lemma_drive_concat(d0, p, s);
    lemma_drive_concat(d0, p, r);
    lemma_other_element_passes(st, s);
}

/// Outside a color scheme, the end of `themeElements`, or the end of the document, ends the
/// reading with the colors collected so far; nothing after it counts.
pub proof fn lemma_theme_elements_end_finishes(
    p: Seq<XmlEvent>,
    ev: XmlEvent,
    r: Seq<XmlEvent>,
)
    requires
        theme_from_events(p) matches Drive::Running(st) && st.mode is Document
            && st.skipping is None,
        ev is Eof || (ev matches XmlEvent::End { local_name, .. } && local_name@
            == "themeElements".spec_bytes()),
    ensures
        theme_from_events(p + seq![ev] + r) == Drive::Over(
            ThemeOutcome::Theme(theme_from_events(p)->Running_0.colors),
        ),
        theme_from_events(p + seq![ev] + r) == theme_from_events(p + seq![ev]),
{
    let d0 = Drive::Running(initial_drive());
    let st = theme_from_events(p)->Running_0;
    lemma_drive_concat(d0, p + seq![ev], r);
    lemma_drive_concat(d0, p, seq![ev]);
    lemma_drive_one(st, ev);
    assert(drive_event(st, ev) == Drive::Over(ThemeOutcome::Theme(st.colors)));
    let o = Drive::Over(ThemeOutcome::Theme(st.colors));
    if r.len() > 0 {
        assert(drive(o, r) == o);
    } else {
        assert(drive(o, r) == o);
    }
}

/// The scan of a theme part's XML events, collecting the theme colors. The driver reads
/// events, hands each to `step` and does what the returned action says.
pub struct ThemeReader {
    mode: ScanMode,
    theme: Theme,
}

impl View for ThemeReader {
    type V = (ModeView, Seq<Option<Color>>);

    closed spec fn view(&self) -> (ModeView, Seq<Option<Color>>) {
        (self.mode@, self.theme@)
    }
}

impl ThemeReader {
    /// A theme color element being read stands for one of the twelve slots.
    #[verifier::type_invariant]
    spec fn slot_in_range(self) -> bool {
        self.mode matches ScanMode::Slot { slot, .. } ==> slot < 12
    }

    /// A scan at the start of a document, with no theme color yet.
    pub fn new() -> (r: Self)
        ensures
            r@.0 is Document,
            r@.1 == Seq::new(12, |i: int| None::<Color>),
    {
        ThemeReader { mode: ScanMode::Document, theme: Theme::default() }
    }

    /// The scan is over.
    pub fn is_finished(&self) -> (r: bool)
        ensures
            r == (self@.0 is Finished),
    {
        match self.mode {
            ScanMode::Finished => true,
            _ => false,
        }
    }

    /// Whether `step` can take `event`: it would not have to parse a color text whose hex
    /// fields cannot be sliced without cutting a character.
    pub fn reads_cleanly(&self, event: &XmlEvent) -> (r: bool)
        ensures
            r == step_reads_cleanly(self@.0, *event),
    {
        match (&self.mode, event) {
            (ScanMode::Scheme { .. }, XmlEvent::Empty(e)) => {
                if theme_index(e.local_name.as_slice()).is_some() {
                    !matches!(child_color(e), ChildColor::SplitsChar)
                } else {
                    true
                }
            },
            (ScanMode::Slot { .. }, XmlEvent::Empty(e)) => !matches!(
                child_color(e),
                ChildColor::SplitsChar
            ),
            (ScanMode::Slot { .. }, XmlEvent::Start(e)) => !matches!(
                child_color(e),
                ChildColor::SplitsChar
            ),
            _ => true,
        }
    }

    /// Takes one XML event.
    pub fn step(&mut self, event: XmlEvent) -> (action: ThemeAction)
        requires
            !(old(self)@.0 is Finished),
            step_reads_cleanly(old(self)@.0, event),
        ensures
            (final(self)@.0, final(self)@.1, action@) == theme_step(
                old(self)@.0,
                old(self)@.1,
                event,
            ),
    {
        proof {
            use_type_invariant(&*self);
        }
        let mut mode = ScanMode::Finished;
        std::mem::swap(&mut mode, &mut self.mode);
        match mode {
            ScanMode::Document => match event {
                XmlEvent::Start(e) => {
                    if bytes_eq(e.local_name.as_slice(), "clrScheme".as_bytes()) {
                        self.mode = ScanMode::Scheme { end: e.name };
                    } else {
                        self.mode = ScanMode::Document;
                    }
                    ThemeAction::Next
                },
                XmlEvent::End { name, local_name } => {
                    if bytes_eq(local_name.as_slice(), "themeElements".as_bytes()) {
                        ThemeAction::Done(self.theme)
                    } else {
                        self.mode = ScanMode::Document;
                        ThemeAction::Next
                    }
                },
                XmlEvent::Eof => ThemeAction::Done(self.theme),
                _ => {
                    self.mode = ScanMode::Document;
                    ThemeAction::Next
                },
            },
            ScanMode::Scheme { end } => match event {
                XmlEvent::Start(e) => match theme_index(e.local_name.as_slice()) {
                    Some(slot) => {
                        self.mode = ScanMode::Slot { end, parent: e.name, slot, color: None };
                        ThemeAction::Next
                    },
                    None => {
                        self.mode = ScanMode::Scheme { end };
                        ThemeAction::SkipTo(e.name)
                    },
                },
                XmlEvent::Empty(e) => match theme_index(e.local_name.as_slice()) {
                    Some(slot) => match color_from_child(&e) {
                        Ok(found) => {
                            if let Some(color) = found {
                                self.theme.set_color(slot, color);
                            }
                            self.mode = ScanMode::Scheme { end };
                            ThemeAction::Next
                        },
                        Err(err) => ThemeAction::Fail(err),
                    },
                    None => {
                        self.mode = ScanMode::Scheme { end };
                        ThemeAction::Next
                    },
                },
                XmlEvent::End { name, local_name } => {
                    if bytes_eq(name.as_slice(), end.as_slice()) {
                        self.mode = ScanMode::Document;
                    } else {
                        self.mode = ScanMode::Scheme { end };
                    }
                    ThemeAction::Next
                },
                XmlEvent::Eof => ThemeAction::Fail(ThemeError::ColorSchemeEof),
                XmlEvent::Other => {
                    self.mode = ScanMode::Scheme { end };
                    ThemeAction::Next
                },
            },
            ScanMode::Slot { end, parent, slot, color } => match event {
                XmlEvent::Start(e) => match color_from_child(&e) {
                    Ok(found) => {
                        let color = if found.is_some() {
                            found
                        } else {
                            color
                        };
                        self.mode = ScanMode::Slot { end, parent, slot, color };
                        ThemeAction::SkipTo(e.name)
                    },
                    Err(err) => ThemeAction::Fail(err),
                },
                XmlEvent::Empty(e) => match color_from_child(&e) {
                    Ok(found) => {
                        let color = if found.is_some() {
                            found
                        } else {
                            color
                        };
                        self.mode = ScanMode::Slot { end, parent, slot, color };
                        ThemeAction::Next
                    },
                    Err(err) => ThemeAction::Fail(err),
                },
                XmlEvent::End { name, local_name } => {
                    if bytes_eq(name.as_slice(), parent.as_slice()) {
                        if let Some(c) = color {
                            self.theme.set_color(slot, c);
                        }
                        self.mode = ScanMode::Scheme { end };
                    } else {
                        self.mode = ScanMode::Slot { end, parent, slot, color };
                    }
                    ThemeAction::Next
                },
                XmlEvent::Eof => ThemeAction::Fail(ThemeError::ThemeColorEof),
                XmlEvent::Other => {
                    self.mode = ScanMode::Slot { end, parent, slot, color };
                    ThemeAction::Next
                },
            },
            ScanMode::Finished => ThemeAction::Next,
        }
    }
}

} // verus!
