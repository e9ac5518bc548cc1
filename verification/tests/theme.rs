use calamine::{Color, Theme, ThemeAction, ThemeError, ThemeReader, XmlAttribute, XmlElement, XmlEvent};

fn element(name: &str, attrs: &[(&str, &[u8])]) -> XmlElement {
    let local = name.rsplit(':').next().unwrap();
    XmlElement {
        name: name.as_bytes().to_vec(),
        local_name: local.as_bytes().to_vec(),
        attributes: attrs
            .iter()
            .map(|(k, v)| XmlAttribute { key: k.as_bytes().to_vec(), value: v.to_vec() })
            .collect(),
        malformed_attribute: false,
    }
}

fn start(name: &str) -> XmlEvent {
    XmlEvent::Start(element(name, &[]))
}

fn end(name: &str) -> XmlEvent {
    let local = name.rsplit(':').next().unwrap();
    XmlEvent::End { name: name.as_bytes().to_vec(), local_name: local.as_bytes().to_vec() }
}

fn srgb(val: &[u8]) -> XmlEvent {
    XmlEvent::Empty(element("a:srgbClr", &[("val", val)]))
}

/// Feeds the events; `SkipTo` is answered by dropping events up to the matching end tag.
fn run(events: Vec<XmlEvent>) -> ThemeAction {
    let mut reader = ThemeReader::new();
    let mut events = events.into_iter();
    loop {
        let ev = events.next().unwrap_or(XmlEvent::Eof);
        assert!(reader.reads_cleanly(&ev));
        match reader.step(ev) {
            ThemeAction::Next => {}
            ThemeAction::SkipTo(name) => {
                let mut depth = 0;
                loop {
                    match events.next() {
                        Some(XmlEvent::Start(e)) if e.name == name => depth += 1,
                        Some(XmlEvent::End { name: n, .. }) if n == name => {
                            if depth == 0 {
                                break;
                            }
                            depth -= 1;
                        }
                        Some(_) => {}
                        None => break,
                    }
                }
            }
            done => return done,
        }
    }
}

fn theme_of(action: ThemeAction) -> Theme {
    match action {
        ThemeAction::Done(t) => t,
        other => panic!("expected a theme, got {:?}", other),
    }
}

#[test]
fn default_theme_is_empty() {
    let t = Theme::default();
    for i in 0..14 {
        assert_eq!(t.color(i), None);
    }
    assert_eq!(t.colors(), &[None; 12]);
}

#[test]
fn reads_scheme_colors() {
    let events = vec![
        start("a:theme"),
        start("a:themeElements"),
        start("a:clrScheme"),
        start("a:dk1"),
        XmlEvent::Empty(element("a:sysClr", &[("val", b"windowText"), ("lastClr", b"000000")])),
        end("a:dk1"),
        start("a:lt1"),
        XmlEvent::Empty(element("a:sysClr", &[("val", b"window"), ("lastClr", b"FFFFFF")])),
        end("a:lt1"),
        start("a:accent1"),
        srgb(b"4F81BD"),
        end("a:accent1"),
        start("a:folHlink"),
        srgb(b"800080"),
        end("a:folHlink"),
        end("a:clrScheme"),
        end("a:themeElements"),
        end("a:theme"),
    ];
    let t = theme_of(run(events));
    assert_eq!(t.color(0), Some(Color { r: 255, g: 255, b: 255, a: 255 }));
    assert_eq!(t.color(1), Some(Color { r: 0, g: 0, b: 0, a: 255 }));
    assert_eq!(t.color(4), Some(Color { r: 0x4f, g: 0x81, b: 0xbd, a: 255 }));
    assert_eq!(t.color(11), Some(Color { r: 0x80, g: 0, b: 0x80, a: 255 }));
    assert_eq!(t.color(2), None);
    assert_eq!(t.color(12), None);
    assert_eq!(t.colors()[4], t.color(4));
}

#[test]
fn every_slot_name() {
    let names = [
        "lt1", "dk1", "lt2", "dk2", "accent1", "accent2", "accent3", "accent4", "accent5",
        "accent6", "hlink", "folHlink",
    ];
    let mut events = vec![start("a:clrScheme")];
    for (i, n) in names.iter().enumerate() {
        events.push(start(&format!("a:{}", n)));
        events.push(srgb(format!("0000{:02X}", i).as_bytes()));
        events.push(end(&format!("a:{}", n)));
    }
    events.push(end("a:clrScheme"));
    let t = theme_of(run(events));
    for i in 0..12 {
        assert_eq!(t.color(i), Some(Color { r: 0, g: 0, b: i as u8, a: 255 }));
    }
}

#[test]
fn last_child_color_wins_and_bad_text_is_passed_over() {
    let events = vec![
        start("a:clrScheme"),
        start("a:accent2"),
        srgb(b"010101"),
        srgb(b"020202"),
        srgb(b"nothex"),
        end("a:accent2"),
        end("a:clrScheme"),
    ];
    let t = theme_of(run(events));
    assert_eq!(t.color(5), Some(Color { r: 2, g: 2, b: 2, a: 255 }));
}

#[test]
fn empty_slot_element_in_scheme() {
    let events = vec![
        start("a:clrScheme"),
        XmlEvent::Empty(element("a:srgbClr", &[("val", b"111111")])),
        XmlEvent::Empty(element("a:hlink", &[])),
        end("a:clrScheme"),
    ];
    let t = theme_of(run(events));
    assert_eq!(t.colors(), &[None; 12]);
}

#[test]
fn later_slot_element_replaces_but_never_clears() {
    let events = vec![
        start("a:clrScheme"),
        start("a:lt2"),
        srgb(b"0A0B0C"),
        end("a:lt2"),
        start("a:lt2"),
        XmlEvent::Empty(element("a:prstClr", &[("val", b"red")])),
        end("a:lt2"),
        end("a:clrScheme"),
    ];
    let t = theme_of(run(events));
    assert_eq!(t.color(2), Some(Color { r: 10, g: 11, b: 12, a: 255 }));
}

#[test]
fn other_scheme_children_are_skipped() {
    let mut reader = ThemeReader::new();
    assert_eq!(reader.step(start("a:clrScheme")), ThemeAction::Next);
    assert_eq!(reader.step(start("a:extLst")), ThemeAction::SkipTo(b"a:extLst".to_vec()));
    assert_eq!(reader.step(end("a:clrScheme")), ThemeAction::Next);
    assert!(!reader.is_finished());
    assert_eq!(reader.step(XmlEvent::Eof), ThemeAction::Done(Theme::default()));
    assert!(reader.is_finished());
}

#[test]
fn eof_inside_scheme_or_color_fails() {
    assert_eq!(run(vec![start("a:clrScheme")]), ThemeAction::Fail(ThemeError::ColorSchemeEof));
    assert_eq!(
        run(vec![start("a:clrScheme"), start("a:dk2")]),
        ThemeAction::Fail(ThemeError::ThemeColorEof)
    );
}

#[test]
fn attribute_errors_fail() {
    assert_eq!(
        run(vec![start("a:clrScheme"), start("a:dk2"), srgb(&[0xff, 0xfe, 0x41, 0x42, 0x43, 0x44])]),
        ThemeAction::Fail(ThemeError::InvalidUtf8)
    );
    let mut malformed = element("a:srgbClr", &[("val", b"123456")]);
    malformed.malformed_attribute = true;
    assert_eq!(
        run(vec![start("a:clrScheme"), start("a:dk2"), XmlEvent::Empty(malformed)]),
        ThemeAction::Fail(ThemeError::MalformedAttribute)
    );
}

#[test]
fn color_text_cut_inside_a_character_is_flagged() {
    let mut reader = ThemeReader::new();
    reader.step(start("a:clrScheme"));
    reader.step(start("a:accent3"));
    // "0é123": slicing the first field would end inside `é`
    let bad = srgb("0\u{e9}123".as_bytes());
    assert!(!reader.reads_cleanly(&bad));
    let ok = srgb("00\u{e9}12".as_bytes());
    assert!(reader.reads_cleanly(&ok));
}

#[test]
fn other_element_in_scheme_changes_nothing() {
    let before = vec![start("a:clrScheme"), start("a:dk1"), srgb(b"102030"), end("a:dk1")];
    let after = vec![start("a:accent1"), srgb(b"405060"), end("a:accent1"), end("a:clrScheme")];
    let inserts = vec![
        vec![start("a:extLst"), srgb(b"FF0000"), start("a:lt1"), end("a:lt1"), end("a:extLst")],
        vec![start("a:extLst"), start("a:extLst"), end("a:extLst"), srgb(b"FF0000"), end("a:extLst")],
        vec![XmlEvent::Empty(element("a:accent7", &[("val", b"FF0000")]))],
    ];
    let plain: Vec<XmlEvent> = before.iter().chain(after.iter()).cloned().collect();
    let expected = run(plain);
    assert!(matches!(expected, ThemeAction::Done(_)));
    for s in inserts {
        let evs: Vec<XmlEvent> =
            before.iter().chain(s.iter()).chain(after.iter()).cloned().collect();
        assert_eq!(run(evs), expected);
    }
}
