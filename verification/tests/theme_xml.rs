use calamine::{Color, Theme, ThemeAction, ThemeReader, XmlAttribute, XmlElement, XmlEvent};
use quick_xml::events::{BytesStart, Event};
use quick_xml::name::QName;
use quick_xml::Reader;

fn element(e: &BytesStart<'_>) -> XmlElement {
    let mut attributes = Vec::new();
    let mut malformed_attribute = false;
    for attr in e.attributes() {
        match attr {
            Ok(a) => attributes.push(XmlAttribute {
                key: a.key.as_ref().to_vec(),
                value: a.value.as_ref().to_vec(),
            }),
            Err(_) => {
                malformed_attribute = true;
                break;
            }
        }
    }
    XmlElement {
        name: e.name().as_ref().to_vec(),
        local_name: e.local_name().as_ref().to_vec(),
        attributes,
        malformed_attribute,
    }
}

fn read_theme(xml: &str) -> ThemeAction {
    let mut reader = Reader::from_str(xml);
    let mut buf = Vec::new();
    let mut scan = ThemeReader::new();
    loop {
        buf.clear();
        let event = match reader.read_event_into(&mut buf).unwrap() {
            Event::Start(ref e) => XmlEvent::Start(element(e)),
            Event::Empty(ref e) => XmlEvent::Empty(element(e)),
            Event::End(ref e) => XmlEvent::End {
                name: e.name().as_ref().to_vec(),
                local_name: e.local_name().as_ref().to_vec(),
            },
            Event::Eof => XmlEvent::Eof,
            _ => XmlEvent::Other,
        };
        assert!(scan.reads_cleanly(&event));
        match scan.step(event) {
            ThemeAction::Next => {}
            ThemeAction::SkipTo(name) => {
                reader.read_to_end_into(QName(&name), &mut Vec::new()).unwrap();
            }
            done => return done,
        }
    }
}

const THEME: &str = r#"<?xml version="1.0" encoding="UTF-8" standalone="yes"?>
<a:theme xmlns:a="http://schemas.openxmlformats.org/drawingml/2006/main" name="Office Theme">
  <a:themeElements>
    <a:clrScheme name="Office">
      <a:dk1><a:sysClr val="windowText" lastClr="000000"/></a:dk1>
      <a:lt1><a:sysClr val="window" lastClr="FFFFFF"/></a:lt1>
      <a:dk2><a:srgbClr val="1F497D"/></a:dk2>
      <a:lt2><a:srgbClr val="EEECE1"/></a:lt2>
      <a:accent1><a:srgbClr val="4F81BD"><a:lumMod val="75000"/></a:srgbClr></a:accent1>
      <a:accent2><a:srgbClr val="C0504D"/></a:accent2>
      <a:accent3><a:srgbClr val="9BBB59"/></a:accent3>
      <a:accent4><a:srgbClr val="8064A2"/></a:accent4>
      <a:accent5><a:srgbClr val="4BACC6"/></a:accent5>
      <a:accent6><a:srgbClr val="F79646"/></a:accent6>
      <a:hlink><a:srgbClr val="0000FF"/></a:hlink>
      <a:folHlink><a:srgbClr val="800080"/></a:folHlink>
    </a:clrScheme>
    <a:fontScheme name="Office"><a:majorFont><a:latin typeface="Cambria"/></a:majorFont></a:fontScheme>
  </a:themeElements>
</a:theme>"#;

fn rgb(r: u8, g: u8, b: u8) -> Option<Color> {
    Some(Color { r, g, b, a: 255 })
}

#[test]
fn office_theme_from_xml() {
    let theme: Theme = match read_theme(THEME) {
        ThemeAction::Done(t) => t,
        other => panic!("{:?}", other),
    };
    assert_eq!(
        theme.colors(),
        &[
            rgb(0xff, 0xff, 0xff),
            rgb(0, 0, 0),
            rgb(0xee, 0xec, 0xe1),
            rgb(0x1f, 0x49, 0x7d),
            rgb(0x4f, 0x81, 0xbd),
            rgb(0xc0, 0x50, 0x4d),
            rgb(0x9b, 0xbb, 0x59),
            rgb(0x80, 0x64, 0xa2),
            rgb(0x4b, 0xac, 0xc6),
            rgb(0xf7, 0x96, 0x46),
            rgb(0, 0, 0xff),
            rgb(0x80, 0, 0x80),
        ]
    );
}

#[test]
fn truncated_theme_xml_fails() {
    let xml = r#"<a:theme xmlns:a="x"><a:themeElements><a:clrScheme name="O"><a:dk1>"#;
    assert_eq!(read_theme(xml), ThemeAction::Fail(calamine::ThemeError::ThemeColorEof));
}
