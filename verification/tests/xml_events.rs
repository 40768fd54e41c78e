use rwr_profile::error::ErrorKind;
use rwr_profile::xml::read_events;
use rwr_profile::xml::write_events;
use rwr_profile::xml::XmlAttribute;
use rwr_profile::xml::XmlEvent;
use rwr_profile::xml::XmlTag;

fn tag(name: &str, attributes: &[(&str, &str)]) -> XmlTag {
    XmlTag {
        name: String::from(name),
        attributes: attributes
            .iter()
            .map(|(k, v)| XmlAttribute { key: String::from(*k), value: String::from(*v) })
            .collect(),
    }
}

#[test]
fn events_are_read_in_file_order() {
    let events = read_events(b"<?xml version=\"1.0\"?>\n<a x=\"1\" y='two'>\n  text\n  <b z=\"&lt;&amp;&gt;\"/>\n  <!-- note -->\n</a>").unwrap();
    assert_eq!(
        events,
        vec![
            XmlEvent::Start(tag("a", &[("x", "1"), ("y", "two")])),
            XmlEvent::Empty(tag("b", &[("z", "<&>")])),
            XmlEvent::End(String::from("a")),
        ]
    );
}

#[test]
fn empty_content_has_no_events() {
    assert_eq!(read_events(b"").unwrap(), vec![]);
    assert_eq!(read_events(b"   \n ").unwrap(), vec![]);
}

#[test]
fn mismatched_end_tag_is_a_parse_error() {
    assert_eq!(read_events(b"<a><b></a>").err(), Some(ErrorKind::ParseError));
    assert_eq!(read_events(b"</a>").err(), Some(ErrorKind::ParseError));
}

#[test]
fn broken_attributes_are_a_parse_error() {
    assert_eq!(read_events(b"<a x=1/>").err(), Some(ErrorKind::ParseError));
    assert_eq!(read_events(b"<a x=\"1\" x=\"2\"/>").err(), Some(ErrorKind::ParseError));
    assert_eq!(read_events(b"<a x=\"&nope;\"/>").err(), Some(ErrorKind::ParseError));
    assert_eq!(read_events(b"<a x=\"\xc3\x28\"/>").err(), Some(ErrorKind::ParseError));
    assert_eq!(read_events(b"<\xff\xfe/>").err(), Some(ErrorKind::ParseError));
}

#[test]
fn events_are_written_with_four_spaces_per_level() {
    let events = vec![
        XmlEvent::Start(tag("a", &[("x", "1")])),
        XmlEvent::Start(tag("b", &[])),
        XmlEvent::Empty(tag("c", &[("v", "<'&\">")])),
        XmlEvent::End(String::from("b")),
        XmlEvent::End(String::from("a")),
    ];
    let bytes = write_events(&events).unwrap();
    assert_eq!(
        String::from_utf8(bytes).unwrap(),
        "<a x=\"1\">\n    <b>\n        <c v=\"&lt;&apos;&amp;&quot;&gt;\"/>\n    </b>\n</a>"
    );
}

#[test]
fn end_tag_without_start_is_written_at_the_margin() {
    let events = vec![XmlEvent::End(String::from("a")), XmlEvent::Empty(tag("b", &[]))];
    let bytes = write_events(&events).unwrap();
    assert_eq!(String::from_utf8(bytes).unwrap(), "</a>\n<b/>");
}

#[test]
fn written_events_are_read_back() {
    let events = vec![
        XmlEvent::Start(tag("person", &[("name", "Zoë <3"), ("block", "1 2")])),
        XmlEvent::Empty(tag("order", &[("moving", "0")])),
        XmlEvent::End(String::from("person")),
    ];
    let bytes = write_events(&events).unwrap();
    assert_eq!(read_events(&bytes).unwrap(), events);
}

#[test]
fn nothing_written_is_empty() {
    assert_eq!(write_events(&vec![]).unwrap(), Vec::<u8>::new());
}
