//! Namespace-prefix splitting, driven end to end over scanned events.

use quick_xml::{BytesEnd, BytesStart, Event};
use std::str::from_utf8;

/// Minimal tag locator standing in for the byte-level scanner: finds
/// `<...>` spans and wraps them in events, borrowing from `xml`.
fn scan_events(xml: &[u8]) -> Vec<Event<'_>> {
    let mut events = Vec::new();
    let mut i = 0;
    let n = xml.len();
    while i < n {
        if xml[i] == b'<' {
            let mut close = i + 1;
            while close < n && xml[close] != b'>' {
                close += 1;
            }
            assert!(close < n, "unable to read xml event");
            if xml[i + 1] == b'/' {
                events.push(Event::End(BytesEnd::borrowed(&xml[i + 2..close])));
            } else {
                let content = &xml[i + 1..close];
                let name_len = content
                    .iter()
                    .position(|&b| b == b' ')
                    .unwrap_or(content.len());
                events.push(Event::Start(BytesStart::borrowed(content, name_len)));
            }
            i = close + 1;
        } else {
            i += 1;
        }
    }
    events.push(Event::Eof);
    events
}

#[test]
fn local_name() {
    let xml = r#"
        <foo:bus attr='bar'>foobusbar</foo:bus>
        <foo: attr='bar'>foobusbar</foo:>
        <:foo attr='bar'>foobusbar</:foo>
        <foo:bus:baz attr='bar'>foobusbar</foo:bus:baz>
        "#;
    let mut parsed_local_names = Vec::new();
    for event in scan_events(xml.as_bytes()) {
        match event {
            Event::Start(ref e) => parsed_local_names.push(
                from_utf8(e.local_name())
                    .expect("unable to build str from local_name")
                    .to_string(),
            ),
            Event::End(ref e) => parsed_local_names.push(
                from_utf8(e.local_name())
                    .expect("unable to build str from local_name")
                    .to_string(),
            ),
            Event::Eof => break,
            _ => {}
        }
    }
    assert_eq!(parsed_local_names[0], "bus".to_string());
    assert_eq!(parsed_local_names[1], "bus".to_string());
    assert_eq!(parsed_local_names[2], "".to_string());
    assert_eq!(parsed_local_names[3], "".to_string());
    assert_eq!(parsed_local_names[4], "foo".to_string());
    assert_eq!(parsed_local_names[5], "foo".to_string());
    assert_eq!(parsed_local_names[6], "bus:baz".to_string());
    assert_eq!(parsed_local_names[7], "bus:baz".to_string());
}

#[test]
fn end_to_end_local_names() {
    let xml = "<foo:bus attr='bar'>foobusbar</foo:bus><:foo attr='bar'>x</:foo>";
    let mut names = Vec::new();
    for event in scan_events(xml.as_bytes()) {
        match event {
            Event::Start(ref e) => {
                names.push(from_utf8(e.local_name()).unwrap().to_string())
            }
            Event::End(ref e) => names.push(from_utf8(e.local_name()).unwrap().to_string()),
            Event::Eof => break,
            _ => {}
        }
    }
    assert_eq!(names, vec!["bus", "bus", "foo", "foo"]);
}
