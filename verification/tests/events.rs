//! Token types: names, attribute appends, ownership, text escaping.

use quick_xml::{AttrError, BytesStart, BytesText, Error, EscapeError, Event, XmlBytes};

#[test]
fn start_name_and_local_name() {
    let tag = BytesStart::borrowed(b"foo:bus attr='bar'", 7);
    assert_eq!(tag.name(), b"foo:bus");
    assert_eq!(tag.local_name(), b"bus");
    let plain = BytesStart::borrowed(b"simple", 6);
    assert_eq!(plain.local_name(), b"simple");
}

#[test]
fn push_attribute_appends_raw_bytes() {
    let mut tag = BytesStart::owned(b"tag".to_vec(), 3);
    tag.push_attribute(b"key", b"value");
    assert_eq!(tag.as_bytes(), b"tag key=\"value\"");
}

#[test]
fn push_attribute_same_key_twice_keeps_both() {
    let mut tag = BytesStart::owned(b"tag".to_vec(), 3);
    tag.push_attribute(b"k", b"one");
    tag.push_attribute(b"k", b"two");
    assert_eq!(tag.as_bytes(), b"tag k=\"one\" k=\"two\"");
    let mut attrs = tag.attributes();
    let first = attrs.next().unwrap().unwrap();
    assert_eq!(first.key, b"k");
    assert_eq!(first.value, b"one");
    let second = attrs.next().unwrap().unwrap();
    assert_eq!(second.key, b"k");
    assert_eq!(second.value, b"two");
    assert!(attrs.next().is_none());
}

#[test]
fn extend_attributes_keeps_order() {
    let pairs: Vec<(&[u8], &[u8])> = vec![(b"a", b"1"), (b"b", b"2")];
    let tag = BytesStart::owned(b"t".to_vec(), 1).with_attributes(&pairs);
    assert_eq!(tag.as_bytes(), b"t a=\"1\" b=\"2\"");
}

#[test]
fn into_owned_mutation_leaves_source_untouched() {
    let source = b"tag".to_vec();
    let borrowed = BytesStart::borrowed(&source, 3);
    let mut owned = borrowed.into_owned();
    owned.push_attribute(b"k", b"v");
    assert_eq!(source, b"tag".to_vec());
    assert_eq!(owned.as_bytes(), b"tag k=\"v\"");
}

#[test]
fn copy_on_write_buffer() {
    let source = b"abc".to_vec();
    let mut buf = XmlBytes::Borrowed(&source);
    buf.push_byte(b'd');
    assert_eq!(buf.as_bytes(), b"abcd");
    assert_eq!(source, b"abc".to_vec());
}

#[test]
fn text_from_str_escapes_on_the_way_in() {
    let text = BytesText::from_str("<a&b>");
    assert_eq!(text.escaped(), b"&lt;a&amp;b&gt;");
    assert_eq!(text.unescaped(), Ok(b"<a&b>".to_vec()));
}

#[test]
fn escaped_does_not_unescape() {
    let text = BytesText::borrowed(b"&lt;kept&gt;");
    assert_eq!(text.escaped(), b"&lt;kept&gt;");
}

#[test]
fn strict_attribute_errors() {
    let bare = BytesStart::borrowed(b"tag attr", 3);
    assert_eq!(bare.attributes().next(), Some(Err(AttrError::ExpectedEq(8))));
    let unquoted = BytesStart::borrowed(b"tag attr=val", 3);
    assert_eq!(
        unquoted.attributes().next(),
        Some(Err(AttrError::ExpectedQuote(9)))
    );
    let unterminated = BytesStart::borrowed(b"tag attr='val", 3);
    assert_eq!(
        unterminated.attributes().next(),
        Some(Err(AttrError::UnterminatedValue(9)))
    );
    let empty_key = BytesStart::borrowed(b"tag ='v'", 3);
    assert_eq!(empty_key.attributes().next(), Some(Err(AttrError::EmptyKey(4))));
}

#[test]
fn html_attributes_relaxed() {
    let tag = BytesStart::borrowed(b"tag checked name=login size=10", 3);
    let mut attrs = tag.html_attributes();
    let first = attrs.next().unwrap().unwrap();
    assert_eq!(first.key, b"checked");
    assert_eq!(first.value, b"");
    let second = attrs.next().unwrap().unwrap();
    assert_eq!(second.key, b"name");
    assert_eq!(second.value, b"login");
    let third = attrs.next().unwrap().unwrap();
    assert_eq!(third.key, b"size");
    assert_eq!(third.value, b"10");
    assert!(attrs.next().is_none());
}

#[test]
fn quoted_attribute_values() {
    let tag = BytesStart::borrowed(b"tag a='single' b=\"double\"", 3);
    let mut attrs = tag.attributes();
    let a = attrs.next().unwrap().unwrap();
    assert_eq!(a.key, b"a");
    assert_eq!(a.value, b"single");
    let b = attrs.next().unwrap().unwrap();
    assert_eq!(b.key, b"b");
    assert_eq!(b.value, b"double");
    assert!(attrs.next().is_none());
}

#[test]
fn event_payload_bytes() {
    let start = Event::Start(BytesStart::borrowed(b"tag a='1'", 3));
    assert_eq!(start.as_bytes(), b"tag a='1'");
    let text = Event::Text(BytesText::borrowed(b"body"));
    assert_eq!(text.as_bytes(), b"body");
    let eof = Event::Eof;
    assert_eq!(eof.as_bytes(), b"");
}

#[test]
fn attribute_scan_is_restartable() {
    let tag = BytesStart::borrowed(b"tag a='1'", 3);
    for _ in 0..2 {
        let mut attrs = tag.attributes();
        let a = attrs.next().unwrap().unwrap();
        assert_eq!(a.key, b"a");
        assert_eq!(a.value, b"1");
        assert!(attrs.next().is_none());
    }
}

#[test]
fn end_tag_names() {
    let end = quick_xml::BytesEnd::borrowed(b"ns:tag");
    assert_eq!(end.name(), b"ns:tag");
    assert_eq!(end.local_name(), b"tag");
    let owned = quick_xml::BytesEnd::owned(b"plain".to_vec());
    assert_eq!(owned.name(), b"plain");
    assert_eq!(owned.local_name(), b"plain");
}

#[test]
fn text_constructors() {
    let borrowed = BytesText::borrowed(b"raw");
    assert_eq!(borrowed.escaped(), b"raw");
    let owned = BytesText::owned(b"held".to_vec());
    assert_eq!(owned.escaped(), b"held");
}

#[test]
fn start_unescaped_decodes_and_reports_offsets() {
    let tag = BytesStart::borrowed(b"tag a='&lt;'", 3);
    assert_eq!(tag.unescaped(), Ok(b"tag a='<'".to_vec()));
    let bad = BytesStart::borrowed(b"a&b", 1);
    assert_eq!(
        bad.unescaped(),
        Err(Error::EscapeError(EscapeError(1)))
    );
}
