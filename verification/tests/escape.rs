//! The entity codec: exact encodings, round trips, and error offsets.

use quick_xml::{escape, unescape, EscapeError};

#[test]
fn escape_specials_exactly() {
    assert_eq!(escape(b"<>&'\""), b"&lt;&gt;&amp;&apos;&quot;".to_vec());
    assert_eq!(escape(b"plain text"), b"plain text".to_vec());
    assert_eq!(escape(b""), b"".to_vec());
    assert_eq!(escape(b"a<b"), b"a&lt;b".to_vec());
}

#[test]
fn unescape_named_entities() {
    assert_eq!(unescape(b"&lt;&gt;&amp;&apos;&quot;"), Ok(b"<>&'\"".to_vec()));
    assert_eq!(unescape(b"no entities"), Ok(b"no entities".to_vec()));
}

#[test]
fn unescape_numeric_entities() {
    assert_eq!(unescape(b"&#65;"), Ok(b"A".to_vec()));
    assert_eq!(unescape(b"&#x41;"), Ok(b"A".to_vec()));
    // U+00E9 (e with acute) is two UTF-8 bytes
    assert_eq!(unescape(b"&#233;"), Ok(vec![0xc3, 0xa9]));
    assert_eq!(unescape(b"&#x20AC;"), Ok(vec![0xe2, 0x82, 0xac]));
    assert_eq!(unescape(b"&#x1F600;"), Ok(vec![0xf0, 0x9f, 0x98, 0x80]));
}

#[test]
fn unescape_error_offsets() {
    // '&' never followed by ';'
    assert_eq!(unescape(b"a&b"), Err(EscapeError(1)));
    // unrecognized entity name
    assert_eq!(unescape(b"&unknown;"), Err(EscapeError(0)));
    // value past the last unicode scalar value
    assert_eq!(unescape(b"&#x110000;"), Err(EscapeError(0)));
    // surrogate code point
    assert_eq!(unescape(b"ab&#xD800;"), Err(EscapeError(2)));
    // empty reference
    assert_eq!(unescape(b"&;"), Err(EscapeError(0)));
    // digits required after '#'
    assert_eq!(unescape(b"&#;"), Err(EscapeError(0)));
}

#[test]
fn unescape_escape_round_trip() {
    let samples: Vec<&[u8]> = vec![
        b"",
        b"<>&'\"",
        b"a<b>c&d'e\"f",
        b"&amp; is how & is written",
        b"nothing special at all",
        b"&&&&",
    ];
    for s in samples {
        assert_eq!(unescape(&escape(s)), Ok(s.to_vec()));
    }
}
