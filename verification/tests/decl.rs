//! Declaration construction and field extraction.

use quick_xml::{AttrError, BytesDecl, BytesStart, Error};

#[test]
fn new_with_encoding_exact_bytes() {
    let decl = BytesDecl::new(b"1.0", Some(b"UTF-8"), None);
    assert_eq!(decl.element.as_bytes(), b"xml version=\"1.0\" encoding=\"UTF-8\"");
}

#[test]
fn new_with_standalone_exact_bytes() {
    let decl = BytesDecl::new(b"1.0", None, Some(b"yes"));
    assert_eq!(decl.element.as_bytes(), b"xml version=\"1.0\" standalone=\"yes\"");
}

#[test]
fn new_with_all_fields() {
    let decl = BytesDecl::new(b"1.1", Some(b"utf-8"), Some(b"no"));
    assert_eq!(
        decl.element.as_bytes(),
        b"xml version=\"1.1\" encoding=\"utf-8\" standalone=\"no\""
    );
}

#[test]
fn version_of_well_formed_declaration() {
    let decl = BytesDecl::from_start(BytesStart::borrowed(b"xml version='1.0'", 3));
    assert_eq!(decl.version(), Ok(b"1.0".to_vec()));
    let built = BytesDecl::new(b"1.0", Some(b"UTF-8"), None);
    assert_eq!(built.version(), Ok(b"1.0".to_vec()));
}

#[test]
fn version_rejects_encoding_first() {
    let decl = BytesDecl::from_start(BytesStart::borrowed(b"xml encoding='UTF-8'", 3));
    assert_eq!(
        decl.version(),
        Err(Error::XmlDeclWithoutVersion(Some(b"encoding".to_vec())))
    );
}

#[test]
fn version_missing_entirely() {
    let decl = BytesDecl::from_start(BytesStart::borrowed(b"xml", 3));
    assert_eq!(decl.version(), Err(Error::XmlDeclWithoutVersion(None)));
}

#[test]
fn version_surfaces_scan_errors() {
    let decl = BytesDecl::from_start(BytesStart::borrowed(b"xml version", 3));
    assert_eq!(decl.version(), Err(Error::Attr(AttrError::ExpectedEq(11))));
}

#[test]
fn encoding_found_absent_or_failed() {
    let with = BytesDecl::from_start(BytesStart::borrowed(
        b"xml version='1.0' encoding='UTF-8'",
        3,
    ));
    assert_eq!(with.encoding(), Some(Ok(b"UTF-8".to_vec())));
    let without = BytesDecl::from_start(BytesStart::borrowed(b"xml version='1.0'", 3));
    assert_eq!(without.encoding(), None);
    let broken = BytesDecl::from_start(BytesStart::borrowed(b"xml version='1.0' encoding", 3));
    assert_eq!(
        broken.encoding(),
        Some(Err(Error::Attr(AttrError::ExpectedEq(26))))
    );
}

#[test]
fn standalone_found_or_absent() {
    let with = BytesDecl::from_start(BytesStart::borrowed(
        b"xml version='1.0' standalone='yes'",
        3,
    ));
    assert_eq!(with.standalone(), Some(Ok(b"yes".to_vec())));
    let without = BytesDecl::from_start(BytesStart::borrowed(b"xml version='1.0'", 3));
    assert_eq!(without.standalone(), None);
}

#[test]
fn encoder_resolves_known_labels_only() {
    let utf8 = BytesDecl::from_start(BytesStart::borrowed(
        b"xml version='1.0' encoding='UTF-8'",
        3,
    ));
    assert_eq!(utf8.encoder(), Some(encoding_rs::UTF_8));
    let latin = BytesDecl::from_start(BytesStart::borrowed(
        b"xml version='1.0' encoding='latin2'",
        3,
    ));
    assert_eq!(latin.encoder(), Some(encoding_rs::ISO_8859_2));
    let unknown = BytesDecl::from_start(BytesStart::borrowed(
        b"xml version='1.0' encoding='no-such-label'",
        3,
    ));
    assert_eq!(unknown.encoder(), None);
    let absent = BytesDecl::from_start(BytesStart::borrowed(b"xml version='1.0'", 3));
    assert_eq!(absent.encoder(), None);
}
