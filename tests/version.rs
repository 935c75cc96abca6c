use tantivy::{version, version_string, DocAddress, INDEX_FORMAT_VERSION};

#[test]
fn version_string_text() {
    assert_eq!(version_string(), "tantivy v0.19.0, index_format v5");
    assert_eq!(version().to_string(), version_string());
    assert_eq!(version().index_format_version, INDEX_FORMAT_VERSION);
}

#[test]
fn doc_address() {
    let addr = DocAddress::new(2, 7);
    assert_eq!(addr.segment_ord, 2);
    assert_eq!(addr.doc_id, 7);
    assert!(DocAddress::new(0, 9) < DocAddress::new(1, 0));
}
