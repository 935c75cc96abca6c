use tantivy::facet::Facet;
use tantivy::term::{Field, Term, Type};

#[test]
fn facet_paths() {
    let facet = Facet::from_encoded_string("category\u{0}shoes".to_string());
    assert_eq!(facet.to_path_string(), "/category/shoes");
    assert_eq!(facet.encoded_str(), "category\u{0}shoes");
    let odd = Facet::from_encoded_string("a/b\u{0}c".to_string());
    assert_eq!(odd.to_path_string(), "/a\\/b/c");
}

#[test]
fn facet_terms_round_trip() {
    let facet = Facet::from_encoded_string("category\u{0}shoes".to_string());
    let term = Term::from_facet(Field::from_field_id(4), &facet);
    assert_eq!(term.typ(), Type::Facet);
    assert_eq!(term.as_facet(), Some(facet));
    assert_eq!(term.as_str(), None);
    assert_eq!(term.debug_string(), "Term(type=Facet, field=4, /category/shoes)");
}
