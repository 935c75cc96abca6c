use tantivy::postings::PostingsWriter;
use tantivy::term::{Field, Term};

fn index_text(postings: &mut PostingsWriter, doc: u32, field: Field, text: &str) {
    for (position, word) in text.split_whitespace().enumerate() {
        let term = Term::from_field_text(field, word);
        postings.subscribe(doc, term.as_slice(), position as u32).unwrap();
    }
}

#[test]
fn test_termfreq() {
    let text_field = Field::from_field_id(0);
    let mut postings = PostingsWriter::new();
    index_text(&mut postings, 0, text_field, "af af af bc bc");
    let term_abcd = Term::from_field_text(text_field, "abcd");
    assert!(postings.term_postings(term_abcd.as_slice()).is_empty());
    let term_af = Term::from_field_text(text_field, "af");
    let af = postings.term_postings(term_af.as_slice());
    assert_eq!(af[0].0, 0);
    assert_eq!(af[0].1.len(), 3);
    assert_eq!(af.len(), 1);
}

#[test]
fn test_indexed_u64() {
    let field = Field::from_field_id(0);
    let mut postings = PostingsWriter::new();
    postings.subscribe(0, Term::from_field_u64(field, 1u64).as_slice(), 0).unwrap();
    let term = Term::from_field_u64(field, 1u64);
    let list = postings.term_postings(term.as_slice());
    assert_eq!(list[0].0, 0);
    assert_eq!(list.len(), 1);
}

#[test]
fn test_indexed_i64() {
    let value_field = Field::from_field_id(0);
    let mut postings = PostingsWriter::new();
    let negative_val = -1i64;
    postings.subscribe(0, Term::from_field_i64(value_field, negative_val).as_slice(), 0).unwrap();
    let term = Term::from_field_i64(value_field, negative_val);
    let list = postings.term_postings(term.as_slice());
    assert_eq!(list[0].0, 0);
    assert_eq!(list.len(), 1);
}
