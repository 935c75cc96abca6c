use tantivy::json_indexing::{index_json_values, JsonValue, POSITION_GAP};
use tantivy::json_term_writer::Token;
use tantivy::postings::{IndexingError, PostingsWriter};
use tantivy::term::{F64Bits, Field};

fn text(s: &str) -> JsonValue {
    let tokens = s
        .split_whitespace()
        .enumerate()
        .map(|(position, word)| Token { position, text: word.to_lowercase() })
        .collect();
    JsonValue::Str { text: s.to_string(), tokens }
}

fn json_str_term(field: u32, path: &[u8], token: &str) -> Vec<u8> {
    let mut bytes = field.to_be_bytes().to_vec();
    bytes.push(b'j');
    bytes.extend_from_slice(path);
    bytes.push(0);
    bytes.push(b's');
    bytes.extend_from_slice(token.as_bytes());
    bytes
}

fn positions(writer: &PostingsWriter, term: &[u8], doc: u32) -> Vec<u32> {
    writer
        .term_postings(term)
        .into_iter()
        .find(|(d, _)| *d == doc)
        .map(|(_, p)| p)
        .unwrap_or_default()
}

fn phrase_matches(writer: &PostingsWriter, terms: &[Vec<u8>], doc: u32) -> bool {
    let first = positions(writer, &terms[0], doc);
    first.iter().any(|&start| {
        terms
            .iter()
            .enumerate()
            .all(|(k, t)| positions(writer, t, doc).contains(&(start + k as u32)))
    })
}

#[test]
fn phrase_false_positives_blocked() {
    let bands = JsonValue::Array(vec![
        JsonValue::Object(vec![("name".to_string(), text("Elliot Smith"))]),
        JsonValue::Object(vec![("name".to_string(), text("The Who"))]),
    ]);
    let doc = vec![("bands".to_string(), bands)];
    let mut writer = PostingsWriter::new();
    index_json_values(0, Field::from_field_id(3), &[doc], false, &mut writer).unwrap();
    let path = b"bands\x01name";
    let the = json_str_term(3, path, "the");
    let who = json_str_term(3, path, "who");
    let smith = json_str_term(3, path, "smith");
    let elliot = json_str_term(3, path, "elliot");
    assert!(!phrase_matches(&writer, &[the.clone(), smith.clone()], 0));
    assert!(phrase_matches(&writer, &[the.clone(), who.clone()], 0));
    assert!(phrase_matches(&writer, &[elliot.clone(), smith.clone()], 0));
    assert_eq!(positions(&writer, &elliot, 0), vec![0]);
    assert_eq!(positions(&writer, &smith, 0), vec![1]);
    assert_eq!(positions(&writer, &the, 0), vec![2 + POSITION_GAP]);
    assert_eq!(positions(&writer, &who, 0), vec![3 + POSITION_GAP]);
}

#[test]
fn json_leaves_become_terms() {
    let doc = vec![
        ("a".to_string(), JsonValue::Object(vec![("b".to_string(), JsonValue::U64(3))])),
        ("neg".to_string(), JsonValue::I64(-4)),
        ("ok".to_string(), JsonValue::Bool(true)),
        ("x".to_string(), JsonValue::F64(F64Bits::from_bits(4.0f64.to_bits()))),
        ("nothing".to_string(), JsonValue::Null),
        ("when".to_string(), text("1970-01-01T00:00:02Z")),
    ];
    let mut writer = PostingsWriter::new();
    index_json_values(5, Field::from_field_id(1), &[doc], false, &mut writer).unwrap();
    assert_eq!(writer.num_terms(), 5);
    let u64_term = b"\x00\x00\x00\x01ja\x01b\x00u\x00\x00\x00\x00\x00\x00\x00\x03";
    assert_eq!(writer.term_postings(u64_term), vec![(5, vec![0])]);
    let i64_term = b"\x00\x00\x00\x01jneg\x00i\x7f\xff\xff\xff\xff\xff\xff\xfc";
    assert_eq!(writer.term_postings(i64_term), vec![(5, vec![0])]);
    let date_bits = (2_000_000i64 as u64) ^ (1u64 << 63);
    let mut date_term = b"\x00\x00\x00\x01jwhen\x00d".to_vec();
    date_term.extend_from_slice(&date_bits.to_be_bytes());
    assert_eq!(writer.term_postings(&date_term), vec![(5, vec![0])]);
}

#[test]
fn postings_order_documents_and_positions() {
    let mut writer = PostingsWriter::new();
    writer.subscribe(0, b"t", 0).unwrap();
    writer.subscribe(0, b"t", 0).unwrap();
    writer.subscribe(0, b"t", 3).unwrap();
    writer.subscribe(2, b"t", 1).unwrap();
    writer.subscribe(2, b"u", 0).unwrap();
    assert_eq!(writer.subscribe(2, b"t", 0), Err(IndexingError::PositionNonIncreasing));
    assert_eq!(writer.subscribe(1, b"t", 5), Err(IndexingError::DocNotIncreasing));
    assert_eq!(writer.term_postings(b"t"), vec![(0, vec![0, 0, 3]), (2, vec![1])]);
    assert_eq!(writer.term_postings(b"u"), vec![(2, vec![0])]);
    assert!(writer.term_postings(b"v").is_empty());
    assert_eq!(writer.num_terms(), 2);
}

#[test]
fn arrays_share_a_path() {
    let doc = vec![(
        "tags".to_string(),
        JsonValue::Array(vec![JsonValue::U64(1), JsonValue::U64(1), JsonValue::U64(2)]),
    )];
    let mut writer = PostingsWriter::new();
    index_json_values(0, Field::from_field_id(0), &[doc], false, &mut writer).unwrap();
    let one = b"\x00\x00\x00\x00jtags\x00u\x00\x00\x00\x00\x00\x00\x00\x01";
    assert_eq!(writer.term_postings(one), vec![(0, vec![0, 0])]);
    assert_eq!(writer.num_terms(), 2);
}

#[test]
fn expanded_dots_in_keys() {
    let doc = vec![("k8s.node".to_string(), JsonValue::Bool(false))];
    let mut writer = PostingsWriter::new();
    index_json_values(0, Field::from_field_id(0), &[doc], true, &mut writer).unwrap();
    let term = b"\x00\x00\x00\x00jk8s\x01node\x00o\x00\x00\x00\x00\x00\x00\x00\x00";
    assert_eq!(writer.term_postings(term), vec![(0, vec![0])]);
}

#[test]
fn term_too_long_is_rejected() {
    let mut writer = PostingsWriter::new();
    let long = vec![b'x'; 0x10000];
    assert_eq!(writer.subscribe(0, &long, 0), Err(IndexingError::TermTooLong));
    assert_eq!(writer.num_terms(), 0);
}

#[test]
fn positions_past_32_bits_overflow() {
    let tokens = vec![Token { position: u32::MAX as usize, text: "far".to_string() }];
    let doc = vec![("t".to_string(), JsonValue::Str { text: "far".to_string(), tokens })];
    let mut writer = PostingsWriter::new();
    assert_eq!(
        index_json_values(0, Field::from_field_id(0), &[doc], false, &mut writer),
        Err(IndexingError::PositionOverflow)
    );
}

#[test]
fn array_element_is_its_own_leaf() {
    let doc = vec![("flags".to_string(), JsonValue::Array(vec![JsonValue::Bool(true)]))];
    let mut writer = PostingsWriter::new();
    index_json_values(2, Field::from_field_id(1), &[doc], false, &mut writer).unwrap();
    let term = b"\x00\x00\x00\x01jflags\x00o\x00\x00\x00\x00\x00\x00\x00\x01";
    assert_eq!(writer.term_postings(term), vec![(2, vec![0])]);
}

#[test]
fn text_terms_at_one_path_keep_increasing() {
    let names = JsonValue::Array(vec![text("a b"), text("b a")]);
    let doc = vec![("n".to_string(), names)];
    let mut writer = PostingsWriter::new();
    index_json_values(0, Field::from_field_id(0), &[doc], false, &mut writer).unwrap();
    let a = json_str_term(0, b"n", "a");
    let b = json_str_term(0, b"n", "b");
    assert_eq!(positions(&writer, &a, 0), vec![0, 3 + POSITION_GAP]);
    assert_eq!(positions(&writer, &b, 0), vec![1, 2 + POSITION_GAP]);
}
