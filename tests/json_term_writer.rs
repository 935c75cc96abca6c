use tantivy::json_term_writer::{
    convert_to_fast_value_and_get_term, infer_type_from_str, set_fastvalue_and_get_term,
    set_string_and_get_terms, split_json_path, JsonTermWriter, TextOrDateTime, Token,
};
use tantivy::term::{F64Bits, Field, Term, Type};
use tantivy::DateTime;

#[test]
fn test_json_writer() {
    let field = Field::from_field_id(1);
    let term = Term::with_type_and_field(Type::Json, field);
    let mut json_writer = JsonTermWriter::wrap(term, false);
    json_writer.push_path_segment("attributes");
    json_writer.push_path_segment("color");
    json_writer.set_str("red");
    assert_eq!(
        json_writer.term().debug_string(),
        "Term(type=Json, field=1, path=attributes.color, vtype=Str, \"red\")"
    );
    json_writer.set_str("blue");
    assert_eq!(
        json_writer.term().debug_string(),
        "Term(type=Json, field=1, path=attributes.color, vtype=Str, \"blue\")"
    );
    json_writer.pop_path_segment();
    json_writer.push_path_segment("dimensions");
    json_writer.push_path_segment("width");
    json_writer.set_fast_value(400i64);
    assert_eq!(
        json_writer.term().debug_string(),
        "Term(type=Json, field=1, path=attributes.dimensions.width, vtype=I64, 400)"
    );
    json_writer.pop_path_segment();
    json_writer.push_path_segment("height");
    json_writer.set_fast_value(300i64);
    assert_eq!(
        json_writer.term().debug_string(),
        "Term(type=Json, field=1, path=attributes.dimensions.height, vtype=I64, 300)"
    );
}

#[test]
fn test_string_term() {
    let field = Field::from_field_id(1);
    let term = Term::with_type_and_field(Type::Json, field);
    let mut json_writer = JsonTermWriter::wrap(term, false);
    json_writer.push_path_segment("color");
    json_writer.set_str("red");
    assert_eq!(
        json_writer.term().as_slice(),
        b"\x00\x00\x00\x01jcolor\x00sred"
    )
}

#[test]
fn test_i64_term() {
    let field = Field::from_field_id(1);
    let term = Term::with_type_and_field(Type::Json, field);
    let mut json_writer = JsonTermWriter::wrap(term, false);
    json_writer.push_path_segment("color");
    json_writer.set_fast_value(-4i64);
    assert_eq!(
        json_writer.term().as_slice(),
        b"\x00\x00\x00\x01jcolor\x00i\x7f\xff\xff\xff\xff\xff\xff\xfc"
    )
}

#[test]
fn test_u64_term() {
    let field = Field::from_field_id(1);
    let term = Term::with_type_and_field(Type::Json, field);
    let mut json_writer = JsonTermWriter::wrap(term, false);
    json_writer.push_path_segment("color");
    json_writer.set_fast_value(4u64);
    assert_eq!(
        json_writer.term().as_slice(),
        b"\x00\x00\x00\x01jcolor\x00u\x00\x00\x00\x00\x00\x00\x00\x04"
    )
}

#[test]
fn test_f64_term() {
    let field = Field::from_field_id(1);
    let term = Term::with_type_and_field(Type::Json, field);
    let mut json_writer = JsonTermWriter::wrap(term, false);
    json_writer.push_path_segment("color");
    json_writer.set_fast_value(F64Bits::from_bits(4.0f64.to_bits()));
    assert_eq!(
        json_writer.term().as_slice(),
        b"\x00\x00\x00\x01jcolor\x00f\xc0\x10\x00\x00\x00\x00\x00\x00"
    )
}

#[test]
fn test_bool_term() {
    let field = Field::from_field_id(1);
    let term = Term::with_type_and_field(Type::Json, field);
    let mut json_writer = JsonTermWriter::wrap(term, false);
    json_writer.push_path_segment("color");
    json_writer.set_fast_value(true);
    assert_eq!(
        json_writer.term().as_slice(),
        b"\x00\x00\x00\x01jcolor\x00o\x00\x00\x00\x00\x00\x00\x00\x01"
    )
}

#[test]
fn test_push_after_set_path_segment() {
    let field = Field::from_field_id(1);
    let term = Term::with_type_and_field(Type::Json, field);
    let mut json_writer = JsonTermWriter::wrap(term, false);
    json_writer.push_path_segment("attribute");
    json_writer.set_str("something");
    json_writer.push_path_segment("color");
    json_writer.set_str("red");
    assert_eq!(
        json_writer.term().as_slice(),
        b"\x00\x00\x00\x01jattribute\x01color\x00sred"
    )
}

#[test]
fn test_pop_segment() {
    let field = Field::from_field_id(1);
    let term = Term::with_type_and_field(Type::Json, field);
    let mut json_writer = JsonTermWriter::wrap(term, false);
    json_writer.push_path_segment("color");
    json_writer.push_path_segment("hue");
    json_writer.pop_path_segment();
    json_writer.set_str("red");
    assert_eq!(
        json_writer.term().as_slice(),
        b"\x00\x00\x00\x01jcolor\x00sred"
    )
}

#[test]
fn test_json_writer_path() {
    let field = Field::from_field_id(1);
    let term = Term::with_type_and_field(Type::Json, field);
    let mut json_writer = JsonTermWriter::wrap(term, false);
    json_writer.push_path_segment("color");
    assert_eq!(json_writer.path(), b"color");
    json_writer.push_path_segment("hue");
    assert_eq!(json_writer.path(), b"color\x01hue");
    json_writer.set_str("pink");
    assert_eq!(json_writer.path(), b"color\x01hue");
}

#[test]
fn test_json_path_expand_dots_disabled() {
    let field = Field::from_field_id(1);
    let term = Term::with_type_and_field(Type::Json, field);
    let mut json_writer = JsonTermWriter::wrap(term, false);
    json_writer.push_path_segment("color.hue");
    assert_eq!(json_writer.path(), b"color.hue");
}

#[test]
fn test_json_path_expand_dots_enabled() {
    let field = Field::from_field_id(1);
    let term = Term::with_type_and_field(Type::Json, field);
    let mut json_writer = JsonTermWriter::wrap(term, true);
    json_writer.push_path_segment("color.hue");
    assert_eq!(json_writer.path(), b"color\x01hue");
}

#[test]
fn test_json_path_expand_dots_enabled_pop_segment() {
    let field = Field::from_field_id(1);
    let term = Term::with_type_and_field(Type::Json, field);
    let mut json_writer = JsonTermWriter::wrap(term, true);
    json_writer.push_path_segment("hello");
    assert_eq!(json_writer.path(), b"hello");
    json_writer.push_path_segment("color.hue");
    assert_eq!(json_writer.path(), b"hello\x01color\x01hue");
    json_writer.pop_path_segment();
    assert_eq!(json_writer.path(), b"hello");
}

#[test]
fn test_split_json_path_simple() {
    let json_path = split_json_path("titi.toto");
    assert_eq!(&json_path, &["titi", "toto"]);
}

#[test]
fn test_split_json_path_single_segment() {
    let json_path = split_json_path("toto");
    assert_eq!(&json_path, &["toto"]);
}

#[test]
fn test_split_json_path_trailing_dot() {
    let json_path = split_json_path("toto.");
    assert_eq!(&json_path, &["toto", ""]);
}

#[test]
fn test_split_json_path_heading_dot() {
    let json_path = split_json_path(".toto");
    assert_eq!(&json_path, &["", "toto"]);
}

#[test]
fn test_split_json_path_escaped_dot() {
    let json_path = split_json_path(r#"toto\.titi"#);
    assert_eq!(&json_path, &["toto.titi"]);
    let json_path_2 = split_json_path(r#"k8s\.container\.name"#);
    assert_eq!(&json_path_2, &["k8s.container.name"]);
}

#[test]
fn test_split_json_path_escaped_backslash() {
    let json_path = split_json_path(r#"toto\\titi"#);
    assert_eq!(&json_path, &[r#"toto\titi"#]);
}

#[test]
fn test_split_json_path_escaped_normal_letter() {
    let json_path = split_json_path(r#"toto\titi"#);
    assert_eq!(&json_path, &[r#"tototiti"#]);
}

fn writer_at(path: &str) -> JsonTermWriter {
    let term = Term::with_type_and_field(Type::Json, Field::from_field_id(1));
    JsonTermWriter::from_field_and_json_path(Field::from_field_id(1), path, false, term)
}

#[test]
fn from_field_and_json_path_splits_the_path() {
    let mut writer = writer_at(r#"a.b\.c"#);
    assert_eq!(writer.path(), b"a\x01b.c");
    writer.set_str("x");
    assert_eq!(writer.term().as_slice(), b"\x00\x00\x00\x01ja\x01b.c\x00sx");
}

#[test]
fn date_leaf_keeps_whole_seconds() {
    let mut writer = writer_at("when");
    writer.set_fast_value(DateTime::from_timestamp_micros(2_700_000));
    let term = writer.term();
    let expected_u64 = (2_000_000i64 as u64) ^ (1u64 << 63);
    let mut expected = b"\x00\x00\x00\x01jwhen\x00d".to_vec();
    expected.extend_from_slice(&expected_u64.to_be_bytes());
    assert_eq!(term.as_slice(), &expected[..]);
}

#[test]
fn phrase_conversion_tries_each_type() {
    let mut writer = writer_at("k");
    let term = convert_to_fast_value_and_get_term(&mut writer, "17", None).unwrap();
    assert_eq!(term.as_slice(), b"\x00\x00\x00\x01jk\x00u\x00\x00\x00\x00\x00\x00\x00\x11");
    let term = convert_to_fast_value_and_get_term(&mut writer, "-1", None).unwrap();
    assert_eq!(term.as_slice(), b"\x00\x00\x00\x01jk\x00i\x7f\xff\xff\xff\xff\xff\xff\xff");
    let term = convert_to_fast_value_and_get_term(&mut writer, "true", None).unwrap();
    assert_eq!(term.as_slice(), b"\x00\x00\x00\x01jk\x00o\x00\x00\x00\x00\x00\x00\x00\x01");
    let bits = 1.5f64.to_bits();
    let term =
        convert_to_fast_value_and_get_term(&mut writer, "1.5", Some(F64Bits::from_bits(bits)))
            .unwrap();
    let mut expected = b"\x00\x00\x00\x01jk\x00f".to_vec();
    expected.extend_from_slice(&(bits ^ (1u64 << 63)).to_be_bytes());
    assert_eq!(term.as_slice(), &expected[..]);
    let term = convert_to_fast_value_and_get_term(&mut writer, "1970-01-01T00:00:01Z", None).unwrap();
    let mut expected = b"\x00\x00\x00\x01jk\x00d".to_vec();
    expected.extend_from_slice(&((1_000_000i64 as u64) ^ (1u64 << 63)).to_be_bytes());
    assert_eq!(term.as_slice(), &expected[..]);
    assert!(convert_to_fast_value_and_get_term(&mut writer, "hello", None).is_none());
    assert!(convert_to_fast_value_and_get_term(&mut writer, "True", None).is_none());
}

#[test]
fn fast_value_term_copy() {
    let mut writer = writer_at("n");
    let term = set_fastvalue_and_get_term(&mut writer, 5u64);
    assert_eq!(term.as_slice(), writer.term().as_slice());
    assert_eq!(term.as_slice(), b"\x00\x00\x00\x01jn\x00u\x00\x00\x00\x00\x00\x00\x00\x05");
}

#[test]
fn string_tokens_become_terms() {
    let mut writer = writer_at("name");
    let tokens = vec![
        Token { position: 0, text: "the".to_string() },
        Token { position: 1, text: "who".to_string() },
    ];
    let terms = set_string_and_get_terms(&mut writer, &tokens);
    assert_eq!(terms.len(), 2);
    assert_eq!(terms[0].0, 0);
    assert_eq!(terms[0].1.as_slice(), b"\x00\x00\x00\x01jname\x00sthe");
    assert_eq!(terms[1].0, 1);
    assert_eq!(terms[1].1.as_slice(), b"\x00\x00\x00\x01jname\x00swho");
}

#[test]
fn infer_dates_and_text() {
    match infer_type_from_str("2022-06-01T10:00:00.5+02:00") {
        TextOrDateTime::DateTime(dt) => {
            assert_eq!(dt.into_timestamp_micros(), 1_654_070_400_500_000)
        }
        TextOrDateTime::Text(_) => panic!("expected a date"),
    }
    match infer_type_from_str("not a date") {
        TextOrDateTime::Text(t) => assert_eq!(t, "not a date"),
        TextOrDateTime::DateTime(_) => panic!("expected text"),
    }
}

#[test]
fn phrase_integers_follow_std_parsing() {
    let mut writer = writer_at("k");
    let term = convert_to_fast_value_and_get_term(&mut writer, "+17", None).unwrap();
    assert_eq!(term.as_slice(), b"\x00\x00\x00\x01jk\x00u\x00\x00\x00\x00\x00\x00\x00\x11");
    let term = convert_to_fast_value_and_get_term(&mut writer, "-9223372036854775808", None).unwrap();
    assert_eq!(term.as_slice(), b"\x00\x00\x00\x01jk\x00i\x00\x00\x00\x00\x00\x00\x00\x00");
    let term = convert_to_fast_value_and_get_term(&mut writer, "18446744073709551615", None).unwrap();
    assert_eq!(term.as_slice(), b"\x00\x00\x00\x01jk\x00u\xff\xff\xff\xff\xff\xff\xff\xff");
    assert!(convert_to_fast_value_and_get_term(&mut writer, "18446744073709551616", None).is_none());
    assert!(convert_to_fast_value_and_get_term(&mut writer, "-9223372036854775809", None).is_none());
    assert!(convert_to_fast_value_and_get_term(&mut writer, "1a", None).is_none());
    assert!(convert_to_fast_value_and_get_term(&mut writer, "+", None).is_none());
    assert!(convert_to_fast_value_and_get_term(&mut writer, "", None).is_none());
    let term = convert_to_fast_value_and_get_term(&mut writer, "false", None).unwrap();
    assert_eq!(term.as_slice(), b"\x00\x00\x00\x01jk\x00o\x00\x00\x00\x00\x00\x00\x00\x00");
}
