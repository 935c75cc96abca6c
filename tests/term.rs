use tantivy::codec::u64_to_be_bytes;
use tantivy::term::{F64Bits, Field, Term, Type};
use tantivy::DateTime;

/// Size (in bytes) of the buffer of a fast value (u64, i64, f64, or date) term:
/// the field id, the type byte and the value.
const FAST_VALUE_TERM_LEN: usize = 4 + 1 + 8;

#[test]
pub fn test_term_str() {
    let title_field = Field::from_field_id(1);
    let term = Term::from_field_text(title_field, "test");
    assert_eq!(term.field(), title_field);
    assert_eq!(term.typ(), Type::Str);
    assert_eq!(term.as_str(), Some("test"))
}

#[test]
pub fn test_term_u64() {
    let count_field = Field::from_field_id(0);
    let term = Term::from_field_u64(count_field, 983u64);
    assert_eq!(term.field(), count_field);
    assert_eq!(term.typ(), Type::U64);
    assert_eq!(term.as_slice().len(), FAST_VALUE_TERM_LEN);
    assert_eq!(term.as_u64(), Some(983u64))
}

#[test]
pub fn test_term_bool() {
    let bool_field = Field::from_field_id(0);
    let term = Term::from_field_bool(bool_field, true);
    assert_eq!(term.field(), bool_field);
    assert_eq!(term.typ(), Type::Bool);
    assert_eq!(term.as_slice().len(), FAST_VALUE_TERM_LEN);
    assert_eq!(term.as_bool(), Some(true))
}

#[test]
fn u64_term_bytes() {
    let term = Term::from_field_u64(Field::from_field_id(1), 4);
    assert_eq!(term.as_slice(), b"\x00\x00\x00\x01u\x00\x00\x00\x00\x00\x00\x00\x04");
}

#[test]
fn i64_term_bytes_and_round_trip() {
    let term = Term::from_field_i64(Field::from_field_id(7), -4);
    assert_eq!(term.as_slice(), b"\x00\x00\x00\x07i\x7f\xff\xff\xff\xff\xff\xff\xfc");
    assert_eq!(term.as_i64(), Some(-4));
    assert_eq!(term.as_u64(), None);
    for v in [i64::MIN, -1, 0, 1, i64::MAX] {
        assert_eq!(Term::from_field_i64(Field::from_field_id(0), v).as_i64(), Some(v));
    }
}

#[test]
fn numeric_terms_order_as_values() {
    let f = Field::from_field_id(3);
    let values = [i64::MIN, -1000, -1, 0, 1, 42, i64::MAX];
    for a in values {
        for b in values {
            let ta = Term::from_field_i64(f, a);
            let tb = Term::from_field_i64(f, b);
            assert_eq!(ta.as_slice() < tb.as_slice(), a < b);
        }
    }
    let unsigned = [0u64, 1, 255, 256, u64::MAX];
    for a in unsigned {
        for b in unsigned {
            let ta = Term::from_field_u64(f, a);
            let tb = Term::from_field_u64(f, b);
            assert_eq!(ta.as_slice() < tb.as_slice(), a < b);
        }
    }
}

#[test]
fn date_term_keeps_whole_seconds() {
    let date = DateTime::from_timestamp_micros(1_500_000);
    let term = Term::from_field_date(Field::from_field_id(2), date);
    assert_eq!(term.typ(), Type::Date);
    assert_eq!(term.as_date(), Some(DateTime::from_timestamp_secs(1)));
    let negative = DateTime::from_timestamp_micros(-1_500_000);
    let term = Term::from_field_date(Field::from_field_id(2), negative);
    assert_eq!(term.as_date(), Some(DateTime::from_timestamp_secs(-1)));
}

#[test]
fn f64_term_round_trip() {
    let bits = (-2.5f64).to_bits();
    let term = Term::from_field_f64_bits(Field::from_field_id(0), F64Bits::from_bits(bits));
    assert_eq!(term.typ(), Type::F64);
    assert_eq!(term.as_f64_bits(), Some(F64Bits::from_bits(bits)));
    assert_eq!(f64::from_bits(term.as_f64_bits().unwrap().bits), -2.5);
}

#[test]
fn bytes_term() {
    let term = Term::from_field_bytes(Field::from_field_id(0), &[1, 2, 3]);
    assert_eq!(term.as_bytes(), Some(&[1u8, 2, 3][..]));
    assert_eq!(term.as_str(), None);
    assert_eq!(term.debug_string(), "Term(type=Bytes, field=0, [1, 2, 3])");
}

#[test]
fn invalid_utf8_is_not_text() {
    let mut term = Term::from_field_text(Field::from_field_id(0), "a");
    term.set_bytes(&[0xff, 0xfe]);
    assert_eq!(term.as_str(), None);
    assert_eq!(term.value_bytes(), &[0xff, 0xfe]);
}

#[test]
fn term_setters() {
    let mut term = Term::with_type_and_field(Type::U64, Field::from_field_id(9));
    assert!(term.is_empty());
    term.set_u64(5);
    assert_eq!(term.as_u64(), Some(5));
    assert_eq!(term.len_bytes(), 8);
    term.truncate_value_bytes(3);
    assert_eq!(term.len_bytes(), 3);
    assert_eq!(term.as_u64(), None);
    term.clear_with_type(Type::Str);
    term.set_text("abc");
    assert_eq!(term.as_str(), Some("abc"));
    term.append_bytes(b"de");
    term.push_byte(b'f');
    assert_eq!(term.as_str(), Some("abcdef"));
    term.set_i64(-2);
    term.clear_with_type(Type::I64);
    term.set_i64(-2);
    assert_eq!(term.as_i64(), Some(-2));
    term.clear_with_type(Type::Bool);
    term.set_bool(false);
    assert_eq!(term.as_bool(), Some(false));
    term.clear_with_type(Type::Date);
    term.set_date(DateTime::from_timestamp_secs(3));
    assert_eq!(term.as_date(), Some(DateTime::from_timestamp_secs(3)));
    assert_eq!(term.field(), Field::from_field_id(9));
}

#[test]
fn debug_strings_of_fast_values() {
    let f = Field::from_field_id(2);
    assert_eq!(Term::from_field_u64(f, 983).debug_string(), "Term(type=U64, field=2, 983)");
    assert_eq!(Term::from_field_i64(f, -7).debug_string(), "Term(type=I64, field=2, -7)");
    assert_eq!(Term::from_field_bool(f, true).debug_string(), "Term(type=Bool, field=2, true)");
    assert_eq!(
        Term::from_field_text(f, "a\"b").debug_string(),
        "Term(type=Str, field=2, \"a\\\"b\")"
    );
    assert_eq!(
        Term::from_field_date(f, DateTime::from_timestamp_secs(0)).debug_string(),
        "Term(type=Date, field=2, 1970-01-01T00:00:00Z)"
    );
}

#[test]
fn wrapped_bytes_are_kept() {
    let bytes = u64_to_be_bytes(1);
    let mut data = vec![0u8, 0, 0, 4, b'u'];
    data.extend_from_slice(&bytes);
    let term = Term::wrap(data.clone());
    assert_eq!(term.as_slice(), &data[..]);
    assert_eq!(term.field(), Field::from_field_id(4));
    assert_eq!(term.as_u64(), Some(1));
}

#[test]
fn type_codes_round_trip() {
    for typ in [
        Type::Str,
        Type::U64,
        Type::I64,
        Type::F64,
        Type::Bool,
        Type::Date,
        Type::Facet,
        Type::Bytes,
        Type::Json,
        Type::IpAddr,
    ] {
        assert_eq!(Type::from_code(typ.to_code()), Some(typ));
    }
    assert_eq!(Type::from_code(b'z'), None);
}

#[test]
fn ip_addr_term_is_sixteen_big_endian_bytes() {
    let addr: u128 = 0x2001_0db8_0000_0000_0000_0000_0000_0001;
    let term = Term::from_field_ip_addr(Field::from_field_id(1), addr);
    let mut expected = vec![0u8, 0, 0, 1, b'p'];
    expected.extend_from_slice(&addr.to_be_bytes());
    assert_eq!(term.as_slice(), &expected[..]);
    assert_eq!(term.typ(), Type::IpAddr);
}
