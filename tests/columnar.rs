use tantivy::columnar::{parse_columnar_footer, ColumnarError, ColumnarReader, DynamicColumnHandle};
use tantivy::term::Type;

fn key(name: &str, typ: Type) -> Vec<u8> {
    let mut k = name.as_bytes().to_vec();
    k.push(0);
    k.push(typ.to_code());
    k
}

fn reader() -> ColumnarReader {
    let mut entries = vec![
        (key("col1", Type::Str), (0u64, 10u64)),
        (key("col2", Type::U64), (10, 18)),
        (key("count", Type::I64), (18, 30)),
        (key("count", Type::U64), (30, 40)),
        (key("counter", Type::Bool), (40, 41)),
    ];
    entries.sort();
    ColumnarReader::new(entries, 2).unwrap()
}

#[test]
fn list_all_columns() {
    let columnar = reader();
    assert_eq!(columnar.num_rows(), 2);
    assert_eq!(columnar.num_columns(), 5);
    let columns = columnar.list_columns().unwrap();
    assert_eq!(columns.len(), 5);
    assert_eq!(&columns[0].0, "col1");
    assert_eq!(columns[0].1.column_type, Type::Str);
    assert_eq!(&columns[1].0, "col2");
    assert_eq!(columns[1].1.column_type, Type::U64);
    assert_eq!(&columns[4].0, "counter");
}

#[test]
fn read_columns_of_one_name() {
    let columnar = reader();
    let columns = columnar.read_columns("count").unwrap();
    assert_eq!(
        columns,
        vec![
            DynamicColumnHandle { column_type: Type::I64, start: 18, end: 30 },
            DynamicColumnHandle { column_type: Type::U64, start: 30, end: 40 },
        ]
    );
    assert!(columnar.read_columns("missing").unwrap().is_empty());
    assert_eq!(columnar.read_columns("col1").unwrap().len(), 1);
}

#[test]
fn unknown_column_code_is_invalid_data() {
    let mut bad = b"x".to_vec();
    bad.push(0);
    bad.push(b'z');
    let columnar = ColumnarReader::new(vec![(bad, (0, 1))], 1).unwrap();
    assert_eq!(columnar.list_columns(), Err(ColumnarError::UnknownColumnCode(b'z')));
    assert_eq!(columnar.read_columns("x"), Err(ColumnarError::UnknownColumnCode(b'z')));
    assert_eq!(columnar.read_columns("y"), Ok(vec![]));
}

#[test]
fn short_key_is_invalid_data() {
    let columnar = ColumnarReader::new(vec![(vec![b'u'], (0, 1))], 1).unwrap();
    assert_eq!(columnar.list_columns(), Err(ColumnarError::KeyTooShort));
}

#[test]
fn dictionary_keys_must_be_sorted() {
    let unsorted = vec![(key("b", Type::U64), (0u64, 1u64)), (key("a", Type::U64), (1, 2))];
    assert!(ColumnarReader::new(unsorted, 1).is_none());
    let repeated = vec![(key("a", Type::U64), (0u64, 1u64)), (key("a", Type::U64), (1, 2))];
    assert!(ColumnarReader::new(repeated, 1).is_none());
}

#[test]
fn footer_is_read_from_the_end() {
    let mut file = vec![1u8, 2, 3, 9, 9];
    file.extend_from_slice(&2u64.to_le_bytes());
    file.extend_from_slice(&7u32.to_le_bytes());
    file.extend_from_slice(&[0xAA; 4]);
    assert_eq!(parse_columnar_footer(&file, 4), Some((3, 2, 7)));
    assert_eq!(parse_columnar_footer(&file[..10], 4), None);
    let mut bad = vec![0u8; 2];
    bad.extend_from_slice(&5u64.to_le_bytes());
    bad.extend_from_slice(&1u32.to_le_bytes());
    assert_eq!(parse_columnar_footer(&bad, 0), None);
}
