use tree_buf::boolean::{read_bool, write_root_bool, BoolReaderArray, BoolWriterArray};
use tree_buf::branch::{DynArrayBranch, DynRootBranch};
use tree_buf::codec::{
    decode_array, decode_bool, decode_bool_array, decode_root, decode_u64, encode_bool, encode_bool_array,
    encode_u64, write_array_branch, write_root_branch,
};
use tree_buf::integer::{read_u64, write_root_u64, U64ReaderArray, U64WriterArray};
use tree_buf::names::canonical_ident;
use tree_buf::protocol::{find_field, take_field, write_arity, write_ident};
use tree_buf::tags::{ArrayTypeId, RootTypeId};
use tree_buf::ReadError;

#[test]
fn encode_true_is_one_tag() {
    let bytes = encode_bool(true);
    assert_eq!(bytes.len(), 1);
    assert_eq!(RootTypeId::from_byte(bytes[0]), Some(RootTypeId::True));
    assert!(matches!(decode_root(&bytes), Ok(DynRootBranch::Boolean(true))));
    assert_eq!(decode_bool(&bytes), Ok(true));
    assert_eq!(decode_bool(&encode_bool(false)), Ok(false));
}

#[test]
fn encode_bool_array_scenario() {
    let bytes = encode_bool_array(&[true, false, true]);
    assert_eq!(ArrayTypeId::from_byte(bytes[0]), Some(ArrayTypeId::Boolean));
    assert_eq!(bytes, vec![11, 3, 0b101]);
    assert_eq!(decode_bool_array(&bytes), Ok(vec![true, false, true]));
}

#[test]
fn bool_array_round_trips() {
    for len in [0usize, 1, 8, 9, 100] {
        let s: Vec<bool> = (0..len).map(|i| i % 3 == 0).collect();
        assert_eq!(decode_bool_array(&encode_bool_array(&s)), Ok(s));
    }
}

#[test]
fn write_root_bool_writes_nothing() {
    let mut stream = vec![1, 2];
    assert_eq!(write_root_bool(true, &mut stream), RootTypeId::True);
    assert_eq!(write_root_bool(false, &mut stream), RootTypeId::False);
    assert_eq!(stream, vec![1, 2]);
}

#[test]
fn read_bool_checks_shape() {
    assert_eq!(read_bool(DynRootBranch::Boolean(false)), Ok(false));
    assert_eq!(read_bool(DynRootBranch::Integer(1)), Err(ReadError::SchemaMismatch));
    assert_eq!(decode_bool(&[13, 5]), Err(ReadError::SchemaMismatch));
}

#[test]
fn bool_reader_defaults_when_exhausted() {
    let mut column = BoolWriterArray::new();
    column.buffer(true);
    column.buffer(true);
    let mut stream = Vec::new();
    assert_eq!(column.flush(&mut stream), ArrayTypeId::Boolean);
    assert_eq!(stream, vec![2, 0b11]);
    let branch = DynArrayBranch::Boolean { count: 2, bytes: vec![0b11] };
    let mut reader = match BoolReaderArray::new_infallible(branch) {
        Ok(r) => r,
        Err(_) => panic!("a boolean column"),
    };
    assert_eq!(reader.remaining(), 2);
    assert!(reader.read_next_infallible());
    assert!(reader.read_next_infallible());
    assert!(!reader.read_next_infallible());
    assert!(!reader.read_next_infallible());
}

#[test]
fn bool_reader_errors() {
    let wrong = BoolReaderArray::new_infallible(DynArrayBranch::Integer(vec![1]));
    assert!(matches!(wrong, Err(ReadError::SchemaMismatch)));
    let short = BoolReaderArray::new_infallible(DynArrayBranch::Boolean { count: 9, bytes: vec![0] });
    assert!(matches!(short, Err(ReadError::InvalidFormat)));
}

#[test]
fn malformed_inputs_fail_cleanly() {
    assert_eq!(decode_bool(&[]), Err(ReadError::InvalidFormat));
    assert_eq!(decode_bool(&[200]), Err(ReadError::InvalidFormat));
    assert_eq!(decode_bool(&[11, 0]), Err(ReadError::InvalidFormat));
    assert_eq!(decode_bool_array(&[11, 9, 0]), Err(ReadError::InvalidFormat));
    // a varint that is not the shortest form of its value
    assert!(matches!(decode_root(&[13, 0x80, 0x05]), Err(ReadError::InvalidFormat)));
}

#[test]
fn nesting_beyond_the_limit_is_an_error() {
    let mut bytes = Vec::new();
    for _ in 0..100 {
        bytes.push(10);
        write_ident("a", &mut bytes);
    }
    bytes.push(11);
    assert!(matches!(decode_root(&bytes), Err(ReadError::InvalidFormat)));
    let mut shallow = Vec::new();
    for _ in 0..10 {
        shallow.push(10);
        write_ident("a", &mut shallow);
    }
    shallow.push(11);
    assert!(decode_root(&shallow).is_ok());
}

#[test]
fn arbitrary_bytes_never_panic() {
    let mut state: u64 = 0x2545_F491_4F6C_DD1D;
    for round in 0..3000 {
        state ^= state << 13;
        state ^= state >> 7;
        state ^= state << 17;
        let len = (state % 24) as usize;
        let mut bytes = Vec::new();
        let mut x = state;
        for _ in 0..len {
            x = x.wrapping_mul(6364136223846793005).wrapping_add(1442695040888963407);
            let b = (x >> 56) as u8;
            bytes.push(if round % 2 == 0 { b % 16 } else { b });
        }
        let _ = decode_root(&bytes);
        let _ = decode_array(&bytes);
        match decode_bool(&bytes) {
            Ok(_) | Err(ReadError::SchemaMismatch) | Err(ReadError::InvalidFormat) => {}
        }
        let _ = decode_bool_array(&bytes);
    }
}

/// Writes `{a: bool, b: u64}` or `{a, b, c: bool}` as a standalone object.
fn write_object(a: bool, b: u64, c: Option<bool>) -> Vec<u8> {
    let n = if c.is_some() { 3 } else { 2 };
    let mut bytes = vec![RootTypeId::object(n).to_byte()];
    write_arity(n, &mut bytes);
    write_ident(&canonical_ident("a"), &mut bytes);
    let mut inner = Vec::new();
    let tag = write_root_bool(a, &mut inner);
    bytes.push(tag.to_byte());
    bytes.extend(inner);
    write_ident(&canonical_ident("b"), &mut bytes);
    let mut inner = Vec::new();
    let tag = write_root_u64(b, &mut inner);
    bytes.push(tag.to_byte());
    bytes.extend(inner);
    if let Some(c) = c {
        write_ident(&canonical_ident("c"), &mut bytes);
        bytes.push(write_root_bool(c, &mut Vec::new()).to_byte());
    }
    bytes
}

fn object_fields(bytes: &[u8]) -> Vec<(Vec<u8>, DynRootBranch)> {
    match decode_root(bytes) {
        Ok(DynRootBranch::Object { fields }) => fields,
        _ => panic!("an object"),
    }
}

#[test]
fn schema_evolution_defaults_missing_and_ignores_extra() {
    // older writer, newer reader: `c` is missing and defaults
    let mut fields = object_fields(&write_object(true, 7, None));
    let a = read_bool(take_field(&mut fields, b"a").unwrap()).unwrap();
    let b = read_u64(take_field(&mut fields, b"b").unwrap()).unwrap();
    let c = match take_field(&mut fields, b"c") {
        Some(branch) => read_bool(branch).unwrap(),
        None => bool::default(),
    };
    assert_eq!((a, b, c), (true, 7, false));

    // newer writer, older reader: `c` is there and passed over
    let mut fields = object_fields(&write_object(false, 300, Some(true)));
    assert_eq!(find_field(&fields, b"c"), Some(2));
    let b = read_u64(take_field(&mut fields, b"b").unwrap()).unwrap();
    let a = read_bool(take_field(&mut fields, b"a").unwrap()).unwrap();
    assert_eq!((a, b), (false, 300));
}

#[test]
fn field_present_with_wrong_shape_is_a_mismatch() {
    let mut fields = object_fields(&write_object(true, 7, None));
    let b = take_field(&mut fields, b"b").unwrap();
    assert_eq!(read_bool(b), Err(ReadError::SchemaMismatch));
}

#[test]
fn wide_object_uses_generic_tag() {
    let n = 12;
    let mut bytes = vec![RootTypeId::object(n).to_byte()];
    write_arity(n, &mut bytes);
    assert_eq!(bytes, vec![9, 3]);
    for i in 0..n {
        write_ident(&format!("f{}", i), &mut bytes);
        bytes.push(if i % 2 == 0 { 11 } else { 12 });
    }
    let fields = object_fields(&bytes);
    assert_eq!(fields.len(), 12);
    assert_eq!(find_field(&fields, b"f11"), Some(11));
    assert_eq!(find_field(&fields, b"f12"), None);
}

#[derive(Debug, PartialEq, Clone)]
enum Row {
    Flag(bool),
    Num(u64),
    Other(bool),
}

/// Writes rows as an enum column: the variant count, the index column, then one
/// column per declared variant, used or not.
fn write_rows(rows: &[Row]) -> Vec<u8> {
    let mut disc = U64WriterArray::new();
    let mut flags = BoolWriterArray::new();
    let mut nums = U64WriterArray::new();
    let mut others = BoolWriterArray::new();
    for row in rows {
        match row {
            Row::Flag(v) => {
                disc.buffer(0);
                flags.buffer(*v);
            }
            Row::Num(v) => {
                disc.buffer(1);
                nums.buffer(*v);
            }
            Row::Other(v) => {
                disc.buffer(2);
                others.buffer(*v);
            }
        }
    }
    let mut bytes = vec![ArrayTypeId::Enum.to_byte()];
    tree_buf::varint::encode_prefix_varint(3, &mut bytes);
    let mut payload = Vec::new();
    let tag = disc.flush(&mut payload);
    bytes.push(tag.to_byte());
    bytes.extend(payload);
    for (name, column) in [("Flag", 0), ("Num", 1), ("Other", 2)] {
        write_ident(&canonical_ident(name), &mut bytes);
        let mut payload = Vec::new();
        let tag = match column {
            0 => std::mem::replace(&mut flags, BoolWriterArray::new()).flush(&mut payload),
            1 => std::mem::replace(&mut nums, U64WriterArray::new()).flush(&mut payload),
            _ => std::mem::replace(&mut others, BoolWriterArray::new()).flush(&mut payload),
        };
        bytes.push(tag.to_byte());
        bytes.extend(payload);
    }
    bytes
}

fn read_rows(bytes: &[u8]) -> Vec<Row> {
    let (discriminants, mut variants) = match decode_array(bytes) {
        Ok(DynArrayBranch::Enum { discriminants, variants }) => (discriminants, variants),
        _ => panic!("an enum column"),
    };
    let mut disc = U64ReaderArray::new_infallible(*discriminants).unwrap();
    let mut flags = BoolReaderArray::new_infallible(take_field(&mut variants, b"flag").unwrap()).unwrap();
    let mut nums = U64ReaderArray::new_infallible(take_field(&mut variants, b"num").unwrap()).unwrap();
    let mut others = BoolReaderArray::new_infallible(take_field(&mut variants, b"other").unwrap()).unwrap();
    let mut rows = Vec::new();
    while disc.remaining() > 0 {
        rows.push(match disc.read_next_infallible() {
            0 => Row::Flag(flags.read_next_infallible()),
            1 => Row::Num(nums.read_next_infallible()),
            _ => Row::Other(others.read_next_infallible()),
        });
    }
    rows
}

#[test]
fn enum_batch_round_trip_with_unused_variant() {
    let rows = vec![Row::Num(5), Row::Flag(true), Row::Num(1 << 40), Row::Flag(false)];
    let bytes = write_rows(&rows);
    assert_eq!(read_rows(&bytes), rows);
    let all = vec![Row::Other(true), Row::Flag(false), Row::Num(0), Row::Other(false)];
    assert_eq!(read_rows(&write_rows(&all)), all);
    assert_eq!(read_rows(&write_rows(&[])), Vec::<Row>::new());
}

#[test]
fn canonical_names_are_camel_case() {
    assert_eq!(canonical_ident("foo_bar"), "fooBar");
    assert_eq!(canonical_ident("Flag"), "flag");
    assert_eq!(canonical_ident("x"), "x");
}

#[test]
fn canonical_names_can_collide() {
    assert_eq!(canonical_ident("foo_bar"), canonical_ident("FooBar"));
    assert_eq!(canonical_ident("foo_bar"), canonical_ident("fooBar"));
}

#[test]
fn integer_column_flush_layout() {
    let mut column = U64WriterArray::new();
    column.buffer(1);
    column.buffer(300);
    let mut stream = Vec::new();
    assert_eq!(column.flush(&mut stream), ArrayTypeId::U64);
    assert_eq!(stream, vec![2, 1, 0x81, 0x2C]);
    assert_eq!(read_u64(DynRootBranch::Boolean(true)), Err(ReadError::SchemaMismatch));
    let mut stream = Vec::new();
    assert_eq!(write_root_u64(128, &mut stream), RootTypeId::U64);
    assert_eq!(stream, vec![0x80, 0x80]);
}

fn sample_tree() -> DynRootBranch {
    let inner = DynRootBranch::Object {
        fields: vec![
            (b"x".to_vec(), DynRootBranch::Integer(1 << 33)),
            (b"yes".to_vec(), DynRootBranch::Boolean(true)),
        ],
    };
    let mut wide = Vec::new();
    for i in 0..11u64 {
        wide.push((format!("f{}", i).into_bytes(), DynRootBranch::Integer(i * 1000)));
    }
    DynRootBranch::Object {
        fields: vec![
            (b"point".to_vec(), inner),
            (b"choice".to_vec(), DynRootBranch::Enum { discriminant: b"some".to_vec(), value: Box::new(DynRootBranch::Boolean(false)) }),
            (b"wide".to_vec(), DynRootBranch::Object { fields: wide }),
            (b"empty".to_vec(), DynRootBranch::Object { fields: Vec::new() }),
        ],
    }
}

#[test]
fn tree_round_trip() {
    let tree = sample_tree();
    let mut bytes = Vec::new();
    write_root_branch(&tree, &mut bytes);
    assert_eq!(bytes[0], 4);
    assert_eq!(decode_root(&bytes), Ok(sample_tree()));
}

#[test]
fn truncated_tree_is_malformed() {
    let mut bytes = Vec::new();
    write_root_branch(&sample_tree(), &mut bytes);
    for cut in 0..bytes.len() {
        assert_eq!(decode_root(&bytes[..cut]), Err(ReadError::InvalidFormat), "cut at {}", cut);
    }
    bytes.push(0);
    assert_eq!(decode_root(&bytes), Err(ReadError::InvalidFormat));
}

#[test]
fn u64_round_trip() {
    for n in [0u64, 1, 127, 128, 1 << 40, u64::MAX] {
        let bytes = encode_u64(n);
        assert_eq!(bytes[0], 13);
        assert_eq!(decode_u64(&bytes), Ok(n));
    }
    assert_eq!(encode_u64(300), vec![13, 0x81, 0x2C]);
    assert_eq!(decode_u64(&[11]), Err(ReadError::SchemaMismatch));
}

fn sample_columns() -> DynArrayBranch {
    let mut wide = Vec::new();
    for i in 0..10u64 {
        wide.push((format!("c{}", i).into_bytes(), DynArrayBranch::Integer(vec![i, i + 1, 1 << 50])));
    }
    DynArrayBranch::Object {
        fields: vec![
            (b"flags".to_vec(), DynArrayBranch::Boolean { count: 10, bytes: vec![0b1010_0101, 0b10] }),
            (
                b"kind".to_vec(),
                DynArrayBranch::Enum {
                    discriminants: Box::new(DynArrayBranch::Integer(vec![0, 0, 1])),
                    variants: vec![
                        (b"a".to_vec(), DynArrayBranch::Boolean { count: 2, bytes: vec![0b01] }),
                        (b"b".to_vec(), DynArrayBranch::Integer(vec![77])),
                        (b"unused".to_vec(), DynArrayBranch::Integer(Vec::new())),
                    ],
                },
            ),
            (b"wide".to_vec(), DynArrayBranch::Object { fields: wide }),
        ],
    }
}

#[test]
fn column_tree_round_trip() {
    let mut bytes = Vec::new();
    write_array_branch(&sample_columns(), &mut bytes);
    assert_eq!(bytes[0], 3);
    assert_eq!(decode_array(&bytes), Ok(sample_columns()));
    for cut in 0..bytes.len() {
        assert_eq!(decode_array(&bytes[..cut]), Err(ReadError::InvalidFormat), "cut at {}", cut);
    }
}
