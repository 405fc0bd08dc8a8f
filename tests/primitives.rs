use tree_buf::packed_bool::{decode_packed_bool, encode_packed_bool};
use tree_buf::tags::{ArrayTypeId, RootTypeId};
use tree_buf::varint::{decode_prefix_varint, encode_prefix_varint};

fn varint(n: u64) -> Vec<u8> {
    let mut out = Vec::new();
    encode_prefix_varint(n, &mut out);
    out
}

#[test]
fn varint_exact_bytes() {
    assert_eq!(varint(0), vec![0x00]);
    assert_eq!(varint(3), vec![0x03]);
    assert_eq!(varint(127), vec![0x7F]);
    assert_eq!(varint(128), vec![0x80, 0x80]);
    assert_eq!(varint(300), vec![0x81, 0x2C]);
    assert_eq!(varint(16383), vec![0xBF, 0xFF]);
    assert_eq!(varint(16384), vec![0xC0, 0x00, 0x40]);
    assert_eq!(varint(u64::MAX), vec![0xFF; 9]);
}

#[test]
fn varint_round_trip_and_minimal_length() {
    let cases: Vec<(u64, usize)> = vec![
        (0, 1),
        (127, 1),
        (128, 2),
        (16383, 2),
        (16384, 3),
        ((1u64 << 21) - 1, 3),
        (1u64 << 21, 4),
        ((1u64 << 56) - 1, 8),
        (1u64 << 56, 9),
        (u64::MAX, 9),
    ];
    for (n, len) in cases {
        let mut bytes = vec![0xAA];
        encode_prefix_varint(n, &mut bytes);
        assert_eq!(bytes.len(), 1 + len, "length of {}", n);
        bytes.push(0x55);
        assert_eq!(decode_prefix_varint(&bytes, 1), Some((n, 1 + len)));
    }
}

#[test]
fn varint_truncated_is_none() {
    assert_eq!(decode_prefix_varint(&[], 0), None);
    assert_eq!(decode_prefix_varint(&[0x80], 0), None);
    assert_eq!(decode_prefix_varint(&[0xFF, 1, 2, 3], 0), None);
    assert_eq!(decode_prefix_varint(&[5], 3), None);
}

#[test]
fn packed_bool_round_trip_all_lengths() {
    for len in [0usize, 1, 3, 7, 8, 9, 15, 16, 17, 64] {
        let s: Vec<bool> = (0..len).map(|i| (i * 7 + 3) % 5 < 2).collect();
        let mut bytes = Vec::new();
        encode_packed_bool(&s, &mut bytes);
        assert_eq!(bytes.len(), (len + 7) / 8);
        assert_eq!(decode_packed_bool(&bytes, len), s);
    }
}

#[test]
fn packed_bool_bit_order() {
    let mut bytes = vec![9];
    encode_packed_bool(&[true, false, true], &mut bytes);
    assert_eq!(bytes, vec![9, 0b101]);
    let mut bytes = Vec::new();
    encode_packed_bool(&[false, false, false, false, false, false, false, false, true], &mut bytes);
    assert_eq!(bytes, vec![0, 1]);
}

#[test]
fn tags_round_trip_and_are_distinct() {
    let mut seen = Vec::new();
    for b in 0u8..=255 {
        if let Some(t) = RootTypeId::from_byte(b) {
            assert_eq!(t.to_byte(), b);
            seen.push(t);
        }
    }
    assert_eq!(seen.len(), 14);
    assert_eq!(RootTypeId::object(0), RootTypeId::Obj0);
    assert_eq!(RootTypeId::object(8), RootTypeId::Obj8);
    assert_eq!(RootTypeId::object(9), RootTypeId::ObjN);
    let mut n = 0;
    for b in 0u8..=255 {
        if let Some(t) = ArrayTypeId::from_byte(b) {
            assert_eq!(t.to_byte(), b);
            n += 1;
        }
    }
    assert_eq!(n, 13);
    assert_eq!(ArrayTypeId::object(3), ArrayTypeId::Obj3);
    assert_eq!(ArrayTypeId::object(20), ArrayTypeId::ObjN);
}
