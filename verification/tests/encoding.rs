use mmdb_writer::encoder::Encoder;
use mmdb_writer::format::{
    TYPE_ARRAY, TYPE_BOOLEAN, TYPE_INT32, TYPE_MAP, TYPE_STRING, TYPE_UINT128, TYPE_UINT16, TYPE_UINT32,
    TYPE_UINT64,
};
use mmdb_writer::value::{insert_entry, MmdbValue};

fn pointer(p: u32) -> Vec<u8> {
    let mut b = Vec::new();
    Encoder::encode_pointer(p, &mut b);
    b
}

fn header(t: u8, len: usize) -> Vec<u8> {
    let mut b = Vec::new();
    Encoder::encode_header(t, len, &mut b);
    b
}

fn uint(t: u8, v: u128) -> Vec<u8> {
    let mut b = Vec::new();
    Encoder::encode_uint(t, v, 16, &mut b);
    b
}

fn s(x: &str) -> MmdbValue {
    MmdbValue::String(x.to_string())
}

#[test]
fn pointer_sizes() {
    assert_eq!(pointer(0), vec![0x20, 0x00]);
    assert_eq!(pointer(0x7FF), vec![0x27, 0xFF]);
    assert_eq!(pointer(2048), vec![0x28, 0x00, 0x00]);
    assert_eq!(pointer(2048 + 0x12345), vec![0x29, 0x23, 0x45]);
    assert_eq!(pointer(526336), vec![0x30, 0x00, 0x00, 0x00]);
    assert_eq!(pointer(526336 + 0x0123_4567), vec![0x31, 0x23, 0x45, 0x67]);
    assert_eq!(pointer(134744064), vec![0x38, 0x08, 0x08, 0x08, 0x00]);
    assert_eq!(pointer(u32::MAX), vec![0x38, 0xFF, 0xFF, 0xFF, 0xFF]);
}

#[test]
fn header_sizes() {
    assert_eq!(header(TYPE_STRING, 5), vec![0x45]);
    assert_eq!(header(TYPE_STRING, 28), vec![0x5C]);
    assert_eq!(header(TYPE_STRING, 29), vec![0x5D, 0x00]);
    assert_eq!(header(TYPE_STRING, 284), vec![0x5D, 0xFF]);
    assert_eq!(header(TYPE_STRING, 285), vec![0x5E, 0x00, 0x00]);
    assert_eq!(header(TYPE_STRING, 300), vec![0x5E, 0x00, 0x0F]);
    assert_eq!(header(TYPE_STRING, 65821), vec![0x5F, 0x00, 0x00, 0x00]);
    assert_eq!(header(TYPE_MAP, 2), vec![0xE2]);
}

#[test]
fn extended_headers() {
    assert_eq!(header(TYPE_INT32, 4), vec![0x04, 0x01]);
    assert_eq!(header(TYPE_BOOLEAN, 1), vec![0x01, 0x07]);
    assert_eq!(header(TYPE_ARRAY, 3), vec![0x03, 0x04]);
    assert_eq!(header(TYPE_ARRAY, 300), vec![0x1E, 0x04, 0x00, 0x0F]);
}

#[test]
fn uint_fields() {
    assert_eq!(uint(TYPE_UINT16, 0), vec![0xA0]);
    assert_eq!(uint(TYPE_UINT16, 0x1234), vec![0xA2, 0x12, 0x34]);
    assert_eq!(uint(TYPE_UINT32, 1), vec![0xC1, 0x01]);
    assert_eq!(uint(TYPE_UINT64, 0x100), vec![0x02, 0x02, 0x01, 0x00]);
    let mut expected = vec![0x10, 0x03];
    expected.extend_from_slice(&[0xFF; 16]);
    assert_eq!(uint(TYPE_UINT128, u128::MAX), expected);
}

#[test]
fn scalar_fields() {
    let mut b = Vec::new();
    Encoder::encode_scalar(&MmdbValue::Int32(-1), &mut b);
    assert_eq!(b, vec![0x04, 0x01, 0xFF, 0xFF, 0xFF, 0xFF]);
    let mut b = Vec::new();
    Encoder::encode_scalar(&MmdbValue::Double(1.5f64.to_bits()), &mut b);
    assert_eq!(b, vec![0x68, 0x3F, 0xF8, 0, 0, 0, 0, 0, 0]);
    let mut b = Vec::new();
    Encoder::encode_scalar(&MmdbValue::Float(1.5f32.to_bits()), &mut b);
    assert_eq!(b, vec![0x04, 0x08, 0x3F, 0xC0, 0x00, 0x00]);
    let mut b = Vec::new();
    Encoder::encode_scalar(&MmdbValue::Boolean(true), &mut b);
    assert_eq!(b, vec![0x01, 0x07]);
    let mut b = Vec::new();
    Encoder::encode_scalar(&MmdbValue::Bytes(vec![1, 2, 3]), &mut b);
    assert_eq!(b, vec![0x83, 1, 2, 3]);
    let mut b = Vec::new();
    Encoder::encode_scalar(&s("héllo"), &mut b);
    assert_eq!(b, vec![0x46, b'h', 0xC3, 0xA9, b'l', b'l', b'o']);
}

#[test]
fn scalar_written_once() {
    let mut e = Encoder::new();
    let p1 = e.encode_value(&s("US"));
    let len1 = e.get_data_segment().len();
    let p2 = e.encode_value(&s("US"));
    assert_eq!(p1, vec![0x20, 0x00]);
    assert_eq!(p1, p2);
    assert_eq!(e.get_data_segment().len(), len1);
    assert_eq!(e.get_data_segment(), &[0x42, b'U', b'S'][..]);
    assert_eq!(e.get_offset(&s("US")), Some(0));
    assert_eq!(e.get_offset(&s("DE")), None);
    let p3 = e.encode_value(&s("DE"));
    assert_eq!(p3, vec![0x20, 0x03]);
    assert_eq!(e.get_offset(&s("DE")), Some(3));
}

#[test]
fn map_members_by_pointer() {
    let mut e = Encoder::new();
    let m = MmdbValue::Mapping(vec![("country".to_string(), s("US")), ("isp".to_string(), s("US"))]);
    let p = e.encode_value(&m);
    // "country" at 0, "US" at 8, "isp" at 11, then the map at 15
    let data = e.get_data_segment().to_vec();
    let mut expected = vec![0x47];
    expected.extend_from_slice(b"country");
    expected.extend_from_slice(&[0x42, b'U', b'S', 0x43, b'i', b's', b'p']);
    expected.extend_from_slice(&[0xE2, 0x20, 0x00, 0x20, 0x08, 0x20, 0x0B, 0x20, 0x08]);
    assert_eq!(data, expected);
    assert_eq!(p, vec![0x20, 15]);
    assert_eq!(e.get_offset(&m), None);
}

#[test]
fn array_members_by_pointer() {
    let mut e = Encoder::new();
    let a = MmdbValue::Array(vec![MmdbValue::Uint16(7), MmdbValue::Uint16(7), MmdbValue::Boolean(false)]);
    let off = e.encode_leaf(&a);
    assert_eq!(off, 4);
    assert_eq!(
        e.get_data_segment(),
        &[0xA1, 0x07, 0x00, 0x07, 0x03, 0x04, 0x20, 0x00, 0x20, 0x00, 0x20, 0x02][..]
    );
}

#[test]
fn leaf_written_again() {
    let mut e = Encoder::new();
    let a = e.encode_leaf(&s("x"));
    let b = e.encode_leaf(&s("x"));
    assert_eq!((a, b), (0, 2));
    assert_eq!(e.get_data_segment(), &[0x41, b'x', 0x41, b'x'][..]);
}

#[test]
fn ordered_map_inline() {
    let entries = vec![
        ("a", MmdbValue::Uint16(1)),
        ("b", MmdbValue::Array(vec![s("x")])),
        ("c", MmdbValue::Mapping(vec![("d".to_string(), MmdbValue::Boolean(true))])),
    ];
    let bytes = Encoder::encode_ordered_map_inline(&entries);
    assert_eq!(
        bytes,
        vec![
            0xE3, 0x41, b'a', 0xA1, 0x01, 0x41, b'b', 0x01, 0x04, 0x41, b'x', 0x41, b'c', 0xE1, 0x41, b'd', 0x01,
            0x07
        ]
    );
}

#[test]
fn clone_is_equal() {
    let v = MmdbValue::Mapping(vec![("k".to_string(), MmdbValue::Array(vec![MmdbValue::Bytes(vec![9])]))]);
    assert_eq!(v.clone(), v);
    assert_eq!(v.deep_clone(), v);
}

#[test]
fn array_limit() {
    assert!(MmdbValue::Array(vec![MmdbValue::Boolean(true); 3]).arrays_fit());
    let nested = MmdbValue::Mapping(vec![("k".to_string(), MmdbValue::Array(vec![s("x"); 1000]))]);
    assert!(nested.arrays_fit());
}

#[test]
fn from_plain_values() {
    assert_eq!(MmdbValue::from("a".to_string()), s("a"));
    assert_eq!(MmdbValue::from("b"), s("b"));
    assert_eq!(MmdbValue::from(vec![1u8, 2]), MmdbValue::Bytes(vec![1, 2]));
    assert_eq!(MmdbValue::from(5u16), MmdbValue::Uint16(5));
    assert_eq!(MmdbValue::from(5u32), MmdbValue::Uint32(5));
    assert_eq!(MmdbValue::from(-5i32), MmdbValue::Int32(-5));
    assert_eq!(MmdbValue::from(5u64), MmdbValue::Uint64(5));
    assert_eq!(MmdbValue::from(5u128), MmdbValue::Uint128(5));
    assert_eq!(MmdbValue::from(true), MmdbValue::Boolean(true));
    assert_eq!(MmdbValue::from(vec![s("x"), s("y")]), MmdbValue::Array(vec![s("x"), s("y")]));
    assert_eq!(
        MmdbValue::from(vec![("k".to_string(), s("v"))]),
        MmdbValue::Mapping(vec![("k".to_string(), s("v"))])
    );
}

#[test]
fn map_written_anew_each_time() {
    let mut e = Encoder::new();
    let m = MmdbValue::Mapping(vec![("a".to_string(), MmdbValue::Uint16(1))]);
    let p1 = e.encode_value(&m);
    assert_eq!(e.get_data_segment(), &[0x41, b'a', 0xA1, 0x01, 0xE1, 0x20, 0x00, 0x20, 0x02][..]);
    assert_eq!(p1, vec![0x20, 0x04]);
    assert_eq!(e.get_offset(&s("a")), Some(0));
    assert_eq!(e.get_offset(&MmdbValue::Uint16(1)), Some(2));
    let p2 = e.encode_value(&m);
    assert_eq!(p2, vec![0x20, 0x09]);
    assert_eq!(e.get_data_segment().len(), 14);
    assert_eq!(&e.get_data_segment()[9..], &[0xE1, 0x20, 0x00, 0x20, 0x02][..]);
    assert_eq!(e.get_offset(&m), None);
}

#[test]
fn distinct_keys_checked() {
    let dup = MmdbValue::Mapping(vec![("k".to_string(), s("a")), ("k".to_string(), s("b"))]);
    assert!(!dup.keys_distinct());
    let nested = MmdbValue::Array(vec![MmdbValue::Mapping(vec![("x".to_string(), dup)])]);
    assert!(!nested.keys_distinct());
    let ok = MmdbValue::Mapping(vec![("k".to_string(), s("a")), ("l".to_string(), s("a"))]);
    assert!(ok.keys_distinct());
    assert!(s("x").keys_distinct());
}

#[test]
fn insert_entry_replaces_or_appends() {
    let mut m: Vec<(String, MmdbValue)> = Vec::new();
    insert_entry(&mut m, "a".to_string(), s("1"));
    insert_entry(&mut m, "b".to_string(), s("2"));
    insert_entry(&mut m, "a".to_string(), s("3"));
    assert_eq!(m, vec![("a".to_string(), s("3")), ("b".to_string(), s("2"))]);
    assert!(MmdbValue::Mapping(m).keys_distinct());
}

#[test]
fn leaf_not_recorded() {
    let mut e = Encoder::new();
    let off = e.encode_leaf(&s("x"));
    assert_eq!(off, 0);
    assert_eq!(e.get_offset(&s("x")), None);
    let p = e.encode_value(&s("x"));
    assert_eq!(p, vec![0x20, 0x02]);
    assert_eq!(e.get_offset(&s("x")), Some(2));
}
