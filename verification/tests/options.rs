use mmdb_writer::options::{
    convert_int, parse_float_type, parse_int_type, FloatType, IntArg, IntError, IntType, MmdbI32, MmdbU128,
    MmdbU16, MmdbU32, MmdbU64,
};
use mmdb_writer::value::MmdbValue;

#[test]
fn int_type_names() {
    assert_eq!(parse_int_type("auto"), Some(IntType::Auto));
    assert_eq!(parse_int_type("u16"), Some(IntType::Uint16));
    assert_eq!(parse_int_type("uint16"), Some(IntType::Uint16));
    assert_eq!(parse_int_type("u32"), Some(IntType::Uint32));
    assert_eq!(parse_int_type("uint64"), Some(IntType::Uint64));
    assert_eq!(parse_int_type("u128"), Some(IntType::Uint128));
    assert_eq!(parse_int_type("i32"), Some(IntType::Int32));
    assert_eq!(parse_int_type("int32"), Some(IntType::Int32));
    assert_eq!(parse_int_type("int"), None);
    assert_eq!(parse_int_type(""), None);
}

#[test]
fn float_type_names() {
    assert_eq!(parse_float_type("auto"), Some(FloatType::Auto));
    assert_eq!(parse_float_type("f32"), Some(FloatType::Float));
    assert_eq!(parse_float_type("float"), Some(FloatType::Float));
    assert_eq!(parse_float_type("float32"), Some(FloatType::Float));
    assert_eq!(parse_float_type("double"), Some(FloatType::Double));
    assert_eq!(parse_float_type("float64"), Some(FloatType::Double));
    assert_eq!(parse_float_type("f16"), None);
}

#[test]
fn class_types() {
    assert_eq!(MmdbI32::new().int_type(), IntType::Int32);
    assert_eq!(MmdbU16::new().int_type(), IntType::Uint16);
    assert_eq!(MmdbU32::new().int_type(), IntType::Uint32);
    assert_eq!(MmdbU64::new().int_type(), IntType::Uint64);
    assert_eq!(MmdbU128::new().int_type(), IntType::Uint128);
}

#[test]
fn auto_picks_smallest_type() {
    assert_eq!(convert_int(IntType::Auto, IntArg::Small(-5)), Ok(MmdbValue::Int32(-5)));
    assert_eq!(convert_int(IntType::Auto, IntArg::Small(0)), Ok(MmdbValue::Uint16(0)));
    assert_eq!(convert_int(IntType::Auto, IntArg::Small(1)), Ok(MmdbValue::Uint16(1)));
    assert_eq!(convert_int(IntType::Auto, IntArg::Small(65535)), Ok(MmdbValue::Uint16(65535)));
    assert_eq!(convert_int(IntType::Auto, IntArg::Small(1 << 17)), Ok(MmdbValue::Uint32(1 << 17)));
    assert_eq!(convert_int(IntType::Auto, IntArg::Small(1 << 33)), Ok(MmdbValue::Uint64(1 << 33)));
    assert_eq!(convert_int(IntType::Auto, IntArg::Small(1 << 63)), Ok(MmdbValue::Uint64(1 << 63)));
    assert_eq!(convert_int(IntType::Auto, IntArg::Small(1 << 64)), Ok(MmdbValue::Uint128(1 << 64)));
    assert_eq!(convert_int(IntType::Auto, IntArg::Large(u128::MAX)), Ok(MmdbValue::Uint128(u128::MAX)));
    assert_eq!(convert_int(IntType::Auto, IntArg::Huge), Err(IntError::TooLarge));
}

#[test]
fn auto_negative_keeps_low_bits() {
    // below i32::MIN but within i64: the low 32 bits are kept
    assert_eq!(convert_int(IntType::Auto, IntArg::Small(-(1i128 << 32) - 1)), Ok(MmdbValue::Int32(-1)));
    // below i64::MIN: refused
    assert_eq!(convert_int(IntType::Auto, IntArg::Small(-(1i128 << 64))), Err(IntError::TooLarge));
}

#[test]
fn explicit_types() {
    assert_eq!(convert_int(IntType::Int32, IntArg::Small(-7)), Ok(MmdbValue::Int32(-7)));
    assert_eq!(convert_int(IntType::Uint16, IntArg::Small(7)), Ok(MmdbValue::Uint16(7)));
    assert_eq!(convert_int(IntType::Uint32, IntArg::Small(7)), Ok(MmdbValue::Uint32(7)));
    assert_eq!(convert_int(IntType::Uint64, IntArg::Large(7)), Ok(MmdbValue::Uint64(7)));
    assert_eq!(convert_int(IntType::Uint128, IntArg::Small(7)), Ok(MmdbValue::Uint128(7)));
}

#[test]
fn explicit_out_of_range() {
    assert_eq!(convert_int(IntType::Int32, IntArg::Small(1 << 31)), Err(IntError::OutOfRange(IntType::Int32)));
    assert_eq!(convert_int(IntType::Uint16, IntArg::Small(65536)), Err(IntError::OutOfRange(IntType::Uint16)));
    assert_eq!(convert_int(IntType::Uint32, IntArg::Small(-1)), Err(IntError::OutOfRange(IntType::Uint32)));
    assert_eq!(convert_int(IntType::Uint64, IntArg::Small(1 << 64)), Err(IntError::OutOfRange(IntType::Uint64)));
    assert_eq!(convert_int(IntType::Uint128, IntArg::Huge), Err(IntError::OutOfRange(IntType::Uint128)));
}
