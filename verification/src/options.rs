//! How integers and floats given by a caller become MMDB values: the
//! integer and float types a writer can be told to use, and the integer rules.
use vstd::prelude::*;
use vstd::utf8::{decode_utf8, encode_utf8, encode_utf8_decode_utf8};
use crate::cache::bytes_equal;
use crate::value::{Datum, MmdbValue};

verus! {

/// The MMDB integer type used for integers; `Auto` picks one by value.
#[derive(Debug, Clone, Copy, PartialEq, Eq, Structural)]
pub enum IntType {
    Auto,
    Uint16,
    Uint32,
    Uint64,
    Uint128,
    Int32,
}

/// The MMDB type used for floating-point numbers; `Auto` means `Double`.
#[derive(Debug, Clone, Copy, PartialEq, Eq, Structural)]
pub enum FloatType {
    Auto,
    Float,
    Double,
}

/// Whether two strings are equal.
pub fn str_equal(a: &str, b: &str) -> (r: bool)
    ensures
        r == (a@ == b@),
{
    let r = bytes_equal(a.as_bytes(), b.as_bytes());
    proof {
        encode_utf8_decode_utf8(a@);
        encode_utf8_decode_utf8(b@);
        if r {
            assert(decode_utf8(encode_utf8(a@)) == decode_utf8(encode_utf8(b@)));
        }
    }
    r
}

/// The integer type a name stands for: "auto", "u16"/"uint16",
/// "u32"/"uint32", "u64"/"uint64", "u128"/"uint128", "i32"/"int32".
pub open spec fn int_type_named(s: Seq<char>) -> Option<IntType> {
    if s == "auto"@ {
        Some(IntType::Auto)
    } else if s == "u16"@ || s == "uint16"@ {
        Some(IntType::Uint16)
    } else if s == "u32"@ || s == "uint32"@ {
        Some(IntType::Uint32)
    } else if s == "u64"@ || s == "uint64"@ {
        Some(IntType::Uint64)
    } else if s == "u128"@ || s == "uint128"@ {
        Some(IntType::Uint128)
    } else if s == "i32"@ || s == "int32"@ {
        Some(IntType::Int32)
    } else {
        None
    }
}

/// The float type a name stands for: "auto", "f32"/"float"/"float32",
/// "f64"/"double"/"float64".
pub open spec fn float_type_named(s: Seq<char>) -> Option<FloatType> {
    if s == "auto"@ {
        Some(FloatType::Auto)
    } else if s == "f32"@ || s == "float"@ || s == "float32"@ {
        Some(FloatType::Float)
    } else if s == "f64"@ || s == "double"@ || s == "float64"@ {
        Some(FloatType::Double)
    } else {
        None
    }
}

/// Each integer type goes by exactly the names documented for it, and no
/// other name is taken: "auto"; "u16" or "uint16"; "u32" or "uint32"; "u64"
/// or "uint64"; "u128" or "uint128"; "i32" or "int32".
pub proof fn law_int_type_names(s: Seq<char>)
    ensures
        int_type_named(s) == Some(IntType::Auto) <==> s == "auto"@,
        int_type_named(s) == Some(IntType::Uint16) <==> (s == "u16"@ || s == "uint16"@),
        int_type_named(s) == Some(IntType::Uint32) <==> (s == "u32"@ || s == "uint32"@),
        int_type_named(s) == Some(IntType::Uint64) <==> (s == "u64"@ || s == "uint64"@),
        int_type_named(s) == Some(IntType::Uint128) <==> (s == "u128"@ || s == "uint128"@),
        int_type_named(s) == Some(IntType::Int32) <==> (s == "i32"@ || s == "int32"@),
        int_type_named(s) is None <==> !(s == "auto"@ || s == "u16"@ || s == "uint16"@ || s == "u32"@ || s
            == "uint32"@ || s == "u64"@ || s == "uint64"@ || s == "u128"@ || s == "uint128"@ || s == "i32"@ || s
            == "int32"@),
{
    reveal_strlit("auto");
    reveal_strlit("u16");
    reveal_strlit("uint16");
    reveal_strlit("u32");
    reveal_strlit("uint32");
    reveal_strlit("u64");
    reveal_strlit("uint64");
    reveal_strlit("u128");
    reveal_strlit("uint128");
    reveal_strlit("i32");
    reveal_strlit("int32");
    assert("auto"@ != "u16"@) by {
        assert("auto"@.len() != "u16"@.len());
    }
    assert("auto"@ != "uint16"@) by {
        assert("auto"@.len() != "uint16"@.len());
    }
    assert("auto"@ != "u32"@) by {
        assert("auto"@.len() != "u32"@.len());
    }
    assert("auto"@ != "uint32"@) by {
        assert("auto"@.len() != "uint32"@.len());
    }
    assert("auto"@ != "u64"@) by {
        assert("auto"@.len() != "u64"@.len());
    }
    assert("auto"@ != "uint64"@) by {
        assert("auto"@.len() != "uint64"@.len());
    }
    assert("auto"@ != "u128"@) by {
        assert("auto"@[0] != "u128"@[0]);
    }
    assert("auto"@ != "uint128"@) by {
        assert("auto"@.len() != "uint128"@.len());
    }
    assert("auto"@ != "i32"@) by {
        assert("auto"@.len() != "i32"@.len());
    }
    assert("auto"@ != "int32"@) by {
        assert("auto"@.len() != "int32"@.len());
    }
    assert("u16"@ != "uint16"@) by {
        assert("u16"@.len() != "uint16"@.len());
    }
    assert("u16"@ != "u32"@) by {
        assert("u16"@[1] != "u32"@[1]);
    }
    assert("u16"@ != "uint32"@) by {
        assert("u16"@.len() != "uint32"@.len());
    }
    assert("u16"@ != "u64"@) by {
        assert("u16"@[1] != "u64"@[1]);
    }
    assert("u16"@ != "uint64"@) by {
        assert("u16"@.len() != "uint64"@.len());
    }
    assert("u16"@ != "u128"@) by {
        assert("u16"@.len() != "u128"@.len());
    }
    assert("u16"@ != "uint128"@) by {
        assert("u16"@.len() != "uint128"@.len());
    }
    assert("u16"@ != "i32"@) by {
        assert("u16"@[0] != "i32"@[0]);
    }
    assert("u16"@ != "int32"@) by {
        assert("u16"@.len() != "int32"@.len());
    }
    assert("uint16"@ != "u32"@) by {
        assert("uint16"@.len() != "u32"@.len());
    }
    assert("uint16"@ != "uint32"@) by {
        assert("uint16"@[4] != "uint32"@[4]);
    }
    assert("uint16"@ != "u64"@) by {
        assert("uint16"@.len() != "u64"@.len());
    }
    assert("uint16"@ != "uint64"@) by {
        assert("uint16"@[4] != "uint64"@[4]);
    }
    assert("uint16"@ != "u128"@) by {
        assert("uint16"@.len() != "u128"@.len());
    }
    assert("uint16"@ != "uint128"@) by {
        assert("uint16"@.len() != "uint128"@.len());
    }
    assert("uint16"@ != "i32"@) by {
        assert("uint16"@.len() != "i32"@.len());
    }
    assert("uint16"@ != "int32"@) by {
        assert("uint16"@.len() != "int32"@.len());
    }
    assert("u32"@ != "uint32"@) by {
        assert("u32"@.len() != "uint32"@.len());
    }
    assert("u32"@ != "u64"@) by {
        assert("u32"@[1] != "u64"@[1]);
    }
    assert("u32"@ != "uint64"@) by {
        assert("u32"@.len() != "uint64"@.len());
    }
    assert("u32"@ != "u128"@) by {
        assert("u32"@.len() != "u128"@.len());
    }
    assert("u32"@ != "uint128"@) by {
        assert("u32"@.len() != "uint128"@.len());
    }
    assert("u32"@ != "i32"@) by {
        assert("u32"@[0] != "i32"@[0]);
    }
    assert("u32"@ != "int32"@) by {
        assert("u32"@.len() != "int32"@.len());
    }
    assert("uint32"@ != "u64"@) by {
        assert("uint32"@.len() != "u64"@.len());
    }
    assert("uint32"@ != "uint64"@) by {
        assert("uint32"@[4] != "uint64"@[4]);
    }
    assert("uint32"@ != "u128"@) by {
        assert("uint32"@.len() != "u128"@.len());
    }
    assert("uint32"@ != "uint128"@) by {
        assert("uint32"@.len() != "uint128"@.len());
    }
    assert("uint32"@ != "i32"@) by {
        assert("uint32"@.len() != "i32"@.len());
    }
    assert("uint32"@ != "int32"@) by {
        assert("uint32"@.len() != "int32"@.len());
    }
    assert("u64"@ != "uint64"@) by {
        assert("u64"@.len() != "uint64"@.len());
    }
    assert("u64"@ != "u128"@) by {
        assert("u64"@.len() != "u128"@.len());
    }
    assert("u64"@ != "uint128"@) by {
        assert("u64"@.len() != "uint128"@.len());
    }
    assert("u64"@ != "i32"@) by {
        assert("u64"@[0] != "i32"@[0]);
    }
    assert("u64"@ != "int32"@) by {
        assert("u64"@.len() != "int32"@.len());
    }
    assert("uint64"@ != "u128"@) by {
        assert("uint64"@.len() != "u128"@.len());
    }
    assert("uint64"@ != "uint128"@) by {
        assert("uint64"@.len() != "uint128"@.len());
    }
    assert("uint64"@ != "i32"@) by {
        assert("uint64"@.len() != "i32"@.len());
    }
    assert("uint64"@ != "int32"@) by {
        assert("uint64"@.len() != "int32"@.len());
    }
    assert("u128"@ != "uint128"@) by {
        assert("u128"@.len() != "uint128"@.len());
    }
    assert("u128"@ != "i32"@) by {
        assert("u128"@.len() != "i32"@.len());
    }
    assert("u128"@ != "int32"@) by {
        assert("u128"@.len() != "int32"@.len());
    }
    assert("uint128"@ != "i32"@) by {
        assert("uint128"@.len() != "i32"@.len());
    }
    assert("uint128"@ != "int32"@) by {
        assert("uint128"@.len() != "int32"@.len());
    }
    assert("i32"@ != "int32"@) by {
        assert("i32"@.len() != "int32"@.len());
    }
}

/// Each float type goes by exactly the names documented for it: "auto";
/// "f32", "float" or "float32" for 32-bit floats; "f64", "double" or
/// "float64" for 64-bit doubles. No 64-bit name names a 32-bit float.
pub proof fn law_float_type_names(s: Seq<char>)
    ensures
        float_type_named(s) == Some(FloatType::Auto) <==> s == "auto"@,
        float_type_named(s) == Some(FloatType::Float) <==> (s == "f32"@ || s == "float"@ || s == "float32"@),
        float_type_named(s) == Some(FloatType::Double) <==> (s == "f64"@ || s == "double"@ || s == "float64"@),
        float_type_named(s) is None <==> !(s == "auto"@ || s == "f32"@ || s == "float"@ || s == "float32"@ || s
            == "f64"@ || s == "double"@ || s == "float64"@),
{
    reveal_strlit("auto");
    reveal_strlit("f32");
    reveal_strlit("float");
    reveal_strlit("float32");
    reveal_strlit("f64");
    reveal_strlit("double");
    reveal_strlit("float64");
    assert("auto"@ != "f32"@) by {
        assert("auto"@.len() != "f32"@.len());
    }
    assert("auto"@ != "float"@) by {
        assert("auto"@.len() != "float"@.len());
    }
    assert("auto"@ != "float32"@) by {
        assert("auto"@.len() != "float32"@.len());
    }
    assert("auto"@ != "f64"@) by {
        assert("auto"@.len() != "f64"@.len());
    }
    assert("auto"@ != "double"@) by {
        assert("auto"@.len() != "double"@.len());
    }
    assert("auto"@ != "float64"@) by {
        assert("auto"@.len() != "float64"@.len());
    }
    assert("f32"@ != "float"@) by {
        assert("f32"@.len() != "float"@.len());
    }
    assert("f32"@ != "float32"@) by {
        assert("f32"@.len() != "float32"@.len());
    }
    assert("f32"@ != "f64"@) by {
        assert("f32"@[1] != "f64"@[1]);
    }
    assert("f32"@ != "double"@) by {
        assert("f32"@.len() != "double"@.len());
    }
    assert("f32"@ != "float64"@) by {
        assert("f32"@.len() != "float64"@.len());
    }
    assert("float"@ != "float32"@) by {
        assert("float"@.len() != "float32"@.len());
    }
    assert("float"@ != "f64"@) by {
        assert("float"@.len() != "f64"@.len());
    }
    assert("float"@ != "double"@) by {
        assert("float"@.len() != "double"@.len());
    }
    assert("float"@ != "float64"@) by {
        assert("float"@.len() != "float64"@.len());
    }
    assert("float32"@ != "f64"@) by {
        assert("float32"@.len() != "f64"@.len());
    }
    assert("float32"@ != "double"@) by {
        assert("float32"@.len() != "double"@.len());
    }
    assert("float32"@ != "float64"@) by {
        assert("float32"@[5] != "float64"@[5]);
    }
    assert("f64"@ != "double"@) by {
        assert("f64"@.len() != "double"@.len());
    }
    assert("f64"@ != "float64"@) by {
        assert("f64"@.len() != "float64"@.len());
    }
    assert("double"@ != "float64"@) by {
        assert("double"@.len() != "float64"@.len());
    }
}

/// Reads the name of an integer type.
pub fn parse_int_type(name: &str) -> (r: Option<IntType>)
    ensures
        r == int_type_named(name@),
{
    if str_equal(name, "auto") {
        Some(IntType::Auto)
    } else if str_equal(name, "u16") || str_equal(name, "uint16") {
        Some(IntType::Uint16)
    } else if str_equal(name, "u32") || str_equal(name, "uint32") {
        Some(IntType::Uint32)
    } else if str_equal(name, "u64") || str_equal(name, "uint64") {
        Some(IntType::Uint64)
    } else if str_equal(name, "u128") || str_equal(name, "uint128") {
        Some(IntType::Uint128)
    } else if str_equal(name, "i32") || str_equal(name, "int32") {
        Some(IntType::Int32)
    } else {
        None
    }
}

/// Reads the name of a float type.
pub fn parse_float_type(name: &str) -> (r: Option<FloatType>)
    ensures
        r == float_type_named(name@),
{
    if str_equal(name, "auto") {
        Some(FloatType::Auto)
    } else if str_equal(name, "f32") || str_equal(name, "float") || str_equal(name, "float32") {
        Some(FloatType::Float)
    } else if str_equal(name, "f64") || str_equal(name, "double") || str_equal(name, "float64") {
        Some(FloatType::Double)
    } else {
        None
    }
}

/// An integer as a caller holds it: one that fits an `i128`, one above
/// `i128::MAX` that fits a `u128`, or one that fits neither.
#[derive(Debug, Clone, Copy)]
pub enum IntArg {
    Small(i128),
    Large(u128),
    Huge,
}

impl IntArg {
    /// The integer, where it fits 128 bits.
    pub open spec fn value(self) -> Option<int> {
        match self {
            IntArg::Small(i) => Some(i as int),
            IntArg::Large(u) => Some(u as int),
            IntArg::Huge => None,
        }
    }
}

/// Why an integer cannot become an MMDB value.
#[derive(Debug, Clone, Copy, PartialEq, Eq, Structural)]
pub enum IntError {
    /// The integer does not fit the chosen type.
    OutOfRange(IntType),
    /// With `Auto`: the integer fits neither an `i64` nor a `u128`.
    TooLarge,
}

/// The value an integer `v` becomes under `int_type`. With `Auto`: a
/// negative integer becomes an `Int32` of its low 32 bits; otherwise the
/// smallest of `Uint16`, `Uint32`, `Uint64`, `Uint128` that holds it. An
/// integer that does not fit an `i64` is taken only if it fits a `u128`.
pub open spec fn int_value(int_type: IntType, v: Option<int>) -> Result<Datum, IntError> {
    match int_type {
        IntType::Int32 => match v {
            Some(i) if i32::MIN <= i <= i32::MAX => Ok(Datum::Int32(i as i32)),
            _ => Err(IntError::OutOfRange(IntType::Int32)),
        },
        IntType::Uint16 => match v {
            Some(i) if 0 <= i <= u16::MAX => Ok(Datum::Uint16(i as u16)),
            _ => Err(IntError::OutOfRange(IntType::Uint16)),
        },
        IntType::Uint32 => match v {
            Some(i) if 0 <= i <= u32::MAX => Ok(Datum::Uint32(i as u32)),
            _ => Err(IntError::OutOfRange(IntType::Uint32)),
        },
        IntType::Uint64 => match v {
            Some(i) if 0 <= i <= u64::MAX => Ok(Datum::Uint64(i as u64)),
            _ => Err(IntError::OutOfRange(IntType::Uint64)),
        },
        IntType::Uint128 => match v {
            Some(i) if 0 <= i <= u128::MAX => Ok(Datum::Uint128(i as u128)),
            _ => Err(IntError::OutOfRange(IntType::Uint128)),
        },
        IntType::Auto => match v {
            Some(i) if i64::MIN <= i <= i64::MAX => if i < 0 {
                Ok(Datum::Int32((i as i64) as i32))
            } else if i <= u16::MAX {
                Ok(Datum::Uint16(i as u16))
            } else if i <= u32::MAX {
                Ok(Datum::Uint32(i as u32))
            } else {
                Ok(Datum::Uint64(i as u64))
            },
            Some(i) if 0 <= i <= u128::MAX => if i <= u64::MAX {
                Ok(Datum::Uint64(i as u64))
            } else {
                Ok(Datum::Uint128(i as u128))
            },
            _ => Err(IntError::TooLarge),
        },
    }
}

/// The integer an integer value holds, and `None` for other values.
pub open spec fn datum_int(d: Datum) -> Option<int> {
    match d {
        Datum::Uint16(u) => Some(u as int),
        Datum::Uint32(u) => Some(u as int),
        Datum::Int32(i) => Some(i as int),
        Datum::Uint64(u) => Some(u as int),
        Datum::Uint128(u) => Some(u as int),
        _ => None,
    }
}

/// The integer type of an integer value.
pub open spec fn datum_int_type(d: Datum) -> Option<IntType> {
    match d {
        Datum::Uint16(_) => Some(IntType::Uint16),
        Datum::Uint32(_) => Some(IntType::Uint32),
        Datum::Int32(_) => Some(IntType::Int32),
        Datum::Uint64(_) => Some(IntType::Uint64),
        Datum::Uint128(_) => Some(IntType::Uint128),
        _ => None,
    }
}

/// With a type chosen by name, every integer is written in that type: an
/// integer in the type's range (`int32`: from -2^31 to 2^31 - 1; `uint16`,
/// `uint32`, `uint64`, `uint128`: from 0 to 2^16 - 1, 2^32 - 1, 2^64 - 1,
/// 2^128 - 1) becomes a value of that type holding that same integer; any
/// other integer, or one too large to hold in 128 bits (`None`), is refused
/// as out of range for that type.
pub proof fn law_chosen_int_type(t: IntType, v: Option<int>)
    requires
        t != IntType::Auto,
    ensures
        ({
            let lo: int = if t == IntType::Int32 {
                -0x8000_0000
            } else {
                0
            };
            let hi: int = match t {
                IntType::Int32 => 0x7FFF_FFFF,
                IntType::Uint16 => 0xFFFF,
                IntType::Uint32 => 0xFFFF_FFFF,
                IntType::Uint64 => 0xFFFF_FFFF_FFFF_FFFF,
                _ => 0xFFFF_FFFF_FFFF_FFFF_FFFF_FFFF_FFFF_FFFF,
            };
            match v {
                Some(i) => if lo <= i <= hi {
                    int_value(t, v) matches Ok(d) && datum_int(d) == Some(i) && datum_int_type(d) == Some(t)
                } else {
                    int_value(t, v) == Err::<Datum, IntError>(IntError::OutOfRange(t))
                },
                None => int_value(t, v) == Err::<Datum, IntError>(IntError::OutOfRange(t)),
            }
        }),
{
}

/// With `Auto`, a non-negative integer that fits 128 bits is written in the
/// smallest of `uint16`, `uint32`, `uint64`, `uint128` that holds it, and
/// keeps its value; a negative one that fits an `i64` is written as an
/// `int32` (keeping its value where it fits one); any other integer is
/// refused as too large.
pub proof fn law_auto_int_type(v: Option<int>)
    ensures
        match v {
            Some(i) => if 0 <= i <= 0xFFFF_FFFF_FFFF_FFFF_FFFF_FFFF_FFFF_FFFF {
                int_value(IntType::Auto, v) matches Ok(d) && datum_int(d) == Some(i) && datum_int_type(d) == Some(
                    if i <= 0xFFFF {
                        IntType::Uint16
                    } else if i <= 0xFFFF_FFFF {
                        IntType::Uint32
                    } else if i <= 0xFFFF_FFFF_FFFF_FFFF {
                        IntType::Uint64
                    } else {
                        IntType::Uint128
                    },
                )
            } else if -0x8000_0000_0000_0000 <= i < 0 {
                int_value(IntType::Auto, v) matches Ok(d) && datum_int_type(d) == Some(IntType::Int32) && (
                -0x8000_0000 <= i ==> datum_int(d) == Some(i))
            } else {
                int_value(IntType::Auto, v) == Err::<Datum, IntError>(IntError::TooLarge)
            },
            None => int_value(IntType::Auto, v) == Err::<Datum, IntError>(IntError::TooLarge),
        },
{
    if let Some(i) = v {
        if -0x8000_0000 <= i < 0 {
            let x = i as i64;
            assert(x == i);
            assert(-0x8000_0000 <= x < 0 ==> (x as i32) == x) by (bit_vector);
        }
    }
}

/// The MMDB value an integer becomes under `int_type` (see `int_value`).
pub fn convert_int(int_type: IntType, arg: IntArg) -> (r: Result<MmdbValue, IntError>)
    ensures
        match r {
            Ok(v) => int_value(int_type, arg.value()) == Ok::<Datum, IntError>(v@),
            Err(e) => int_value(int_type, arg.value()) == Err::<Datum, IntError>(e),
        },
{
    // An integer that fits an i128, or else one above i128::MAX that fits a u128.
    let (small, big): (Option<i128>, Option<u128>) = match arg {
        IntArg::Small(i) => (Some(i), None),
        IntArg::Large(u) => if u <= 0x7FFF_FFFF_FFFF_FFFF_FFFF_FFFF_FFFF_FFFF {
            (Some(u as i128), None)
        } else {
            (None, Some(u))
        },
        IntArg::Huge => (None, None),
    };
    match int_type {
        IntType::Int32 => match small {
            Some(i) if -0x8000_0000 <= i && i <= 0x7FFF_FFFF => Ok(MmdbValue::Int32(i as i32)),
            _ => Err(IntError::OutOfRange(IntType::Int32)),
        },
        IntType::Uint16 => match small {
            Some(i) if 0 <= i && i <= 0xFFFF => Ok(MmdbValue::Uint16(i as u16)),
            _ => Err(IntError::OutOfRange(IntType::Uint16)),
        },
        IntType::Uint32 => match small {
            Some(i) if 0 <= i && i <= 0xFFFF_FFFF => Ok(MmdbValue::Uint32(i as u32)),
            _ => Err(IntError::OutOfRange(IntType::Uint32)),
        },
        IntType::Uint64 => match small {
            Some(i) if 0 <= i && i <= 0xFFFF_FFFF_FFFF_FFFF => Ok(MmdbValue::Uint64(i as u64)),
            _ => Err(IntError::OutOfRange(IntType::Uint64)),
        },
        IntType::Uint128 => match (small, big) {
            (Some(i), _) if 0 <= i => Ok(MmdbValue::Uint128(i as u128)),
            (_, Some(u)) => Ok(MmdbValue::Uint128(u)),
            _ => Err(IntError::OutOfRange(IntType::Uint128)),
        },
        IntType::Auto => match (small, big) {
            (Some(i), _) if -0x8000_0000_0000_0000 <= i && i <= 0x7FFF_FFFF_FFFF_FFFF => {
                if i < 0 {
                    Ok(MmdbValue::Int32((i as i64) as i32))
                } else if i <= 0xFFFF {
                    Ok(MmdbValue::Uint16(i as u16))
                } else if i <= 0xFFFF_FFFF {
                    Ok(MmdbValue::Uint32(i as u32))
                } else {
                    Ok(MmdbValue::Uint64(i as u64))
                }
            },
            (Some(i), _) if 0 <= i => {
                if i <= 0xFFFF_FFFF_FFFF_FFFF {
                    Ok(MmdbValue::Uint64(i as u64))
                } else {
                    Ok(MmdbValue::Uint128(i as u128))
                }
            },
            (_, Some(u)) => Ok(MmdbValue::Uint128(u)),
            _ => Err(IntError::TooLarge),
        },
    }
}

/// The Python class `MmdbI32`, which names the `int32` type.
#[derive(Debug, Clone, Copy)]
pub struct MmdbI32;

/// The Python class `MmdbU16`, which names the `uint16` type.
#[derive(Debug, Clone, Copy)]
pub struct MmdbU16;

/// The Python class `MmdbU32`, which names the `uint32` type.
#[derive(Debug, Clone, Copy)]
pub struct MmdbU32;

/// The Python class `MmdbU64`, which names the `uint64` type.
#[derive(Debug, Clone, Copy)]
pub struct MmdbU64;

/// The Python class `MmdbU128`, which names the `uint128` type.
#[derive(Debug, Clone, Copy)]
pub struct MmdbU128;

impl MmdbI32 {
    pub fn new() -> Self {
        MmdbI32
    }

    /// The integer type this class names.
    pub fn int_type(&self) -> (t: IntType)
        ensures
            t == IntType::Int32,
    {
        IntType::Int32
    }
}

impl MmdbU16 {
    pub fn new() -> Self {
        MmdbU16
    }

    /// The integer type this class names.
    pub fn int_type(&self) -> (t: IntType)
        ensures
            t == IntType::Uint16,
    {
        IntType::Uint16
    }
}

impl MmdbU32 {
    pub fn new() -> Self {
        MmdbU32
    }

    /// The integer type this class names.
    pub fn int_type(&self) -> (t: IntType)
        ensures
            t == IntType::Uint32,
    {
        IntType::Uint32
    }
}

impl MmdbU64 {
    pub fn new() -> Self {
        MmdbU64
    }

    /// The integer type this class names.
    pub fn int_type(&self) -> (t: IntType)
        ensures
            t == IntType::Uint64,
    {
        IntType::Uint64
    }
}

impl MmdbU128 {
    pub fn new() -> Self {
        MmdbU128
    }

    /// The integer type this class names.
    pub fn int_type(&self) -> (t: IntType)
        ensures
            t == IntType::Uint128,
    {
        IntType::Uint128
    }
}

} // verus!
