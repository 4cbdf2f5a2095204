//! The byte formats of the MaxMind DB data section, stated as spec functions.
use vstd::prelude::*;
use vstd::utf8::encode_utf8;
use crate::value::Datum;

verus! {

pub const TYPE_STRING: u8 = 2;
pub const TYPE_DOUBLE: u8 = 3;
pub const TYPE_BYTES: u8 = 4;
pub const TYPE_UINT16: u8 = 5;
pub const TYPE_UINT32: u8 = 6;
pub const TYPE_MAP: u8 = 7;
pub const TYPE_INT32: u8 = 8;
pub const TYPE_UINT64: u8 = 9;
pub const TYPE_UINT128: u8 = 10;
pub const TYPE_ARRAY: u8 = 11;
pub const TYPE_BOOLEAN: u8 = 14;
pub const TYPE_FLOAT: u8 = 15;

/// The four bytes of `v`, most significant first.
pub open spec fn be_u32(v: u32) -> Seq<u8> {
    seq![
        (v / 0x100_0000) as u8,
        (v / 0x1_0000 % 0x100) as u8,
        (v / 0x100 % 0x100) as u8,
        (v % 0x100) as u8,
    ]
}

/// The eight bytes of `v`, most significant first.
pub open spec fn be_u64(v: u64) -> Seq<u8> {
    be_u32((v / 0x1_0000_0000) as u32) + be_u32((v % 0x1_0000_0000) as u32)
}

/// The low three bytes of `v`, most significant first.
pub open spec fn be_u24(v: u32) -> Seq<u8> {
    seq![(v / 0x1_0000 % 0x100) as u8, (v / 0x100 % 0x100) as u8, (v % 0x100) as u8]
}

/// The five-bit size field of a control byte for a payload of `len` bytes (or entries).
pub open spec fn size_field(len: nat) -> nat {
    if len < 29 {
        len
    } else if len < 285 {
        29
    } else if len < 65821 {
        30
    } else {
        31
    }
}

/// The bytes that follow the control byte(s) to complete a size that does not fit in five bits.
/// A size of 16843036 or more does not fit in three bytes; its top bits are dropped.
pub open spec fn size_extension(len: nat) -> Seq<u8> {
    if len < 29 {
        seq![]
    } else if len < 285 {
        seq![(len - 29) as u8]
    } else if len < 65821 {
        seq![((len - 285) / 256) as u8, ((len - 285) % 256) as u8]
    } else {
        let a = (len - 65821) as nat;
        seq![(a / 65536 % 256) as u8, (a / 256 % 256) as u8, (a % 256) as u8]
    }
}

/// The control bytes that start a field of type `type_id` with size `len`.
/// Types above 7 are extended types: a control byte with type 0, then `type_id - 7`.
pub open spec fn header_bytes(type_id: u8, len: nat) -> Seq<u8> {
    if type_id <= 7 {
        seq![(type_id * 32 + size_field(len)) as u8] + size_extension(len)
    } else {
        seq![size_field(len) as u8, (type_id - 7) as u8] + size_extension(len)
    }
}

/// The bytes of a pointer to offset `p` of the data section.
pub open spec fn pointer_bytes(p: u32) -> Seq<u8> {
    if p < 2048 {
        seq![(0x20 + p / 256) as u8, (p % 256) as u8]
    } else if p < 526336 {
        let a = (p - 2048) as nat;
        seq![(0x28 + a / 65536) as u8, (a / 256 % 256) as u8, (a % 256) as u8]
    } else if p < 134744064 {
        let a = (p - 526336) as nat;
        seq![(0x30 + a / 16777216) as u8, (a / 65536 % 256) as u8, (a / 256 % 256) as u8, (a % 256) as u8]
    } else {
        seq![0x38u8] + be_u32(p)
    }
}

/// The shortest big-endian bytes of `v`: none for zero.
pub open spec fn uint_bytes(v: nat) -> Seq<u8>
    decreases v,
{
    if v == 0 {
        seq![]
    } else {
        uint_bytes(v / 256).push((v % 256) as u8)
    }
}

/// `256` to the power `k`.
pub open spec fn pow256(k: nat) -> nat
    decreases k,
{
    if k == 0 {
        1
    } else {
        256 * pow256((k - 1) as nat)
    }
}

/// A number below `256` to the power `k` takes at most `k` bytes.
pub proof fn lemma_uint_bytes_len(v: nat, k: nat)
    requires
        v < pow256(k),
    ensures
        uint_bytes(v).len() <= k,
    decreases v,
{
    if v > 0 {
        assert(k > 0);
        assert(v / 256 < pow256((k - 1) as nat));
        lemma_uint_bytes_len(v / 256, (k - 1) as nat);
    }
}

/// An unsigned integer field: its header, then its shortest big-endian bytes.
pub open spec fn uint_field(type_id: u8, v: nat) -> Seq<u8> {
    header_bytes(type_id, uint_bytes(v).len()) + uint_bytes(v)
}

/// A UTF-8 string field.
pub open spec fn string_field(s: Seq<char>) -> Seq<u8> {
    header_bytes(TYPE_STRING, encode_utf8(s).len()) + encode_utf8(s)
}

/// The complete bytes of a scalar value (empty for maps and arrays).
pub open spec fn scalar_bytes(d: Datum) -> Seq<u8> {
    match d {
        Datum::String(s) => string_field(s),
        Datum::Double(b) => header_bytes(TYPE_DOUBLE, 8) + be_u64(b),
        Datum::Bytes(b) => header_bytes(TYPE_BYTES, b.len()) + b,
        Datum::Uint16(u) => uint_field(TYPE_UINT16, u as nat),
        Datum::Uint32(u) => uint_field(TYPE_UINT32, u as nat),
        Datum::Int32(i) => header_bytes(TYPE_INT32, 4) + be_u32(i as u32),
        Datum::Uint64(u) => uint_field(TYPE_UINT64, u as nat),
        Datum::Uint128(u) => uint_field(TYPE_UINT128, u as nat),
        Datum::Boolean(b) => header_bytes(TYPE_BOOLEAN, if b { 1 } else { 0 }),
        Datum::Float(f) => header_bytes(TYPE_FLOAT, 4) + be_u32(f),
        Datum::Mapping(_) => seq![],
        Datum::Array(_) => seq![],
    }
}

/// A value written out in full, with no pointers: maps and arrays hold their
/// members in place, each key as a string field.
pub open spec fn inline_bytes(d: Datum) -> Seq<u8>
    decreases d, 0nat,
{
    match d {
        Datum::Mapping(e) => header_bytes(TYPE_MAP, e.len()) + inline_entries(e, e.len()),
        Datum::Array(a) => header_bytes(TYPE_ARRAY, a.len()) + inline_items(a, a.len()),
        _ => scalar_bytes(d),
    }
}

/// The first `n` entries of a map, each written in full.
pub open spec fn inline_entries(e: Seq<(Seq<char>, Datum)>, n: nat) -> Seq<u8>
    decreases e, n,
{
    if 0 < n <= e.len() {
        inline_entries(e, (n - 1) as nat) + string_field(e[n - 1].0) + inline_bytes(e[n - 1].1)
    } else {
        seq![]
    }
}

/// The first `n` members of an array, each written in full.
pub open spec fn inline_items(a: Seq<Datum>, n: nat) -> Seq<u8>
    decreases a, n,
{
    if 0 < n <= a.len() {
        inline_items(a, (n - 1) as nat) + inline_bytes(a[n - 1])
    } else {
        seq![]
    }
}

} // verus!

verus! {

/// `bytes` stand in `data` at offset `off`.
pub open spec fn data_matches(data: Seq<u8>, off: int, bytes: Seq<u8>) -> bool {
    &&& 0 <= off
    &&& off + bytes.len() <= data.len()
    &&& data.subrange(off, off + bytes.len()) == bytes
}

} // verus!

verus! {

/// The pointers of a map written to the data section: a key pointer and a
/// value pointer for each entry.
pub open spec fn map_pointers(kv: Seq<(u32, u32)>) -> Seq<u8>
    decreases kv.len(),
{
    if kv.len() == 0 {
        seq![]
    } else {
        map_pointers(kv.drop_last()) + pointer_bytes(kv.last().0) + pointer_bytes(kv.last().1)
    }
}

/// The pointers of an array written to the data section, one per member.
pub open spec fn array_pointers(ps: Seq<u32>) -> Seq<u8>
    decreases ps.len(),
{
    if ps.len() == 0 {
        seq![]
    } else {
        array_pointers(ps.drop_last()) + pointer_bytes(ps.last())
    }
}

/// The data section `data` holds the value `d` at offset `off`: a scalar in
/// full; a map as its header and a pointer pair per entry, each key pointer
/// leading to the key as a string field and each value pointer to where the
/// value is held; an array as its header and a pointer per member.
pub open spec fn stored_at(data: Seq<u8>, off: int, d: Datum) -> bool
    decreases d,
{
    match d {
        Datum::Mapping(e) => exists|kv: Seq<(u32, u32)>|
            {
                &&& kv.len() == e.len()
                &&& data_matches(data, off, header_bytes(TYPE_MAP, e.len()) + #[trigger] map_pointers(kv))
                &&& forall|i: int|
                    0 <= i < e.len() ==> data_matches(data, kv[i].0 as int, string_field((#[trigger] e[i]).0))
                        && stored_at(data, kv[i].1 as int, e[i].1)
            },
        Datum::Array(a) => exists|ps: Seq<u32>|
            {
                &&& ps.len() == a.len()
                &&& data_matches(data, off, header_bytes(TYPE_ARRAY, a.len()) + #[trigger] array_pointers(ps))
                &&& forall|i: int| 0 <= i < a.len() ==> stored_at(data, ps[i] as int, #[trigger] a[i])
            },
        _ => data_matches(data, off, scalar_bytes(d)),
    }
}

/// `data2` starts with `data`.
pub open spec fn extends(data: Seq<u8>, data2: Seq<u8>) -> bool {
    data.len() <= data2.len() && data2.subrange(0, data.len() as int) == data
}

pub proof fn lemma_matches_extend(data: Seq<u8>, data2: Seq<u8>, off: int, bytes: Seq<u8>)
    requires
        data_matches(data, off, bytes),
        extends(data, data2),
    ensures
        data_matches(data2, off, bytes),
{
    assert(data2.subrange(off, off + bytes.len()) =~= data.subrange(off, off + bytes.len()));
}

/// What the data section holds stays held when more is written after it.
pub proof fn lemma_stored_extend(data: Seq<u8>, data2: Seq<u8>, off: int, d: Datum)
    requires
        stored_at(data, off, d),
        extends(data, data2),
    ensures
        stored_at(data2, off, d),
    decreases d,
{
    match d {
        Datum::Mapping(e) => {
            let kv = choose|kv: Seq<(u32, u32)>|
                {
                    &&& kv.len() == e.len()
                    &&& data_matches(data, off, header_bytes(TYPE_MAP, e.len()) + #[trigger] map_pointers(kv))
                    &&& forall|i: int|
                        0 <= i < e.len() ==> data_matches(data, kv[i].0 as int, string_field((#[trigger] e[i]).0))
                            && stored_at(data, kv[i].1 as int, e[i].1)
                };
            lemma_matches_extend(data, data2, off, header_bytes(TYPE_MAP, e.len()) + map_pointers(kv));
            assert forall|i: int| 0 <= i < e.len() implies data_matches(
                data2,
                kv[i].0 as int,
                string_field((#[trigger] e[i]).0),
            ) && stored_at(data2, kv[i].1 as int, e[i].1) by {
                lemma_matches_extend(data, data2, kv[i].0 as int, string_field(e[i].0));
                lemma_stored_extend(data, data2, kv[i].1 as int, e[i].1);
            }
        },
        Datum::Array(a) => {
            let ps = choose|ps: Seq<u32>|
                {
                    &&& ps.len() == a.len()
                    &&& data_matches(data, off, header_bytes(TYPE_ARRAY, a.len()) + #[trigger] array_pointers(ps))
                    &&& forall|i: int| 0 <= i < a.len() ==> stored_at(data, ps[i] as int, #[trigger] a[i])
                };
            lemma_matches_extend(data, data2, off, header_bytes(TYPE_ARRAY, a.len()) + array_pointers(ps));
            assert forall|i: int| 0 <= i < a.len() implies stored_at(data2, ps[i] as int, #[trigger] a[i]) by {
                lemma_stored_extend(data, data2, ps[i] as int, a[i]);
            }
        },
        _ => {
            lemma_matches_extend(data, data2, off, scalar_bytes(d));
        },
    }
}

pub proof fn lemma_header_len(type_id: u8, len: nat)
    ensures
        1 <= header_bytes(type_id, len).len() <= 5,
{
}

pub proof fn lemma_pointer_len(p: u32)
    ensures
        2 <= pointer_bytes(p).len() <= 5,
{
}

pub proof fn lemma_inline_len(d: Datum)
    ensures
        1 <= inline_bytes(d).len(),
        d.is_scalar() ==> inline_bytes(d) == scalar_bytes(d),
{
    match d {
        Datum::Mapping(e) => lemma_header_len(TYPE_MAP, e.len()),
        Datum::Array(a) => lemma_header_len(TYPE_ARRAY, a.len()),
        Datum::String(s) => lemma_header_len(TYPE_STRING, encode_utf8(s).len()),
        Datum::Bytes(b) => lemma_header_len(TYPE_BYTES, b.len()),
        Datum::Uint16(u) => lemma_header_len(TYPE_UINT16, uint_bytes(u as nat).len()),
        Datum::Uint32(u) => lemma_header_len(TYPE_UINT32, uint_bytes(u as nat).len()),
        Datum::Uint64(u) => lemma_header_len(TYPE_UINT64, uint_bytes(u as nat).len()),
        Datum::Uint128(u) => lemma_header_len(TYPE_UINT128, uint_bytes(u as nat).len()),
        Datum::Boolean(b) => lemma_header_len(TYPE_BOOLEAN, if b { 1 } else { 0 }),
        _ => {},
    }
}

} // verus!
