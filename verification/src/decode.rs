//! Decoding the data section as a reader does, and the law that what the
//! encoder stores decodes back to the value it stored.
use vstd::prelude::*;
use vstd::utf8::{decode_utf8, encode_utf8, encode_utf8_decode_utf8};
use crate::format::{
    array_pointers, be_u32, be_u64, data_matches, header_bytes, inline_bytes, inline_entries, inline_items,
    lemma_uint_bytes_len, map_pointers, pointer_bytes, pow256, scalar_bytes, stored_at, string_field,
    uint_bytes, TYPE_ARRAY, TYPE_MAP, TYPE_STRING,
};
use crate::reader::{be_value, decode_control, decode_pointer, law_control_roundtrip, law_pointer_roundtrip, law_uint_roundtrip};
use crate::value::{Datum, MAX_EXTENDED_LEN};

verus! {

/// The larger of two numbers.
pub open spec fn max_nat(a: nat, b: nat) -> nat {
    if a >= b {
        a
    } else {
        b
    }
}

/// How many levels of nesting a reader needs to decode `d` as the encoder
/// stores it: each map or array level takes two (its own, and the pointers
/// to its members).
pub open spec fn height(d: Datum) -> nat
    decreases d, 0nat,
{
    match d {
        Datum::Mapping(e) => 2 + entries_height(e, e.len()),
        Datum::Array(a) => 2 + items_height(a, a.len()),
        _ => 0,
    }
}

pub open spec fn entries_height(e: Seq<(Seq<char>, Datum)>, n: nat) -> nat
    decreases e, n,
{
    if 0 < n <= e.len() {
        max_nat(entries_height(e, (n - 1) as nat), height(e[n - 1].1))
    } else {
        0
    }
}

pub open spec fn items_height(a: Seq<Datum>, n: nat) -> nat
    decreases a, n,
{
    if 0 < n <= a.len() {
        max_nat(items_height(a, (n - 1) as nat), height(a[n - 1]))
    } else {
        0
    }
}

impl Datum {
    /// Every size a control byte must hold is below `MAX_EXTENDED_LEN`: the
    /// bytes of each string and map key, each byte string, and the number of
    /// entries of each map and of members of each array.
    pub open spec fn sizes_fit(self) -> bool
        decreases self,
    {
        match self {
            Datum::String(s) => encode_utf8(s).len() < MAX_EXTENDED_LEN,
            Datum::Bytes(b) => b.len() < MAX_EXTENDED_LEN,
            Datum::Mapping(e) => e.len() < MAX_EXTENDED_LEN && forall|i: int|
                0 <= i < e.len() ==> encode_utf8((#[trigger] e[i]).0).len() < MAX_EXTENDED_LEN && e[i].1.sizes_fit(),
            Datum::Array(a) => a.len() < MAX_EXTENDED_LEN && forall|i: int|
                0 <= i < a.len() ==> (#[trigger] a[i]).sizes_fit(),
            _ => true,
        }
    }
}

/// The scalar of type `ty` whose payload of `size` bytes starts at `p`, and
/// where the field ends.
pub open spec fn decode_scalar(data: Seq<u8>, ty: nat, size: nat, p: int) -> Option<(Datum, int)> {
    let payload = if ty == 14 {
        0
    } else {
        size
    };
    if p < 0 || p + payload > data.len() {
        None
    } else {
        let bytes = data.subrange(p, p + payload);
        let end = p + payload;
        if ty == 2 {
            Some((Datum::String(decode_utf8(bytes)), end))
        } else if ty == 3 && size == 8 {
            Some((Datum::Double(be_value(bytes) as u64), end))
        } else if ty == 4 {
            Some((Datum::Bytes(bytes), end))
        } else if ty == 5 && size <= 2 {
            Some((Datum::Uint16(be_value(bytes) as u16), end))
        } else if ty == 6 && size <= 4 {
            Some((Datum::Uint32(be_value(bytes) as u32), end))
        } else if ty == 8 && size <= 4 {
            Some((Datum::Int32((be_value(bytes) as u32) as i32), end))
        } else if ty == 9 && size <= 8 {
            Some((Datum::Uint64(be_value(bytes) as u64), end))
        } else if ty == 10 && size <= 16 {
            Some((Datum::Uint128(be_value(bytes) as u128), end))
        } else if ty == 14 && size <= 1 {
            Some((Datum::Boolean(size == 1), end))
        } else if ty == 15 && size == 4 {
            Some((Datum::Float(be_value(bytes) as u32), end))
        } else {
            None
        }
    }
}

/// The value a reader decodes at position `pos` of the data section, and
/// where it ends, following pointers and going at most `depth` levels deep.
pub open spec fn decode_value(data: Seq<u8>, pos: int, depth: nat) -> Option<(Datum, int)>
    decreases depth, 0nat,
{
    if !(0 <= pos < data.len()) {
        None
    } else {
        let rest = data.subrange(pos, data.len() as int);
        if rest[0] / 32 == 1 {
            match decode_pointer(rest) {
                Some((target, plen)) => if depth == 0 {
                    None
                } else {
                    match decode_value(data, target as int, (depth - 1) as nat) {
                        Some((v, _)) => Some((v, pos + plen)),
                        None => None,
                    }
                },
                None => None,
            }
        } else {
            match decode_control(rest) {
                Some((ty, size, hlen)) => {
                    let p = pos + hlen;
                    if ty == 7 {
                        if depth == 0 {
                            None
                        } else {
                            match decode_entries(data, p, size, (depth - 1) as nat) {
                                Some((es, end)) => Some((Datum::Mapping(es), end)),
                                None => None,
                            }
                        }
                    } else if ty == 11 {
                        if depth == 0 {
                            None
                        } else {
                            match decode_items(data, p, size, (depth - 1) as nat) {
                                Some((items, end)) => Some((Datum::Array(items), end)),
                                None => None,
                            }
                        }
                    } else {
                        decode_scalar(data, ty, size, p)
                    }
                },
                None => None,
            }
        }
    }
}

/// `n` map entries (a string key, then a value) decoded one after the other from `pos`.
pub open spec fn decode_entries(data: Seq<u8>, pos: int, n: nat, depth: nat) -> Option<(Seq<(Seq<char>, Datum)>, int)>
    decreases depth, n,
{
    if n == 0 {
        Some((seq![], pos))
    } else {
        match decode_value(data, pos, depth) {
            Some((Datum::String(k), p1)) => match decode_value(data, p1, depth) {
                Some((v, p2)) => match decode_entries(data, p2, (n - 1) as nat, depth) {
                    Some((es, end)) => Some((seq![(k, v)] + es, end)),
                    None => None,
                },
                None => None,
            },
            _ => None,
        }
    }
}

/// `n` array members decoded one after the other from `pos`.
pub open spec fn decode_items(data: Seq<u8>, pos: int, n: nat, depth: nat) -> Option<(Seq<Datum>, int)>
    decreases depth, n,
{
    if n == 0 {
        Some((seq![], pos))
    } else {
        match decode_value(data, pos, depth) {
            Some((v, p1)) => match decode_items(data, p1, (n - 1) as nat, depth) {
                Some((items, end)) => Some((seq![v] + items, end)),
                None => None,
            },
            None => None,
        }
    }
}

proof fn lemma_pow256_values()
    ensures
        pow256(1) == 0x100,
        pow256(2) == 0x1_0000,
        pow256(4) == 0x1_0000_0000,
        pow256(8) == 0x1_0000_0000_0000_0000,
        pow256(16) == 0x1_0000_0000_0000_0000_0000_0000_0000_0000,
{
    reveal_with_fuel(pow256, 17);
}

proof fn lemma_be_value_concat(a: Seq<u8>, b: Seq<u8>)
    ensures
        be_value(a + b) == be_value(a) * pow256(b.len()) + be_value(b),
    decreases b.len(),
{
    if b.len() == 0 {
        assert(a + b =~= a);
        assert(be_value(a) * 1 == be_value(a));
    } else {
        let b2 = b.drop_last();
        assert((a + b).drop_last() =~= a + b2);
        assert((a + b).last() == b.last());
        lemma_be_value_concat(a, b2);
        let x = be_value(a);
        let p = pow256(b2.len());
        let y = be_value(b2);
        assert((x * p + y) * 256 == x * (256 * p) + y * 256) by (nonlinear_arith);
        assert(pow256(b.len()) == 256 * p);
        assert(be_value(b) == y * 256 + b.last() as nat);
        assert(be_value(a + b) == be_value(a + b2) * 256 + b.last() as nat);
    }
}

proof fn lemma_be_u32_value(v: u32)
    ensures
        be_value(be_u32(v)) == v,
{
    let s = be_u32(v);
    let b0 = (v / 0x100_0000) as u8;
    let b1 = (v / 0x1_0000 % 0x100) as u8;
    let b2 = (v / 0x100 % 0x100) as u8;
    let b3 = (v % 0x100) as u8;
    assert(s.drop_last() =~= seq![b0, b1, b2]);
    assert(s.drop_last().drop_last() =~= seq![b0, b1]);
    assert(s.drop_last().drop_last().drop_last() =~= seq![b0]);
    assert(s.drop_last().drop_last().drop_last().drop_last() =~= Seq::<u8>::empty());
    reveal_with_fuel(be_value, 5);
    assert(((b0 as nat * 256 + b1 as nat) * 256 + b2 as nat) * 256 + b3 as nat == v);
}

proof fn lemma_be_u64_value(v: u64)
    ensures
        be_value(be_u64(v)) == v,
{
    let hi = (v / 0x1_0000_0000) as u32;
    let lo = (v % 0x1_0000_0000) as u32;
    lemma_be_u32_value(hi);
    lemma_be_u32_value(lo);
    lemma_be_value_concat(be_u32(hi), be_u32(lo));
    lemma_pow256_values();
    assert(v / 0x1_0000_0000 < 0x1_0000_0000);
    assert(hi as nat * 0x1_0000_0000 + lo as nat == v);
}

/// A field of type `type_id` whose header holds `size`, followed by
/// `payload`, stored at `off`: its first byte is no pointer, its header reads
/// back, and the payload follows it.
proof fn lemma_field_at(data: Seq<u8>, off: int, type_id: u8, size: nat, payload: Seq<u8>)
    requires
        2 <= type_id <= 15,
        size < MAX_EXTENDED_LEN,
        data_matches(data, off, header_bytes(type_id, size) + payload),
    ensures
        off < data.len(),
        data.subrange(off, data.len() as int)[0] / 32 != 1,
        decode_control(data.subrange(off, data.len() as int)) == Some(
            (type_id as nat, size, header_bytes(type_id, size).len()),
        ),
        data.subrange(
            off + header_bytes(type_id, size).len(),
            off + header_bytes(type_id, size).len() + payload.len(),
        ) == payload,
{
    let h = header_bytes(type_id, size);
    let tail = data.subrange(off + h.len() + payload.len(), data.len() as int);
    let rest = data.subrange(off, data.len() as int);
    assert(rest =~= h + (payload + tail)) by {
        assert(data.subrange(off, off + (h + payload).len()) == h + payload);
    }
    law_control_roundtrip(type_id, size, payload + tail);
    crate::format::lemma_header_len(type_id, size);
    assert(rest[0] == h[0]);
    assert(h[0] / 32 != 1);
    assert(data.subrange(off + h.len(), off + h.len() + payload.len()) =~= payload) by {
        assert forall|k: int| 0 <= k < payload.len() implies data.subrange(
            off + h.len(),
            off + h.len() + payload.len(),
        )[k] == payload[k] by {
            assert(data.subrange(off, off + (h + payload).len())[h.len() + k] == (h + payload)[h.len() + k]);
        }
    }
}

/// A scalar stored in full decodes back to itself at any depth.
proof fn lemma_scalar_decodes(data: Seq<u8>, off: int, d: Datum, depth: nat)
    requires
        d.is_scalar(),
        d.sizes_fit(),
        data_matches(data, off, scalar_bytes(d)),
    ensures
        decode_value(data, off, depth) == Some((d, off + scalar_bytes(d).len())),
{
    lemma_pow256_values();
    match d {
        Datum::String(s) => {
            let u = encode_utf8(s);
            lemma_field_at(data, off, TYPE_STRING, u.len(), u);
            encode_utf8_decode_utf8(s);
        },
        Datum::Double(b) => {
            lemma_field_at(data, off, 3, 8, be_u64(b));
            lemma_be_u64_value(b);
        },
        Datum::Bytes(b) => {
            lemma_field_at(data, off, 4, b.len(), b);
        },
        Datum::Uint16(u) => {
            let ub = uint_bytes(u as nat);
            lemma_uint_bytes_len(u as nat, 2);
            lemma_field_at(data, off, 5, ub.len(), ub);
            law_uint_roundtrip(u as nat);
        },
        Datum::Uint32(u) => {
            let ub = uint_bytes(u as nat);
            lemma_uint_bytes_len(u as nat, 4);
            lemma_field_at(data, off, 6, ub.len(), ub);
            law_uint_roundtrip(u as nat);
        },
        Datum::Int32(i) => {
            lemma_field_at(data, off, 8, 4, be_u32(i as u32));
            lemma_be_u32_value(i as u32);
            assert((i as u32) as i32 == i) by (bit_vector);
        },
        Datum::Uint64(u) => {
            let ub = uint_bytes(u as nat);
            lemma_uint_bytes_len(u as nat, 8);
            lemma_field_at(data, off, 9, ub.len(), ub);
            law_uint_roundtrip(u as nat);
        },
        Datum::Uint128(u) => {
            let ub = uint_bytes(u as nat);
            lemma_uint_bytes_len(u as nat, 16);
            lemma_field_at(data, off, 10, ub.len(), ub);
            law_uint_roundtrip(u as nat);
        },
        Datum::Boolean(b) => {
            let size: nat = if b {
                1
            } else {
                0
            };
            assert(header_bytes(14, size) + seq![] =~= header_bytes(14, size));
            lemma_field_at(data, off, 14, size, seq![]);
        },
        Datum::Float(f) => {
            lemma_field_at(data, off, 15, 4, be_u32(f));
            lemma_be_u32_value(f);
        },
        _ => {},
    }
}

proof fn lemma_map_pointers_concat(a: Seq<(u32, u32)>, b: Seq<(u32, u32)>)
    ensures
        map_pointers(a + b) == map_pointers(a) + map_pointers(b),
    decreases b.len(),
{
    if b.len() == 0 {
        assert(a + b =~= a);
        assert(map_pointers(a) + map_pointers(b) =~= map_pointers(a));
    } else {
        assert((a + b).drop_last() =~= a + b.drop_last());
        lemma_map_pointers_concat(a, b.drop_last());
        assert(map_pointers(a + b) =~= map_pointers(a) + map_pointers(b));
    }
}

proof fn lemma_array_pointers_concat(a: Seq<u32>, b: Seq<u32>)
    ensures
        array_pointers(a + b) == array_pointers(a) + array_pointers(b),
    decreases b.len(),
{
    if b.len() == 0 {
        assert(a + b =~= a);
        assert(array_pointers(a) + array_pointers(b) =~= array_pointers(a));
    } else {
        assert((a + b).drop_last() =~= a + b.drop_last());
        lemma_array_pointers_concat(a, b.drop_last());
        assert(array_pointers(a + b) =~= array_pointers(a) + array_pointers(b));
    }
}

/// The pointers of entries `i..` start with the two pointers of entry `i`.
proof fn lemma_map_pointers_front(kv: Seq<(u32, u32)>, i: int)
    requires
        0 <= i < kv.len(),
    ensures
        map_pointers(kv.subrange(i, kv.len() as int)) == pointer_bytes(kv[i].0) + pointer_bytes(kv[i].1)
            + map_pointers(kv.subrange(i + 1, kv.len() as int)),
{
    let one = seq![kv[i]];
    assert(kv.subrange(i, kv.len() as int) =~= one + kv.subrange(i + 1, kv.len() as int));
    lemma_map_pointers_concat(one, kv.subrange(i + 1, kv.len() as int));
    assert(one.drop_last() =~= Seq::<(u32, u32)>::empty());
    assert(map_pointers(one.drop_last()) =~= Seq::<u8>::empty());
    assert(one.last() == kv[i]);
    assert(map_pointers(one) =~= pointer_bytes(kv[i].0) + pointer_bytes(kv[i].1));
}

/// The pointers of members `i..` start with the pointer of member `i`.
proof fn lemma_array_pointers_front(ps: Seq<u32>, i: int)
    requires
        0 <= i < ps.len(),
    ensures
        array_pointers(ps.subrange(i, ps.len() as int)) == pointer_bytes(ps[i]) + array_pointers(
            ps.subrange(i + 1, ps.len() as int),
        ),
{
    let one = seq![ps[i]];
    assert(ps.subrange(i, ps.len() as int) =~= one + ps.subrange(i + 1, ps.len() as int));
    lemma_array_pointers_concat(one, ps.subrange(i + 1, ps.len() as int));
    assert(one.drop_last() =~= Seq::<u32>::empty());
    assert(array_pointers(one.drop_last()) =~= Seq::<u8>::empty());
    assert(one.last() == ps[i]);
    assert(array_pointers(one) =~= pointer_bytes(ps[i]));
}

/// A pointer stored at `pos`, with `more` after it: it reads back as its
/// target, and `more` stands right after it.
proof fn lemma_pointer_at(data: Seq<u8>, pos: int, p: u32, more: Seq<u8>)
    requires
        data_matches(data, pos, pointer_bytes(p) + more),
    ensures
        pos < data.len(),
        data.subrange(pos, data.len() as int)[0] / 32 == 1,
        decode_pointer(data.subrange(pos, data.len() as int)) == Some((p as nat, pointer_bytes(p).len())),
        data_matches(data, pos + pointer_bytes(p).len(), more),
{
    let h = pointer_bytes(p);
    let tail = data.subrange(pos + h.len() + more.len(), data.len() as int);
    let rest = data.subrange(pos, data.len() as int);
    crate::format::lemma_pointer_len(p);
    assert(rest =~= h + (more + tail)) by {
        assert(data.subrange(pos, pos + (h + more).len()) == h + more);
    }
    law_pointer_roundtrip(p, more + tail);
    assert(data.subrange(pos + h.len(), pos + h.len() + more.len()) =~= more) by {
        assert forall|k: int| 0 <= k < more.len() implies data.subrange(pos + h.len(), pos + h.len() + more.len())[k]
            == more[k] by {
            assert(data.subrange(pos, pos + (h + more).len())[h.len() + k] == (h + more)[h.len() + k]);
        }
    }
}

/// A pointer at `pos` to where `d` decodes one level down decodes as `d`,
/// and ends where the pointer does.
proof fn lemma_pointer_decodes(data: Seq<u8>, pos: int, p: u32, more: Seq<u8>, d: Datum, depth: nat)
    requires
        data_matches(data, pos, pointer_bytes(p) + more),
        depth >= 1,
        decode_value(data, p as int, (depth - 1) as nat) matches Some((v, _)) && v == d,
    ensures
        decode_value(data, pos, depth) == Some((d, pos + pointer_bytes(p).len())),
        data_matches(data, pos + pointer_bytes(p).len(), more),
{
    lemma_pointer_at(data, pos, p, more);
}

proof fn lemma_entries_height(e: Seq<(Seq<char>, Datum)>, n: nat, j: int)
    requires
        0 <= j < n <= e.len(),
    ensures
        height(e[j].1) <= entries_height(e, n),
    decreases n,
{
    if j < n - 1 {
        lemma_entries_height(e, (n - 1) as nat, j);
    }
}

proof fn lemma_items_height(a: Seq<Datum>, n: nat, j: int)
    requires
        0 <= j < n <= a.len(),
    ensures
        height(a[j]) <= items_height(a, n),
    decreases n,
{
    if j < n - 1 {
        lemma_items_height(a, (n - 1) as nat, j);
    }
}

/// `d` is what a reader decodes at offset `off` of the data section, going
/// as deep as `d` needs.
pub open spec fn decodes_to(data: Seq<u8>, off: int, d: Datum) -> bool {
    decode_value(data, off, height(d)) matches Some((v, _)) && v == d
}

/// What the encoder stores is what a reader decodes: a value stored at `off`
/// (a scalar in full, a map or array as pointers to its members) whose
/// sizes all fit a control byte decodes back to that same value at `off`,
/// given as many levels of depth as the value has.
pub proof fn law_stored_decodes(data: Seq<u8>, off: int, d: Datum, depth: nat)
    requires
        stored_at(data, off, d),
        d.sizes_fit(),
        height(d) <= depth,
    ensures
        decode_value(data, off, depth) matches Some((v, _)) && v == d,
        depth == height(d) ==> decodes_to(data, off, d),
    decreases d, 0nat,
{
    match d {
        Datum::Mapping(e) => {
            let kv = choose|kv: Seq<(u32, u32)>|
                {
                    &&& kv.len() == e.len()
                    &&& data_matches(data, off, header_bytes(TYPE_MAP, e.len()) + #[trigger] map_pointers(kv))
                    &&& forall|i: int|
                        0 <= i < e.len() ==> data_matches(data, kv[i].0 as int, string_field((#[trigger] e[i]).0))
                            && stored_at(data, kv[i].1 as int, e[i].1)
                };
            lemma_field_at(data, off, TYPE_MAP, e.len(), map_pointers(kv));
            let p = off + header_bytes(TYPE_MAP, e.len()).len();
            assert(kv.subrange(0, kv.len() as int) =~= kv);
            assert forall|j: int| 0 <= j < e.len() implies height((#[trigger] e[j]).1) < depth - 1 by {
                lemma_entries_height(e, e.len(), j);
            }
            lemma_entries_decode(data, p, kv, e, 0, (depth - 1) as nat);
            assert(e.subrange(0, e.len() as int) =~= e);
        },
        Datum::Array(a) => {
            let ps = choose|ps: Seq<u32>|
                {
                    &&& ps.len() == a.len()
                    &&& data_matches(data, off, header_bytes(TYPE_ARRAY, a.len()) + #[trigger] array_pointers(ps))
                    &&& forall|i: int| 0 <= i < a.len() ==> stored_at(data, ps[i] as int, #[trigger] a[i])
                };
            lemma_field_at(data, off, TYPE_ARRAY, a.len(), array_pointers(ps));
            let p = off + header_bytes(TYPE_ARRAY, a.len()).len();
            assert(ps.subrange(0, ps.len() as int) =~= ps);
            assert forall|j: int| 0 <= j < a.len() implies height(#[trigger] a[j]) < depth - 1 by {
                lemma_items_height(a, a.len(), j);
            }
            lemma_items_decode(data, p, ps, a, 0, (depth - 1) as nat);
            assert(a.subrange(0, a.len() as int) =~= a);
        },
        _ => {
            lemma_scalar_decodes(data, off, d, depth);
        },
    }
}

/// Entries `i..` of a map, whose pointers stand at `pos`, decode back to those entries.
#[verifier::spinoff_prover]
#[verifier::rlimit(30)]
proof fn lemma_entries_decode(
    data: Seq<u8>,
    pos: int,
    kv: Seq<(u32, u32)>,
    e: Seq<(Seq<char>, Datum)>,
    i: int,
    depth: nat,
)
    requires
        kv.len() == e.len(),
        0 <= i <= e.len(),
        data_matches(data, pos, map_pointers(kv.subrange(i, kv.len() as int))),
        forall|j: int|
            i <= j < e.len() ==> {
                &&& data_matches(data, kv[j].0 as int, string_field((#[trigger] e[j]).0))
                &&& stored_at(data, kv[j].1 as int, e[j].1)
                &&& encode_utf8(e[j].0).len() < MAX_EXTENDED_LEN
                &&& e[j].1.sizes_fit()
                &&& height(e[j].1) < depth
            },
    ensures
        decode_entries(data, pos, (e.len() - i) as nat, depth) == Some(
            (e.subrange(i, e.len() as int), pos + map_pointers(kv.subrange(i, kv.len() as int)).len()),
        ),
    decreases e, e.len() - i,
{
    let n = e.len() as int;
    if i == n {
        assert(e.subrange(i, n) =~= Seq::<(Seq<char>, Datum)>::empty());
        assert(kv.subrange(i, n) =~= Seq::<(u32, u32)>::empty());
    } else {
        let entry = e[i];
        let (kp, vp) = kv[i];
        lemma_map_pointers_front(kv, i);
        let after = map_pointers(kv.subrange(i + 1, n));
        assert(pointer_bytes(kp) + pointer_bytes(vp) + after =~= pointer_bytes(kp) + (pointer_bytes(vp) + after));
        lemma_scalar_decodes(data, kp as int, Datum::String(entry.0), (depth - 1) as nat);
        lemma_pointer_decodes(data, pos, kp, pointer_bytes(vp) + after, Datum::String(entry.0), depth);
        let p1 = pos + pointer_bytes(kp).len();
        law_stored_decodes(data, vp as int, entry.1, (depth - 1) as nat);
        lemma_pointer_decodes(data, p1, vp, after, entry.1, depth);
        let p2 = p1 + pointer_bytes(vp).len();
        lemma_entries_decode(data, p2, kv, e, i + 1, depth);
        assert(decode_entries(data, p2, (n - (i + 1)) as nat, depth) == Some(
            (e.subrange(i + 1, n), p2 + after.len()),
        ));
        assert(seq![(entry.0, entry.1)] + e.subrange(i + 1, n) =~= e.subrange(i, n));
    }
}

/// Members `i..` of an array, whose pointers stand at `pos`, decode back to those members.
#[verifier::spinoff_prover]
#[verifier::rlimit(30)]
proof fn lemma_items_decode(data: Seq<u8>, pos: int, ps: Seq<u32>, a: Seq<Datum>, i: int, depth: nat)
    requires
        ps.len() == a.len(),
        0 <= i <= a.len(),
        data_matches(data, pos, array_pointers(ps.subrange(i, ps.len() as int))),
        forall|j: int|
            i <= j < a.len() ==> {
                &&& stored_at(data, ps[j] as int, #[trigger] a[j])
                &&& a[j].sizes_fit()
                &&& height(a[j]) < depth
            },
    ensures
        decode_items(data, pos, (a.len() - i) as nat, depth) == Some(
            (a.subrange(i, a.len() as int), pos + array_pointers(ps.subrange(i, ps.len() as int)).len()),
        ),
    decreases a, a.len() - i,
{
    let n = a.len() as int;
    if i == n {
        assert(a.subrange(i, n) =~= Seq::<Datum>::empty());
        assert(ps.subrange(i, n) =~= Seq::<u32>::empty());
    } else {
        lemma_array_pointers_front(ps, i);
        let after = array_pointers(ps.subrange(i + 1, n));
        law_stored_decodes(data, ps[i] as int, a[i], (depth - 1) as nat);
        lemma_pointer_decodes(data, pos, ps[i], after, a[i], depth);
        let p1 = pos + pointer_bytes(ps[i]).len();
        lemma_items_decode(data, p1, ps, a, i + 1, depth);
        assert(decode_items(data, p1, (n - (i + 1)) as nat, depth) == Some((a.subrange(i + 1, n), p1 + after.len())));
        assert(seq![a[i]] + a.subrange(i + 1, n) =~= a.subrange(i, n));
    }
}

/// `a + b` stored at `pos` is `a` at `pos`, then `b` right after it.
proof fn lemma_matches_split(data: Seq<u8>, pos: int, a: Seq<u8>, b: Seq<u8>)
    requires
        data_matches(data, pos, a + b),
    ensures
        data_matches(data, pos, a),
        data_matches(data, pos + a.len(), b),
{
    let whole = data.subrange(pos, pos + (a + b).len());
    assert(data.subrange(pos, pos + a.len()) =~= whole.subrange(0, a.len() as int));
    assert(data.subrange(pos + a.len(), pos + a.len() + b.len()) =~= whole.subrange(
        a.len() as int,
        (a + b).len() as int,
    ));
    assert(whole.subrange(0, a.len() as int) =~= a);
    assert(whole.subrange(a.len() as int, (a + b).len() as int) =~= b);
}

/// Entries `i..` of a map written in full, first to last.
pub open spec fn entries_from(e: Seq<(Seq<char>, Datum)>, i: int) -> Seq<u8>
    decreases e.len() - i,
{
    if 0 <= i < e.len() {
        string_field(e[i].0) + inline_bytes(e[i].1) + entries_from(e, i + 1)
    } else {
        seq![]
    }
}

/// Members `i..` of an array written in full, first to last.
pub open spec fn items_from(a: Seq<Datum>, i: int) -> Seq<u8>
    decreases a.len() - i,
{
    if 0 <= i < a.len() {
        inline_bytes(a[i]) + items_from(a, i + 1)
    } else {
        seq![]
    }
}

proof fn lemma_entries_from(e: Seq<(Seq<char>, Datum)>, n: nat)
    requires
        n <= e.len(),
    ensures
        inline_entries(e, n) + entries_from(e, n as int) == entries_from(e, 0),
    decreases n,
{
    if n == 0 {
        assert(inline_entries(e, 0) + entries_from(e, 0) =~= entries_from(e, 0));
    } else {
        let k = (n - 1) as nat;
        lemma_entries_from(e, k);
        assert(inline_entries(e, n) + entries_from(e, n as int) =~= inline_entries(e, k) + entries_from(
            e,
            k as int,
        ));
    }
}

proof fn lemma_items_from(a: Seq<Datum>, n: nat)
    requires
        n <= a.len(),
    ensures
        inline_items(a, n) + items_from(a, n as int) == items_from(a, 0),
    decreases n,
{
    if n == 0 {
        assert(inline_items(a, 0) + items_from(a, 0) =~= items_from(a, 0));
    } else {
        let k = (n - 1) as nat;
        lemma_items_from(a, k);
        assert(inline_items(a, n) + items_from(a, n as int) =~= inline_items(a, k) + items_from(a, k as int));
    }
}

/// A value written in full (as the metadata is) decodes back to itself, given
/// enough depth, and ends where its bytes end.
pub proof fn law_inline_decodes(data: Seq<u8>, off: int, d: Datum, depth: nat)
    requires
        data_matches(data, off, inline_bytes(d)),
        d.sizes_fit(),
        height(d) <= depth,
    ensures
        decode_value(data, off, depth) == Some((d, off + inline_bytes(d).len())),
    decreases d, 0nat,
{
    match d {
        Datum::Mapping(e) => {
            lemma_entries_from(e, e.len());
            assert(inline_entries(e, e.len()) =~= entries_from(e, 0));
            lemma_field_at(data, off, TYPE_MAP, e.len(), entries_from(e, 0));
            let p = off + header_bytes(TYPE_MAP, e.len()).len();
            assert forall|j: int| 0 <= j < e.len() implies height((#[trigger] e[j]).1) < depth - 1 by {
                lemma_entries_height(e, e.len(), j);
            }
            lemma_inline_entries_decode(data, p, e, 0, (depth - 1) as nat);
            assert(e.subrange(0, e.len() as int) =~= e);
        },
        Datum::Array(a) => {
            lemma_items_from(a, a.len());
            assert(inline_items(a, a.len()) =~= items_from(a, 0));
            lemma_field_at(data, off, TYPE_ARRAY, a.len(), items_from(a, 0));
            let p = off + header_bytes(TYPE_ARRAY, a.len()).len();
            assert forall|j: int| 0 <= j < a.len() implies height(#[trigger] a[j]) < depth - 1 by {
                lemma_items_height(a, a.len(), j);
            }
            lemma_inline_items_decode(data, p, a, 0, (depth - 1) as nat);
            assert(a.subrange(0, a.len() as int) =~= a);
        },
        _ => {
            crate::format::lemma_inline_len(d);
            lemma_scalar_decodes(data, off, d, depth);
        },
    }
}

/// Entries `i..` of a map written in full at `pos` decode back to those entries.
#[verifier::spinoff_prover]
#[verifier::rlimit(30)]
proof fn lemma_inline_entries_decode(data: Seq<u8>, pos: int, e: Seq<(Seq<char>, Datum)>, i: int, depth: nat)
    requires
        0 <= i <= e.len(),
        data_matches(data, pos, entries_from(e, i)),
        forall|j: int|
            i <= j < e.len() ==> {
                &&& encode_utf8((#[trigger] e[j]).0).len() < MAX_EXTENDED_LEN
                &&& e[j].1.sizes_fit()
                &&& height(e[j].1) < depth
            },
    ensures
        decode_entries(data, pos, (e.len() - i) as nat, depth) == Some(
            (e.subrange(i, e.len() as int), pos + entries_from(e, i).len()),
        ),
    decreases e, e.len() - i,
{
    let n = e.len() as int;
    if i == n {
        assert(e.subrange(i, n) =~= Seq::<(Seq<char>, Datum)>::empty());
    } else {
        let entry = e[i];
        let key = string_field(entry.0);
        let val = inline_bytes(entry.1);
        let rest = entries_from(e, i + 1);
        assert(key + val + rest =~= key + (val + rest));
        lemma_matches_split(data, pos, key, val + rest);
        let p1 = pos + key.len();
        lemma_matches_split(data, p1, val, rest);
        let p2 = p1 + val.len();
        lemma_scalar_decodes(data, pos, Datum::String(entry.0), depth);
        law_inline_decodes(data, p1, entry.1, depth);
        lemma_inline_entries_decode(data, p2, e, i + 1, depth);
        assert(seq![(entry.0, entry.1)] + e.subrange(i + 1, n) =~= e.subrange(i, n));
    }
}

/// Members `i..` of an array written in full at `pos` decode back to those members.
#[verifier::spinoff_prover]
#[verifier::rlimit(30)]
proof fn lemma_inline_items_decode(data: Seq<u8>, pos: int, a: Seq<Datum>, i: int, depth: nat)
    requires
        0 <= i <= a.len(),
        data_matches(data, pos, items_from(a, i)),
        forall|j: int|
            i <= j < a.len() ==> {
                &&& (#[trigger] a[j]).sizes_fit()
                &&& height(a[j]) < depth
            },
    ensures
        decode_items(data, pos, (a.len() - i) as nat, depth) == Some(
            (a.subrange(i, a.len() as int), pos + items_from(a, i).len()),
        ),
    decreases a, a.len() - i,
{
    let n = a.len() as int;
    if i == n {
        assert(a.subrange(i, n) =~= Seq::<Datum>::empty());
    } else {
        let val = inline_bytes(a[i]);
        let rest = items_from(a, i + 1);
        lemma_matches_split(data, pos, val, rest);
        let p1 = pos + val.len();
        law_inline_decodes(data, pos, a[i], depth);
        lemma_inline_items_decode(data, p1, a, i + 1, depth);
        assert(seq![a[i]] + a.subrange(i + 1, n) =~= a.subrange(i, n));
    }
}

} // verus!
