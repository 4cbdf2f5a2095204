//! The data-section encoder.
use vstd::prelude::*;
use vstd::utf8::encode_utf8;
use crate::bytes::{append_bytes, write_i32_be, write_u32_be, write_u64_be};
use crate::cache::ScalarCache;
use crate::format::{
    array_pointers, data_matches, extends, header_bytes, inline_bytes, inline_entries, inline_items,
    lemma_header_len, lemma_inline_len, lemma_matches_extend, lemma_pointer_len, lemma_stored_extend,
    lemma_uint_bytes_len, map_pointers, pow256, pointer_bytes, scalar_bytes, stored_at, string_field, uint_bytes, uint_field,
    TYPE_ARRAY, TYPE_BOOLEAN, TYPE_BYTES, TYPE_DOUBLE, TYPE_FLOAT, TYPE_INT32, TYPE_MAP, TYPE_STRING,
    TYPE_UINT128, TYPE_UINT16, TYPE_UINT32, TYPE_UINT64,
};
use crate::value::{Datum, MmdbValue, MAX_EXTENDED_LEN};

verus! {

/// Builds the data section: values are referred to by pointers, and each
/// distinct scalar is written once.
pub struct Encoder {
    data_segment: Vec<u8>,
    cache: ScalarCache,
}

pub proof fn lemma_u128_uint_bytes_len(v: u128)
    ensures
        uint_bytes(v as nat).len() <= 16,
{
    reveal_with_fuel(pow256, 17);
    assert(pow256(16) == 0x1_0000_0000_0000_0000_0000_0000_0000_0000);
    lemma_uint_bytes_len(v as nat, 16);
}

/// Appends the shortest big-endian bytes of `v`.
fn push_uint_bytes(v: u128, out: &mut Vec<u8>)
    ensures
        final(out)@ == old(out)@ + uint_bytes(v as nat),
    decreases v,
{
    if v > 0 {
        push_uint_bytes(v / 256, out);
        out.push((v % 256) as u8);
    }
}

impl Encoder {
    /// Appends a pointer to offset `pointer` of the data section.
    pub fn encode_pointer(pointer: u32, buffer: &mut Vec<u8>)
        ensures
            final(buffer)@ == old(buffer)@ + pointer_bytes(pointer),
    {
        if pointer < 2048 {
            buffer.push((0x20 + pointer / 256) as u8);
            buffer.push((pointer % 256) as u8);
        } else if pointer < 526336 {
            let adjusted = pointer - 2048;
            buffer.push((0x28 + adjusted / 65536) as u8);
            buffer.push((adjusted / 256 % 256) as u8);
            buffer.push((adjusted % 256) as u8);
        } else if pointer < 134744064 {
            let adjusted = pointer - 526336;
            buffer.push((0x30 + adjusted / 16777216) as u8);
            buffer.push((adjusted / 65536 % 256) as u8);
            buffer.push((adjusted / 256 % 256) as u8);
            buffer.push((adjusted % 256) as u8);
        } else {
            buffer.push(0x38);
            write_u32_be(buffer, pointer);
        }
        assert(final(buffer)@ =~= old(buffer)@ + pointer_bytes(pointer));
    }

    /// Appends the control bytes of a field of type `type_id` and size `length`.
    /// An extended type (above 7) cannot describe a size of `MAX_EXTENDED_LEN` or more.
    pub fn encode_header(type_id: u8, length: usize, buffer: &mut Vec<u8>)
        requires
            type_id <= 7 || length < MAX_EXTENDED_LEN,
        ensures
            final(buffer)@ == old(buffer)@ + header_bytes(type_id, length as nat),
    {
        let five_bits: u8;
        if type_id <= 7 {
            if length < 29 {
                buffer.push(type_id * 32 + length as u8);
                assert(final(buffer)@ =~= old(buffer)@ + header_bytes(type_id, length as nat));
                return;
            }
            five_bits = if length < 285 {
                29
            } else if length < 65821 {
                30
            } else {
                31
            };
            buffer.push(type_id * 32 + five_bits);
        } else {
            five_bits = if length < 29 {
                length as u8
            } else if length < 285 {
                29
            } else if length < 65821 {
                30
            } else {
                31
            };
            buffer.push(five_bits);
            buffer.push(type_id - 7);
        }
        if five_bits == 29 {
            buffer.push((length - 29) as u8);
        } else if five_bits == 30 {
            let adj = length - 285;
            buffer.push((adj / 256) as u8);
            buffer.push((adj % 256) as u8);
        } else if five_bits == 31 {
            let adj = length - 65821;
            buffer.push((adj / 65536 % 256) as u8);
            buffer.push((adj / 256 % 256) as u8);
            buffer.push((adj % 256) as u8);
        }
        assert(final(buffer)@ =~= old(buffer)@ + header_bytes(type_id, length as nat));
    }

    /// Appends an unsigned integer field: the header, then the shortest
    /// big-endian bytes of `value` (none for zero).
    pub fn encode_uint(type_id: u8, value: u128, max_bytes: usize, buffer: &mut Vec<u8>)
        ensures
            final(buffer)@ == old(buffer)@ + uint_field(type_id, value as nat),
    {
        if value == 0 {
            Self::encode_header(type_id, 0, buffer);
            assert(final(buffer)@ =~= old(buffer)@ + uint_field(type_id, value as nat));
            return;
        }
        let mut bytes: Vec<u8> = Vec::with_capacity(max_bytes);
        push_uint_bytes(value, &mut bytes);
        proof {
            lemma_u128_uint_bytes_len(value);
        }
        Self::encode_header(type_id, bytes.len(), buffer);
        append_bytes(buffer, bytes.as_slice());
        assert(final(buffer)@ =~= old(buffer)@ + uint_field(type_id, value as nat));
    }
}

} // verus!

verus! {

/// Appends the string field of `s`: its header, then its UTF-8 bytes.
fn encode_string(s: &str, buffer: &mut Vec<u8>)
    ensures
        final(buffer)@ == old(buffer)@ + string_field(s@),
{
    let bytes = s.as_bytes();
    Encoder::encode_header(TYPE_STRING, bytes.len(), buffer);
    append_bytes(buffer, bytes);
    assert(final(buffer)@ =~= old(buffer)@ + string_field(s@));
}

impl Encoder {
    /// The encoder's invariant: every recorded scalar stands at its offset,
    /// and the data section is addressable by 32-bit pointers.
    pub closed spec fn wf(&self) -> bool {
        &&& self.cache.wf()
        &&& self.cache.matches_data(self.data_segment@)
        &&& self.data_segment@.len() <= u32::MAX
        &&& self.cache.size() <= self.data_segment@.len()
    }

    /// The bytes of the data section written so far.
    pub closed spec fn data(&self) -> Seq<u8> {
        self.data_segment@
    }

    /// For the bytes of each scalar written, the offset at which they stand.
    pub closed spec fn table(&self) -> Map<Seq<u8>, u32> {
        Map::new(|b: Seq<u8>| self.cache.find(b) is Some, |b: Seq<u8>| self.cache.find(b)->0)
    }

    /// The offset at which the scalar `d` was written, if it was; maps and
    /// arrays are never looked up.
    pub closed spec fn cached(&self, d: Datum) -> Option<u32> {
        if d.is_scalar() {
            self.cache.find(scalar_bytes(d))
        } else {
            None
        }
    }

    /// What is recorded for a scalar is its entry in the table; nothing is
    /// recorded for a map or array.
    pub proof fn lemma_cached_is_table(&self, d: Datum)
        ensures
            self.cached(d) == if d.is_scalar() && self.table().contains_key(scalar_bytes(d)) {
                Some(self.table()[scalar_bytes(d)])
            } else {
                None
            },
    {
    }

    /// The data section of a well-formed encoder is addressable by 32-bit offsets.
    pub proof fn lemma_data_fits(&self)
        requires
            self.wf(),
        ensures
            self.data().len() <= u32::MAX,
    {
    }

    /// Every scalar recorded in `self` is recorded in `other` at the same offset.
    pub open spec fn cache_kept(&self, other: &Encoder) -> bool {
        forall|d: Datum| #[trigger] self.cached(d) is Some ==> other.cached(d) == self.cached(d)
    }

    closed spec fn find_kept(&self, other: &Encoder) -> bool {
        forall|b: Seq<u8>| #[trigger] self.cache.find(b) is Some ==> other.cache.find(b) == self.cache.find(b)
    }

    proof fn lemma_find_kept(&self, other: &Encoder)
        requires
            self.find_kept(other),
        ensures
            self.cache_kept(other),
    {
        assert forall|d: Datum| #[trigger] self.cached(d) is Some implies other.cached(d) == self.cached(d) by {
            assert(self.cache.find(scalar_bytes(d)) is Some);
        }
    }

    pub fn new() -> (e: Self)
        ensures
            e.wf(),
            e.data() == Seq::<u8>::empty(),
            forall|d: Datum| #[trigger] e.cached(d) is None,
    {
        Encoder { data_segment: Vec::new(), cache: ScalarCache::new() }
    }

    /// Appends the complete bytes of a scalar value.
    pub fn encode_scalar(value: &MmdbValue, buffer: &mut Vec<u8>)
        requires
            value@.is_scalar(),
        ensures
            final(buffer)@ == old(buffer)@ + scalar_bytes(value@),
    {
        match value {
            MmdbValue::String(s) => {
                encode_string(s.as_str(), buffer);
            },
            MmdbValue::Double(d) => {
                Self::encode_header(TYPE_DOUBLE, 8, buffer);
                write_u64_be(buffer, *d);
            },
            MmdbValue::Bytes(b) => {
                Self::encode_header(TYPE_BYTES, b.len(), buffer);
                append_bytes(buffer, b.as_slice());
            },
            MmdbValue::Uint16(u) => Self::encode_uint(TYPE_UINT16, *u as u128, 2, buffer),
            MmdbValue::Uint32(u) => Self::encode_uint(TYPE_UINT32, *u as u128, 4, buffer),
            MmdbValue::Int32(i) => {
                Self::encode_header(TYPE_INT32, 4, buffer);
                write_i32_be(buffer, *i);
            },
            MmdbValue::Uint64(u) => Self::encode_uint(TYPE_UINT64, *u as u128, 8, buffer),
            MmdbValue::Uint128(u) => Self::encode_uint(TYPE_UINT128, *u, 16, buffer),
            MmdbValue::Boolean(b) => {
                Self::encode_header(TYPE_BOOLEAN, if *b { 1 } else { 0 }, buffer);
            },
            MmdbValue::Float(f) => {
                Self::encode_header(TYPE_FLOAT, 4, buffer);
                write_u32_be(buffer, *f);
            },
            MmdbValue::Mapping(_) => {},
            MmdbValue::Array(_) => {},
        }
        assert(final(buffer)@ =~= old(buffer)@ + scalar_bytes(value@));
    }

    /// Writes the scalar bytes `bytes` to the data section unless they are
    /// there already, and returns a pointer to them; `None`, with nothing
    /// written, where they would take the data section past 4 GiB.
    fn store_scalar(&mut self, bytes: Vec<u8>) -> (r: Option<(Vec<u8>, Ghost<u32>)>)
        requires
            old(self).wf(),
            1 <= bytes@.len(),
        ensures
            final(self).wf(),
            extends(old(self).data(), final(self).data()),
            old(self).find_kept(final(self)),
            match r {
                Some((p, off)) => {
                    &&& p@ == pointer_bytes(off@)
                    &&& data_matches(final(self).data(), off@ as int, bytes@)
                    &&& final(self).cache.find(bytes@) == Some(off@)
                    &&& old(self).cache.find(bytes@) is Some ==> final(self).data() == old(self).data()
                    &&& old(self).cache.find(bytes@) is None ==> final(self).data() == old(self).data() + bytes@
                        && off@ == old(self).data().len()
                    &&& (final(self).data(), final(self).table(), off@) == store_spec(
                        old(self).data(),
                        old(self).table(),
                        bytes@,
                    )
                },
                None => store_spec(old(self).data(), old(self).table(), bytes@).0.len() > u32::MAX
                    && final(self).data() == old(self).data(),
            },
    {
        proof {
            assert(old(self).table().contains_key(bytes@) == (old(self).cache.find(bytes@) is Some));
        }
        match self.cache.lookup(bytes.as_slice()) {
            Some(off) => {
                proof {
                    self.cache.lemma_find_matches(bytes@, self.data_segment@);
                }
                let mut ptr: Vec<u8> = Vec::new();
                Self::encode_pointer(off, &mut ptr);
                assert(self.data_segment@ =~= self.data_segment@.subrange(0, self.data_segment@.len() as int));
                Some((ptr, Ghost(off)))
            },
            None => {
                if bytes.len() as u64 > 0xFFFF_FFFF - self.data_segment.len() as u64 {
                    proof {
                        assert(self.data_segment@ =~= self.data_segment@.subrange(0, self.data_segment@.len() as int));
                    }
                    return None;
                }
                let ghost old_data = self.data_segment@;
                let offset = self.data_segment.len() as u32;
                append_bytes(&mut self.data_segment, bytes.as_slice());
                let ghost bv = bytes@;
                proof {
                    assert(self.data_segment@ =~= old_data + bv);
                    assert(self.data_segment@.subrange(0, old_data.len() as int) =~= old_data);
                    assert(self.data_segment@.subrange(offset as int, offset as int + bv.len()) =~= bv);
                    self.cache.lemma_matches_extend(old_data, self.data_segment@);
                }
                self.cache.insert(bytes, offset);
                proof {
                    assert(self.table() =~= old(self).table().insert(bv, offset));
                }
                let mut ptr: Vec<u8> = Vec::new();
                Self::encode_pointer(offset, &mut ptr);
                Some((ptr, Ghost(offset)))
            },
        }
    }

    /// Writes `value` to the data section (a scalar only if it is not there
    /// already) and returns a pointer to where it is held; `None` where the
    /// data section would grow past 4 GiB.
    fn encode_value_at(&mut self, value: &MmdbValue) -> (r: Option<(Vec<u8>, Ghost<u32>)>)
        requires
            old(self).wf(),
            value@.arrays_fit(),
        ensures
            final(self).wf(),
            extends(old(self).data(), final(self).data()),
            old(self).find_kept(final(self)),
            match r {
                Some((p, off)) => {
                    &&& p@ == pointer_bytes(off@)
                    &&& stored_at(final(self).data(), off@ as int, value@)
                    &&& value@.is_scalar() ==> final(self).cached(value@) == Some(off@)
                    &&& value@.is_scalar() && old(self).cached(value@) is Some ==> final(self).data()
                        == old(self).data() && off@ == old(self).cached(value@)->0
                    &&& value@.is_scalar() && old(self).cached(value@) is None ==> final(self).data()
                        == old(self).data() + scalar_bytes(value@) && off@ == old(self).data().len()
                    &&& !value@.is_scalar() ==> old(self).data().len() <= off@
                    &&& (final(self).data(), final(self).table(), off@) == value_spec(
                        old(self).data(),
                        old(self).table(),
                        value@,
                    )
                },
                None => value_spec(old(self).data(), old(self).table(), value@).0.len() > u32::MAX,
            },
        decreases value, 1int,
    {
        proof {
            lemma_inline_len(value@);
        }
        match value {
            MmdbValue::Mapping(_) | MmdbValue::Array(_) => {
                let mut own: Vec<u8> = Vec::new();
                if !self.encode_cached_bytes(value, &mut own) {
                    return None;
                }
                if own.len() as u64 > 0xFFFF_FFFF - self.data_segment.len() as u64 {
                    return None;
                }
                let ghost mid = self.data_segment@;
                let offset = self.data_segment.len() as u32;
                append_bytes(&mut self.data_segment, own.as_slice());
                proof {
                    assert(own@.subrange(0, 0) =~= Seq::<u8>::empty());
                    assert(own@.subrange(0, own@.len() as int) =~= own@);
                    assert(self.data_segment@ =~= mid + own@);
                    assert(self.data_segment@.subrange(0, mid.len() as int) =~= mid);
                    self.cache.lemma_matches_extend(mid, self.data_segment@);
                    assert(self.data_segment@.subrange(0, old(self).data_segment@.len() as int)
                        =~= old(self).data_segment@);
                }
                let mut ptr: Vec<u8> = Vec::new();
                Self::encode_pointer(offset, &mut ptr);
                Some((ptr, Ghost(offset)))
            },
            _ => {
                let mut bytes: Vec<u8> = Vec::new();
                Self::encode_scalar(value, &mut bytes);
                assert(bytes@ =~= scalar_bytes(value@));
                self.store_scalar(bytes)
            },
        }
    }

    /// Writes the members of a map or array to the data section and appends
    /// the value's own bytes to `buffer`: for a scalar its complete bytes, for
    /// a map or array its header and the pointers to its members. `false`
    /// where the data section would grow past 4 GiB.
    #[verifier::spinoff_prover]
    #[verifier::rlimit(60)]
    fn encode_cached_bytes(&mut self, value: &MmdbValue, buffer: &mut Vec<u8>) -> (ok: bool)
        requires
            old(self).wf(),
            value@.arrays_fit(),
        ensures
            final(self).wf(),
            extends(old(self).data(), final(self).data()),
            old(self).find_kept(final(self)),
            ok ==> {
                &&& final(buffer)@ == old(buffer)@ + own_spec(old(self).data(), old(self).table(), value@).2
                &&& final(self).data() == own_spec(old(self).data(), old(self).table(), value@).0
                &&& final(self).table() == own_spec(old(self).data(), old(self).table(), value@).1
                &&& stored_at(
                    final(self).data() + final(buffer)@.subrange(old(buffer)@.len() as int, final(buffer)@.len() as int),
                    final(self).data().len() as int,
                    value@,
                )
            },
            !ok ==> own_spec(old(self).data(), old(self).table(), value@).0.len() > u32::MAX,
            value@.is_scalar() ==> ok,
        decreases value, 0int,
    {
        let ghost old_data = self.data_segment@;
        let ghost old_table = self.table();
        let ghost start = buffer@.len();
        proof {
            lemma_inline_len(value@);
            assert(old_data.subrange(0, old_data.len() as int) =~= old_data);
        }
        match value {
            MmdbValue::Mapping(m) => {
                let ghost e = value@->Mapping_0;
                Self::encode_header(TYPE_MAP, m.len(), buffer);
                proof {
                    lemma_header_len(TYPE_MAP, m@.len());
                }
                let ghost mut kv: Seq<(u32, u32)> = Seq::empty();
                let mut i: usize = 0;
                while i < m.len()
                    invariant
                        *value is Mapping,
                        value->Mapping_0 == *m,
                        e == value@->Mapping_0,
                        e.len() == m@.len(),
                        forall|j: int| 0 <= j < m@.len() ==> #[trigger] e[j] == (m@[j].0@, m@[j].1@),
                        value@.arrays_fit(),
                        self.wf(),
                        extends(old_data, self.data_segment@),
                        old(self).find_kept(self),
                        i <= m@.len(),
                        kv.len() == i,
                        start == old(buffer)@.len(),
                        buffer@ == old(buffer)@ + header_bytes(TYPE_MAP, e.len()) + map_pointers(kv),
                        forall|j: int|
                            0 <= j < i ==> data_matches(self.data_segment@, kv[j].0 as int, string_field((#[trigger] e[j]).0))
                                && stored_at(self.data_segment@, kv[j].1 as int, e[j].1),
                        old_table == old(self).table(),
                        old_data == old(self).data(),
                        entries_spec(old_data, old_table, e, i as nat) == (self.data(), self.table(), map_pointers(kv)),
                    decreases m@.len() - i,
                {
                    proof {
                        assert(decreases_to!(*value => value->Mapping_0));
                        assert(decreases_to!(*m => m@));
                        assert(decreases_to!(m@ => m@[i as int]));
                        assert(decreases_to!(m@[i as int] => m@[i as int].1));
                        assert(e[i as int] == (m@[i as int].0@, m@[i as int].1@));
                        assert(e[i as int].1.arrays_fit());
                        lemma_header_len(TYPE_STRING, encode_utf8(e[i as int].0).len());
                    }
                    let ghost d0 = self.data_segment@;
                    let ghost s0 = *self;
                    let mut key_bytes: Vec<u8> = Vec::new();
                    encode_string(m[i].0.as_str(), &mut key_bytes);
                    assert(key_bytes@ =~= string_field(e[i as int].0));
                    let ghost t0 = self.table();
                    let ghost key = string_field(e[i as int].0);
                    let (kp, Ghost(ko)) = match self.store_scalar(key_bytes) {
                        Some(x) => x,
                        None => {
                            proof {
                                lemma_entries_fail(old_data, old_table, e, i as nat, true);
                            }
                            return false;
                        },
                    };
                    append_bytes(buffer, kp.as_slice());
                    let ghost d1 = self.data_segment@;
                    let ghost s1 = *self;
                    let (vp, Ghost(vo)) = match self.encode_value_at(&m[i].1) {
                        Some(x) => x,
                        None => {
                            proof {
                                lemma_entries_fail(old_data, old_table, e, i as nat, false);
                                lemma_extends_trans(old_data, d0, d1);
                                lemma_extends_trans(old_data, d1, self.data_segment@);
                            }
                            return false;
                        },
                    };
                    append_bytes(buffer, vp.as_slice());
                    proof {
                        let d2 = self.data_segment@;
                        let kv2 = kv.push((ko, vo));
                        assert(kv2.drop_last() =~= kv);
                        assert(map_pointers(kv2) == map_pointers(kv) + pointer_bytes(ko) + pointer_bytes(vo));
                        lemma_entries_step(
                            old_data,
                            old_table,
                            e,
                            i as nat,
                            map_pointers(kv),
                            (d1, s1.table(), ko),
                            (self.data(), self.table(), vo),
                        );
                        assert(buffer@ =~= old(buffer)@ + header_bytes(TYPE_MAP, e.len()) + map_pointers(kv2));
                        lemma_matches_extend(d1, d2, ko as int, string_field(e[i as int].0));
                        assert forall|j: int|
                            0 <= j < i + 1 implies data_matches(d2, kv2[j].0 as int, string_field((#[trigger] e[j]).0))
                                && stored_at(d2, kv2[j].1 as int, e[j].1) by {
                            if j < i {
                                lemma_matches_extend(d0, d1, kv[j].0 as int, string_field(e[j].0));
                                lemma_matches_extend(d1, d2, kv[j].0 as int, string_field(e[j].0));
                                lemma_stored_extend(d0, d1, kv[j].1 as int, e[j].1);
                                lemma_stored_extend(d1, d2, kv[j].1 as int, e[j].1);
                            }
                        }
                        assert(d2.subrange(0, old_data.len() as int) =~= d1.subrange(0, old_data.len() as int));
                        assert(d1.subrange(0, old_data.len() as int) =~= d0.subrange(0, old_data.len() as int));
                        kv = kv2;
                    }
                    i += 1;
                }
                proof {
                    let d = self.data_segment@;
                    let own = buffer@.subrange(start as int, buffer@.len() as int);
                    assert(own =~= header_bytes(TYPE_MAP, e.len()) + map_pointers(kv));
                    assert(buffer@.subrange(0, start as int) =~= old(buffer)@);
                    let full = d + own;
                    assert(full.subrange(d.len() as int, (d.len() + own.len()) as int) =~= own);
                    assert(extends(d, full)) by {
                        assert(full.subrange(0, d.len() as int) =~= d);
                    }
                    assert forall|j: int|
                        0 <= j < e.len() implies data_matches(full, kv[j].0 as int, string_field((#[trigger] e[j]).0))
                            && stored_at(full, kv[j].1 as int, e[j].1) by {
                        lemma_matches_extend(d, full, kv[j].0 as int, string_field(e[j].0));
                        lemma_stored_extend(d, full, kv[j].1 as int, e[j].1);
                    }
                    assert(data_matches(full, d.len() as int, header_bytes(TYPE_MAP, e.len()) + map_pointers(kv)));
                }
                true
            },
            MmdbValue::Array(a) => {
                let ghost items = value@->Array_0;
                Self::encode_header(TYPE_ARRAY, a.len(), buffer);
                proof {
                    lemma_header_len(TYPE_ARRAY, a@.len());
                }
                let ghost mut ps: Seq<u32> = Seq::empty();
                let mut i: usize = 0;
                while i < a.len()
                    invariant
                        *value is Array,
                        value->Array_0 == *a,
                        items == value@->Array_0,
                        items.len() == a@.len(),
                        forall|j: int| 0 <= j < a@.len() ==> #[trigger] items[j] == a@[j]@,
                        value@.arrays_fit(),
                        self.wf(),
                        extends(old_data, self.data_segment@),
                        old(self).find_kept(self),
                        i <= a@.len(),
                        ps.len() == i,
                        start == old(buffer)@.len(),
                        buffer@ == old(buffer)@ + header_bytes(TYPE_ARRAY, items.len()) + array_pointers(ps),
                        forall|j: int| 0 <= j < i ==> stored_at(self.data_segment@, ps[j] as int, #[trigger] items[j]),
                        old_table == old(self).table(),
                        old_data == old(self).data(),
                        items_spec(old_data, old_table, items, i as nat) == (self.data(), self.table(), array_pointers(ps)),
                    decreases a@.len() - i,
                {
                    proof {
                        assert(decreases_to!(*value => value->Array_0));
                        assert(decreases_to!(*a => a@));
                        assert(decreases_to!(a@ => a@[i as int]));
                        assert(items[i as int] == a@[i as int]@);
                        assert(items[i as int].arrays_fit());
                    }
                    let ghost d0 = self.data_segment@;
                    let ghost old_table_at_i = self.table();
                    let (p, Ghost(po)) = match self.encode_value_at(&a[i]) {
                        Some(x) => x,
                        None => {
                            proof {
                                lemma_items_fail(old_data, old_table, items, i as nat);
                                lemma_extends_trans(old_data, d0, self.data_segment@);
                            }
                            return false;
                        },
                    };
                    append_bytes(buffer, p.as_slice());
                    proof {
                        let d1 = self.data_segment@;
                        let ps2 = ps.push(po);
                        assert(ps2.drop_last() =~= ps);
                        assert(array_pointers(ps2) == array_pointers(ps) + pointer_bytes(po));
                        lemma_items_step(
                            old_data,
                            old_table,
                            items,
                            i as nat,
                            array_pointers(ps),
                            (self.data(), self.table(), po),
                        );
                        assert(buffer@ =~= old(buffer)@ + header_bytes(TYPE_ARRAY, items.len()) + array_pointers(ps2));
                        assert forall|j: int| 0 <= j < i + 1 implies stored_at(d1, ps2[j] as int, #[trigger] items[j]) by {
                            if j < i {
                                lemma_stored_extend(d0, d1, ps[j] as int, items[j]);
                            }
                        }
                        assert(d1.subrange(0, old_data.len() as int) =~= d0.subrange(0, old_data.len() as int));
                        ps = ps2;
                    }
                    i += 1;
                }
                proof {
                    let d = self.data_segment@;
                    let own = buffer@.subrange(start as int, buffer@.len() as int);
                    assert(own =~= header_bytes(TYPE_ARRAY, items.len()) + array_pointers(ps));
                    assert(buffer@.subrange(0, start as int) =~= old(buffer)@);
                    let full = d + own;
                    assert(full.subrange(d.len() as int, (d.len() + own.len()) as int) =~= own);
                    assert(extends(d, full)) by {
                        assert(full.subrange(0, d.len() as int) =~= d);
                    }
                    assert forall|j: int| 0 <= j < items.len() implies stored_at(full, ps[j] as int, #[trigger] items[j]) by {
                        lemma_stored_extend(d, full, ps[j] as int, items[j]);
                    }
                    assert(data_matches(full, d.len() as int, header_bytes(TYPE_ARRAY, items.len()) + array_pointers(ps)));
                }
                true
            },
            _ => {
                Self::encode_scalar(value, buffer);
                proof {
                    let d = self.data_segment@;
                    let own = buffer@.subrange(start as int, buffer@.len() as int);
                    assert(own =~= scalar_bytes(value@));
                    assert(buffer@.subrange(0, start as int) =~= old(buffer)@);
                    let full = d + own;
                    assert(full.subrange(d.len() as int, (d.len() + own.len()) as int) =~= own);
                }
                true
            },
        }
    }
}


/// Writing the scalar bytes `bytes` to the data section `data`, whose table
/// of scalars written maps bytes to their offsets: bytes written before are
/// not written again. The data section and table after, and the offset of
/// the bytes.
pub open spec fn store_spec(data: Seq<u8>, table: Map<Seq<u8>, u32>, bytes: Seq<u8>) -> (Seq<u8>, Map<Seq<u8>, u32>, u32) {
    if table.contains_key(bytes) {
        (data, table, table[bytes])
    } else {
        (data + bytes, table.insert(bytes, data.len() as u32), data.len() as u32)
    }
}

/// Writing `d` to the data section: a scalar as by `store_spec`; a map or
/// array by first writing its members (`own_spec`), then its own bytes at the
/// end. The data section and table after, and the offset of `d`.
pub open spec fn value_spec(data: Seq<u8>, table: Map<Seq<u8>, u32>, d: Datum) -> (Seq<u8>, Map<Seq<u8>, u32>, u32)
    decreases d, 1nat,
{
    if d.is_scalar() {
        store_spec(data, table, scalar_bytes(d))
    } else {
        let (data1, table1, own) = own_spec(data, table, d);
        (data1 + own, table1, data1.len() as u32)
    }
}

/// The members of `d` written to the data section and `d`'s own bytes: for a
/// scalar, its bytes (nothing is written); for a map, its header, then for
/// each entry in order a pointer to its key (a string written as by
/// `store_spec`) and a pointer to its value (written as by `value_spec`); for
/// an array, its header, then a pointer per member in order.
pub open spec fn own_spec(data: Seq<u8>, table: Map<Seq<u8>, u32>, d: Datum) -> (Seq<u8>, Map<Seq<u8>, u32>, Seq<u8>)
    decreases d, 0nat,
{
    match d {
        Datum::Mapping(e) => {
            let (data1, table1, ptrs) = entries_spec(data, table, e, e.len());
            (data1, table1, header_bytes(TYPE_MAP, e.len()) + ptrs)
        },
        Datum::Array(a) => {
            let (data1, table1, ptrs) = items_spec(data, table, a, a.len());
            (data1, table1, header_bytes(TYPE_ARRAY, a.len()) + ptrs)
        },
        _ => (data, table, scalar_bytes(d)),
    }
}

/// The first `n` entries of a map written, first to last, and their pointers.
pub open spec fn entries_spec(data: Seq<u8>, table: Map<Seq<u8>, u32>, e: Seq<(Seq<char>, Datum)>, n: nat) -> (
    Seq<u8>,
    Map<Seq<u8>, u32>,
    Seq<u8>,
)
    decreases e, n,
{
    if 0 < n <= e.len() {
        let (d1, t1, ptrs) = entries_spec(data, table, e, (n - 1) as nat);
        let (d2, t2, ko) = store_spec(d1, t1, string_field(e[n - 1].0));
        let (d3, t3, vo) = value_spec(d2, t2, e[n - 1].1);
        (d3, t3, ptrs + pointer_bytes(ko) + pointer_bytes(vo))
    } else {
        (data, table, seq![])
    }
}

/// The first `n` members of an array written, first to last, and their pointers.
pub open spec fn items_spec(data: Seq<u8>, table: Map<Seq<u8>, u32>, a: Seq<Datum>, n: nat) -> (
    Seq<u8>,
    Map<Seq<u8>, u32>,
    Seq<u8>,
)
    decreases a, n,
{
    if 0 < n <= a.len() {
        let (d1, t1, ptrs) = items_spec(data, table, a, (n - 1) as nat);
        let (d2, t2, o) = value_spec(d1, t1, a[n - 1]);
        (d2, t2, ptrs + pointer_bytes(o))
    } else {
        (data, table, seq![])
    }
}

/// `extends` is transitive.
pub proof fn lemma_extends_trans(a: Seq<u8>, b: Seq<u8>, c: Seq<u8>)
    requires
        extends(a, b),
        extends(b, c),
    ensures
        extends(a, c),
{
    assert(c.subrange(0, a.len() as int) =~= b.subrange(0, a.len() as int));
}

/// A section extends itself followed by more bytes.
pub proof fn lemma_extends_append(a: Seq<u8>, b: Seq<u8>)
    ensures
        extends(a, a + b),
{
    assert((a + b).subrange(0, a.len() as int) =~= a);
}

/// Writing a value only appends to the data section.
pub proof fn lemma_value_spec_grows(data: Seq<u8>, table: Map<Seq<u8>, u32>, d: Datum)
    ensures
        extends(data, value_spec(data, table, d).0),
    decreases d, 1nat,
{
    if d.is_scalar() {
        lemma_extends_append(data, scalar_bytes(d));
        assert(extends(data, data)) by {
            assert(data.subrange(0, data.len() as int) =~= data);
        }
    } else {
        let (data1, table1, own) = own_spec(data, table, d);
        lemma_own_spec_grows(data, table, d);
        lemma_extends_append(data1, own);
        lemma_extends_trans(data, data1, data1 + own);
    }
}

/// Writing the members of a value only appends to the data section.
pub proof fn lemma_own_spec_grows(data: Seq<u8>, table: Map<Seq<u8>, u32>, d: Datum)
    ensures
        extends(data, own_spec(data, table, d).0),
    decreases d, 0nat,
{
    match d {
        Datum::Mapping(e) => lemma_entries_spec_grows(data, table, e, e.len()),
        Datum::Array(a) => lemma_items_spec_grows(data, table, a, a.len()),
        _ => {
            assert(data.subrange(0, data.len() as int) =~= data);
        },
    }
}

pub proof fn lemma_entries_spec_grows(data: Seq<u8>, table: Map<Seq<u8>, u32>, e: Seq<(Seq<char>, Datum)>, n: nat)
    ensures
        extends(data, entries_spec(data, table, e, n).0),
    decreases e, n,
{
    if 0 < n <= e.len() {
        let (d1, t1, ptrs) = entries_spec(data, table, e, (n - 1) as nat);
        let (d2, t2, ko) = store_spec(d1, t1, string_field(e[n - 1].0));
        lemma_entries_spec_grows(data, table, e, (n - 1) as nat);
        lemma_store_spec_grows(d1, t1, string_field(e[n - 1].0));
        lemma_value_spec_grows(d2, t2, e[n - 1].1);
        lemma_extends_trans(data, d1, d2);
        lemma_extends_trans(data, d2, value_spec(d2, t2, e[n - 1].1).0);
    } else {
        assert(data.subrange(0, data.len() as int) =~= data);
    }
}

pub proof fn lemma_items_spec_grows(data: Seq<u8>, table: Map<Seq<u8>, u32>, a: Seq<Datum>, n: nat)
    ensures
        extends(data, items_spec(data, table, a, n).0),
    decreases a, n,
{
    if 0 < n <= a.len() {
        let (d1, t1, ptrs) = items_spec(data, table, a, (n - 1) as nat);
        lemma_items_spec_grows(data, table, a, (n - 1) as nat);
        lemma_value_spec_grows(d1, t1, a[n - 1]);
        lemma_extends_trans(data, d1, value_spec(d1, t1, a[n - 1]).0);
    } else {
        assert(data.subrange(0, data.len() as int) =~= data);
    }
}

/// Storing scalar bytes only appends to the data section.
pub proof fn lemma_store_spec_grows(data: Seq<u8>, table: Map<Seq<u8>, u32>, bytes: Seq<u8>)
    ensures
        extends(data, store_spec(data, table, bytes).0),
{
    lemma_extends_append(data, bytes);
    assert(data.subrange(0, data.len() as int) =~= data);
}

/// The first `i` entries leave a data section that the first `n` extend.
pub proof fn lemma_entries_spec_mono(data: Seq<u8>, table: Map<Seq<u8>, u32>, e: Seq<(Seq<char>, Datum)>, i: nat, n: nat)
    requires
        i <= n <= e.len(),
    ensures
        extends(entries_spec(data, table, e, i).0, entries_spec(data, table, e, n).0),
    decreases n,
{
    if i == n {
        let d = entries_spec(data, table, e, i).0;
        assert(d.subrange(0, d.len() as int) =~= d);
    } else {
        lemma_entries_spec_mono(data, table, e, i, (n - 1) as nat);
        let (d1, t1, ptrs) = entries_spec(data, table, e, (n - 1) as nat);
        let (d2, t2, ko) = store_spec(d1, t1, string_field(e[n - 1].0));
        lemma_store_spec_grows(d1, t1, string_field(e[n - 1].0));
        lemma_value_spec_grows(d2, t2, e[n - 1].1);
        lemma_extends_trans(d1, d2, value_spec(d2, t2, e[n - 1].1).0);
        lemma_extends_trans(entries_spec(data, table, e, i).0, d1, value_spec(d2, t2, e[n - 1].1).0);
    }
}

/// The first `i` members leave a data section that the first `n` extend.
pub proof fn lemma_items_spec_mono(data: Seq<u8>, table: Map<Seq<u8>, u32>, a: Seq<Datum>, i: nat, n: nat)
    requires
        i <= n <= a.len(),
    ensures
        extends(items_spec(data, table, a, i).0, items_spec(data, table, a, n).0),
    decreases n,
{
    if i == n {
        let d = items_spec(data, table, a, i).0;
        assert(d.subrange(0, d.len() as int) =~= d);
    } else {
        lemma_items_spec_mono(data, table, a, i, (n - 1) as nat);
        let (d1, t1, ptrs) = items_spec(data, table, a, (n - 1) as nat);
        lemma_value_spec_grows(d1, t1, a[n - 1]);
        lemma_extends_trans(items_spec(data, table, a, i).0, d1, value_spec(d1, t1, a[n - 1]).0);
    }
}

/// A scalar written a second time is not written again: the data section
/// and table stay as the first write left them, the offset is the same, and
/// the table holds the scalar at that offset.
pub proof fn law_scalar_written_once(data: Seq<u8>, table: Map<Seq<u8>, u32>, d: Datum)
    requires
        d.is_scalar(),
    ensures
        ({
            let (d1, t1, o1) = value_spec(data, table, d);
            &&& value_spec(d1, t1, d) == (d1, t1, o1)
            &&& t1.contains_key(scalar_bytes(d))
            &&& t1[scalar_bytes(d)] == o1
        }),
{
}

/// A map or array is written anew every time: its members first, then its
/// own bytes (header and pointers) at or after the end of the data section
/// as it stood, ending the section; the section grows by at least those own
/// bytes, and the table records nothing for the value itself (where the
/// section stays within 4 GiB, as `encode_value` requires).
pub proof fn law_container_written_anew(data: Seq<u8>, table: Map<Seq<u8>, u32>, d: Datum)
    requires
        !d.is_scalar(),
        value_spec(data, table, d).0.len() <= u32::MAX,
    ensures
        ({
            let (d1, t1, o) = value_spec(data, table, d);
            let (m, mt, own) = own_spec(data, table, d);
            &&& data.len() <= o
            &&& o == m.len()
            &&& d1 == m + own
            &&& t1 == mt
            &&& d1.len() >= data.len() + own.len()
            &&& own.len() > 0
        }),
{
    lemma_own_spec_grows(data, table, d);
    match d {
        Datum::Mapping(e) => lemma_header_len(TYPE_MAP, e.len()),
        Datum::Array(a) => lemma_header_len(TYPE_ARRAY, a.len()),
        _ => {},
    }
}

/// Entry `i` of a map written after the first `i`: the first `i + 1`.
proof fn lemma_entries_step(
    od: Seq<u8>,
    ot: Map<Seq<u8>, u32>,
    e: Seq<(Seq<char>, Datum)>,
    i: nat,
    ptrs: Seq<u8>,
    k: (Seq<u8>, Map<Seq<u8>, u32>, u32),
    v: (Seq<u8>, Map<Seq<u8>, u32>, u32),
)
    requires
        i < e.len(),
        entries_spec(od, ot, e, i).2 == ptrs,
        k == store_spec(entries_spec(od, ot, e, i).0, entries_spec(od, ot, e, i).1, string_field(e[i as int].0)),
        v == value_spec(k.0, k.1, e[i as int].1),
    ensures
        entries_spec(od, ot, e, i + 1) == (v.0, v.1, ptrs + pointer_bytes(k.2) + pointer_bytes(v.2)),
{
}

/// A map's members whose entry `i` would take the data section past 4 GiB
/// take all of it past 4 GiB.
proof fn lemma_entries_fail(
    od: Seq<u8>,
    ot: Map<Seq<u8>, u32>,
    e: Seq<(Seq<char>, Datum)>,
    i: nat,
    key_fails: bool,
)
    requires
        i < e.len(),
        ({
            let (d0, t0, p0) = entries_spec(od, ot, e, i);
            let (d1, t1, ko) = store_spec(d0, t0, string_field(e[i as int].0));
            if key_fails {
                d1.len() > u32::MAX
            } else {
                value_spec(d1, t1, e[i as int].1).0.len() > u32::MAX
            }
        }),
    ensures
        own_spec(od, ot, Datum::Mapping(e)).0.len() > u32::MAX,
{
    let (d0, t0, p0) = entries_spec(od, ot, e, i);
    let (d1, t1, ko) = store_spec(d0, t0, string_field(e[i as int].0));
    lemma_value_spec_grows(d1, t1, e[i as int].1);
    lemma_entries_spec_mono(od, ot, e, i + 1, e.len());
}

/// Member `i` of an array written after the first `i`: the first `i + 1`.
proof fn lemma_items_step(
    od: Seq<u8>,
    ot: Map<Seq<u8>, u32>,
    a: Seq<Datum>,
    i: nat,
    ptrs: Seq<u8>,
    v: (Seq<u8>, Map<Seq<u8>, u32>, u32),
)
    requires
        i < a.len(),
        items_spec(od, ot, a, i).2 == ptrs,
        v == value_spec(items_spec(od, ot, a, i).0, items_spec(od, ot, a, i).1, a[i as int]),
    ensures
        items_spec(od, ot, a, i + 1) == (v.0, v.1, ptrs + pointer_bytes(v.2)),
{
}

/// An array's members whose member `i` would take the data section past
/// 4 GiB take all of it past 4 GiB.
proof fn lemma_items_fail(od: Seq<u8>, ot: Map<Seq<u8>, u32>, a: Seq<Datum>, i: nat)
    requires
        i < a.len(),
        value_spec(items_spec(od, ot, a, i).0, items_spec(od, ot, a, i).1, a[i as int]).0.len() > u32::MAX,
    ensures
        own_spec(od, ot, Datum::Array(a)).0.len() > u32::MAX,
{
    lemma_items_spec_mono(od, ot, a, i + 1, a.len());
}

/// The model of an ordered list of map entries whose keys are string slices.
pub open spec fn ordered_entries(entries: Seq<(&str, MmdbValue)>) -> Seq<(Seq<char>, Datum)> {
    Seq::new(entries.len(), |i: int| (entries[i].0@, entries[i].1@))
}

impl Encoder {
    /// Writes `value` to the data section and returns a pointer to it, as
    /// `value_spec` lays it out. A scalar that was written before is not
    /// written again: the pointer leads to where it already stands. Maps and
    /// arrays are always written anew at the end, after their members, each
    /// member through a pointer of its own, and are not recorded.
    pub fn encode_value(&mut self, value: &MmdbValue) -> (r: Vec<u8>)
        requires
            old(self).wf(),
            value@.arrays_fit(),
            value_spec(old(self).data(), old(self).table(), value@).0.len() <= u32::MAX,
        ensures
            final(self).wf(),
            extends(old(self).data(), final(self).data()),
            old(self).cache_kept(final(self)),
            exists|off: u32|
                {
                    &&& r@ == #[trigger] pointer_bytes(off)
                    &&& stored_at(final(self).data(), off as int, value@)
                    &&& value@.is_scalar() ==> final(self).cached(value@) == Some(off)
                },
            value@.is_scalar() && old(self).cached(value@) is Some ==> r@ == pointer_bytes(
                old(self).cached(value@)->0,
            ) && final(self).data() == old(self).data(),
            value@.is_scalar() && old(self).cached(value@) is None ==> r@ == pointer_bytes(
                old(self).data().len() as u32,
            ) && final(self).data() == old(self).data() + scalar_bytes(value@),
            final(self).data() == value_spec(old(self).data(), old(self).table(), value@).0,
            final(self).table() == value_spec(old(self).data(), old(self).table(), value@).1,
            r@ == pointer_bytes(value_spec(old(self).data(), old(self).table(), value@).2),
            !value@.is_scalar() ==> old(self).data().len() <= value_spec(old(self).data(), old(self).table(), value@).2
                && final(self).cached(value@) is None,
    {
        match self.encode_value_at(value) {
            Some(x) => {
                let (r, Ghost(off)) = x;
                proof {
                    old(self).lemma_find_kept(self);
                    assert(r@ == pointer_bytes(off));
                }
                r
            },
            None => {
                proof {
                    assert(false);
                }
                Vec::new()
            },
        }
    }

    /// Writes `value` to the data section (always, even a scalar written
    /// before) and returns the offset at which it is held: its members first
    /// (as `own_spec` lays them out), then its own bytes, which end the data
    /// section. The value itself is not recorded in the table.
    pub fn encode_leaf(&mut self, value: &MmdbValue) -> (offset: u32)
        requires
            old(self).wf(),
            value@.arrays_fit(),
            own_spec(old(self).data(), old(self).table(), value@).0.len() + own_spec(
                old(self).data(),
                old(self).table(),
                value@,
            ).2.len() <= u32::MAX,
        ensures
            final(self).wf(),
            extends(old(self).data(), final(self).data()),
            old(self).cache_kept(final(self)),
            stored_at(final(self).data(), offset as int, value@),
            old(self).data().len() <= offset < final(self).data().len(),
            final(self).data() == own_spec(old(self).data(), old(self).table(), value@).0 + own_spec(
                old(self).data(),
                old(self).table(),
                value@,
            ).2,
            offset == own_spec(old(self).data(), old(self).table(), value@).0.len(),
            final(self).table() == own_spec(old(self).data(), old(self).table(), value@).1,
            final(self).cached(value@) == old(self).cached(value@),
    {
        match self.store_leaf(value) {
            Some(offset) => offset,
            None => {
                proof {
                    assert(false);
                }
                0
            },
        }
    }

    /// `encode_leaf`, or `None` where the data section would grow past 4 GiB.
    pub(crate) fn store_leaf(&mut self, value: &MmdbValue) -> (r: Option<u32>)
        requires
            old(self).wf(),
            value@.arrays_fit(),
        ensures
            final(self).wf(),
            extends(old(self).data(), final(self).data()),
            old(self).cache_kept(final(self)),
            match r {
                Some(offset) => {
                    &&& stored_at(final(self).data(), offset as int, value@)
                    &&& old(self).data().len() <= offset < final(self).data().len()
                    &&& final(self).data() == own_spec(old(self).data(), old(self).table(), value@).0 + own_spec(
                        old(self).data(),
                        old(self).table(),
                        value@,
                    ).2
                    &&& offset == own_spec(old(self).data(), old(self).table(), value@).0.len()
                    &&& final(self).table() == own_spec(old(self).data(), old(self).table(), value@).1
                    &&& final(self).cached(value@) == old(self).cached(value@)
                },
                None => own_spec(old(self).data(), old(self).table(), value@).0.len() + own_spec(
                    old(self).data(),
                    old(self).table(),
                    value@,
                ).2.len() > u32::MAX,
            },
    {
        let mut actual_bytes: Vec<u8> = Vec::new();
        let ok = self.encode_cached_bytes(value, &mut actual_bytes);
        proof {
            old(self).lemma_find_kept(self);
        }
        if !ok {
            return None;
        }
        if actual_bytes.len() as u64 > 0xFFFF_FFFF - self.data_segment.len() as u64 {
            return None;
        }
        let ghost mid = self.data_segment@;
        let offset = self.data_segment.len() as u32;
        append_bytes(&mut self.data_segment, actual_bytes.as_slice());
        proof {
            assert(actual_bytes@.subrange(0, 0) =~= Seq::<u8>::empty());
            assert(actual_bytes@.subrange(0, actual_bytes@.len() as int) =~= actual_bytes@);
            assert(self.data_segment@ =~= mid + actual_bytes@);
            assert(self.data_segment@.subrange(0, mid.len() as int) =~= mid);
            self.cache.lemma_matches_extend(mid, self.data_segment@);
            assert(self.data_segment@.subrange(0, old(self).data_segment@.len() as int) =~= old(self).data_segment@);
            old(self).lemma_find_kept(self);
            lemma_inline_len(value@);
            if actual_bytes@.len() == 0 {
                lemma_header_len(0, 0);
            }
            old(self).lemma_cached_is_table(value@);
            self.lemma_cached_is_table(value@);
        }
        Some(offset)
    }

    /// Writes a value in full, members in place (no pointers).
    fn encode_inline_recursive(value: &MmdbValue, buffer: &mut Vec<u8>)
        requires
            value@.arrays_fit(),
        ensures
            final(buffer)@ == old(buffer)@ + inline_bytes(value@),
        decreases value,
    {
        match value {
            MmdbValue::Mapping(m) => {
                let ghost e = value@->Mapping_0;
                Self::encode_header(TYPE_MAP, m.len(), buffer);
                let mut i: usize = 0;
                while i < m.len()
                    invariant
                        *value is Mapping,
                        value->Mapping_0 == *m,
                        e == value@->Mapping_0,
                        e.len() == m@.len(),
                        forall|j: int| 0 <= j < m@.len() ==> #[trigger] e[j] == (m@[j].0@, m@[j].1@),
                        value@.arrays_fit(),
                        i <= m@.len(),
                        buffer@ == old(buffer)@ + header_bytes(TYPE_MAP, e.len()) + inline_entries(e, i as nat),
                    decreases m@.len() - i,
                {
                    proof {
                        assert(decreases_to!(*value => value->Mapping_0));
                        assert(decreases_to!(*m => m@));
                        assert(decreases_to!(m@ => m@[i as int]));
                        assert(decreases_to!(m@[i as int] => m@[i as int].1));
                        assert(e[i as int] == (m@[i as int].0@, m@[i as int].1@));
                        assert(e[i as int].1.arrays_fit());
                    }
                    encode_string(m[i].0.as_str(), buffer);
                    Self::encode_inline_recursive(&m[i].1, buffer);
                    i += 1;
                    assert(buffer@ =~= old(buffer)@ + header_bytes(TYPE_MAP, e.len()) + inline_entries(e, i as nat));
                }
            },
            MmdbValue::Array(a) => {
                let ghost items = value@->Array_0;
                Self::encode_header(TYPE_ARRAY, a.len(), buffer);
                let mut i: usize = 0;
                while i < a.len()
                    invariant
                        *value is Array,
                        value->Array_0 == *a,
                        items == value@->Array_0,
                        items.len() == a@.len(),
                        forall|j: int| 0 <= j < a@.len() ==> #[trigger] items[j] == a@[j]@,
                        value@.arrays_fit(),
                        i <= a@.len(),
                        buffer@ == old(buffer)@ + header_bytes(TYPE_ARRAY, items.len()) + inline_items(items, i as nat),
                    decreases a@.len() - i,
                {
                    proof {
                        assert(decreases_to!(*value => value->Array_0));
                        assert(decreases_to!(*a => a@));
                        assert(decreases_to!(a@ => a@[i as int]));
                        assert(items[i as int] == a@[i as int]@);
                        assert(items[i as int].arrays_fit());
                    }
                    Self::encode_inline_recursive(&a[i], buffer);
                    i += 1;
                    assert(buffer@ =~= old(buffer)@ + header_bytes(TYPE_ARRAY, items.len()) + inline_items(items, i as nat));
                }
            },
            _ => {
                Self::encode_scalar(value, buffer);
                proof {
                    lemma_inline_len(value@);
                }
            },
        }
    }

    /// Writes a map in full with its entries in the given order: each key as
    /// a string field, then its value in full.
    pub fn encode_ordered_map_inline(entries: &[(&str, MmdbValue)]) -> (r: Vec<u8>)
        requires
            forall|i: int| 0 <= i < entries@.len() ==> (#[trigger] entries@[i]).1@.arrays_fit(),
        ensures
            r@ == inline_bytes(Datum::Mapping(ordered_entries(entries@))),
    {
        let ghost e = ordered_entries(entries@);
        let mut buffer: Vec<u8> = Vec::new();
        Self::encode_header(TYPE_MAP, entries.len(), &mut buffer);
        let mut i: usize = 0;
        while i < entries.len()
            invariant
                e == ordered_entries(entries@),
                forall|i: int| 0 <= i < entries@.len() ==> (#[trigger] entries@[i]).1@.arrays_fit(),
                i <= entries@.len(),
                buffer@ == header_bytes(TYPE_MAP, e.len()) + inline_entries(e, i as nat),
            decreases entries@.len() - i,
        {
            assert(e[i as int] == (entries@[i as int].0@, entries@[i as int].1@));
            encode_string(entries[i].0, &mut buffer);
            Self::encode_inline_recursive(&entries[i].1, &mut buffer);
            i += 1;
            assert(buffer@ =~= header_bytes(TYPE_MAP, e.len()) + inline_entries(e, i as nat));
        }
        buffer
    }

    /// The data section written so far.
    pub fn get_data_segment(&self) -> (r: &[u8])
        ensures
            r@ == self.data(),
    {
        self.data_segment.as_slice()
    }

    /// The offset at which the scalar `value` was written, if it was.
    pub fn get_offset(&self, value: &MmdbValue) -> (r: Option<u32>)
        requires
            self.wf(),
        ensures
            r == self.cached(value@),
    {
        match value {
            MmdbValue::Mapping(_) | MmdbValue::Array(_) => None,
            _ => {
                let mut bytes: Vec<u8> = Vec::new();
                Self::encode_scalar(value, &mut bytes);
                assert(bytes@ =~= scalar_bytes(value@));
                self.cache.lookup(bytes.as_slice())
            },
        }
    }
}

} // verus!
