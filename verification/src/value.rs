use vstd::prelude::*;
use crate::options::str_equal;

verus! {

/// A value that can be stored in the data section of an MMDB file.
///
/// Floating-point values are held by their IEEE-754 bit patterns
/// (`Double` holds the bits of an `f64`, `Float` those of an `f32`);
/// the encoder writes exactly these bits in big-endian order.
/// A `Mapping` holds its entries in the order in which they are written; a
/// value stored in a database has distinct keys in each map
/// (`Datum::keys_distinct`).
#[derive(Debug, PartialEq)]
pub enum MmdbValue {
    String(String),
    Double(u64),
    Bytes(Vec<u8>),
    Uint16(u16),
    Uint32(u32),
    Mapping(Vec<(String, MmdbValue)>),
    Int32(i32),
    Uint64(u64),
    Uint128(u128),
    Array(Vec<MmdbValue>),
    Boolean(bool),
    Float(u32),
}

/// The mathematical model of an `MmdbValue`.
pub enum Datum {
    String(Seq<char>),
    Double(u64),
    Bytes(Seq<u8>),
    Uint16(u16),
    Uint32(u32),
    Mapping(Seq<(Seq<char>, Datum)>),
    Int32(i32),
    Uint64(u64),
    Uint128(u128),
    Array(Seq<Datum>),
    Boolean(bool),
    Float(u32),
}

pub open spec fn value_model(v: MmdbValue) -> Datum
    decreases v,
{
    match v {
        MmdbValue::String(s) => Datum::String(s@),
        MmdbValue::Double(d) => Datum::Double(d),
        MmdbValue::Bytes(b) => Datum::Bytes(b@),
        MmdbValue::Uint16(u) => Datum::Uint16(u),
        MmdbValue::Uint32(u) => Datum::Uint32(u),
        MmdbValue::Mapping(m) => Datum::Mapping(
            Seq::new(
                m@.len(),
                |i: int|
                    if 0 <= i < m@.len() {
                        (m@[i].0@, value_model(m@[i].1))
                    } else {
                        (Seq::empty(), Datum::Boolean(false))
                    },
            ),
        ),
        MmdbValue::Int32(i) => Datum::Int32(i),
        MmdbValue::Uint64(u) => Datum::Uint64(u),
        MmdbValue::Uint128(u) => Datum::Uint128(u),
        MmdbValue::Array(a) => Datum::Array(
            Seq::new(
                a@.len(),
                |i: int|
                    if 0 <= i < a@.len() {
                        value_model(a@[i])
                    } else {
                        Datum::Boolean(false)
                    },
            ),
        ),
        MmdbValue::Boolean(b) => Datum::Boolean(b),
        MmdbValue::Float(f) => Datum::Float(f),
    }
}

impl View for MmdbValue {
    type V = Datum;

    open spec fn view(&self) -> Datum {
        value_model(*self)
    }
}

/// The largest number of elements an array may have: the size field of an
/// extended type cannot describe more.
pub const MAX_EXTENDED_LEN: usize = 16843036;

impl Datum {
    /// Scalars are the values the encoder deduplicates; maps and arrays are not.
    pub open spec fn is_scalar(self) -> bool {
        !(self is Mapping) && !(self is Array)
    }

    /// Every array, at any depth, has fewer than `MAX_EXTENDED_LEN` elements.
    pub open spec fn arrays_fit(self) -> bool
        decreases self,
    {
        match self {
            Datum::Mapping(e) => forall|i: int| 0 <= i < e.len() ==> (#[trigger] e[i]).1.arrays_fit(),
            Datum::Array(a) => a.len() < MAX_EXTENDED_LEN && forall|i: int|
                0 <= i < a.len() ==> (#[trigger] a[i]).arrays_fit(),
            _ => true,
        }
    }

    /// No map, at any depth, holds the same key twice (as the keys of a
    /// hash map cannot).
    pub open spec fn keys_distinct(self) -> bool
        decreases self,
    {
        match self {
            Datum::Mapping(e) => keys_unique(e) && (forall|i: int|
                0 <= i < e.len() ==> (#[trigger] e[i]).1.keys_distinct()),
            Datum::Array(a) => forall|i: int| 0 <= i < a.len() ==> (#[trigger] a[i]).keys_distinct(),
            _ => true,
        }
    }
}

/// No two of the entries `e` have the same key.
pub open spec fn keys_unique(e: Seq<(Seq<char>, Datum)>) -> bool {
    forall|i: int, j: int| 0 <= i < j < e.len() ==> (#[trigger] e[i]).0 != (#[trigger] e[j]).0
}

/// The entries of a map as the model holds them.
pub open spec fn entries_model(v: Seq<(String, MmdbValue)>) -> Seq<(Seq<char>, Datum)> {
    Seq::new(v.len(), |i: int| (v[i].0@, v[i].1@))
}

/// Sets `key` to `value` among the entries of a map, as a hash map's insert
/// does: the entry with that key takes the new value in its place, or, where
/// no entry has the key, the pair is added at the end.
pub fn insert_entry(entries: &mut Vec<(String, MmdbValue)>, key: String, value: MmdbValue)
    ensures
        (exists|i: int| 0 <= i < old(entries)@.len() && (#[trigger] old(entries)@[i]).0@ == key@) ==> exists|i: int|
            0 <= i < old(entries)@.len() && (#[trigger] old(entries)@[i]).0@ == key@ && entries_model(final(entries)@)
                == entries_model(old(entries)@).update(i, (key@, value@)),
        !(exists|i: int| 0 <= i < old(entries)@.len() && (#[trigger] old(entries)@[i]).0@ == key@) ==> entries_model(
            final(entries)@,
        ) == entries_model(old(entries)@).push((key@, value@)),
        keys_unique(entries_model(old(entries)@)) ==> keys_unique(entries_model(final(entries)@)),
{
    let mut i: usize = 0;
    while i < entries.len()
        invariant
            entries@ == old(entries)@,
            i <= entries@.len(),
            forall|j: int| 0 <= j < i ==> (#[trigger] entries@[j]).0@ != key@,
        decreases entries@.len() - i,
    {
        if str_equal(entries[i].0.as_str(), key.as_str()) {
            let ghost k = key@;
            let ghost v = value@;
            entries.set(i, (key, value));
            proof {
                assert(entries_model(entries@) =~= entries_model(old(entries)@).update(i as int, (k, v)));
                assert(old(entries)@[i as int].0@ == k);
                let e0 = entries_model(old(entries)@);
                let e1 = entries_model(entries@);
                assert(e0[i as int].0 == k);
                if keys_unique(e0) {
                    assert forall|a: int, b: int| 0 <= a < b < e1.len() implies (#[trigger] e1[a]).0 != (
                    #[trigger] e1[b]).0 by {
                        assert(e0[a].0 != e0[b].0);
                        if a == i {
                            assert(e1[a].0 == e0[a].0);
                        }
                        if b == i {
                            assert(e1[b].0 == e0[b].0);
                        }
                    }
                }
            }
            return;
        }
        i += 1;
    }
    let ghost k = key@;
    let ghost v = value@;
    entries.push((key, value));
    proof {
        assert(entries_model(entries@) =~= entries_model(old(entries)@).push((k, v)));
        let e0 = entries_model(old(entries)@);
        let e1 = entries_model(entries@);
        if keys_unique(e0) {
            assert forall|a: int, b: int| 0 <= a < b < e1.len() implies (#[trigger] e1[a]).0 != (#[trigger] e1[b]).0 by {
                if b == e0.len() {
                    assert(old(entries)@[a].0@ != k);
                } else {
                    assert(e0[a].0 != e0[b].0);
                }
            }
        }
    }
}

fn clone_string(s: &String) -> (r: String)
    ensures
        r@ == s@,
{
    s.clone()
}

fn clone_bytes(b: &Vec<u8>) -> (r: Vec<u8>)
    ensures
        r@ == b@,
{
    let mut r: Vec<u8> = Vec::new();
    let mut i: usize = 0;
    while i < b.len()
        invariant
            i <= b.len(),
            r@ == b@.subrange(0, i as int),
        decreases b.len() - i,
    {
        r.push(b[i]);
        i += 1;
    }
    r
}

impl MmdbValue {
    /// A copy of the value, equal to it in every part.
    pub fn deep_clone(&self) -> (r: MmdbValue)
        ensures
            r@ == self@,
        decreases self,
    {
        match self {
            MmdbValue::String(s) => MmdbValue::String(clone_string(s)),
            MmdbValue::Double(d) => MmdbValue::Double(*d),
            MmdbValue::Bytes(b) => MmdbValue::Bytes(clone_bytes(b)),
            MmdbValue::Uint16(u) => MmdbValue::Uint16(*u),
            MmdbValue::Uint32(u) => MmdbValue::Uint32(*u),
            MmdbValue::Mapping(m) => {
                let mut r: Vec<(String, MmdbValue)> = Vec::new();
                let mut i: usize = 0;
                while i < m.len()
                    invariant
                        *self is Mapping,
                        self->Mapping_0 == *m,
                        i <= m@.len(),
                        r@.len() == i,
                        forall|j: int|
                            0 <= j < i ==> (#[trigger] r@[j]).0@ == m@[j].0@ && r@[j].1@ == m@[j].1@,
                    decreases m@.len() - i,
                {
                    let k = clone_string(&m[i].0);
                    proof {
                        assert(decreases_to!(*self => self->Mapping_0));
                        assert(decreases_to!(*m => m@));
                        assert(decreases_to!(m@ => m@[i as int]));
                        assert(decreases_to!(m@[i as int] => m@[i as int].1));
                        assert(decreases_to!(*self => m@[i as int].1));
                    }
                    let v = m[i].1.deep_clone();
                    r.push((k, v));
                    i += 1;
                }
                let res = MmdbValue::Mapping(r);
                assert(res@ =~= self@) by {
                    let (e1, e2) = (res@->Mapping_0, self@->Mapping_0);
                    assert(e1 =~= e2);
                }
                res
            },
            MmdbValue::Int32(i) => MmdbValue::Int32(*i),
            MmdbValue::Uint64(u) => MmdbValue::Uint64(*u),
            MmdbValue::Uint128(u) => MmdbValue::Uint128(*u),
            MmdbValue::Array(a) => {
                let mut r: Vec<MmdbValue> = Vec::new();
                let mut i: usize = 0;
                while i < a.len()
                    invariant
                        *self is Array,
                        self->Array_0 == *a,
                        i <= a@.len(),
                        r@.len() == i,
                        forall|j: int| 0 <= j < i ==> (#[trigger] r@[j])@ == a@[j]@,
                    decreases a@.len() - i,
                {
                    proof {
                        assert(decreases_to!(*self => self->Array_0));
                        assert(decreases_to!(*a => a@));
                        assert(decreases_to!(a@ => a@[i as int]));
                        assert(decreases_to!(*self => a@[i as int]));
                    }
                    let v = a[i].deep_clone();
                    r.push(v);
                    i += 1;
                }
                let res = MmdbValue::Array(r);
                assert(res@ =~= self@) by {
                    let (e1, e2) = (res@->Array_0, self@->Array_0);
                    assert(e1 =~= e2);
                }
                res
            },
            MmdbValue::Boolean(b) => MmdbValue::Boolean(*b),
            MmdbValue::Float(f) => MmdbValue::Float(*f),
        }
    }
}

impl Clone for MmdbValue {
    fn clone(&self) -> (r: MmdbValue)
        ensures
            r@ == self@,
    {
        self.deep_clone()
    }
}

} // verus!

verus! {

impl MmdbValue {
    /// Whether every array, at any depth, is short enough to be written
    /// (fewer than `MAX_EXTENDED_LEN` members).
    pub fn arrays_fit(&self) -> (r: bool)
        ensures
            r == self@.arrays_fit(),
        decreases self,
    {
        match self {
            MmdbValue::Mapping(m) => {
                let ghost e = self@->Mapping_0;
                let mut i: usize = 0;
                while i < m.len()
                    invariant
                        *self is Mapping,
                        self->Mapping_0 == *m,
                        e == self@->Mapping_0,
                        e.len() == m@.len(),
                        forall|j: int| 0 <= j < m@.len() ==> #[trigger] e[j] == (m@[j].0@, m@[j].1@),
                        i <= m@.len(),
                        forall|j: int| 0 <= j < i ==> (#[trigger] e[j]).1.arrays_fit(),
                    decreases m@.len() - i,
                {
                    proof {
                        assert(decreases_to!(*self => self->Mapping_0));
                        assert(decreases_to!(*m => m@));
                        assert(decreases_to!(m@ => m@[i as int]));
                        assert(decreases_to!(m@[i as int] => m@[i as int].1));
                        assert(e[i as int] == (m@[i as int].0@, m@[i as int].1@));
                    }
                    if !m[i].1.arrays_fit() {
                        return false;
                    }
                    i += 1;
                }
                true
            },
            MmdbValue::Array(a) => {
                let ghost items = self@->Array_0;
                if a.len() >= MAX_EXTENDED_LEN {
                    return false;
                }
                let mut i: usize = 0;
                while i < a.len()
                    invariant
                        *self is Array,
                        self->Array_0 == *a,
                        items == self@->Array_0,
                        items.len() == a@.len(),
                        a@.len() < MAX_EXTENDED_LEN,
                        forall|j: int| 0 <= j < a@.len() ==> #[trigger] items[j] == a@[j]@,
                        i <= a@.len(),
                        forall|j: int| 0 <= j < i ==> (#[trigger] items[j]).arrays_fit(),
                    decreases a@.len() - i,
                {
                    proof {
                        assert(decreases_to!(*self => self->Array_0));
                        assert(decreases_to!(*a => a@));
                        assert(decreases_to!(a@ => a@[i as int]));
                        assert(items[i as int] == a@[i as int]@);
                    }
                    if !a[i].arrays_fit() {
                        return false;
                    }
                    i += 1;
                }
                true
            },
            _ => true,
        }
    }

    /// Whether no map, at any depth, holds the same key twice.
    pub fn keys_distinct(&self) -> (r: bool)
        ensures
            r == self@.keys_distinct(),
        decreases self,
    {
        match self {
            MmdbValue::Mapping(m) => {
                let ghost e = self@->Mapping_0;
                let mut i: usize = 0;
                while i < m.len()
                    invariant
                        *self is Mapping,
                        self->Mapping_0 == *m,
                        e == self@->Mapping_0,
                        e.len() == m@.len(),
                        forall|j: int| 0 <= j < m@.len() ==> #[trigger] e[j] == (m@[j].0@, m@[j].1@),
                        i <= m@.len(),
                        forall|a: int, b: int| 0 <= a < b < i ==> (#[trigger] e[a]).0 != (#[trigger] e[b]).0,
                        forall|j: int| 0 <= j < i ==> (#[trigger] e[j]).1.keys_distinct(),
                    decreases m@.len() - i,
                {
                    proof {
                        assert(decreases_to!(*self => self->Mapping_0));
                        assert(decreases_to!(*m => m@));
                        assert(decreases_to!(m@ => m@[i as int]));
                        assert(decreases_to!(m@[i as int] => m@[i as int].1));
                        assert(e[i as int] == (m@[i as int].0@, m@[i as int].1@));
                    }
                    let mut k: usize = 0;
                    while k < i
                        invariant
                            *self is Mapping,
                            self->Mapping_0 == *m,
                            e == self@->Mapping_0,
                            e.len() == m@.len(),
                            forall|j: int| 0 <= j < m@.len() ==> #[trigger] e[j] == (m@[j].0@, m@[j].1@),
                            i < m@.len(),
                            k <= i,
                            forall|j: int| 0 <= j < k ==> (#[trigger] e[j]).0 != e[i as int].0,
                        decreases i - k,
                    {
                        if str_equal(m[k].0.as_str(), m[i].0.as_str()) {
                            proof {
                                assert(e[k as int].0 == e[i as int].0);
                                assert(!keys_unique(e));
                            }
                            return false;
                        }
                        proof {
                            assert(e[k as int] == (m@[k as int].0@, m@[k as int].1@));
                        }
                        k += 1;
                    }
                    if !m[i].1.keys_distinct() {
                        return false;
                    }
                    i += 1;
                }
                true
            },
            MmdbValue::Array(a) => {
                let ghost items = self@->Array_0;
                let mut i: usize = 0;
                while i < a.len()
                    invariant
                        *self is Array,
                        self->Array_0 == *a,
                        items == self@->Array_0,
                        items.len() == a@.len(),
                        forall|j: int| 0 <= j < a@.len() ==> #[trigger] items[j] == a@[j]@,
                        i <= a@.len(),
                        forall|j: int| 0 <= j < i ==> (#[trigger] items[j]).keys_distinct(),
                    decreases a@.len() - i,
                {
                    proof {
                        assert(decreases_to!(*self => self->Array_0));
                        assert(decreases_to!(*a => a@));
                        assert(decreases_to!(a@ => a@[i as int]));
                        assert(items[i as int] == a@[i as int]@);
                    }
                    if !a[i].keys_distinct() {
                        return false;
                    }
                    i += 1;
                }
                true
            },
            _ => true,
        }
    }
}

} // verus!

verus! {

impl From<String> for MmdbValue {
    fn from(v: String) -> (r: MmdbValue) {
        MmdbValue::String(v)
    }
}

impl vstd::std_specs::convert::FromSpecImpl<String> for MmdbValue {
    open spec fn obeys_from_spec() -> bool {
        true
    }

    open spec fn from_spec(v: String) -> MmdbValue {
        MmdbValue::String(v)
    }
}

impl<'a> From<&'a str> for MmdbValue {
    fn from(v: &'a str) -> (r: MmdbValue)
        ensures
            r@ == Datum::String(v@),
    {
        MmdbValue::String(v.to_owned())
    }
}

impl<'a> vstd::std_specs::convert::FromSpecImpl<&'a str> for MmdbValue {
    /// A `String` is not determined by its characters in contracts, so the
    /// conversion is stated by `from` itself.
    open spec fn obeys_from_spec() -> bool {
        false
    }

    open spec fn from_spec(v: &'a str) -> MmdbValue {
        choose|r: MmdbValue| r@ == Datum::String(v@)
    }
}

impl From<Vec<u8>> for MmdbValue {
    fn from(v: Vec<u8>) -> (r: MmdbValue) {
        MmdbValue::Bytes(v)
    }
}

impl vstd::std_specs::convert::FromSpecImpl<Vec<u8>> for MmdbValue {
    open spec fn obeys_from_spec() -> bool {
        true
    }

    open spec fn from_spec(v: Vec<u8>) -> MmdbValue {
        MmdbValue::Bytes(v)
    }
}

impl From<u16> for MmdbValue {
    fn from(v: u16) -> (r: MmdbValue) {
        MmdbValue::Uint16(v)
    }
}

impl vstd::std_specs::convert::FromSpecImpl<u16> for MmdbValue {
    open spec fn obeys_from_spec() -> bool {
        true
    }

    open spec fn from_spec(v: u16) -> MmdbValue {
        MmdbValue::Uint16(v)
    }
}

impl From<u32> for MmdbValue {
    fn from(v: u32) -> (r: MmdbValue) {
        MmdbValue::Uint32(v)
    }
}

impl vstd::std_specs::convert::FromSpecImpl<u32> for MmdbValue {
    open spec fn obeys_from_spec() -> bool {
        true
    }

    open spec fn from_spec(v: u32) -> MmdbValue {
        MmdbValue::Uint32(v)
    }
}

impl From<i32> for MmdbValue {
    fn from(v: i32) -> (r: MmdbValue) {
        MmdbValue::Int32(v)
    }
}

impl vstd::std_specs::convert::FromSpecImpl<i32> for MmdbValue {
    open spec fn obeys_from_spec() -> bool {
        true
    }

    open spec fn from_spec(v: i32) -> MmdbValue {
        MmdbValue::Int32(v)
    }
}

impl From<u64> for MmdbValue {
    fn from(v: u64) -> (r: MmdbValue) {
        MmdbValue::Uint64(v)
    }
}

impl vstd::std_specs::convert::FromSpecImpl<u64> for MmdbValue {
    open spec fn obeys_from_spec() -> bool {
        true
    }

    open spec fn from_spec(v: u64) -> MmdbValue {
        MmdbValue::Uint64(v)
    }
}

impl From<u128> for MmdbValue {
    fn from(v: u128) -> (r: MmdbValue) {
        MmdbValue::Uint128(v)
    }
}

impl vstd::std_specs::convert::FromSpecImpl<u128> for MmdbValue {
    open spec fn obeys_from_spec() -> bool {
        true
    }

    open spec fn from_spec(v: u128) -> MmdbValue {
        MmdbValue::Uint128(v)
    }
}

impl From<bool> for MmdbValue {
    fn from(v: bool) -> (r: MmdbValue) {
        MmdbValue::Boolean(v)
    }
}

impl vstd::std_specs::convert::FromSpecImpl<bool> for MmdbValue {
    open spec fn obeys_from_spec() -> bool {
        true
    }

    open spec fn from_spec(v: bool) -> MmdbValue {
        MmdbValue::Boolean(v)
    }
}

impl From<Vec<MmdbValue>> for MmdbValue {
    fn from(v: Vec<MmdbValue>) -> (r: MmdbValue) {
        MmdbValue::Array(v)
    }
}

impl vstd::std_specs::convert::FromSpecImpl<Vec<MmdbValue>> for MmdbValue {
    open spec fn obeys_from_spec() -> bool {
        true
    }

    open spec fn from_spec(v: Vec<MmdbValue>) -> MmdbValue {
        MmdbValue::Array(v)
    }
}

impl From<Vec<(String, MmdbValue)>> for MmdbValue {
    fn from(v: Vec<(String, MmdbValue)>) -> (r: MmdbValue) {
        MmdbValue::Mapping(v)
    }
}

impl vstd::std_specs::convert::FromSpecImpl<Vec<(String, MmdbValue)>> for MmdbValue {
    open spec fn obeys_from_spec() -> bool {
        true
    }

    open spec fn from_spec(v: Vec<(String, MmdbValue)>) -> MmdbValue {
        MmdbValue::Mapping(v)
    }
}

} // verus!
