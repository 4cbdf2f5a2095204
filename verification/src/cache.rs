//! The table of scalars already written to the data section, keyed by their
//! encoded bytes, so that each distinct scalar is written once.
use vstd::prelude::*;
use std::collections::HashMap;
use crate::format::data_matches;

verus! {

broadcast use vstd::std_specs::hash::group_hash_axioms;

pub const FNV_OFFSET: u64 = 0xcbf2_9ce4_8422_2325;
pub const FNV_PRIME: u64 = 0x0100_0000_01b3;

/// The 64-bit FNV-1a fingerprint of a byte string.
pub open spec fn fingerprint(s: Seq<u8>) -> u64
    decreases s.len(),
{
    if s.len() == 0 {
        FNV_OFFSET
    } else {
        (fingerprint(s.drop_last()) ^ (s.last() as u64)).wrapping_mul(FNV_PRIME)
    }
}

/// Computes `fingerprint(bytes@)`.
pub fn fingerprint_of(bytes: &[u8]) -> (h: u64)
    ensures
        h == fingerprint(bytes@),
{
    let mut h: u64 = FNV_OFFSET;
    let mut i: usize = 0;
    while i < bytes.len()
        invariant
            i <= bytes@.len(),
            h == fingerprint(bytes@.subrange(0, i as int)),
        decreases bytes@.len() - i,
    {
        proof {
            let s = bytes@.subrange(0, i as int + 1);
            assert(s.drop_last() =~= bytes@.subrange(0, i as int));
        }
        h = (h ^ (bytes[i] as u64)).wrapping_mul(FNV_PRIME);
        i += 1;
    }
    assert(bytes@.subrange(0, i as int) =~= bytes@);
    h
}

/// Whether two byte strings are equal.
pub fn bytes_equal(a: &[u8], b: &[u8]) -> (r: bool)
    ensures
        r == (a@ == b@),
{
    if a.len() != b.len() {
        return false;
    }
    let mut i: usize = 0;
    while i < a.len()
        invariant
            a@.len() == b@.len(),
            i <= a@.len(),
            a@.subrange(0, i as int) == b@.subrange(0, i as int),
        decreases a@.len() - i,
    {
        if a[i] != b[i] {
            assert(a@[i as int] != b@[i as int]);
            return false;
        }
        assert(a@.subrange(0, i as int + 1) =~= a@.subrange(0, i as int).push(a@[i as int]));
        assert(b@.subrange(0, i as int + 1) =~= b@.subrange(0, i as int).push(b@[i as int]));
        i += 1;
    }
    assert(a@ =~= a@.subrange(0, i as int));
    assert(b@ =~= b@.subrange(0, i as int));
    true
}

pub struct CacheEntry {
    pub bytes: Vec<u8>,
    pub offset: u32,
    pub next: Option<usize>,
}

/// Entries chained by fingerprint: `heads` maps a fingerprint to the newest
/// entry with it, and each entry names the next older one.
pub struct ScalarCache {
    heads: HashMap<u64, usize>,
    entries: Vec<CacheEntry>,
}

/// The offset of the first entry with `bytes` along the chain that starts at `i`.
pub open spec fn chain_find(entries: Seq<CacheEntry>, i: int, bytes: Seq<u8>) -> Option<u32>
    decreases i,
{
    if 0 <= i < entries.len() {
        if entries[i].bytes@ == bytes {
            Some(entries[i].offset)
        } else {
            match entries[i].next {
                Some(j) => if j < i {
                    chain_find(entries, j as int, bytes)
                } else {
                    None
                },
                None => None,
            }
        }
    } else {
        None
    }
}

proof fn lemma_chain_find_push(entries: Seq<CacheEntry>, e: CacheEntry, i: int, bytes: Seq<u8>)
    ensures
        0 <= i < entries.len() ==> chain_find(entries.push(e), i, bytes) == chain_find(entries, i, bytes),
    decreases i,
{
    if 0 <= i < entries.len() {
        assert(entries.push(e)[i] == entries[i]);
        if entries[i].bytes@ != bytes {
            if let Some(j) = entries[i].next {
                if j < i {
                    lemma_chain_find_push(entries, e, j as int, bytes);
                }
            }
        }
    }
}

proof fn lemma_chain_find_matches(entries: Seq<CacheEntry>, i: int, bytes: Seq<u8>, data: Seq<u8>)
    requires
        forall|k: int|
            0 <= k < entries.len() ==> data_matches(data, (#[trigger] entries[k]).offset as int, entries[k].bytes@),
        chain_find(entries, i, bytes) is Some,
    ensures
        data_matches(data, chain_find(entries, i, bytes)->0 as int, bytes),
    decreases i,
{
    if entries[i].bytes@ != bytes {
        let j = entries[i].next->0;
        lemma_chain_find_matches(entries, j as int, bytes, data);
    }
}

impl ScalarCache {
    pub closed spec fn wf(&self) -> bool {
        &&& forall|k: int|
            0 <= k < self.entries@.len() ==> match (#[trigger] self.entries@[k]).next {
                Some(j) => j < k,
                None => true,
            }
        &&& forall|h: u64| #[trigger] self.heads@.contains_key(h) ==> self.heads@[h] < self.entries@.len()
    }

    /// Every entry's bytes stand at its offset in `data`.
    pub closed spec fn matches_data(&self, data: Seq<u8>) -> bool {
        forall|k: int|
            0 <= k < self.entries@.len() ==> data_matches(
                data,
                (#[trigger] self.entries@[k]).offset as int,
                self.entries@[k].bytes@,
            )
    }

    /// The offset recorded for `bytes`, if any.
    pub closed spec fn find(&self, bytes: Seq<u8>) -> Option<u32> {
        let h = fingerprint(bytes);
        if self.heads@.contains_key(h) {
            chain_find(self.entries@, self.heads@[h] as int, bytes)
        } else {
            None
        }
    }

    /// The number of recorded entries.
    pub closed spec fn size(&self) -> nat {
        self.entries@.len()
    }

    pub fn new() -> (c: Self)
        ensures
            c.wf(),
            c.size() == 0,
            forall|b: Seq<u8>| c.find(b) is None,
            forall|data: Seq<u8>| c.matches_data(data),
    {
        ScalarCache { heads: HashMap::new(), entries: Vec::new() }
    }

    pub proof fn lemma_find_matches(&self, bytes: Seq<u8>, data: Seq<u8>)
        requires
            self.matches_data(data),
            self.find(bytes) is Some,
        ensures
            data_matches(data, self.find(bytes)->0 as int, bytes),
    {
        let h = fingerprint(bytes);
        lemma_chain_find_matches(self.entries@, self.heads@[h] as int, bytes, data);
    }

    pub proof fn lemma_matches_extend(&self, data: Seq<u8>, data2: Seq<u8>)
        requires
            self.matches_data(data),
            data.len() <= data2.len(),
            data2.subrange(0, data.len() as int) == data,
        ensures
            self.matches_data(data2),
    {
        assert forall|k: int| 0 <= k < self.entries@.len() implies data_matches(
            data2,
            (#[trigger] self.entries@[k]).offset as int,
            self.entries@[k].bytes@,
        ) by {
            let e = self.entries@[k];
            let (o, n) = (e.offset as int, e.bytes@.len() as int);
            assert(data2.subrange(o, o + n) =~= data.subrange(o, o + n));
        }
    }

    /// Looks up the offset recorded for `bytes`.
    pub fn lookup(&self, bytes: &[u8]) -> (r: Option<u32>)
        requires
            self.wf(),
        ensures
            r == self.find(bytes@),
    {
        let h = fingerprint_of(bytes);
        let mut cur: usize = match self.heads.get(&h) {
            Some(i) => *i,
            None => return None,
        };
        loop
            invariant
                self.wf(),
                cur < self.entries@.len(),
                chain_find(self.entries@, cur as int, bytes@) == self.find(bytes@),
            decreases cur,
        {
            let e = &self.entries[cur];
            if bytes_equal(e.bytes.as_slice(), bytes) {
                return Some(e.offset);
            }
            match e.next {
                Some(j) => {
                    assert(j < cur);
                    cur = j;
                },
                None => return None,
            }
        }
    }

    /// Records that `bytes` stand at `offset`.
    pub fn insert(&mut self, bytes: Vec<u8>, offset: u32)
        requires
            old(self).wf(),
            old(self).size() < usize::MAX,
        ensures
            final(self).wf(),
            final(self).size() == old(self).size() + 1,
            forall|b: Seq<u8>|
                #[trigger] final(self).find(b) == if b == bytes@ {
                    Some(offset)
                } else {
                    old(self).find(b)
                },
            forall|data: Seq<u8>|
                old(self).matches_data(data) && data_matches(data, offset as int, bytes@)
                    ==> final(self).matches_data(data),
    {
        let h = fingerprint_of(bytes.as_slice());
        let next: Option<usize> = match self.heads.get(&h) {
            Some(i) => Some(*i),
            None => None,
        };
        let idx = self.entries.len();
        let ghost old_entries = self.entries@;
        let ghost bytes_view = bytes@;
        let entry = CacheEntry { bytes, offset, next };
        self.entries.push(entry);
        self.heads.insert(h, idx);
        proof {
            assert forall|b: Seq<u8>|
                #[trigger] self.find(b) == if b == bytes_view {
                    Some(offset)
                } else {
                    old(self).find(b)
                } by {
                let hb = fingerprint(b);
                if hb == h {
                    if b != bytes_view {
                        match next {
                            Some(j) => {
                                lemma_chain_find_push(old_entries, entry, j as int, b);
                            },
                            None => {},
                        }
                    }
                } else {
                    if old(self).heads@.contains_key(hb) {
                        lemma_chain_find_push(old_entries, entry, old(self).heads@[hb] as int, b);
                    }
                }
            }
            assert forall|data: Seq<u8>|
                old(self).matches_data(data) && data_matches(data, offset as int, bytes_view)
                    implies self.matches_data(data) by {
                assert forall|k: int| 0 <= k < self.entries@.len() implies data_matches(
                    data,
                    (#[trigger] self.entries@[k]).offset as int,
                    self.entries@[k].bytes@,
                ) by {
                    if k < old_entries.len() {
                        assert(self.entries@[k] == old_entries[k]);
                    }
                }
            }
        }
    }
}

} // verus!
