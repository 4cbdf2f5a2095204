//! How a reader finds an address's data in a built file, and the proof that it
//! finds what the search tree holds.
use vstd::prelude::*;
use crate::decode::{decode_value, decodes_to, height, law_inline_decodes, law_stored_decodes};
use crate::format::{inline_bytes, stored_at};
use crate::tree::{addr_bit, lemma_addr_bit, Tree};
use crate::value::Datum;
use crate::writer::{
    child_ok, file_layout, leaf_refs_below, metadata_entries, metadata_marker, record_number, record_pair_bytes,
    record_size_for, separator_bytes, tree_at, tree_section, Record, DATA_SECTION_SEPARATOR,
};

verus! {

/// The bytes per node of the search tree at `record_size` bits per record.
pub open spec fn node_bytes(record_size: nat) -> nat {
    record_size / 4
}

/// The number in record `side` (0 left, 1 right) of node `node` of the search
/// tree at the start of `file`. At 28 bits, the middle byte of a node holds
/// the top four bits of the left record (high nibble) and of the right one.
pub open spec fn read_record(file: Seq<u8>, record_size: nat, node: nat, side: u128) -> nat {
    if record_size == 24 {
        let b: int = node * 6 + side * 3;
        file[b] as nat * 0x1_0000 + file[b + 1] as nat * 0x100 + file[b + 2] as nat
    } else if record_size == 28 {
        let b: int = (node * 7) as int;
        if side == 0 {
            (file[b + 3] / 16) as nat * 0x100_0000 + file[b] as nat * 0x1_0000 + file[b + 1] as nat * 0x100
                + file[b + 2] as nat
        } else {
            (file[b + 3] % 16) as nat * 0x100_0000 + file[b + 4] as nat * 0x1_0000 + file[b + 5] as nat * 0x100
                + file[b + 6] as nat
        }
    } else {
        let b: int = node * 8 + side * 4;
        file[b] as nat * 0x100_0000 + file[b + 1] as nat * 0x1_0000 + file[b + 2] as nat * 0x100 + file[b + 3] as nat
    }
}

/// A reader's search for the `total`-bit address `addr`, at node `node` and
/// bit `depth`: a number below `node_count` is the next node, `node_count`
/// means no data, and a number `node_count + 16 + o` leads to offset `o` of
/// the data section.
pub open spec fn file_lookup(
    file: Seq<u8>,
    node_count: nat,
    record_size: nat,
    addr: u128,
    total: nat,
    depth: nat,
    node: nat,
) -> Option<nat>
    decreases total - depth,
{
    if depth >= total || node >= node_count {
        None
    } else {
        let x = read_record(file, record_size, node, addr_bit(addr, total, depth));
        if x < node_count {
            file_lookup(file, node_count, record_size, addr, total, depth + 1, x)
        } else if x >= node_count + DATA_SECTION_SEPARATOR {
            Some((x - node_count - DATA_SECTION_SEPARATOR) as nat)
        } else {
            None
        }
    }
}

/// Where the data section starts in a file of `node_count` nodes.
pub open spec fn data_section_start(node_count: nat, record_size: nat) -> nat {
    node_count * node_bytes(record_size) + DATA_SECTION_SEPARATOR as nat
}

proof fn lemma_tree_section(recs: Seq<(Record, Record)>, nc: nat, rs: nat, i: int)
    requires
        rs == 24 || rs == 28 || rs == 32,
    ensures
        tree_section(recs, nc, rs).len() == recs.len() * node_bytes(rs),
        0 <= i < recs.len() ==> tree_section(recs, nc, rs).subrange(
            i * node_bytes(rs),
            i * node_bytes(rs) + node_bytes(rs),
        ) == record_pair_bytes(record_number(recs[i].0, nc) as u32, record_number(recs[i].1, nc) as u32, rs),
    decreases recs.len(),
{
    let w = node_bytes(rs);
    if recs.len() > 0 {
        let prev = recs.drop_last();
        lemma_tree_section(prev, nc, rs, i);
        let ts = tree_section(recs, nc, rs);
        let tp = tree_section(prev, nc, rs);
        assert(prev.len() * w + w == recs.len() * w) by (nonlinear_arith)
            requires
                prev.len() + 1 == recs.len(),
        ;
        if 0 <= i < recs.len() {
            if i == recs.len() - 1 {
                assert(i * w == prev.len() * w);
                assert(ts.subrange(i * w, i * w + w) =~= ts.subrange(tp.len() as int, ts.len() as int));
            } else {
                assert(i * w + w <= prev.len() * w) by (nonlinear_arith)
                    requires
                        i + 1 <= prev.len(),
                ;
                assert(prev[i] == recs[i]);
                assert(ts.subrange(i * w, i * w + w) =~= tp.subrange(i * w, i * w + w));
            }
        }
    }
}

proof fn lemma_join24(v: u32)
    requires
        v < 0x100_0000,
    ensures
        (v / 0x1_0000 % 0x100) as nat * 0x1_0000 + (v / 0x100 % 0x100) as nat * 0x100 + (v % 0x100) as nat == v,
{
    assert((v / 0x1_0000 % 0x100) * 0x1_0000 + (v / 0x100 % 0x100) * 0x100 + (v % 0x100) == v) by (bit_vector)
        requires
            v < 0x100_0000,
    ;
}

proof fn lemma_join32(v: u32)
    ensures
        (v / 0x100_0000) as nat * 0x100_0000 + (v / 0x1_0000 % 0x100) as nat * 0x1_0000 + (v / 0x100 % 0x100) as nat
            * 0x100 + (v % 0x100) as nat == v,
{
    assert((v / 0x100_0000) * 0x100_0000 + (v / 0x1_0000 % 0x100) * 0x1_0000 + (v / 0x100 % 0x100) * 0x100 + (v
        % 0x100) == v) by (bit_vector);
}

proof fn lemma_join28(l: u32, r: u32)
    requires
        l < 0x1000_0000,
        r < 0x1000_0000,
    ensures
        ({
            let m = ((l / 0x100_0000 % 16) * 16 + r / 0x100_0000 % 16) as u8;
            &&& (m / 16) as nat * 0x100_0000 + (l / 0x1_0000 % 0x100) as nat * 0x1_0000 + (l / 0x100 % 0x100) as nat
                * 0x100 + (l % 0x100) as nat == l
            &&& (m % 16) as nat * 0x100_0000 + (r / 0x1_0000 % 0x100) as nat * 0x1_0000 + (r / 0x100 % 0x100) as nat
                * 0x100 + (r % 0x100) as nat == r
        }),
{
    let mm: u32 = ((l / 0x100_0000 % 16) * 16 + r / 0x100_0000 % 16) as u32;
    assert(mm < 256 && mm / 16 == l / 0x100_0000 && mm % 16 == r / 0x100_0000) by (bit_vector)
        requires
            l < 0x1000_0000,
            r < 0x1000_0000,
            mm == ((l / 0x100_0000 % 16) * 16 + r / 0x100_0000 % 16) as u32,
    ;
    let m = ((l / 0x100_0000 % 16) * 16 + r / 0x100_0000 % 16) as u8;
    assert(m as nat == mm as nat);
    assert((l / 0x100_0000) * 0x100_0000 + (l / 0x1_0000 % 0x100) * 0x1_0000 + (l / 0x100 % 0x100) * 0x100 + (l
        % 0x100) == l) by (bit_vector);
    assert((r / 0x100_0000) * 0x100_0000 + (r / 0x1_0000 % 0x100) * 0x1_0000 + (r / 0x100 % 0x100) * 0x100 + (r
        % 0x100) == r) by (bit_vector);
}

proof fn lemma_read_pair(bytes: Seq<u8>, left: u32, right: u32, rs: nat, side: u128)
    requires
        rs == 24 || rs == 28 || rs == 32,
        side <= 1,
        bytes == record_pair_bytes(left, right, rs),
        rs == 24 ==> left < 0x100_0000 && right < 0x100_0000,
        rs == 28 ==> left < 0x1000_0000 && right < 0x1000_0000,
    ensures
        read_record(bytes, rs, 0, side) == if side == 0 {
            left as nat
        } else {
            right as nat
        },
{
    if rs == 24 {
        lemma_join24(left);
        lemma_join24(right);
    } else if rs == 28 {
        lemma_join28(left, right);
    } else {
        lemma_join32(left);
        lemma_join32(right);
    }
}

/// Reading node `i` of a file that starts with `tree_section(recs, ..)`.
proof fn lemma_read_node(
    file: Seq<u8>,
    recs: Seq<(Record, Record)>,
    nc: nat,
    rs: nat,
    i: nat,
    side: u128,
)
    requires
        rs == 24 || rs == 28 || rs == 32,
        nc == recs.len(),
        i < recs.len(),
        side <= 1,
        file.len() >= tree_section(recs, nc, rs).len(),
        file.subrange(0, tree_section(recs, nc, rs).len() as int) == tree_section(recs, nc, rs),
        record_number(recs[i as int].0, nc) < pow2_of(rs),
        record_number(recs[i as int].1, nc) < pow2_of(rs),
    ensures
        read_record(file, rs, i, side) == record_number(if side == 0 {
            recs[i as int].0
        } else {
            recs[i as int].1
        }, nc),
{
    let w: int = node_bytes(rs) as int;
    let i = i as int;
    lemma_tree_section(recs, nc, rs, i);
    let ts = tree_section(recs, nc, rs);
    let pair = record_pair_bytes(record_number(recs[i].0, nc) as u32, record_number(recs[i].1, nc) as u32, rs);
    assert(i * w + w <= recs.len() * w) by (nonlinear_arith)
        requires
            i + 1 <= recs.len(),
            w >= 0,
    ;
    assert(file.subrange(i * w, i * w + w) == pair) by {
        assert(file.subrange(i * w, i * w + w) =~= ts.subrange(i * w, i * w + w));
    }
    lemma_read_pair(pair, record_number(recs[i].0, nc) as u32, record_number(recs[i].1, nc) as u32, rs, side);
    assert forall|k: int| 0 <= k < w implies file[i * w + k] == pair[k] by {
        assert(file.subrange(i * w, i * w + w)[k] == file[i * w + k]);
    }
    if rs == 24 {
        assert(i * 6 + side * 3 == i * w + side * 3);
    } else if rs == 32 {
        assert(i * 8 + side * 4 == i * w + side * 4);
    } else {
        assert(i * 7 == i * w);
    }
}

/// 2 to the power of a record size.
pub open spec fn pow2_of(rs: nat) -> nat {
    if rs == 24 {
        0x100_0000
    } else if rs == 28 {
        0x1000_0000
    } else {
        0x1_0000_0000
    }
}

} // verus!

verus! {

#[verifier::spinoff_prover]
proof fn lemma_walk(
    file: Seq<u8>,
    recs: Seq<(Record, Record)>,
    data: Seq<u8>,
    nc: nat,
    rs: nat,
    i: nat,
    t: Tree,
    a: u128,
    total: nat,
    d: nat,
)
    requires
        nc == recs.len(),
        rs == record_size_for(nc + DATA_SECTION_SEPARATOR as nat + data.len()),
        nc + DATA_SECTION_SEPARATOR + data.len() <= u32::MAX,
        leaf_refs_below(recs, data.len()),
        file.len() >= tree_section(recs, nc, rs).len(),
        file.subrange(0, tree_section(recs, nc, rs).len() as int) == tree_section(recs, nc, rs),
        tree_at(recs, i as int, t, data),
    ensures
        match t.lookup(a, total, d) {
            None => file_lookup(file, nc, rs, a, total, d, i) is None,
            Some(v) => file_lookup(file, nc, rs, a, total, d, i) matches Some(o) && stored_at(data, o as int, v),
        },
    decreases t,
{
    if let Tree::Node { left, right, .. } = t {
        if d < total {
            let side = addr_bit(a, total, d);
            lemma_addr_bit(a, total, d);
            let (rl, rr) = recs[i as int];
            assert(record_number(rl, nc) < pow2_of(rs)) by {
                assert(child_ok(recs, i as int, rl, left, data));
                if let Some(b) = left {
                    if *b is Node {
                        let j = rl->Node_0;
                        assert(tree_at(recs, j as int, *b, data));
                    }
                }
            }
            assert(record_number(rr, nc) < pow2_of(rs)) by {
                assert(child_ok(recs, i as int, rr, right, data));
                if let Some(b) = right {
                    if *b is Node {
                        let j = rr->Node_0;
                        assert(tree_at(recs, j as int, *b, data));
                    }
                }
            }
            lemma_read_node(file, recs, nc, rs, i, side);
            let (c, r) = if side == 0 {
                (left, rl)
            } else {
                (right, rr)
            };
            assert(child_ok(recs, i as int, r, c, data));
            if let Some(b) = c {
                if let Tree::Node { .. } = *b {
                    let j = r->Node_0;
                    lemma_walk(file, recs, data, nc, rs, j as nat, *b, a, total, d + 1);
                }
            }
        }
    }
}

/// The search tree of a file that `build` wrote leads each address to what
/// the tree holds for it: where the tree has no value, the reader finds no
/// data; where it has one, the reader finds an offset of the data section at
/// which that value is stored. The data section stands in the file right
/// after the search tree and the sixteen-byte separator.
pub proof fn law_file_answers_as_tree(
    out: Seq<u8>,
    recs: Seq<(Record, Record)>,
    data: Seq<u8>,
    ip_version: u8,
    database_type: Seq<char>,
    languages: Seq<Seq<char>>,
    description: Seq<(Seq<char>, Seq<char>)>,
    build_epoch: u64,
    root: Tree,
    a: u128,
    total: nat,
)
    requires
        file_layout(out, recs, data, ip_version, database_type, languages, description, build_epoch),
        leaf_refs_below(recs, data.len()),
        recs.len() + DATA_SECTION_SEPARATOR + data.len() <= u32::MAX,
        tree_at(recs, 0, root, data),
    ensures
        ({
            let nc = recs.len();
            let rs = record_size_for(nc + DATA_SECTION_SEPARATOR as nat + data.len());
            let start = data_section_start(nc, rs);
            &&& out.subrange(start as int, (start + data.len()) as int) == data
            &&& match root.lookup(a, total, 0) {
                None => file_lookup(out, nc, rs, a, total, 0, 0) is None,
                Some(v) => file_lookup(out, nc, rs, a, total, 0, 0) matches Some(o) && stored_at(data, o as int, v),
            }
        }),
{
    let nc = recs.len();
    let rs = record_size_for(nc + DATA_SECTION_SEPARATOR as nat + data.len());
    let ts = tree_section(recs, nc, rs);
    lemma_tree_section(recs, nc, rs, 0);
    let start = data_section_start(nc, rs);
    assert(out.subrange(0, ts.len() as int) =~= ts);
    assert(start == ts.len() + 16);
    assert(out.subrange(start as int, (start + data.len()) as int) =~= data);
    lemma_walk(out, recs, data, nc, rs, 0, root, a, total, 0);
}

} // verus!

verus! {

/// What a reader takes from the control byte(s) at the start of `bytes`:
/// the type (types above 7 in a second byte, less 7), the size, and how many
/// bytes the control took. `None` where the bytes end too early.
pub open spec fn decode_control(bytes: Seq<u8>) -> Option<(nat, nat, nat)> {
    if bytes.len() < 1 {
        None
    } else {
        let b0 = bytes[0] as nat;
        let t = b0 / 32;
        let s = b0 % 32;
        let i: nat = if t == 0 {
            2
        } else {
            1
        };
        let extra: nat = if s < 29 {
            0
        } else {
            (s - 28) as nat
        };
        if bytes.len() < i + extra {
            None
        } else {
            let ty = if t == 0 {
                bytes[1] as nat + 7
            } else {
                t
            };
            let size = if s < 29 {
                s
            } else if s == 29 {
                29 + bytes[i as int] as nat
            } else if s == 30 {
                285 + bytes[i as int] as nat * 256 + bytes[i + 1int] as nat
            } else {
                65821 + bytes[i as int] as nat * 65536 + bytes[i + 1int] as nat * 256 + bytes[i + 2int] as nat
            };
            Some((ty, size, i + extra))
        }
    }
}

/// What a reader takes from a pointer at the start of `bytes`: the offset
/// it points to and the pointer's length. `None` where the bytes do not
/// start a pointer or end too early.
pub open spec fn decode_pointer(bytes: Seq<u8>) -> Option<(nat, nat)> {
    if bytes.len() < 1 || bytes[0] / 32 != 1 {
        None
    } else {
        let ss = (bytes[0] / 8 % 4) as nat;
        let v = (bytes[0] % 8) as nat;
        if bytes.len() < ss + 2 {
            None
        } else if ss == 0 {
            Some((v * 256 + bytes[1] as nat, 2))
        } else if ss == 1 {
            Some((v * 65536 + bytes[1] as nat * 256 + bytes[2] as nat + 2048, 3))
        } else if ss == 2 {
            Some((v * 16777216 + bytes[1] as nat * 65536 + bytes[2] as nat * 256 + bytes[3] as nat + 526336, 4))
        } else {
            Some(
                (bytes[1] as nat * 16777216 + bytes[2] as nat * 65536 + bytes[3] as nat * 256 + bytes[4] as nat, 5),
            )
        }
    }
}

/// The unsigned integer that big-endian `bytes` denote.
pub open spec fn be_value(bytes: Seq<u8>) -> nat
    decreases bytes.len(),
{
    if bytes.len() == 0 {
        0
    } else {
        be_value(bytes.drop_last()) * 256 + bytes.last() as nat
    }
}

/// A control written for a type from 2 on and a size below 16843036 reads
/// back as that type and size, whatever follows it.
pub proof fn law_control_roundtrip(type_id: u8, len: nat, rest: Seq<u8>)
    requires
        2 <= type_id,
        len < crate::value::MAX_EXTENDED_LEN,
    ensures
        decode_control(crate::format::header_bytes(type_id, len) + rest) == Some(
            (type_id as nat, len, crate::format::header_bytes(type_id, len).len()),
        ),
{
    let h = crate::format::header_bytes(type_id, len);
    let b = h + rest;
    assert(b[0] == h[0]);
    if type_id > 7 {
        assert(b[1] == h[1]);
    }
    if len >= 29 {
        let i: int = if type_id > 7 {
            2
        } else {
            1
        };
        assert(b[i] == h[i]);
        if len >= 285 {
            assert(b[i + 1] == h[i + 1]);
        }
        if len >= 65821 {
            assert(b[i + 2] == h[i + 2]);
        }
    }
}

proof fn lemma_pointer_small(p: u32)
    requires
        p < 2048,
    ensures
        ({
            let x = 0x20 + p / 256;
            &&& x / 32 == 1
            &&& x / 8 % 4 == 0
            &&& (x % 8) * 256 + p % 256 == p
        }),
{
    assert({
        let x = 0x20 + p / 256;
        &&& x / 32 == 1
        &&& x / 8 % 4 == 0
        &&& (x % 8) * 256 + p % 256 == p
    }) by (bit_vector)
        requires
            p < 2048,
    ;
}

proof fn lemma_pointer_mid(p: u32)
    requires
        2048 <= p < 526336,
    ensures
        ({
            let a = p - 2048;
            let x = 0x28 + a / 65536;
            &&& x / 32 == 1
            &&& x / 8 % 4 == 1
            &&& (x % 8) * 65536 + (a / 256 % 256) * 256 + a % 256 + 2048 == p
        }),
{
    assert({
        let a = p - 2048;
        let x = 0x28 + a / 65536;
        &&& x / 32 == 1
        &&& x / 8 % 4 == 1
        &&& (x % 8) * 65536 + (a / 256 % 256) * 256 + a % 256 + 2048 == p
    }) by (bit_vector)
        requires
            2048 <= p < 526336,
    ;
}

proof fn lemma_pointer_large(p: u32)
    requires
        526336 <= p < 134744064,
    ensures
        ({
            let a = p - 526336;
            let x = 0x30 + a / 16777216;
            &&& x / 32 == 1
            &&& x / 8 % 4 == 2
            &&& (x % 8) * 16777216 + (a / 65536 % 256) * 65536 + (a / 256 % 256) * 256 + a % 256 + 526336 == p
        }),
{
    assert({
        let a = p - 526336;
        let x = 0x30 + a / 16777216;
        &&& x / 32 == 1
        &&& x / 8 % 4 == 2
        &&& (x % 8) * 16777216 + (a / 65536 % 256) * 65536 + (a / 256 % 256) * 256 + a % 256 + 526336 == p
    }) by (bit_vector)
        requires
            526336 <= p < 134744064,
    ;
}

/// A pointer reads back as the offset it was written for, whatever follows it.
pub proof fn law_pointer_roundtrip(p: u32, rest: Seq<u8>)
    ensures
        decode_pointer(crate::format::pointer_bytes(p) + rest) == Some(
            (p as nat, crate::format::pointer_bytes(p).len()),
        ),
{
    let h = crate::format::pointer_bytes(p);
    let b = h + rest;
    assert(forall|k: int| 0 <= k < h.len() ==> b[k] == h[k]);
    if p < 2048 {
        lemma_pointer_small(p);
    } else if p < 526336 {
        lemma_pointer_mid(p);
    } else if p < 134744064 {
        lemma_pointer_large(p);
    } else {
        lemma_join32(p);
    }
}

/// The bytes of an unsigned integer field read back as the integer, and are
/// the shortest such bytes: none for zero, and a first byte that is not zero.
pub proof fn law_uint_roundtrip(v: nat)
    ensures
        be_value(crate::format::uint_bytes(v)) == v,
        crate::format::uint_bytes(v).len() == 0 <==> v == 0,
        crate::format::uint_bytes(v).len() > 0 ==> crate::format::uint_bytes(v)[0] != 0,
    decreases v,
{
    if v > 0 {
        law_uint_roundtrip(v / 256);
        let s = crate::format::uint_bytes(v);
        assert(s.drop_last() =~= crate::format::uint_bytes(v / 256));
        if v / 256 == 0 {
            assert(s[0] == (v % 256) as u8);
        } else {
            assert(s[0] == crate::format::uint_bytes(v / 256)[0]);
        }
    }
}

} // verus!

verus! {

/// What a read gives back of a write: insert `content` for a network (other
/// than the whole address space) into a writer that has not built a file,
/// then build the file. A reader that searches the file for any address of
/// the network finds an offset of the data section at which `content` is
/// stored, and, where every size in `content` fits a control byte, decodes
/// `content` itself there.
pub proof fn law_read_after_write(
    w0: crate::writer::MMDBWriter,
    w1: crate::writer::MMDBWriter,
    w2: crate::writer::MMDBWriter,
    network: crate::network::Network,
    content: Datum,
    out: Seq<u8>,
    build_epoch: u64,
    a: u128,
)
    requires
        w0.unbuilt(),
        crate::writer::inserted(w0, w1, network, content),
        crate::writer::built(w1, w2, out, build_epoch),
        ({
            let (ip, prefix, total) = crate::writer::network_key(network, w0.ip_version(), w0.ipv4_compatible())->0;
            prefix > 0 && crate::tree::agree(a, ip, total as nat, 0, prefix as nat)
        }),
    ensures
        exists|recs: Seq<(Record, Record)>|
            {
                let nc = recs.len();
                let rs = record_size_for(nc + DATA_SECTION_SEPARATOR as nat + w2.data().len());
                &&& #[trigger] file_layout(
                    out,
                    recs,
                    w2.data(),
                    w1.ip_version(),
                    w1.database_type(),
                    w1.languages(),
                    w1.description(),
                    build_epoch,
                )
                &&& file_lookup(out, nc, rs, a, w0.total_bits(), 0, 0) matches Some(o) && stored_at(
                    w2.data(),
                    o as int,
                    content,
                ) && (content.sizes_fit() ==> decodes_to(w2.data(), o as int, content))
            },
{
    let (ip, prefix, total) = crate::writer::network_key(network, w0.ip_version(), w0.ipv4_compatible())->0;
    assert(w1.root().lookup(a, total as nat, 0) == Some(content));
    let recs = choose|recs: Seq<(Record, Record)>|
        {
            &&& #[trigger] file_layout(
                out,
                recs,
                w2.data(),
                w1.ip_version(),
                w1.database_type(),
                w1.languages(),
                w1.description(),
                build_epoch,
            )
            &&& leaf_refs_below(recs, w2.data().len())
            &&& recs.len() + DATA_SECTION_SEPARATOR + w2.data().len() <= u32::MAX
            &&& w1.unbuilt() && w1.root() is Node ==> {
                &&& recs.len() == w1.root().node_total()
                &&& tree_at(recs, 0, w1.root(), w2.data())
            }
        };
    law_file_answers_as_tree(
        out,
        recs,
        w2.data(),
        w1.ip_version(),
        w1.database_type(),
        w1.languages(),
        w1.description(),
        build_epoch,
        w1.root(),
        a,
        total as nat,
    );
    let nc = recs.len();
    let rs = record_size_for(nc + DATA_SECTION_SEPARATOR as nat + w2.data().len());
    let o = file_lookup(out, nc, rs, a, w0.total_bits(), 0, 0)->0;
    if content.sizes_fit() {
        law_stored_decodes(w2.data(), o as int, content, height(content));
    }
}

/// The metadata of a built file reads back: the file ends with the metadata
/// marker and bytes that a reader decodes, to the end of the file, as the
/// metadata map (the node count and record size of the search tree, the
/// settings, `build_epoch` last), where every size in it fits a control byte.
pub proof fn law_metadata_reads_back(
    out: Seq<u8>,
    recs: Seq<(Record, Record)>,
    data: Seq<u8>,
    ip_version: u8,
    database_type: Seq<char>,
    languages: Seq<Seq<char>>,
    description: Seq<(Seq<char>, Seq<char>)>,
    build_epoch: u64,
)
    requires
        file_layout(out, recs, data, ip_version, database_type, languages, description, build_epoch),
        ({
            let nc = recs.len();
            let rs = record_size_for(nc + DATA_SECTION_SEPARATOR as nat + data.len());
            Datum::Mapping(
                metadata_entries(nc as u32, rs as u8, ip_version, database_type, languages, description, build_epoch),
            ).sizes_fit()
        }),
    ensures
        ({
            let nc = recs.len();
            let rs = record_size_for(nc + DATA_SECTION_SEPARATOR as nat + data.len());
            let m = Datum::Mapping(
                metadata_entries(nc as u32, rs as u8, ip_version, database_type, languages, description, build_epoch),
            );
            let n = inline_bytes(m).len() as int;
            &&& n + metadata_marker().len() <= out.len()
            &&& out.subrange(out.len() - n - metadata_marker().len(), out.len() - n) == metadata_marker()
            &&& decode_value(out.subrange(out.len() - n, out.len() as int), 0, height(m))
                == Some((m, n))
        }),
{
    let nc = recs.len();
    let rs = record_size_for(nc + DATA_SECTION_SEPARATOR as nat + data.len());
    let m = Datum::Mapping(
        metadata_entries(nc as u32, rs as u8, ip_version, database_type, languages, description, build_epoch),
    );
    let meta = inline_bytes(m);
    let n = meta.len() as int;
    let front = tree_section(recs, nc, rs) + separator_bytes() + data;
    assert(out == front + metadata_marker() + meta);
    assert(out.subrange(out.len() - n - metadata_marker().len(), out.len() - n) =~= metadata_marker());
    let tail = out.subrange(out.len() - n, out.len() as int);
    assert(tail =~= meta);
    assert(tail.subrange(0, n) =~= meta);
    law_inline_decodes(tail, 0, m, height(m));
}

/// What the metadata of a built file says, as a reader decodes it after the
/// metadata marker: nine entries, in order, the number of nodes of the
/// search tree and its record size, the IP version the writer was made
/// with, its database type, its languages (each as a string, in order),
/// format version 2.0, its description (each entry's key with that same
/// entry's text, in order) and, last, the build time; where every size in it
/// fits a control byte.
pub proof fn law_metadata_contents(
    out: Seq<u8>,
    recs: Seq<(Record, Record)>,
    data: Seq<u8>,
    ip_version: u8,
    database_type: Seq<char>,
    languages: Seq<Seq<char>>,
    description: Seq<(Seq<char>, Seq<char>)>,
    build_epoch: u64,
)
    requires
        file_layout(out, recs, data, ip_version, database_type, languages, description, build_epoch),
        ({
            let nc = recs.len();
            let rs = record_size_for(nc + DATA_SECTION_SEPARATOR as nat + data.len());
            Datum::Mapping(
                metadata_entries(nc as u32, rs as u8, ip_version, database_type, languages, description, build_epoch),
            ).sizes_fit()
        }),
    ensures
        exists|n: int, m: Seq<(Seq<char>, Datum)>|
            #![trigger decode_value(out.subrange(out.len() - n, out.len() as int), 0, height(Datum::Mapping(m)))]
            {
                let rs = record_size_for(recs.len() + DATA_SECTION_SEPARATOR as nat + data.len());
                &&& n + metadata_marker().len() <= out.len()
                &&& out.subrange(out.len() - n - metadata_marker().len(), out.len() - n) == metadata_marker()
                &&& decode_value(out.subrange(out.len() - n, out.len() as int), 0, height(Datum::Mapping(m))) == Some(
                    (Datum::Mapping(m), n),
                )
                &&& m.len() == 9
                &&& m[0] == ("node_count"@, Datum::Uint32(recs.len() as u32))
                &&& m[1] == ("record_size"@, Datum::Uint16(rs as u16))
                &&& m[2] == ("ip_version"@, Datum::Uint16(ip_version as u16))
                &&& m[3] == ("database_type"@, Datum::String(database_type))
                &&& m[4].0 == "languages"@
                &&& m[4].1 is Array
                &&& m[4].1->Array_0.len() == languages.len()
                &&& forall|i: int|
                    0 <= i < languages.len() ==> #[trigger] m[4].1->Array_0[i] == Datum::String(languages[i])
                &&& m[5] == ("binary_format_major_version"@, Datum::Uint16(2))
                &&& m[6] == ("binary_format_minor_version"@, Datum::Uint16(0))
                &&& m[7].0 == "description"@
                &&& m[7].1 is Mapping
                &&& m[7].1->Mapping_0.len() == description.len()
                &&& forall|i: int|
                    0 <= i < description.len() ==> #[trigger] m[7].1->Mapping_0[i] == (
                        description[i].0,
                        Datum::String(description[i].1),
                    )
                &&& m[8] == ("build_epoch"@, Datum::Uint64(build_epoch))
            },
{
    let nc = recs.len();
    let rs = record_size_for(nc + DATA_SECTION_SEPARATOR as nat + data.len());
    let m = metadata_entries(nc as u32, rs as u8, ip_version, database_type, languages, description, build_epoch);
    let n = inline_bytes(Datum::Mapping(m)).len() as int;
    law_metadata_reads_back(out, recs, data, ip_version, database_type, languages, description, build_epoch);
    assert(decode_value(out.subrange(out.len() - n, out.len() as int), 0, height(Datum::Mapping(m))) == Some(
        (Datum::Mapping(m), n),
    ));
}

} // verus!
