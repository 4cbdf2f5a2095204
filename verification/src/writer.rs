//! Assembling an MMDB file: the search tree, the data section and the metadata.
use vstd::prelude::*;
use crate::bytes::{append_bytes, write_u32_be, write_u8};
use crate::encoder::{lemma_extends_append, lemma_extends_trans, lemma_own_spec_grows, ordered_entries, own_spec, Encoder};
use crate::format::{be_u24, be_u32, extends, inline_bytes, stored_at};
use crate::network::Network;
use crate::tree::{agree, law_insert_then_lookup, tree_inserted, Tree, UNASSIGNED_ID};
use crate::value::{Datum, MmdbValue, MAX_EXTENDED_LEN};

verus! {

/// The number of zero bytes between the search tree and the data section.
pub const DATA_SECTION_SEPARATOR: u32 = 16;

/// The bytes that announce the metadata: 0xAB 0xCD 0xEF, then "MaxMind.com".
pub open spec fn metadata_marker() -> Seq<u8> {
    seq![0xABu8, 0xCDu8, 0xEFu8, 77u8, 97u8, 120u8, 77u8, 105u8, 110u8, 100u8, 46u8, 99u8, 111u8, 109u8]
}

/// How a node of the search tree refers to one of its children.
#[derive(Debug, Clone, Copy, PartialEq, Eq)]
pub enum Record {
    /// No child: the address has no data.
    Empty,
    /// An inner node, by its number.
    Node(u32),
    /// A leaf, by the offset of its value in the data section.
    Leaf(u32),
}

/// The number written for a child reference in a tree of `node_count` nodes.
pub open spec fn record_number(r: Record, node_count: nat) -> nat {
    match r {
        Record::Empty => node_count,
        Record::Node(j) => j as nat,
        Record::Leaf(o) => node_count + DATA_SECTION_SEPARATOR as nat + o as nat,
    }
}

/// The bytes of one node's pair of records at `record_size` bits each.
pub open spec fn record_pair_bytes(left: u32, right: u32, record_size: nat) -> Seq<u8> {
    if record_size == 24 {
        be_u24(left) + be_u24(right)
    } else if record_size == 28 {
        be_u24(left) + seq![((left / 0x100_0000 % 16) * 16 + right / 0x100_0000 % 16) as u8] + be_u24(right)
    } else {
        be_u32(left) + be_u32(right)
    }
}

/// The search tree section: the records of every node, in node order.
pub open spec fn tree_section(recs: Seq<(Record, Record)>, node_count: nat, record_size: nat) -> Seq<u8>
    decreases recs.len(),
{
    if recs.len() == 0 {
        seq![]
    } else {
        tree_section(recs.drop_last(), node_count, record_size) + record_pair_bytes(
            record_number(recs.last().0, node_count) as u32,
            record_number(recs.last().1, node_count) as u32,
            record_size,
        )
    }
}

/// The smallest record size (24, 28 or 32 bits) that holds `max_record`.
pub open spec fn record_size_for(max_record: nat) -> nat {
    if max_record <= 0xFF_FFFF {
        24
    } else if max_record <= 0x0FFF_FFFF {
        28
    } else {
        32
    }
}

/// The record `r` of a node, for its child `c`, is right in `recs` and `data`:
/// no child and `Empty`; a leaf and the offset of a place that holds its
/// value; an inner node and a later node number whose records are right.
pub open spec fn child_ok(recs: Seq<(Record, Record)>, parent: int, r: Record, c: Option<Box<Tree>>, data: Seq<u8>) -> bool
    decreases c,
{
    match c {
        None => r is Empty,
        Some(b) => match *b {
            Tree::Leaf(v) => r matches Record::Leaf(o) && stored_at(data, o as int, v@),
            Tree::Node { .. } => r matches Record::Node(j) && parent < j && tree_at(recs, j as int, *b, data),
        },
    }
}

/// Node number `i` of `recs` stands for the inner node `t`.
pub open spec fn tree_at(recs: Seq<(Record, Record)>, i: int, t: Tree, data: Seq<u8>) -> bool
    decreases t,
{
    match t {
        Tree::Leaf(_) => false,
        Tree::Node { left, right, .. } => {
            &&& 0 <= i < recs.len()
            &&& child_ok(recs, i, recs[i].0, left, data)
            &&& child_ok(recs, i, recs[i].1, right, data)
        },
    }
}

/// Every record from index `from` on is the same in `recs2` as in `recs`.
pub open spec fn recs_kept(recs: Seq<(Record, Record)>, recs2: Seq<(Record, Record)>, from: int) -> bool {
    &&& recs.len() <= recs2.len()
    &&& forall|k: int| from <= k < recs.len() ==> #[trigger] recs2[k] == recs[k]
}

/// A child's reference stays right while the records after its parent's
/// stay and the data section grows.
pub proof fn lemma_child_ok_kept(
    recs: Seq<(Record, Record)>,
    recs2: Seq<(Record, Record)>,
    parent: int,
    r: Record,
    c: Option<Box<Tree>>,
    data: Seq<u8>,
    data2: Seq<u8>,
)
    requires
        child_ok(recs, parent, r, c, data),
        recs_kept(recs, recs2, parent + 1),
        extends(data, data2),
    ensures
        child_ok(recs2, parent, r, c, data2),
    decreases c,
{
    match c {
        None => {},
        Some(b) => match *b {
            Tree::Leaf(v) => {
                crate::format::lemma_stored_extend(data, data2, r->Leaf_0 as int, v@);
            },
            Tree::Node { .. } => {
                lemma_tree_at_kept(recs, recs2, r->Node_0 as int, *b, data, data2);
            },
        },
    }
}

/// The records of a subtree stay right while later records are added and
/// earlier ones changed.
pub proof fn lemma_tree_at_kept(
    recs: Seq<(Record, Record)>,
    recs2: Seq<(Record, Record)>,
    i: int,
    t: Tree,
    data: Seq<u8>,
    data2: Seq<u8>,
)
    requires
        tree_at(recs, i, t, data),
        recs_kept(recs, recs2, i),
        extends(data, data2),
    ensures
        tree_at(recs2, i, t, data2),
    decreases t,
{
    match t {
        Tree::Node { left, right, .. } => {
            assert(recs2[i] == recs[i]);
            lemma_child_ok_kept(recs, recs2, i, recs[i].0, left, data, data2);
            lemma_child_ok_kept(recs, recs2, i, recs[i].1, right, data, data2);
        },
        Tree::Leaf(_) => {},
    }
}

/// The inner node `t` and those below it are numbered in preorder from `i`:
/// `t` itself is `i`, then its left subtree from `i + 1`, then its right
/// subtree; every leaf below `t` refers to an offset at or after `base`.
pub open spec fn preorder_at(recs: Seq<(Record, Record)>, i: int, t: Tree, base: nat) -> bool
    decreases t,
{
    match t {
        Tree::Leaf(_) => false,
        Tree::Node { left, right, .. } => {
            let nl: nat = match left {
                Some(c) => c.node_total(),
                None => 0,
            };
            &&& 0 <= i < recs.len()
            &&& child_preorder(recs, recs[i].0, left, i + 1, base)
            &&& child_preorder(recs, recs[i].1, right, i + 1 + nl, base)
        },
    }
}

/// The record `r` for the child `c`: an inner node is numbered `j` and the
/// nodes below it follow in preorder; a leaf refers to an offset at or after `base`.
pub open spec fn child_preorder(recs: Seq<(Record, Record)>, r: Record, c: Option<Box<Tree>>, j: int, base: nat) -> bool
    decreases c,
{
    match c {
        None => true,
        Some(b) => match *b {
            Tree::Leaf(_) => r matches Record::Leaf(o) && base <= o,
            Tree::Node { .. } => r == Record::Node(j as u32) && preorder_at(recs, j, *b, base),
        },
    }
}

/// Preorder numbering stays while the records from the subtree's number on
/// stay, and holds for any lower `base`.
pub proof fn lemma_preorder_kept(
    recs: Seq<(Record, Record)>,
    recs2: Seq<(Record, Record)>,
    i: int,
    t: Tree,
    base: nat,
    base2: nat,
)
    requires
        preorder_at(recs, i, t, base),
        recs_kept(recs, recs2, i),
        base2 <= base,
    ensures
        preorder_at(recs2, i, t, base2),
    decreases t,
{
    match t {
        Tree::Node { left, right, .. } => {
            assert(recs2[i] == recs[i]);
            let nl: nat = match left {
                Some(c) => c.node_total(),
                None => 0,
            };
            lemma_child_preorder_kept(recs, recs2, recs[i].0, left, i + 1, base, base2);
            lemma_child_preorder_kept(recs, recs2, recs[i].1, right, i + 1 + nl, base, base2);
        },
        Tree::Leaf(_) => {},
    }
}

/// `lemma_preorder_kept` for the record of one child.
pub proof fn lemma_child_preorder_kept(
    recs: Seq<(Record, Record)>,
    recs2: Seq<(Record, Record)>,
    r: Record,
    c: Option<Box<Tree>>,
    j: int,
    base: nat,
    base2: nat,
)
    requires
        child_preorder(recs, r, c, j, base),
        recs_kept(recs, recs2, j),
        base2 <= base,
    ensures
        child_preorder(recs2, r, c, j, base2),
    decreases c,
{
    match c {
        None => {},
        Some(b) => match *b {
            Tree::Leaf(_) => {},
            Tree::Node { .. } => {
                lemma_preorder_kept(recs, recs2, j, *b, base, base2);
            },
        },
    }
}

impl Tree {
    /// The number of inner nodes.
    pub open spec fn node_total(self) -> nat
        decreases self,
    {
        match self {
            Tree::Leaf(_) => 0,
            Tree::Node { left, right, .. } => {
                let l = match left {
                    Some(c) => c.node_total(),
                    None => 0,
                };
                let r = match right {
                    Some(c) => c.node_total(),
                    None => 0,
                };
                1 + l + r
            },
        }
    }
}

} // verus!

verus! {

/// The data section and table after `build` writes the leaves below `t`:
/// in preorder, each leaf's members, then its own bytes (as `own_spec` lays
/// them out); nothing below an inner node numbered by an earlier build.
pub open spec fn leaves_spec(data: Seq<u8>, table: Map<Seq<u8>, u32>, t: Tree) -> (Seq<u8>, Map<Seq<u8>, u32>)
    decreases t,
{
    match t {
        Tree::Leaf(v) => {
            let (d1, t1, own) = own_spec(data, table, v@);
            (d1 + own, t1)
        },
        Tree::Node { left, right, id } => if id != UNASSIGNED_ID {
            (data, table)
        } else {
            let (d1, t1) = match left {
                Some(c) => leaves_spec(data, table, *c),
                None => (data, table),
            };
            match right {
                Some(c) => leaves_spec(d1, t1, *c),
                None => (d1, t1),
            }
        },
    }
}

/// `leaves_spec` of an optional child.
pub open spec fn opt_leaves_spec(data: Seq<u8>, table: Map<Seq<u8>, u32>, c: Option<Box<Tree>>) -> (
    Seq<u8>,
    Map<Seq<u8>, u32>,
) {
    match c {
        Some(b) => leaves_spec(data, table, *b),
        None => (data, table),
    }
}

/// Writing the leaves only appends to the data section.
pub proof fn lemma_leaves_spec_grows(data: Seq<u8>, table: Map<Seq<u8>, u32>, t: Tree)
    ensures
        extends(data, leaves_spec(data, table, t).0),
    decreases t,
{
    assert(data.subrange(0, data.len() as int) =~= data);
    match t {
        Tree::Leaf(v) => {
            let (d1, t1, own) = own_spec(data, table, v@);
            lemma_own_spec_grows(data, table, v@);
            lemma_extends_append(d1, own);
            lemma_extends_trans(data, d1, d1 + own);
        },
        Tree::Node { left, right, id } => if id != UNASSIGNED_ID {
        } else {
            let (d1, t1) = opt_leaves_spec(data, table, left);
            if let Some(c) = left {
                lemma_leaves_spec_grows(data, table, *c);
            }
            if let Some(c) = right {
                lemma_leaves_spec_grows(d1, t1, *c);
                lemma_extends_trans(data, d1, leaves_spec(d1, t1, *c).0);
            }
        },
    }
}

/// The number of address bits of a database of IP version `ip_version`:
/// 32 for version 4, 128 otherwise.
pub open spec fn address_bits(ip_version: u8) -> nat {
    if ip_version == 4 {
        32
    } else {
        128
    }
}

/// Where a network goes in a database of version `ip_version`: its address
/// as a number of `total` bits, its prefix length and `total`. An IPv4
/// network goes into an IPv6 database only where `ipv4_compatible` holds, at
/// its IPv4-mapped address (`::ffff:a.b.c.d`), keeping its IPv4 prefix length.
pub open spec fn network_key(network: Network, ip_version: u8, ipv4_compatible: bool) -> Option<(u128, u8, u8)> {
    match network {
        Network::V4 { addr, prefix } => if ip_version == 6 && ipv4_compatible {
            Some(((0xFFFF_0000_0000 + addr) as u128, prefix, 128u8))
        } else if ip_version == 4 {
            Some((addr as u128, prefix, 32u8))
        } else {
            None
        },
        Network::V6 { addr, prefix } => if ip_version == 4 {
            None
        } else {
            Some((addr, prefix, 128u8))
        },
    }
}

/// The error for a network that a database of version `ip_version` does not take.
pub open spec fn network_error(network: Network) -> Seq<char> {
    match network {
        Network::V4 { .. } => "Invalid IP version for IPv4 network"@,
        Network::V6 { .. } => "Cannot insert IPv6 into IPv4-only database"@,
    }
}

/// `new` is `old` after inserting `content` for `network` (which `old`'s
/// database takes): every address of the network looks up `content`, every
/// other one what it did before (but see `tree_inserted` for a leaf root);
/// nothing else changes.
pub open spec fn inserted(old: MMDBWriter, new: MMDBWriter, network: Network, content: Datum) -> bool {
    match network_key(network, old.ip_version(), old.ipv4_compatible()) {
        Some((ip, prefix, total)) => {
            &&& total == old.total_bits()
            &&& new.ip_version() == old.ip_version()
            &&& new.ipv4_compatible() == old.ipv4_compatible()
            &&& new.database_type() == old.database_type()
            &&& new.languages() == old.languages()
            &&& new.description() == old.description()
            &&& new.data() == old.data()
            &&& forall|a: u128|
                #[trigger] new.root().lookup(a, total as nat, 0) == tree_inserted(
                    old.root(),
                    ip,
                    prefix as nat,
                    total as nat,
                    content,
                    a,
                )
            &&& old.unbuilt() ==> new.unbuilt()
            &&& prefix > 0 ==> new.root() is Node
        },
        None => false,
    }
}

/// Inserting two networks that share no address gives the same answers in
/// either order, into a writer whose root is an inner node.
pub proof fn law_disjoint_inserts_commute(
    w0: MMDBWriter,
    w1: MMDBWriter,
    w2: MMDBWriter,
    v1: MMDBWriter,
    v2: MMDBWriter,
    n1: Network,
    c1: Datum,
    n2: Network,
    c2: Datum,
    a: u128,
)
    requires
        w0.root() is Node,
        inserted(w0, w1, n1, c1),
        inserted(w1, w2, n2, c2),
        inserted(w0, v1, n2, c2),
        inserted(v1, v2, n1, c1),
        ({
            let (ip1, p1, t1) = network_key(n1, w0.ip_version(), w0.ipv4_compatible())->0;
            let (ip2, p2, t2) = network_key(n2, w0.ip_version(), w0.ipv4_compatible())->0;
            forall|x: u128|
                !(#[trigger] agree(x, ip1, t1 as nat, 0, p1 as nat) && #[trigger] agree(x, ip2, t2 as nat, 0, p2 as nat))
        }),
    ensures
        w2.root().lookup(a, w0.total_bits(), 0) == v2.root().lookup(a, w0.total_bits(), 0),
{
    let (ip1, p1, t1) = network_key(n1, w0.ip_version(), w0.ipv4_compatible())->0;
    let (ip2, p2, t2) = network_key(n2, w0.ip_version(), w0.ipv4_compatible())->0;
    let t = w0.total_bits();
    assert(agree(ip2, ip2, t, 0, p2 as nat));
    assert(agree(ip1, ip1, t, 0, p1 as nat));
    if p1 == 0 {
        assert(agree(ip2, ip1, t, 0, 0));
    }
    if p2 == 0 {
        assert(agree(ip1, ip2, t, 0, 0));
    }
    assert(w2.root().lookup(a, t, 0) == tree_inserted(w1.root(), ip2, p2 as nat, t, c2, a));
    assert(w1.root().lookup(a, t, 0) == tree_inserted(w0.root(), ip1, p1 as nat, t, c1, a));
    assert(v2.root().lookup(a, t, 0) == tree_inserted(v1.root(), ip1, p1 as nat, t, c1, a));
    assert(v1.root().lookup(a, t, 0) == tree_inserted(w0.root(), ip2, p2 as nat, t, c2, a));
    law_insert_then_lookup(w1.root(), ip2, p2 as nat, t, c2, a);
    law_insert_then_lookup(w0.root(), ip1, p1 as nat, t, c1, a);
    law_insert_then_lookup(v1.root(), ip1, p1 as nat, t, c1, a);
    law_insert_then_lookup(w0.root(), ip2, p2 as nat, t, c2, a);
    if agree(a, ip1, t, 0, p1 as nat) {
        assert(!agree(a, ip2, t, 0, p2 as nat));
    }
}

/// Builds an MMDB database: networks with their values, then the file.
pub struct MMDBWriter {
    ip_version: u8,
    database_type: String,
    languages: Vec<String>,
    description: Vec<(String, String)>,
    root: Tree,
    ipv4_compatible: bool,
    encoder: Encoder,
}

impl MMDBWriter {
    pub closed spec fn ip_version(&self) -> u8 {
        self.ip_version
    }

    pub closed spec fn ipv4_compatible(&self) -> bool {
        self.ipv4_compatible
    }

    pub closed spec fn database_type(&self) -> Seq<char> {
        self.database_type@
    }

    pub closed spec fn languages(&self) -> Seq<Seq<char>> {
        self.languages@.map_values(|l: String| l@)
    }

    pub closed spec fn description(&self) -> Seq<(Seq<char>, Seq<char>)> {
        self.description@.map_values(|e: (String, String)| (e.0@, e.1@))
    }

    /// The search tree.
    pub closed spec fn root(&self) -> Tree {
        self.root
    }

    /// The data section written so far.
    pub closed spec fn data(&self) -> Seq<u8> {
        self.encoder.data()
    }

    /// For the bytes of each scalar written to the data section, its offset.
    pub closed spec fn table(&self) -> Map<Seq<u8>, u32> {
        self.encoder.table()
    }

    /// The number of address bits of this database.
    pub open spec fn total_bits(&self) -> nat {
        address_bits(self.ip_version())
    }

    /// The writer's invariant.
    pub closed spec fn wf(&self) -> bool {
        &&& self.encoder.wf()
        &&& self.root.leaves_fit()
        &&& self.languages@.len() < MAX_EXTENDED_LEN
        &&& forall|i: int, j: int|
            0 <= i < j < self.description@.len() ==> (#[trigger] self.description@[i]).0@ != (#[trigger] self.description@[j]).0@
    }

    /// The writer has not built a file yet (no node is numbered).
    pub open spec fn unbuilt(&self) -> bool {
        self.root().fresh()
    }

    /// The file fits what 32-bit records and pointers can address: the data
    /// section as `build` leaves it, with the separator and a record number
    /// for every inner node.
    pub open spec fn build_fits(&self) -> bool {
        leaves_spec(self.data(), self.table(), self.root()).0.len() + DATA_SECTION_SEPARATOR + self.root().node_total()
            <= u32::MAX
    }

    /// A writer with an empty tree. The description's keys are distinct, as
    /// they are the keys of a map.
    pub fn new(
        ip_version: u8,
        database_type: String,
        languages: Vec<String>,
        description: Vec<(String, String)>,
        ipv4_compatible: bool,
    ) -> (w: Self)
        requires
            languages@.len() < MAX_EXTENDED_LEN,
            forall|i: int, j: int|
                0 <= i < j < description@.len() ==> (#[trigger] description@[i]).0@ != (#[trigger] description@[j]).0@,
        ensures
            w.wf(),
            w.unbuilt(),
            w.ip_version() == ip_version,
            w.ipv4_compatible() == ipv4_compatible,
            w.database_type() == database_type@,
            w.languages() == languages@.map_values(|l: String| l@),
            w.description() == description@.map_values(|e: (String, String)| (e.0@, e.1@)),
            w.root() == Tree::empty_node(),
            w.data() == Seq::<u8>::empty(),
    {
        MMDBWriter {
            ip_version,
            database_type,
            languages,
            description,
            root: Tree::new_node(),
            ipv4_compatible,
            encoder: Encoder::new(),
        }
    }

    /// The address, prefix length and address width of `network` in this database.
    fn parse_network(&self, network: Network) -> (r: Result<(u128, u8, u8), String>)
        ensures
            match network_key(network, self.ip_version, self.ipv4_compatible) {
                Some(k) => r == Ok::<(u128, u8, u8), String>(k),
                None => r is Err && r->Err_0@ == network_error(network),
            },
    {
        match network {
            Network::V4 { addr, prefix } => {
                if self.ip_version == 6 && self.ipv4_compatible {
                    Ok((0xFFFF_0000_0000u128 + addr as u128, prefix, 128))
                } else if self.ip_version == 4 {
                    Ok((addr as u128, prefix, 32))
                } else {
                    Err("Invalid IP version for IPv4 network".to_owned())
                }
            },
            Network::V6 { addr, prefix } => {
                if self.ip_version == 4 {
                    Err("Cannot insert IPv6 into IPv4-only database".to_owned())
                } else {
                    Ok((addr, prefix, 128))
                }
            },
        }
    }

    /// Inserts `content` for every address of `network`. Addresses of the
    /// network that already had a value (a larger network holding it, or
    /// smaller networks inside) now have `content`; the rest keep theirs.
    /// A network the database does not take is refused and nothing changes.
    pub fn insert_network(&mut self, network: Network, content: MmdbValue) -> (r: Result<(), String>)
        requires
            old(self).wf(),
            network.valid(),
            content@.arrays_fit(),
            content@.keys_distinct(),
        ensures
            final(self).wf(),
            match network_key(network, old(self).ip_version(), old(self).ipv4_compatible()) {
                None => r is Err && r->Err_0@ == network_error(network) && *final(self) == *old(self),
                Some(_) => r is Ok && inserted(*old(self), *final(self), network, content@),
            },
    {
        let (ip, prefix_len, total_bits) = match self.parse_network(network) {
            Ok(k) => k,
            Err(e) => return Err(e),
        };
        let mut root = Tree::new_node();
        std::mem::swap(&mut root, &mut self.root);
        self.root = root.insert(ip, prefix_len, total_bits, content);
        Ok(())
    }
}

} // verus!

verus! {

/// Every leaf reference in `recs` is an offset below `n`.
pub open spec fn leaf_refs_below(recs: Seq<(Record, Record)>, n: nat) -> bool {
    forall|k: int|
        0 <= k < recs.len() ==> ((#[trigger] recs[k]).0 matches Record::Leaf(o) ==> o < n) && (recs[k].1 matches Record::Leaf(o)
            ==> o < n)
}

/// Whether an optional subtree has no numbered node.
pub open spec fn opt_fresh(c: Option<Box<Tree>>) -> bool {
    match c {
        Some(b) => b.fresh(),
        None => true,
    }
}

pub open spec fn opt_node_total(c: Option<Box<Tree>>) -> nat {
    match c {
        Some(b) => b.node_total(),
        None => 0,
    }
}

pub open spec fn opt_leaves_fit(c: Option<Box<Tree>>) -> bool {
    match c {
        Some(b) => b.leaves_fit(),
        None => true,
    }
}

/// The same answer for every address as `c`.
pub open spec fn opt_same_lookups(c: Option<Box<Tree>>, c2: Option<Box<Tree>>) -> bool {
    match c {
        None => c2 is None,
        Some(b) => c2 is Some && forall|a: u128, t: nat, d: nat| #[trigger] c2->0.lookup(a, t, d) == b.lookup(a, t, d),
    }
}

/// Leaf references below `n` are below any larger `m`.
proof fn lemma_leaf_refs_grow(recs: Seq<(Record, Record)>, n: nat, m: nat)
    requires
        leaf_refs_below(recs, n),
        n <= m,
    ensures
        leaf_refs_below(recs, m),
{
}

/// Numbers the not yet numbered inner nodes of `node` in preorder, left
/// before right, appending each one's records to `ordered`; writes each leaf
/// met on the way to the data section. A node numbered before is left as it
/// is, with what is below it. Stops (`None`) at a leaf that might not fit
/// below 4 GiB of data, or at a node that would need a number from
/// `0xFFFF_FFFE` on; the tree comes back with the same answers in any case.
fn assign_ids_and_encode(node: Tree, encoder: &mut Encoder, ordered: &mut Vec<(Record, Record)>) -> (r: (
    Tree,
    Option<Record>,
))
    requires
        old(encoder).wf(),
        node.leaves_fit(),
        old(ordered)@.len() <= 0xFFFF_FFFE,
        leaf_refs_below(old(ordered)@, old(encoder).data().len()),
    ensures
        final(encoder).wf(),
        extends(old(encoder).data(), final(encoder).data()),
        old(encoder).cache_kept(final(encoder)),
        recs_kept(old(ordered)@, final(ordered)@, 0),
        final(ordered)@.len() <= old(ordered)@.len() + node.node_total(),
        final(ordered)@.len() <= 0xFFFF_FFFE,
        leaf_refs_below(final(ordered)@, final(encoder).data().len()),
        forall|a: u128, t: nat, d: nat| #[trigger] r.0.lookup(a, t, d) == node.lookup(a, t, d),
        r.0.leaves_fit(),
        r.0.node_total() == node.node_total(),
        leaves_spec(old(encoder).data(), old(encoder).table(), node).0.len() <= u32::MAX && old(ordered)@.len()
            + node.node_total()
            <= 0xFFFF_FFFE ==> r.1 is Some,
        r.1 matches Some(rec) ==> {
            &&& node is Leaf ==> (rec matches Record::Leaf(o) && stored_at(
                final(encoder).data(),
                o as int,
                node->Leaf_0@,
            ))
            &&& node is Node ==> r.0 is Node && rec is Node
            &&& node is Node && node.fresh() ==> {
                &&& rec == Record::Node(old(ordered)@.len() as u32)
                &&& tree_at(final(ordered)@, old(ordered)@.len() as int, node, final(encoder).data())
                &&& final(ordered)@.len() == old(ordered)@.len() + node.node_total()
            }
        },
        r.1 matches Some(Record::Leaf(o)) ==> o < final(encoder).data().len(),
        node is Leaf || node->id != UNASSIGNED_ID ==> final(ordered)@ == old(ordered)@,
        r.1 is Some ==> (final(encoder).data(), final(encoder).table()) == leaves_spec(
            old(encoder).data(),
            old(encoder).table(),
            node,
        ),
        r.1 matches Some(Record::Leaf(o)) ==> old(encoder).data().len() <= o,
        r.1 is Some && node is Node && node.fresh() ==> preorder_at(
            final(ordered)@,
            old(ordered)@.len() as int,
            node,
            old(encoder).data().len(),
        ),
    decreases node, 1int,
{
    match node {
        Tree::Node { left, right, id } => {
            if id == UNASSIGNED_ID {
                if ordered.len() >= 0xFFFF_FFFE {
                    let res = Tree::Node { left, right, id };
                    proof {
                        assert(encoder.data().subrange(0, encoder.data().len() as int) =~= encoder.data());
                        assert forall|a: u128, t: nat, d: nat| #[trigger] res.lookup(a, t, d) == node.lookup(a, t, d) by {
                        }
                    }
                    return (res, None);
                }
                let my = ordered.len();
                ordered.push((Record::Empty, Record::Empty));
                let ghost recs0 = ordered@;
                let ghost data0 = encoder.data();
                let (l, lref) = assign_child(left, encoder, ordered, Ghost(my as int));
                let ghost recs1 = ordered@;
                let ghost data1 = encoder.data();
                let lref = match lref {
                    Some(x) => x,
                    None => {
                        let res = Tree::Node { left: l, right, id: my as u32 };
                        proof {
                            assert forall|a: u128, t: nat, d: nat| #[trigger] res.lookup(a, t, d) == node.lookup(a, t, d) by {
                                if left is Some {
                                    assert(l->0.lookup(a, t, d + 1) == left->0.lookup(a, t, d + 1));
                                }
                            }
                            assert(recs_kept(old(ordered)@, recs1, 0));
                            let (d1, t1) = opt_leaves_spec(old(encoder).data(), old(encoder).table(), left);
                            let rr = node->right;
                            if rr is Some {
                                lemma_leaves_spec_grows(d1, t1, *rr->0);
                            }
                        }
                        return (res, None);
                    },
                };
                let (r, rref) = assign_child(right, encoder, ordered, Ghost(my as int));
                let ghost recs2 = ordered@;
                let ghost data2 = encoder.data();
                let rref = match rref {
                    Some(x) => x,
                    None => {
                        let res = Tree::Node { left: l, right: r, id: my as u32 };
                        proof {
                            assert forall|a: u128, t: nat, d: nat| #[trigger] res.lookup(a, t, d) == node.lookup(a, t, d) by {
                                if left is Some {
                                    assert(l->0.lookup(a, t, d + 1) == left->0.lookup(a, t, d + 1));
                                }
                                if right is Some {
                                    assert(r->0.lookup(a, t, d + 1) == right->0.lookup(a, t, d + 1));
                                }
                            }
                            assert(data2.subrange(0, old(encoder).data().len() as int) =~= data1.subrange(
                                0,
                                old(encoder).data().len() as int,
                            ));
                            assert(data1.subrange(0, old(encoder).data().len() as int) =~= data0.subrange(
                                0,
                                old(encoder).data().len() as int,
                            ));
                            assert(recs_kept(old(ordered)@, recs2, 0));
                        }
                        return (res, None);
                    },
                };
                ordered.set(my, (lref, rref));
                let res = Tree::Node { left: l, right: r, id: my as u32 };
                proof {
                    let recs3 = ordered@;
                    assert(recs_kept(recs2, recs3, my + 1));
                    assert(recs_kept(old(ordered)@, recs3, 0));
                    if node.fresh() {
                        assert(opt_fresh(left) && opt_fresh(right));
                        lemma_child_ok_kept(recs1, recs3, my as int, lref, left, data1, data2);
                        assert(data2.subrange(0, data2.len() as int) =~= data2);
                        lemma_child_ok_kept(recs2, recs3, my as int, rref, right, data2, data2);
                        assert(tree_at(recs3, my as int, node, data2));
                        assert(recs_kept(recs1, recs3, my + 1));
                        lemma_child_preorder_kept(
                            recs1,
                            recs3,
                            lref,
                            left,
                            my + 1,
                            data0.len(),
                            old(encoder).data().len(),
                        );
                        lemma_child_preorder_kept(
                            recs2,
                            recs3,
                            rref,
                            right,
                            recs1.len() as int,
                            data1.len(),
                            old(encoder).data().len(),
                        );
                        assert(preorder_at(recs3, my as int, node, old(encoder).data().len()));
                    }
                    assert(data2.subrange(0, old(encoder).data().len() as int) =~= data1.subrange(
                        0,
                        old(encoder).data().len() as int,
                    ));
                    assert(data1.subrange(0, old(encoder).data().len() as int) =~= data0.subrange(
                        0,
                        old(encoder).data().len() as int,
                    ));
                    assert(leaf_refs_below(recs3, data2.len()));
                    assert forall|a: u128, t: nat, d: nat| #[trigger] res.lookup(a, t, d) == node.lookup(a, t, d) by {
                        if left is Some {
                            assert(l->0.lookup(a, t, d + 1) == left->0.lookup(a, t, d + 1));
                        }
                        if right is Some {
                            assert(r->0.lookup(a, t, d + 1) == right->0.lookup(a, t, d + 1));
                        }
                    }
                }
                (res, Some(Record::Node(my as u32)))
            } else {
                let res = Tree::Node { left, right, id };
                proof {
                    assert(encoder.data().subrange(0, encoder.data().len() as int) =~= encoder.data());
                    assert forall|a: u128, t: nat, d: nat| #[trigger] res.lookup(a, t, d) == node.lookup(a, t, d) by {
                    }
                }
                (res, Some(Record::Node(id)))
            }
        },
        Tree::Leaf(value) => {
            match encoder.store_leaf(&value) {
                Some(offset) => {
                    let res = Tree::Leaf(value);
                    proof {
                        lemma_leaf_refs_grow(old(ordered)@, old(encoder).data().len(), encoder.data().len());
                        assert(ordered@.subrange(0, 0) =~= Seq::<(Record, Record)>::empty());
                    }
                    (res, Some(Record::Leaf(offset)))
                },
                None => {
                    let res = Tree::Leaf(value);
                    (res, None)
                },
            }
        },
    }
}

/// `assign_ids_and_encode` on an optional child of the node numbered `parent`.
fn assign_child(c: Option<Box<Tree>>, encoder: &mut Encoder, ordered: &mut Vec<(Record, Record)>, parent: Ghost<int>) -> (r: (
    Option<Box<Tree>>,
    Option<Record>,
))
    requires
        old(encoder).wf(),
        opt_leaves_fit(c),
        old(ordered)@.len() <= 0xFFFF_FFFE,
        leaf_refs_below(old(ordered)@, old(encoder).data().len()),
        0 <= parent@ < old(ordered)@.len(),
    ensures
        final(encoder).wf(),
        extends(old(encoder).data(), final(encoder).data()),
        old(encoder).cache_kept(final(encoder)),
        recs_kept(old(ordered)@, final(ordered)@, 0),
        final(ordered)@.len() <= old(ordered)@.len() + opt_node_total(c),
        final(ordered)@.len() <= 0xFFFF_FFFE,
        leaf_refs_below(final(ordered)@, final(encoder).data().len()),
        opt_same_lookups(c, r.0),
        opt_leaves_fit(r.0),
        opt_node_total(r.0) == opt_node_total(c),
        opt_leaves_spec(old(encoder).data(), old(encoder).table(), c).0.len() <= u32::MAX && old(ordered)@.len()
            + opt_node_total(c)
            <= 0xFFFF_FFFE ==> r.1 is Some,
        r.1 matches Some(rec) ==> (opt_fresh(c) ==> child_ok(final(ordered)@, parent@, rec, c, final(encoder).data())
            && final(ordered)@.len() == old(ordered)@.len() + opt_node_total(c)),
        r.1 matches Some(Record::Leaf(o)) ==> o < final(encoder).data().len(),
        r.1 is Some ==> (final(encoder).data(), final(encoder).table()) == opt_leaves_spec(
            old(encoder).data(),
            old(encoder).table(),
            c,
        ),
        r.1 matches Some(rec) ==> (opt_fresh(c) ==> child_preorder(
            final(ordered)@,
            rec,
            c,
            old(ordered)@.len() as int,
            old(encoder).data().len(),
        )),
    decreases c, 0int,
{
    match c {
        None => {
            proof {
                assert(ordered@.subrange(0, 0) =~= Seq::<(Record, Record)>::empty());
                assert(encoder.data().subrange(0, encoder.data().len() as int) =~= encoder.data());
            }
            (None, Some(Record::Empty))
        },
        Some(b) => {
            let (t, rf) = assign_ids_and_encode(*b, encoder, ordered);
            (Some(Box::new(t)), rf)
        },
    }
}

} // verus!

verus! {

/// The metadata entries, in the order they are written: `build_epoch` last.
pub open spec fn metadata_entries(
    node_count: u32,
    record_size: u8,
    ip_version: u8,
    database_type: Seq<char>,
    languages: Seq<Seq<char>>,
    description: Seq<(Seq<char>, Seq<char>)>,
    build_epoch: u64,
) -> Seq<(Seq<char>, Datum)> {
    seq![
        ("node_count"@, Datum::Uint32(node_count)),
        ("record_size"@, Datum::Uint16(record_size as u16)),
        ("ip_version"@, Datum::Uint16(ip_version as u16)),
        ("database_type"@, Datum::String(database_type)),
        ("languages"@, Datum::Array(languages.map_values(|l: Seq<char>| Datum::String(l)))),
        ("binary_format_major_version"@, Datum::Uint16(2)),
        ("binary_format_minor_version"@, Datum::Uint16(0)),
        (
            "description"@,
            Datum::Mapping(description.map_values(|e: (Seq<char>, Seq<char>)| (e.0, Datum::String(e.1)))),
        ),
        ("build_epoch"@, Datum::Uint64(build_epoch)),
    ]
}

/// The number written for a child reference.
fn record_value(r: Record, node_count: u32) -> (v: u32)
    requires
        r matches Record::Leaf(o) ==> node_count + DATA_SECTION_SEPARATOR + o <= u32::MAX,
    ensures
        v == record_number(r, node_count as nat),
{
    match r {
        Record::Empty => node_count,
        Record::Node(id) => id,
        Record::Leaf(offset) => node_count + DATA_SECTION_SEPARATOR + offset,
    }
}

/// Appends one node's pair of records at `record_size` bits each (24, 28 or
/// 32; any other size is refused and nothing is written). A record keeps the
/// low `record_size` bits of its number.
pub fn write_record_pair(out: &mut Vec<u8>, left: u32, right: u32, record_size: u8) -> (r: Result<(), u8>)
    ensures
        record_size == 24 || record_size == 28 || record_size == 32 ==> r is Ok && final(out)@ == old(out)@
            + record_pair_bytes(left, right, record_size as nat),
        !(record_size == 24 || record_size == 28 || record_size == 32) ==> r == Err::<(), u8>(record_size)
            && final(out)@ == old(out)@,
{
    if record_size == 24 {
        write_u8(out, (left / 0x1_0000 % 0x100) as u8);
        write_u8(out, (left / 0x100 % 0x100) as u8);
        write_u8(out, (left % 0x100) as u8);
        write_u8(out, (right / 0x1_0000 % 0x100) as u8);
        write_u8(out, (right / 0x100 % 0x100) as u8);
        write_u8(out, (right % 0x100) as u8);
    } else if record_size == 28 {
        write_u8(out, (left / 0x1_0000 % 0x100) as u8);
        write_u8(out, (left / 0x100 % 0x100) as u8);
        write_u8(out, (left % 0x100) as u8);
        write_u8(out, ((left / 0x100_0000 % 16) * 16 + right / 0x100_0000 % 16) as u8);
        write_u8(out, (right / 0x1_0000 % 0x100) as u8);
        write_u8(out, (right / 0x100 % 0x100) as u8);
        write_u8(out, (right % 0x100) as u8);
    } else if record_size == 32 {
        write_u32_be(out, left);
        write_u32_be(out, right);
    } else {
        return Err(record_size);
    }
    assert(final(out)@ =~= old(out)@ + record_pair_bytes(left, right, record_size as nat));
    Ok(())
}

impl MMDBWriter {
    /// Appends the metadata marker, then the metadata map written in full.
    fn write_metadata(&self, out: &mut Vec<u8>, node_count: u32, record_size: u8, build_epoch: u64)
        requires
            self.wf(),
        ensures
            final(out)@ == old(out)@ + metadata_marker() + inline_bytes(
                Datum::Mapping(
                    metadata_entries(
                        node_count,
                        record_size,
                        self.ip_version(),
                        self.database_type(),
                        self.languages(),
                        self.description(),
                        build_epoch,
                    ),
                ),
            ),
    {
        let marker: Vec<u8> = vec![0xABu8, 0xCDu8, 0xEFu8, 77u8, 97u8, 120u8, 77u8, 105u8, 110u8, 100u8, 46u8, 99u8, 111u8, 109u8];
        assert(marker@ =~= metadata_marker());
        append_bytes(out, marker.as_slice());
        let mut languages: Vec<MmdbValue> = Vec::new();
        let mut i: usize = 0;
        while i < self.languages.len()
            invariant
                i <= self.languages@.len(),
                languages@.len() == i,
                forall|j: int| 0 <= j < i ==> (#[trigger] languages@[j])@ == Datum::String(self.languages@[j]@),
            decreases self.languages@.len() - i,
        {
            languages.push(MmdbValue::String(self.languages[i].clone()));
            i += 1;
        }
        let mut description: Vec<(String, MmdbValue)> = Vec::new();
        let mut i: usize = 0;
        while i < self.description.len()
            invariant
                i <= self.description@.len(),
                description@.len() == i,
                forall|j: int|
                    0 <= j < i ==> (#[trigger] description@[j]).0@ == self.description@[j].0@ && description@[j].1@
                        == Datum::String(self.description@[j].1@),
            decreases self.description@.len() - i,
        {
            description.push((self.description[i].0.clone(), MmdbValue::String(self.description[i].1.clone())));
            i += 1;
        }
        let languages = MmdbValue::Array(languages);
        let description = MmdbValue::Mapping(description);
        proof {
            let (ls, ds) = (languages@->Array_0, description@->Mapping_0);
            assert(ls =~= self.languages().map_values(|l: Seq<char>| Datum::String(l)));
            assert(ds =~= self.description().map_values(
                |e: (Seq<char>, Seq<char>)| (e.0, Datum::String(e.1)),
            ));
        }
        let entries: Vec<(&str, MmdbValue)> = vec![
            ("node_count", MmdbValue::Uint32(node_count)),
            ("record_size", MmdbValue::Uint16(record_size as u16)),
            ("ip_version", MmdbValue::Uint16(self.ip_version as u16)),
            ("database_type", MmdbValue::String(self.database_type.clone())),
            ("languages", languages),
            ("binary_format_major_version", MmdbValue::Uint16(2)),
            ("binary_format_minor_version", MmdbValue::Uint16(0)),
            ("description", description),
            ("build_epoch", MmdbValue::Uint64(build_epoch)),
        ];
        proof {
            let e = ordered_entries(entries@);
            let m = metadata_entries(
                node_count,
                record_size,
                self.ip_version(),
                self.database_type(),
                self.languages(),
                self.description(),
                build_epoch,
            );
            assert(e =~= m);
            assert forall|i: int| 0 <= i < entries@.len() implies (#[trigger] entries@[i]).1@.arrays_fit() by {
                if i == 4 {
                    let ls = entries@[4].1@->Array_0;
                    assert(forall|j: int| 0 <= j < ls.len() ==> (#[trigger] ls[j]).arrays_fit());
                } else if i == 7 {
                    let ds = entries@[7].1@->Mapping_0;
                    assert(forall|j: int| 0 <= j < ds.len() ==> (#[trigger] ds[j]).1.arrays_fit());
                }
            }
        }
        let metadata_bytes = Encoder::encode_ordered_map_inline(entries.as_slice());
        append_bytes(out, metadata_bytes.as_slice());
    }
}

} // verus!

verus! {

/// The sixteen zero bytes between the search tree and the data section.
pub open spec fn separator_bytes() -> Seq<u8> {
    Seq::new(16, |i: int| 0u8)
}

/// `out` is a complete file: the search tree of the node records `recs`
/// (their number decides the record size), the separator, the data section
/// `data`, the metadata marker and the metadata.
pub open spec fn file_layout(
    out: Seq<u8>,
    recs: Seq<(Record, Record)>,
    data: Seq<u8>,
    ip_version: u8,
    database_type: Seq<char>,
    languages: Seq<Seq<char>>,
    description: Seq<(Seq<char>, Seq<char>)>,
    build_epoch: u64,
) -> bool {
    let nc = recs.len();
    let rs = record_size_for(nc + DATA_SECTION_SEPARATOR as nat + data.len());
    out == tree_section(recs, nc, rs) + separator_bytes() + data + metadata_marker() + inline_bytes(
        Datum::Mapping(
            metadata_entries(nc as u32, rs as u8, ip_version, database_type, languages, description, build_epoch),
        ),
    )
}

/// Why `build` refuses to write a file.
#[derive(Debug, Clone, Copy, PartialEq, Eq)]
pub enum BuildError {
    /// The file might not fit what 32-bit records and pointers address.
    TooLarge,
}

/// `new` holds the same database as `old`: the same settings, and the same
/// value for every address.
pub open spec fn same_database(old: MMDBWriter, new: MMDBWriter) -> bool {
    &&& new.ip_version() == old.ip_version()
    &&& new.ipv4_compatible() == old.ipv4_compatible()
    &&& new.database_type() == old.database_type()
    &&& new.languages() == old.languages()
    &&& new.description() == old.description()
    &&& forall|a: u128, t: nat, d: nat| #[trigger] new.root().lookup(a, t, d) == old.root().lookup(a, t, d)
}

/// `out` is the file that `build` makes of `old`, which becomes `new`: the
/// same database, its nodes numbered and its leaves written to the data
/// section as `leaves_spec` lays them out; the file lays out the node records, the data section and the
/// metadata. The first time (`old` unbuilt, its root an inner node) the
/// records are those of every node of the tree, numbered in preorder (node 0
/// its root, a left subtree before the right one), each leaf written after
/// the data section as it stood; where the root is a leaf or was numbered by
/// an earlier build, there are none.
pub open spec fn built(old: MMDBWriter, new: MMDBWriter, out: Seq<u8>, build_epoch: u64) -> bool {
    &&& same_database(old, new)
    &&& extends(old.data(), new.data())
    &&& new.data() == leaves_spec(old.data(), old.table(), old.root()).0
    &&& exists|recs: Seq<(Record, Record)>|
        {
            &&& #[trigger] file_layout(
                out,
                recs,
                new.data(),
                old.ip_version(),
                old.database_type(),
                old.languages(),
                old.description(),
                build_epoch,
            )
            &&& leaf_refs_below(recs, new.data().len())
            &&& recs.len() + DATA_SECTION_SEPARATOR + new.data().len() <= u32::MAX
            &&& old.unbuilt() && old.root() is Node ==> {
                &&& recs.len() == old.root().node_total()
                &&& tree_at(recs, 0, old.root(), new.data())
                &&& preorder_at(recs, 0, old.root(), old.data().len())
            }
            &&& old.root() is Leaf || old.root()->id != UNASSIGNED_ID ==> recs.len() == 0
        }
}

impl MMDBWriter {
    /// Produces the bytes of the database file. The first time (no node
    /// numbered yet), every inner node is numbered in preorder and every leaf
    /// value written to the data section; the search tree's records then lead
    /// each address to what the tree holds for it. `build_epoch` is the build
    /// time written into the metadata, in seconds since the Unix epoch.
    /// Refused (`TooLarge`) where the file would not fit what 32-bit records
    /// and pointers address: never within `build_fits`, and, the first time,
    /// exactly outside it.
    pub fn build(&mut self, build_epoch: u64) -> (r: Result<Vec<u8>, BuildError>)
        requires
            old(self).wf(),
        ensures
            final(self).wf(),
            same_database(*old(self), *final(self)),
            old(self).build_fits() ==> r is Ok,
            r is Err ==> !old(self).build_fits(),
            old(self).unbuilt() && r is Ok ==> old(self).build_fits(),
            r matches Ok(out) ==> built(*old(self), *final(self), out@, build_epoch),
    {
        let mut root = Tree::new_node();
        std::mem::swap(&mut root, &mut self.root);
        let ghost old_root = root;
        let mut ordered: Vec<(Record, Record)> = Vec::new();
        let (root, rec) = assign_ids_and_encode(root, &mut self.encoder, &mut ordered);
        self.root = root;
        if rec.is_none() {
            return Err(BuildError::TooLarge);
        }
        proof {
            self.encoder.lemma_data_fits();
        }
        let node_count = ordered.len() as u32;
        let data_size = self.encoder.get_data_segment().len() as u32;
        if node_count as u64 + DATA_SECTION_SEPARATOR as u64 + data_size as u64 > 0xFFFF_FFFF {
            return Err(BuildError::TooLarge);
        }
        let max_record = node_count + DATA_SECTION_SEPARATOR + data_size;
        let record_size_bits: u8 = if max_record <= 0xFF_FFFF {
            24
        } else if max_record <= 0x0FFF_FFFF {
            28
        } else {
            32
        };
        let ghost rs = record_size_bits as nat;
        let mut out: Vec<u8> = Vec::new();
        let mut k: usize = 0;
        while k < ordered.len()
            invariant
                k <= ordered@.len(),
                node_count == ordered@.len(),
                leaf_refs_below(ordered@, data_size as nat),
                node_count + DATA_SECTION_SEPARATOR + data_size <= u32::MAX,
                rs == 24 || rs == 28 || rs == 32,
                rs == record_size_bits,
                out@ == tree_section(ordered@.subrange(0, k as int), node_count as nat, rs),
            decreases ordered@.len() - k,
        {
            let (l, r) = ordered[k];
            let left = record_value(l, node_count);
            let right = record_value(r, node_count);
            let _ = write_record_pair(&mut out, left, right, record_size_bits);
            proof {
                let s = ordered@.subrange(0, k as int + 1);
                assert(s.drop_last() =~= ordered@.subrange(0, k as int));
            }
            k += 1;
        }
        assert(ordered@.subrange(0, k as int) =~= ordered@);
        let ghost tree_len = out@.len();
        let mut z: usize = 0;
        while z < 16
            invariant
                z <= 16,
                out@.len() == tree_len + z,
                out@.subrange(0, tree_len as int) == tree_section(ordered@, node_count as nat, rs),
                forall|j: int| tree_len <= j < out@.len() ==> out@[j] == 0u8,
            decreases 16 - z,
        {
            out.push(0);
            z += 1;
            assert(out@.subrange(0, tree_len as int) =~= tree_section(ordered@, node_count as nat, rs));
        }
        assert(out@ =~= tree_section(ordered@, node_count as nat, rs) + separator_bytes());
        append_bytes(&mut out, self.encoder.get_data_segment());
        self.write_metadata(&mut out, node_count, record_size_bits, build_epoch);
        proof {
            let recs = ordered@;
            assert(file_layout(
                out@,
                recs,
                self.data(),
                old(self).ip_version(),
                old(self).database_type(),
                old(self).languages(),
                old(self).description(),
                build_epoch,
            ));
        }
        Ok(out)
    }
}

} // verus!
