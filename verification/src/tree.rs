//! The binary search tree of networks: each node branches on one bit of the
//! address, most significant first; a leaf holds the value for every address
//! below it.
use vstd::prelude::*;
use crate::value::{Datum, MmdbValue};

verus! {

/// The id of a node that has not been numbered for output yet.
pub const UNASSIGNED_ID: u32 = 0xFFFF_FFFF;

/// A subtree: an inner node with up to two children (left for a 0 bit,
/// right for a 1 bit) and the number it gets in the file, or a leaf value.
pub enum Tree {
    Node { left: Option<Box<Tree>>, right: Option<Box<Tree>>, id: u32 },
    Leaf(MmdbValue),
}

/// Bit `depth` of a `total`-bit address, counted from the most significant bit.
pub open spec fn addr_bit(addr: u128, total: nat, depth: nat) -> u128 {
    (addr >> ((total - 1 - depth) as u128)) & 1
}

/// `a` and `b` agree on bits `from` to `to - 1`.
pub open spec fn agree(a: u128, b: u128, total: nat, from: nat, to: nat) -> bool {
    forall|d: nat| from <= d < to ==> #[trigger] addr_bit(a, total, d) == addr_bit(b, total, d)
}

impl Tree {
    /// An inner node with no children and no id.
    pub open spec fn empty_node() -> Tree {
        Tree::Node { left: None, right: None, id: UNASSIGNED_ID }
    }

    /// The value found for the `total`-bit address `addr` by walking down
    /// from this node, which stands at `depth` (`None` where a child is
    /// missing or the address bits run out).
    pub open spec fn lookup(self, addr: u128, total: nat, depth: nat) -> Option<Datum>
        decreases self,
    {
        match self {
            Tree::Leaf(v) => Some(v@),
            Tree::Node { left, right, .. } => {
                if depth >= total {
                    None
                } else if addr_bit(addr, total, depth) == 0 {
                    match left {
                        Some(c) => c.lookup(addr, total, depth + 1),
                        None => None,
                    }
                } else {
                    match right {
                        Some(c) => c.lookup(addr, total, depth + 1),
                        None => None,
                    }
                }
            },
        }
    }

    /// No node has been numbered for output.
    pub open spec fn fresh(self) -> bool
        decreases self,
    {
        match self {
            Tree::Leaf(_) => true,
            Tree::Node { left, right, id } => {
                &&& id == UNASSIGNED_ID
                &&& match left {
                    Some(c) => c.fresh(),
                    None => true,
                }
                &&& match right {
                    Some(c) => c.fresh(),
                    None => true,
                }
            },
        }
    }

    /// Every leaf value has arrays short enough to be written.
    pub open spec fn leaves_fit(self) -> bool
        decreases self,
    {
        match self {
            Tree::Leaf(v) => v@.arrays_fit(),
            Tree::Node { left, right, .. } => {
                &&& match left {
                    Some(c) => c.leaves_fit(),
                    None => true,
                }
                &&& match right {
                    Some(c) => c.leaves_fit(),
                    None => true,
                }
            },
        }
    }

    /// An inner node with no children and no id.
    pub fn new_node() -> (t: Tree)
        ensures
            t == Tree::empty_node(),
    {
        Tree::Node { left: None, right: None, id: UNASSIGNED_ID }
    }
}

/// An address bit is 0 or 1.
pub proof fn lemma_addr_bit(a: u128, total: nat, depth: nat)
    ensures
        addr_bit(a, total, depth) <= 1,
{
    let s = (total - 1 - depth) as u128;
    assert((a >> s) & 1 <= 1) by (bit_vector);
}

/// Bit `idx` of a `total`-bit address (0 or 1).
fn get_bit(ip: u128, total_bits: u8, idx: u8) -> (b: u8)
    requires
        idx < total_bits <= 128,
    ensures
        b as u128 == addr_bit(ip, total_bits as nat, idx as nat),
        b <= 1,
{
    let s: u128 = (total_bits - 1 - idx) as u128;
    let r = (ip >> s) & 1;
    assert(r <= 1) by (bit_vector)
        requires
            r == (ip >> s) & 1,
    ;
    r as u8
}

/// Sets child `bit` of an inner node.
fn set_child(node: Tree, bit: u8, child: Option<Box<Tree>>) -> (r: Tree)
    requires
        node is Node,
    ensures
        r == (match node {
            Tree::Node { left, right, id } => if bit == 0 {
                Tree::Node { left: child, right, id }
            } else {
                Tree::Node { left, right: child, id }
            },
            Tree::Leaf(v) => Tree::Leaf(v),
        }),
{
    match node {
        Tree::Node { left, right, id } => if bit == 0 {
            Tree::Node { left: child, right, id }
        } else {
            Tree::Node { left, right: child, id }
        },
        Tree::Leaf(v) => Tree::Leaf(v),
    }
}

/// The address bits below `idx` that an insertion at `idx` must treat:
/// what the node answers after inserting the network `ip/prefix` with
/// `content` into the subtree `node` at depth `idx`, carrying the value
/// `supernet` of an enclosing network that was split on the way down.
pub open spec fn inserted_lookup(
    node: Tree,
    ip: u128,
    prefix: nat,
    total: nat,
    idx: nat,
    content: Datum,
    supernet: Option<Datum>,
    a: u128,
) -> Option<Datum> {
    if agree(a, ip, total, idx, prefix) {
        Some(content)
    } else if addr_bit(a, total, idx) != addr_bit(ip, total, idx) {
        match node {
            Tree::Leaf(_) => None,
            _ => node.lookup(a, total, idx),
        }
    } else {
        match node {
            Tree::Leaf(v) => Some(v@),
            _ => match supernet {
                Some(s) => Some(s),
                None => node.lookup(a, total, idx),
            },
        }
    }
}

/// The model of an optional value.
pub open spec fn opt_view(o: Option<MmdbValue>) -> Option<Datum> {
    match o {
        Some(v) => Some(v@),
        None => None,
    }
}

/// The child of an inner node on the side of `bit`.
pub open spec fn child_of(node: Tree, bit: u128) -> Option<Box<Tree>> {
    match node {
        Tree::Node { left, right, .. } => if bit == 0 {
            left
        } else {
            right
        },
        Tree::Leaf(_) => None,
    }
}

/// Inserts `content` for the network `ip/prefix` into the subtree `node`,
/// which stands at depth `idx` on the network's path.
fn insert_rec(
    node: Tree,
    ip: u128,
    prefix: u8,
    total_bits: u8,
    idx: u8,
    content: MmdbValue,
    supernet: Option<MmdbValue>,
) -> (r: Tree)
    requires
        idx < prefix <= total_bits <= 128,
        supernet is Some ==> node is Node && child_of(node, addr_bit(ip, total_bits as nat, idx as nat)) is None,
    ensures
        r is Node,
        forall|a: u128|
            #![trigger r.lookup(a, total_bits as nat, idx as nat)]
            addr_bit(a, total_bits as nat, idx as nat) == addr_bit(ip, total_bits as nat, idx as nat)
                || !(node is Leaf) ==> r.lookup(a, total_bits as nat, idx as nat) == inserted_lookup(
                node,
                ip,
                prefix as nat,
                total_bits as nat,
                idx as nat,
                content@,
                opt_view(supernet),
                a,
            ),
        forall|a: u128|
            #![trigger r.lookup(a, total_bits as nat, idx as nat)]
            node is Leaf && addr_bit(a, total_bits as nat, idx as nat) != addr_bit(ip, total_bits as nat, idx as nat)
                ==> r.lookup(a, total_bits as nat, idx as nat) is None,
        node.fresh() ==> r.fresh(),
        node.leaves_fit() && content@.arrays_fit() && (supernet matches Some(s) ==> s@.arrays_fit()) ==> r.leaves_fit(),
    decreases prefix - idx,
{
    let ghost orig = node;
    let ghost t = total_bits as nat;
    let ghost d = idx as nat;
    let ghost sup0 = opt_view(supernet);
    let mut sup = supernet;
    let node = match node {
        Tree::Leaf(val) => {
            sup = Some(val);
            Tree::new_node()
        },
        n => n,
    };
    let ghost node1 = node;
    let bit = get_bit(ip, total_bits, idx);
    if idx == prefix - 1 {
        let r = set_child(node, bit, Some(Box::new(Tree::Leaf(content))));
        proof {
            assert forall|a: u128|
                addr_bit(a, t, d) == addr_bit(ip, t, d) || !(orig is Leaf) implies #[trigger] r.lookup(a, t, d)
                    == inserted_lookup(
                    orig,
                    ip,
                    prefix as nat,
                    t,
                    d,
                    content@,
                    sup0,
                    a,
                ) by {
                if addr_bit(a, t, d) == addr_bit(ip, t, d) {
                    assert(agree(a, ip, t, d, prefix as nat));
                    let c = Tree::Leaf(content);
                    assert(c.lookup(a, t, d + 1) == Some(content@));
                    assert(r.lookup(a, t, d) == Some(content@));
                } else {
                    lemma_addr_bit(a, t, d);
                    assert(!agree(a, ip, t, d, prefix as nat));
                    assert(r.lookup(a, t, d) == node1.lookup(a, t, d));
                }
            }
            assert forall|a: u128|
                orig is Leaf && addr_bit(a, t, d) != addr_bit(ip, t, d) implies #[trigger] r.lookup(a, t, d) is None by {
                lemma_addr_bit(a, t, d);
                assert(r.lookup(a, t, d) == node1.lookup(a, t, d));
            }
            assert(Tree::Leaf(content).fresh());
            assert(Tree::Leaf(content).leaves_fit() == content@.arrays_fit());
        }
        return r;
    }
    let (node, slot) = match node {
        Tree::Node { left, right, id } => if bit == 0 {
            (Tree::Node { left: None, right, id }, left)
        } else {
            (Tree::Node { left, right: None, id }, right)
        },
        Tree::Leaf(v) => (Tree::Leaf(v), None),
    };
    let ghost slot0 = slot;
    let child = match slot {
        Some(b) => match *b {
            Tree::Leaf(val) => {
                sup = Some(val);
                Tree::new_node()
            },
            n => n,
        },
        None => Tree::new_node(),
    };
    let ghost child0 = child;
    assert(slot0 is Some && *slot0->0 is Leaf ==> opt_view(sup) == Some((*slot0->0)->Leaf_0@));
    let next_bit = get_bit(ip, total_bits, idx + 1);
    assert(child0 is Node);
    let ghost mut sib = Tree::empty_node();
    let child = match &sup {
        Some(s) => {
            let leaf = Tree::Leaf(s.clone());
            proof {
                sib = leaf;
            }
            assert(leaf.fresh());
            assert(leaf.leaves_fit() <==> s@.arrays_fit());
            set_child(child, 1 - next_bit, Some(Box::new(leaf)))
        },
        None => child,
    };
    let ghost child1 = child;
    let ghost sup1 = opt_view(sup);
    proof {
        if orig.fresh() {
            if orig is Leaf {
                assert(node1 == Tree::empty_node());
            } else {
                assert(node1 == orig);
            }
            assert(node1.fresh());
            assert(slot0 == child_of(node1, bit as u128));
            assert(slot0 matches Some(b) ==> b.fresh());
            assert(child0.fresh());
            assert(child1.fresh());
        }
        if orig.leaves_fit() && (sup0 matches Some(x) ==> x.arrays_fit()) {
            assert(node1.leaves_fit());
            assert(slot0 == child_of(node1, bit as u128));
            assert(slot0 matches Some(b) ==> b.leaves_fit());
            assert(sup matches Some(x) ==> x@.arrays_fit());
            assert(child0.leaves_fit());
            assert(child1.leaves_fit());
        }
    }
    let new_child = insert_rec(child, ip, prefix, total_bits, idx + 1, content, sup);
    let r = set_child(node, bit, Some(Box::new(new_child)));
    proof {
        assert forall|a: u128|
            addr_bit(a, t, d) == addr_bit(ip, t, d) || !(orig is Leaf) implies #[trigger] r.lookup(a, t, d)
                == inserted_lookup(orig, ip, prefix as nat, t, d, content@, sup0, a) by {
            if addr_bit(a, t, d) == bit as u128 {
                assert(r.lookup(a, t, d) == new_child.lookup(a, t, d + 1));
                assert(new_child.lookup(a, t, d + 1) == inserted_lookup(child1, ip, prefix as nat, t, d + 1, content@, sup1, a));
                if agree(a, ip, t, d, prefix as nat) {
                    assert(agree(a, ip, t, d + 1, prefix as nat));
                } else {
                    assert(!agree(a, ip, t, d + 1, prefix as nat));
                    let expected = inserted_lookup(orig, ip, prefix as nat, t, d, content@, sup0, a);
                    if sup1 is Some {
                        if orig is Leaf {
                            assert(sup1 == expected);
                        } else if sup0 is Some {
                            assert(sup1 == expected);
                        } else {
                            assert(orig == node1);
                            assert(slot0 == child_of(orig, bit as u128));
                            assert(slot0 is Some && *slot0->0 is Leaf);
                            assert(orig.lookup(a, t, d) == sup1);
                            assert(sup1 == expected);
                        }
                    } else {
                        assert(orig is Node && sup0 is None);
                        assert(orig == node1);
                        assert(slot0 == child_of(orig, bit as u128));
                        assert(child1.lookup(a, t, d + 1) == orig.lookup(a, t, d));
                    }
                    if addr_bit(a, t, d + 1) != addr_bit(ip, t, d + 1) {
                        if sup1 is Some {
                            lemma_addr_bit(a, t, d + 1);
                            assert(addr_bit(a, t, d + 1) == (1 - next_bit) as u128);
                            assert(sib.lookup(a, t, d + 2) == sup1);
                            assert(child_of(child1, (1 - next_bit) as u128) == Some(Box::new(sib)));
                            assert(child1.lookup(a, t, d + 1) == sup1);
                        }
                    }
                }
            } else {
                lemma_addr_bit(a, t, d);
                assert(r.lookup(a, t, d) == node1.lookup(a, t, d));
            }
        }
        assert forall|a: u128|
            orig is Leaf && addr_bit(a, t, d) != addr_bit(ip, t, d) implies #[trigger] r.lookup(a, t, d) is None by {
            lemma_addr_bit(a, t, d);
            assert(r.lookup(a, t, d) == node1.lookup(a, t, d));
        }
    }
    r
}

} // verus!

verus! {

/// What every `total`-bit address looks up after inserting `content` for the
/// network `ip/prefix` into the tree `root`. A leaf root is split without
/// keeping its value on the side away from the network.
pub open spec fn tree_inserted(root: Tree, ip: u128, prefix: nat, total: nat, content: Datum, a: u128) -> Option<
    Datum,
> {
    if agree(a, ip, total, 0, prefix) {
        Some(content)
    } else {
        match root {
            Tree::Leaf(v) => if addr_bit(a, total, 0) != addr_bit(ip, total, 0) {
                None
            } else {
                Some(v@)
            },
            _ => root.lookup(a, total, 0),
        }
    }
}

impl Tree {
    /// Inserts `content` for the network `ip/prefix` of `total_bits`-bit
    /// addresses. A prefix of 0 replaces the whole tree by one leaf.
    pub fn insert(self, ip: u128, prefix: u8, total_bits: u8, content: MmdbValue) -> (r: Tree)
        requires
            prefix <= total_bits <= 128,
        ensures
            forall|a: u128|
                #[trigger] r.lookup(a, total_bits as nat, 0) == tree_inserted(
                    self,
                    ip,
                    prefix as nat,
                    total_bits as nat,
                    content@,
                    a,
                ),
            self.fresh() ==> r.fresh(),
            self.leaves_fit() && content@.arrays_fit() ==> r.leaves_fit(),
            prefix > 0 ==> r is Node,
    {
        if prefix == 0 {
            let r = Tree::Leaf(content);
            assert forall|a: u128| #[trigger] r.lookup(a, total_bits as nat, 0) == tree_inserted(
                self,
                ip,
                prefix as nat,
                total_bits as nat,
                r->Leaf_0@,
                a,
            ) by {
                assert(agree(a, ip, total_bits as nat, 0, 0));
            }
            return r;
        }
        let ghost c = content@;
        let r = insert_rec(self, ip, prefix, total_bits, 0, content, None);
        assert forall|a: u128| #[trigger] r.lookup(a, total_bits as nat, 0) == tree_inserted(
            self,
            ip,
            prefix as nat,
            total_bits as nat,
            c,
            a,
        ) by {
            if self is Leaf && addr_bit(a, total_bits as nat, 0) != addr_bit(ip, total_bits as nat, 0) {
                assert(!agree(a, ip, total_bits as nat, 0, prefix as nat));
            }
        }
        r
    }
}

} // verus!

verus! {

/// Inserting a network into a tree whose root is an inner node (or inserting
/// the whole address space): every address of the network then looks up the
/// inserted value, and every other address what it looked up before.
pub proof fn law_insert_then_lookup(root: Tree, ip: u128, prefix: nat, total: nat, content: Datum, a: u128)
    requires
        root is Node || prefix == 0,
    ensures
        tree_inserted(root, ip, prefix, total, content, a) == if agree(a, ip, total, 0, prefix) {
            Some(content)
        } else {
            root.lookup(a, total, 0)
        },
{
}

} // verus!
