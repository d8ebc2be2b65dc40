use vstd::prelude::*;
use std::collections::HashMap;
use crate::bits::{
    BitSink, BitSource, bits_msb, bits_value, lemma_bits_value_msb, read_bit, read_value,
    unread_bits, write_bit, write_value, written_bits,
};
use crate::priority_queue::Priority;

verus! {

broadcast use {vstd::seq_lib::group_seq_properties, vstd::std_specs::hash::group_hash_axioms};

/// A node of a Huffman tree: a leaf for one byte value, or an inner node owning two
/// subtrees. `priority` is the node's weight.
pub enum HuffmanNode {
    Nonleaf { priority: i32, left: Box<HuffmanNode>, right: Box<HuffmanNode> },
    Leaf { byte: u8, priority: i32 },
}

impl HuffmanNode {
    pub open spec fn weight(self) -> i32 {
        match self {
            HuffmanNode::Nonleaf { priority, .. } => priority,
            HuffmanNode::Leaf { priority, .. } => priority,
        }
    }

    /// The byte values at the leaves.
    pub open spec fn symbols(self) -> Set<u8>
        decreases self,
    {
        match self {
            HuffmanNode::Nonleaf { left, right, .. } => left.symbols().union(right.symbols()),
            HuffmanNode::Leaf { byte, .. } => set![byte],
        }
    }

    /// No byte value stands at two leaves.
    pub open spec fn distinct_leaves(self) -> bool
        decreases self,
    {
        match self {
            HuffmanNode::Nonleaf { left, right, .. } => left.symbols().disjoint(right.symbols())
                && left.distinct_leaves() && right.distinct_leaves(),
            HuffmanNode::Leaf { .. } => true,
        }
    }

    /// Number of leaves.
    pub open spec fn leaf_count(self) -> nat
        decreases self,
    {
        match self {
            HuffmanNode::Nonleaf { left, right, .. } => left.leaf_count() + right.leaf_count(),
            HuffmanNode::Leaf { .. } => 1,
        }
    }

    /// The same shape and leaf bytes, with every weight zero.
    pub open spec fn stripped(self) -> HuffmanNode
        decreases self,
    {
        match self {
            HuffmanNode::Nonleaf { left, right, .. } => HuffmanNode::Nonleaf {
                priority: 0,
                left: Box::new(left.stripped()),
                right: Box::new(right.stripped()),
            },
            HuffmanNode::Leaf { byte, .. } => HuffmanNode::Leaf { byte, priority: 0 },
        }
    }

    /// Pre-order encoding of the shape: `0` for an inner node followed by its left and
    /// right subtrees; `1` for a leaf followed by its byte, most significant bit first.
    pub open spec fn serialized(self) -> Seq<bool>
        decreases self,
    {
        match self {
            HuffmanNode::Nonleaf { left, right, .. } => seq![false] + left.serialized()
                + right.serialized(),
            HuffmanNode::Leaf { byte, .. } => seq![true] + bits_msb(byte as nat, 8),
        }
    }

    /// The leaf byte reached by following `path` from this node (`false` = left),
    /// if the path ends exactly at a leaf.
    pub open spec fn at_path(self, path: Seq<bool>) -> Option<u8>
        decreases self,
    {
        match self {
            HuffmanNode::Nonleaf { left, right, .. } => if path.len() == 0 {
                None
            } else if path[0] {
                right.at_path(path.skip(1))
            } else {
                left.at_path(path.skip(1))
            },
            HuffmanNode::Leaf { byte, .. } => if path.len() == 0 {
                Some(byte)
            } else {
                None
            },
        }
    }

    /// The path to a leaf holding `b`, looking in the right subtree first.
    pub open spec fn path_to(self, b: u8) -> Seq<bool>
        decreases self,
    {
        match self {
            HuffmanNode::Nonleaf { left, right, .. } => if right.symbols().contains(b) {
                seq![true] + right.path_to(b)
            } else {
                seq![false] + left.path_to(b)
            },
            HuffmanNode::Leaf { .. } => Seq::empty(),
        }
    }

    /// The code of each byte value of the tree, each preceded by `prefix`.
    pub open spec fn code_table_from(self, prefix: Seq<bool>) -> Map<u8, Seq<bool>> {
        Map::new(|b: u8| self.symbols().contains(b), |b: u8| prefix + self.path_to(b))
    }

    /// The code of each byte value of the tree.
    pub open spec fn code_table(self) -> Map<u8, Seq<bool>> {
        self.code_table_from(Seq::empty())
    }

    /// Walks from this node along `bits` to a leaf: its byte and the number of bits used.
    pub open spec fn walk(self, bits: Seq<bool>) -> Option<(u8, nat)>
        decreases self,
    {
        match self {
            HuffmanNode::Nonleaf { left, right, .. } => if bits.len() == 0 {
                None
            } else {
                let next = if bits[0] {
                    *right
                } else {
                    *left
                };
                match next.walk(bits.skip(1)) {
                    Some((b, n)) => Some((b, n + 1)),
                    None => None,
                }
            },
            HuffmanNode::Leaf { byte, .. } => Some((byte, 0)),
        }
    }
}

/// Reads a tree in the pre-order encoding from the front of `bits`: the tree, with all
/// weights zero, and the number of bits it took; `None` if the bits run out first.
pub open spec fn parse_tree(bits: Seq<bool>) -> Option<(HuffmanNode, nat)>
    decreases bits.len(),
{
    if bits.len() == 0 {
        None
    } else if bits[0] {
        if bits.len() >= 9 {
            Some((HuffmanNode::Leaf { byte: bits_value(bits.subrange(1, 9)) as u8, priority: 0 }, 9))
        } else {
            None
        }
    } else {
        match parse_tree(bits.skip(1)) {
            None => None,
            Some((l, n1)) => if 1 + n1 <= bits.len() {
                match parse_tree(bits.skip(1 + n1 as int)) {
                    None => None,
                    Some((r, n2)) => Some(
                        (
                            HuffmanNode::Nonleaf {
                                priority: 0,
                                left: Box::new(l),
                                right: Box::new(r),
                            },
                            1 + n1 + n2,
                        ),
                    ),
                }
            } else {
                None
            },
        }
    }
}

pub open spec fn codes_of(m: Map<u8, Vec<bool>>) -> Map<u8, Seq<bool>> {
    m.map_values(|v: Vec<bool>| v@)
}

impl Priority for HuffmanNode {
    open spec fn spec_priority(&self) -> i32 {
        self.weight()
    }

    fn priority(&self) -> (r: i32) {
        match self {
            HuffmanNode::Nonleaf { priority, .. } => *priority,
            HuffmanNode::Leaf { priority, .. } => *priority,
        }
    }
}

impl HuffmanNode {
    pub fn new_leaf(byte: u8, count: i32) -> (r: HuffmanNode)
        ensures
            r == (HuffmanNode::Leaf { byte, priority: count }),
    {
        HuffmanNode::Leaf { byte, priority: count }
    }

    pub fn combine(node1: HuffmanNode, node2: HuffmanNode) -> (r: HuffmanNode)
        requires
            i32::MIN <= node1.weight() + node2.weight() <= i32::MAX,
        ensures
            r == (HuffmanNode::Nonleaf {
                priority: (node1.weight() + node2.weight()) as i32,
                left: Box::new(node1),
                right: Box::new(node2),
            }),
    {
        let p = node1.priority() + node2.priority();
        HuffmanNode::Nonleaf { priority: p, left: Box::new(node1), right: Box::new(node2) }
    }

    /// Appends the pre-order encoding of this tree to the sink.
    pub fn serialize(&self, sink: &mut BitSink)
        ensures
            written_bits(*final(sink)) == written_bits(*old(sink)) + self.serialized(),
        decreases self,
    {
        match self {
            HuffmanNode::Nonleaf { left, right, .. } => {
                write_bit(sink, false);
                left.serialize(sink);
                right.serialize(sink);
                assert(written_bits(*sink) =~= written_bits(*old(sink)) + self.serialized());
            },
            HuffmanNode::Leaf { byte, .. } => {
                write_bit(sink, true);
                write_value(sink, *byte, 8);
                assert(written_bits(*sink) =~= written_bits(*old(sink)) + self.serialized());
            },
        }
    }

    /// Reads one tree in the pre-order encoding; `None` when the bits run out.
    pub fn deserialize(source: &mut BitSource) -> (r: Option<HuffmanNode>)
        ensures
            match parse_tree(unread_bits(*old(source))) {
                Some((t, n)) => r == Some(t) && unread_bits(*final(source)) == unread_bits(
                    *old(source),
                ).skip(n as int),
                None => r is None,
            },
        decreases unread_bits(*old(source)).len(),
    {
        let ghost bits = unread_bits(*source);
        let bit = match read_bit(source) {
            Some(b) => b,
            None => return None,
        };
        if bit {
            let v = match read_value(source, 8) {
                Some(v) => v,
                None => return None,
            };
            proof {
                vstd::arithmetic::power2::lemma2_to64();
                lemma_bits_value_msb(v as nat, 8);
                assert(bits.subrange(1, 9) =~= bits.skip(1).take(8));
                assert(unread_bits(*source) =~= bits.skip(9));
            }
            Some(HuffmanNode::Leaf { byte: v, priority: 0 })
        } else {
            let left = match HuffmanNode::deserialize(source) {
                Some(l) => l,
                None => return None,
            };
            let ghost n1 = (parse_tree(bits.skip(1))->0).1;
            proof {
                lemma_parse_len(bits.skip(1));
                assert(bits.skip(1).skip(n1 as int) =~= bits.skip(1 + n1 as int));
            }
            let right = match HuffmanNode::deserialize(source) {
                Some(r) => r,
                None => return None,
            };
            proof {
                let n2 = (parse_tree(bits.skip(1 + n1 as int))->0).1;
                lemma_parse_len(bits.skip(1 + n1 as int));
                assert(unread_bits(*source) =~= bits.skip((1 + n1 + n2) as int));
            }
            Some(HuffmanNode::combine(left, right))
        }
    }

    /// Adds the code of each byte value of this tree, preceded by `encoding`.
    pub fn build_encoding_map(&self, map: &mut HashMap<u8, Vec<bool>>, encoding: Vec<bool>)
        ensures
            codes_of(final(map)@) == codes_of(old(map)@).union_prefer_right(
                self.code_table_from(encoding@),
            ),
        decreases self,
    {
        match self {
            HuffmanNode::Leaf { byte, .. } => {
                let ghost e = encoding@;
                map.insert(*byte, encoding);
                proof {
                    assert(codes_of(map@) =~= codes_of(old(map)@).union_prefer_right(
                        self.code_table_from(e),
                    ));
                }
            },
            HuffmanNode::Nonleaf { left, right, .. } => {
                let ghost e = encoding@;
                let mut left_encoding = encoding.clone();
                left_encoding.push(false);
                left.build_encoding_map(map, left_encoding);
                let mut right_encoding = encoding;
                right_encoding.push(true);
                right.build_encoding_map(map, right_encoding);
                proof {
                    let lt = left.code_table_from(e.push(false));
                    let rt = right.code_table_from(e.push(true));
                    let t = self.code_table_from(e);
                    assert forall|b: u8| #[trigger] t.contains_key(b) implies t[b] == lt.union_prefer_right(rt)[b] by {
                        if right.symbols().contains(b) {
                            assert(e.push(true) + right.path_to(b) =~= e + (seq![true] + right.path_to(b)));
                        } else {
                            assert(e.push(false) + left.path_to(b) =~= e + (seq![false] + left.path_to(b)));
                        }
                    }
                    assert(t =~= lt.union_prefer_right(rt));
                    assert(codes_of(map@) =~= codes_of(old(map)@).union_prefer_right(t));
                }
            },
        }
    }

    /// Walks from this node to a leaf, one bit per step, and returns its byte;
    /// `None` when the bits run out first.
    pub fn decode(&self, source: &mut BitSource) -> (r: Option<u8>)
        ensures
            match self.walk(unread_bits(*old(source))) {
                Some((b, n)) => r == Some(b) && unread_bits(*final(source)) == unread_bits(
                    *old(source),
                ).skip(n as int),
                None => r is None,
            },
        decreases self,
    {
        match self {
            HuffmanNode::Leaf { byte, .. } => {
                assert(unread_bits(*source).skip(0) =~= unread_bits(*source));
                Some(*byte)
            },
            HuffmanNode::Nonleaf { left, right, .. } => {
                let ghost bits = unread_bits(*source);
                let bit = match read_bit(source) {
                    Some(b) => b,
                    None => return None,
                };
                let r = if bit {
                    right.decode(source)
                } else {
                    left.decode(source)
                };
                proof {
                    if r is Some {
                        let n = (self.walk(bits)->0).1;
                        let next = if bit { **right } else { **left };
                        lemma_walk_len(next, bits.skip(1));
                        assert(unread_bits(*source) =~= bits.skip(n as int));
                    }
                }
                r
            },
        }
    }
}

/// A walk never takes more bits than are there.
pub proof fn lemma_walk_len(t: HuffmanNode, bits: Seq<bool>)
    ensures
        t.walk(bits) is Some ==> (t.walk(bits)->0).1 <= bits.len(),
    decreases t,
{
    if let HuffmanNode::Nonleaf { left, right, .. } = t {
        if bits.len() > 0 {
            lemma_walk_len(*left, bits.skip(1));
            lemma_walk_len(*right, bits.skip(1));
        }
    }
}

/// A parsed tree never takes more bits than are there.
pub proof fn lemma_parse_len(bits: Seq<bool>)
    ensures
        parse_tree(bits) is Some ==> (parse_tree(bits)->0).1 <= bits.len(),
    decreases bits.len(),
{
    if bits.len() > 0 && !bits[0] {
        lemma_parse_len(bits.skip(1));
        if let Some((l, n1)) = parse_tree(bits.skip(1)) {
            if 1 + n1 <= bits.len() {
                lemma_parse_len(bits.skip(1 + n1 as int));
            }
        }
    }
}

/// Reading back the encoding of a tree gives the tree with its weights zeroed, and
/// takes exactly the bits of the encoding.
pub proof fn lemma_parse_serialized(t: HuffmanNode, rest: Seq<bool>)
    ensures
        parse_tree(t.serialized() + rest) == Some((t.stripped(), t.serialized().len())),
    decreases t,
{
    let bits = t.serialized() + rest;
    match t {
        HuffmanNode::Nonleaf { left, right, .. } => {
            let ls = left.serialized();
            let rs = right.serialized();
            assert(bits.skip(1) =~= ls + (rs + rest));
            lemma_parse_serialized(*left, rs + rest);
            assert(bits.skip(1 + ls.len() as int) =~= rs + rest);
            lemma_parse_serialized(*right, rest);
        },
        HuffmanNode::Leaf { byte, .. } => {
            crate::bits::lemma_bits_msb_len(byte as nat, 8);
            vstd::arithmetic::power2::lemma2_to64();
            lemma_bits_value_msb(byte as nat, 8);
            assert(bits.subrange(1, 9) =~= bits_msb(byte as nat, 8));
        },
    }
}

/// Stripping weights keeps the symbols and what every path reaches.
pub proof fn lemma_stripped(t: HuffmanNode, path: Seq<bool>)
    ensures
        t.stripped().at_path(path) == t.at_path(path),
        t.stripped().symbols() == t.symbols(),
    decreases t,
{
    if let HuffmanNode::Nonleaf { left, right, .. } = t {
        lemma_stripped(*left, path.skip(1));
        lemma_stripped(*right, path.skip(1));
    }
}

/// The path to a byte value of the tree ends at a leaf holding it.
pub proof fn lemma_path_to(t: HuffmanNode, b: u8)
    requires
        t.symbols().contains(b),
    ensures
        t.at_path(t.path_to(b)) == Some(b),
    decreases t,
{
    if let HuffmanNode::Nonleaf { left, right, .. } = t {
        if right.symbols().contains(b) {
            lemma_path_to(*right, b);
            assert((seq![true] + right.path_to(b)).skip(1) =~= right.path_to(b));
        } else {
            lemma_path_to(*left, b);
            assert((seq![false] + left.path_to(b)).skip(1) =~= left.path_to(b));
        }
    }
}

/// A walk along a strict prefix of a path that ends at a leaf runs out of bits.
pub proof fn lemma_walk_prefix(t: HuffmanNode, path: Seq<bool>, k: int)
    requires
        t.at_path(path) is Some,
        0 <= k < path.len(),
    ensures
        t.walk(path.take(k)) is None,
    decreases t,
{
    if let HuffmanNode::Nonleaf { left, right, .. } = t {
        if k > 0 {
            assert(path.take(k).skip(1) =~= path.skip(1).take(k - 1));
            if path[0] {
                lemma_walk_prefix(*right, path.skip(1), k - 1);
            } else {
                lemma_walk_prefix(*left, path.skip(1), k - 1);
            }
        }
    }
}

/// Every tree has at least one leaf.
pub proof fn lemma_leaf_count_pos(t: HuffmanNode)
    ensures
        t.leaf_count() >= 1,
    decreases t,
{
    if let HuffmanNode::Nonleaf { left, right, .. } = t {
        lemma_leaf_count_pos(*left);
        lemma_leaf_count_pos(*right);
    }
}

/// A walk along a path that ends at a leaf stops there, whatever follows the path.
pub proof fn lemma_walk_path(t: HuffmanNode, path: Seq<bool>, rest: Seq<bool>)
    requires
        t.at_path(path) is Some,
    ensures
        t.walk(path + rest) == Some((t.at_path(path)->0, path.len())),
    decreases t,
{
    if let HuffmanNode::Nonleaf { left, right, .. } = t {
        assert((path + rest).skip(1) =~= path.skip(1) + rest);
        if path[0] {
            lemma_walk_path(*right, path.skip(1), rest);
        } else {
            lemma_walk_path(*left, path.skip(1), rest);
        }
    } else {
        assert(path + rest =~= rest);
    }
}

} // verus!
