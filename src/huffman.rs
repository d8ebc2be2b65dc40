use vstd::prelude::*;
use vstd::multiset::Multiset;
use vstd::string::StringSliceAdditionalSpecFns;
use std::collections::HashMap;
use crate::bits::{
    BitSource, bits_msb, bytes_to_bits, byte_align, into_bytes, lemma_bytes_to_bits_len, new_reader,
    new_writer, padded, padding, unread_bits, write_bit, written_bits,
};
use crate::node::{
    HuffmanNode, codes_of, lemma_leaf_count_pos, lemma_parse_serialized, lemma_path_to,
    lemma_stripped, lemma_walk_path, lemma_walk_prefix, parse_tree,
};
use crate::priority_queue::{Priority, PriorityQueue, PriorityType, prefers};

verus! {

broadcast use {vstd::seq_lib::group_seq_properties, vstd::std_specs::hash::group_hash_axioms};

/// Why a compressed stream could not be read.
#[derive(PartialEq, Eq, Structural, Clone, Copy, Debug)]
pub enum DecompressError {
    /// A declared length or symbol count runs past the end of the stream.
    TruncatedStream,
    /// The tree section does not hold a complete tree.
    CorruptTree,
}

/// How many bytes of `s` have a value in `syms`.
pub open spec fn freq(s: Seq<u8>, syms: Set<u8>) -> nat
    decreases s.len(),
{
    if s.len() == 0 {
        0
    } else {
        freq(s.drop_last(), syms) + if syms.contains(s.last()) {
            1nat
        } else {
            0nat
        }
    }
}

/// Every leaf weighs as many as its byte occurs in `s`; every inner node weighs the
/// sum of its children.
pub open spec fn weights_match(t: HuffmanNode, s: Seq<u8>) -> bool
    decreases t,
{
    match t {
        HuffmanNode::Nonleaf { priority, left, right } => priority == left.weight()
            + right.weight() && weights_match(*left, s) && weights_match(*right, s),
        HuffmanNode::Leaf { byte, priority } => priority == freq(s, set![byte]),
    }
}

/// `t` is a Huffman tree built from the bytes of `s`: one leaf for each distinct byte
/// value of `s`, weighted by its frequency.
pub open spec fn is_tree_for(t: HuffmanNode, s: Seq<u8>) -> bool {
    &&& t.symbols() == s.to_set()
    &&& t.distinct_leaves()
    &&& weights_match(t, s)
}

/// The codes of the bytes of `s`, one after another.
pub open spec fn encoded_bits(table: Map<u8, Seq<bool>>, s: Seq<u8>) -> Seq<bool>
    decreases s.len(),
{
    if s.len() == 0 {
        Seq::empty()
    } else {
        table[s[0]] + encoded_bits(table, s.skip(1))
    }
}

/// `n` bytes read from `bits`, each by a walk from the root of `t`; `None` when the
/// bits run out first.
pub open spec fn decode_n(t: HuffmanNode, bits: Seq<bool>, n: nat) -> Option<Seq<u8>>
    decreases n,
{
    if n == 0 {
        Some(Seq::empty())
    } else {
        match t.walk(bits) {
            None => None,
            Some((b, k)) => match decode_n(t, bits.skip(k as int), (n - 1) as nat) {
                None => None,
                Some(rest) => Some(seq![b] + rest),
            },
        }
    }
}

/// The unsigned big-endian value of four bytes.
pub open spec fn be_u32(b: Seq<u8>) -> int {
    b[0] * 16777216 + b[1] * 65536 + b[2] * 256 + b[3] as int
}

/// `out` is the compressed form of `s` with tree `t`: the tree's byte count, the
/// serialized tree, the byte count of `s`, then the codes of the bytes of `s`; both
/// bit sections padded with zero bits to a byte boundary.
pub open spec fn compressed_form(t: HuffmanNode, s: Seq<u8>, out: Seq<u8>) -> bool {
    let tl = be_u32(out.subrange(0, 4));
    &&& out.len() >= 8 + tl
    &&& bytes_to_bits(out.subrange(4, 4 + tl)) == padded(t.serialized())
    &&& be_u32(out.subrange(4 + tl, 8 + tl)) == s.len()
    &&& bytes_to_bits(out.subrange(8 + tl, out.len() as int)) == padded(
        encoded_bits(t.code_table(), s),
    )
}

/// What decompressing `b` gives.
pub open spec fn decompressed(b: Seq<u8>) -> Result<Seq<u8>, DecompressError> {
    if b.len() < 4 {
        Err(DecompressError::TruncatedStream)
    } else {
        let tl = be_u32(b.subrange(0, 4));
        if b.len() < tl + 8 {
            Err(DecompressError::TruncatedStream)
        } else {
            match parse_tree(bytes_to_bits(b.subrange(4, 4 + tl))) {
                None => Err(DecompressError::CorruptTree),
                Some((t, _)) => match decode_n(
                    t,
                    bytes_to_bits(b.subrange(8 + tl, b.len() as int)),
                    be_u32(b.subrange(4 + tl, 8 + tl)) as nat,
                ) {
                    None => Err(DecompressError::TruncatedStream),
                    Some(out) => Ok(out),
                },
            }
        }
    }
}

/// A Huffman tree and, once built, the code of each of its byte values.
pub struct HuffmanCode {
    root: HuffmanNode,
    dict: Option<HashMap<u8, Vec<bool>>>,
}

/// The big-endian bytes of `v`.
fn be_bytes(v: u32) -> (r: Vec<u8>)
    ensures
        r@.len() == 4,
        be_u32(r@) == v,
{
    let mut r: Vec<u8> = Vec::new();
    r.push((v / 16777216) as u8);
    r.push((v / 65536 % 256) as u8);
    r.push((v / 256 % 256) as u8);
    r.push((v % 256) as u8);
    assert(be_u32(r@) == v) by (nonlinear_arith)
        requires
            r@[0] == v / 16777216,
            r@[1] == v / 65536 % 256,
            r@[2] == v / 256 % 256,
            r@[3] == v % 256,
            v <= u32::MAX,
    ;
    r
}

/// The big-endian value of four bytes of `b` from `start`.
fn read_be_u32(b: &[u8], start: usize) -> (r: u32)
    requires
        start + 4 <= b@.len(),
    ensures
        r == be_u32(b@.subrange(start as int, start + 4)),
{
    let r = (b[start] as u32) * 16777216 + (b[start + 1] as u32) * 65536 + (b[start + 2] as u32)
        * 256 + (b[start + 3] as u32);
    r
}

/// How often each byte value occurs in `input`, indexed by value.
fn count_bytes(input: &[u8]) -> (counts: Vec<i32>)
    requires
        input@.len() <= i32::MAX,
    ensures
        counts@.len() == 256,
        forall|b: u8| #[trigger] counts@[b as int] == freq(input@, set![b]),
{
    let mut counts: Vec<i32> = Vec::new();
    let mut k: usize = 0;
    while k < 256
        invariant
            k <= 256,
            counts@.len() == k,
            forall|j: int| 0 <= j < k ==> counts@[j] == 0,
        decreases 256 - k,
    {
        counts.push(0);
        k += 1;
    }
    let mut i: usize = 0;
    while i < input.len()
        invariant
            i <= input@.len(),
            input@.len() <= i32::MAX,
            counts@.len() == 256,
            forall|b: u8| #[trigger] counts@[b as int] == freq(input@.take(i as int), set![b]),
        decreases input@.len() - i,
    {
        let b = input[i];
        proof {
            assert(input@.take(i + 1).drop_last() =~= input@.take(i as int));
            assert forall|c: u8| #[trigger] counts@[c as int] <= i by {
                lemma_freq_le(input@.take(i as int), set![c]);
            }
        }
        counts.set(b as usize, counts[b as usize] + 1);
        i += 1;
    }
    assert(input@.take(input@.len() as int) =~= input@);
    counts
}

pub proof fn lemma_freq_le(s: Seq<u8>, syms: Set<u8>)
    ensures
        freq(s, syms) <= s.len(),
    decreases s.len(),
{
    if s.len() > 0 {
        lemma_freq_le(s.drop_last(), syms);
    }
}

/// Frequencies of disjoint sets of byte values add up.
pub proof fn lemma_freq_union(s: Seq<u8>, a: Set<u8>, b: Set<u8>)
    requires
        a.disjoint(b),
    ensures
        freq(s, a.union(b)) == freq(s, a) + freq(s, b),
    decreases s.len(),
{
    if s.len() > 0 {
        lemma_freq_union(s.drop_last(), a, b);
    }
}

/// A byte value occurs in `s` exactly when its frequency is positive.
pub proof fn lemma_freq_contains(s: Seq<u8>, b: u8)
    ensures
        freq(s, set![b]) > 0 <==> s.contains(b),
    decreases s.len(),
{
    if s.len() > 0 {
        lemma_freq_contains(s.drop_last(), b);
        if s.drop_last().contains(b) {
            let i = choose|i: int| 0 <= i < s.drop_last().len() && s.drop_last()[i] == b;
            assert(s[i] == b);
        }
        if s.contains(b) && s.last() != b {
            let i = choose|i: int| 0 <= i < s.len() && s[i] == b;
            assert(s.drop_last()[i] == b);
        }
    }
}

/// `n` is the leaf that construction starts from for a byte value of `s`.
pub open spec fn is_leaf_of(n: HuffmanNode, s: Seq<u8>) -> bool {
    &&& n is Leaf
    &&& s.contains(n->Leaf_byte)
    &&& n->Leaf_priority == freq(s, set![n->Leaf_byte])
}

/// `m` holds exactly one leaf for each distinct byte value of `s`, weighted by its
/// frequency.
pub open spec fn leaf_forest(m: Multiset<HuffmanNode>, s: Seq<u8>) -> bool {
    forall|n: HuffmanNode| #[trigger] m.count(n) == if is_leaf_of(n, s) {
        1nat
    } else {
        0nat
    }
}

/// `next` comes from `m` by taking out a lightest node `x`, then a lightest node `y` of
/// what is left, and putting in the node that joins them (`x` left, `y` right).
pub open spec fn joins_lightest(
    m: Multiset<HuffmanNode>,
    x: HuffmanNode,
    y: HuffmanNode,
    next: Multiset<HuffmanNode>,
) -> bool {
    &&& m.count(x) > 0
    &&& forall|n: HuffmanNode| #[trigger] m.count(n) > 0 ==> x.weight() <= n.weight()
    &&& m.remove(x).count(y) > 0
    &&& forall|n: HuffmanNode| #[trigger] m.remove(x).count(n) > 0 ==> y.weight() <= n.weight()
    &&& next == m.remove(x).remove(y).insert(
        HuffmanNode::Nonleaf {
            priority: (x.weight() + y.weight()) as i32,
            left: Box::new(x),
            right: Box::new(y),
        },
    )
}

pub open spec fn greedy_step(m: Multiset<HuffmanNode>, next: Multiset<HuffmanNode>) -> bool {
    exists|x: HuffmanNode, y: HuffmanNode| #[trigger] joins_lightest(m, x, y, next)
}

/// `t` is what the greedy construction gives on `s`: starting from the leaves of `s`,
/// each step joins the two lightest nodes, until `t` alone is left.
pub open spec fn built_greedily(t: HuffmanNode, s: Seq<u8>) -> bool {
    exists|h: Seq<Multiset<HuffmanNode>>|
        {
            &&& h.len() >= 1
            &&& leaf_forest(h[0], s)
            &&& #[trigger] h.last() == Multiset::singleton(t)
            &&& forall|i: int| 0 <= i < h.len() - 1 ==> greedy_step(#[trigger] h[i], h[i + 1])
        }
}

/// One leaf for each byte value of `input`, in increasing order of value, weighted by
/// its frequency.
fn leaves_of(input: &[u8]) -> (nodes: Vec<HuffmanNode>)
    requires
        input@.len() <= i32::MAX,
    ensures
        forest_ok(nodes@.to_multiset(), input@),
        leaf_forest(nodes@.to_multiset(), input@),
        input@.len() > 0 ==> nodes@.len() > 0,
{
    let ghost s = input@;
    let counts = count_bytes(input);
    let mut nodes: Vec<HuffmanNode> = Vec::new();
    let mut b: usize = 0;
    while b < 256
        invariant
            b <= 256,
            counts@.len() == 256,
            forall|c: u8| #[trigger] counts@[c as int] == freq(s, set![c]),
            forall|k: int|
                0 <= k < nodes@.len() ==> {
                    &&& #[trigger] nodes@[k] is Leaf
                    &&& nodes@[k]->Leaf_byte < b
                    &&& nodes@[k]->Leaf_priority == freq(s, set![nodes@[k]->Leaf_byte])
                    &&& freq(s, set![nodes@[k]->Leaf_byte]) > 0
                },
            forall|j: int, k: int|
                0 <= j < k < nodes@.len() ==> (#[trigger] nodes@[j])->Leaf_byte < (
                #[trigger] nodes@[k])->Leaf_byte,
            forall|c: u8|
                c < b && freq(s, set![c]) > 0 ==> exists|k: int|
                    0 <= k < nodes@.len() && (#[trigger] nodes@[k])->Leaf_byte == c,
        decreases 256 - b,
    {
        let count = counts[b];
        if count > 0 {
            let leaf = HuffmanNode::new_leaf(b as u8, count);
            let ghost before = nodes@;
            nodes.push(leaf);
            proof {
                assert(nodes@[nodes@.len() - 1] == leaf);
                assert forall|c: u8| c < b + 1 && freq(s, set![c]) > 0 implies exists|k: int|
                    0 <= k < nodes@.len() && (#[trigger] nodes@[k])->Leaf_byte == c by {
                    if c == b {
                        assert(nodes@[nodes@.len() - 1]->Leaf_byte == c);
                    } else {
                        let k = choose|k: int|
                            0 <= k < before.len() && (#[trigger] before[k])->Leaf_byte == c;
                        assert(nodes@[k] == before[k]);
                    }
                }
            }
        } else {
            proof {
                assert forall|c: u8| c < b + 1 && freq(s, set![c]) > 0 implies exists|k: int|
                    0 <= k < nodes@.len() && (#[trigger] nodes@[k])->Leaf_byte == c by {
                    assert(c != b);
                }
            }
        }
        b += 1;
    }
    proof {
        broadcast use vstd::seq_lib::to_multiset_contains;

        let m = nodes@.to_multiset();
        assert forall|n: HuffmanNode| m.count(n) > 0 implies #[trigger] node_ok(n, s) by {
            assert(nodes@.contains(n));
            let k = choose|k: int| 0 <= k < nodes@.len() && nodes@[k] == n;
            assert(nodes@[k] is Leaf);
            let c = n->Leaf_byte;
            lemma_freq_contains(s, c);
            assert(n.symbols() == set![c]);
            assert(n.symbols().contains(c));
        }
        assert forall|a: HuffmanNode, b: HuffmanNode|
            #![trigger m.count(a), m.count(b)]
            m.count(a) > 0 && m.count(b) > 0 && a != b implies a.symbols().disjoint(b.symbols()) by {
            assert(nodes@.contains(a));
            assert(nodes@.contains(b));
            let j = choose|j: int| 0 <= j < nodes@.len() && nodes@[j] == a;
            let k = choose|k: int| 0 <= k < nodes@.len() && nodes@[k] == b;
            assert(nodes@[j] is Leaf && nodes@[k] is Leaf);
            assert(a->Leaf_byte != b->Leaf_byte);
        }
        assert(nodes@.no_duplicates()) by {
            assert forall|j: int, k: int|
                0 <= j < nodes@.len() && 0 <= k < nodes@.len() && j != k implies nodes@[j]
                != nodes@[k] by {
                if j < k {
                    assert(nodes@[j]->Leaf_byte < nodes@[k]->Leaf_byte);
                } else {
                    assert(nodes@[k]->Leaf_byte < nodes@[j]->Leaf_byte);
                }
            }
        }
        nodes@.lemma_multiset_has_no_duplicates();
        assert forall|n: HuffmanNode| #[trigger] m.count(n) <= 1 by {
            if m.count(n) > 0 {
                assert(m.contains(n));
            }
        }
        assert forall|x: u8| s.contains(x) implies exists|n: HuffmanNode|
            m.count(n) > 0 && #[trigger] n.symbols().contains(x) by {
            lemma_freq_contains(s, x);
            let k = choose|k: int| 0 <= k < nodes@.len() && (#[trigger] nodes@[k])->Leaf_byte == x;
            let n = nodes@[k];
            assert(nodes@.contains(n));
            assert(n.symbols().contains(x));
        }
        if s.len() > 0 {
            lemma_freq_contains(s, s[0]);
            assert(s.contains(s[0]));
            assert(counts@[s[0] as int] > 0);
        }
        assert forall|n: HuffmanNode| #[trigger] m.count(n) == if is_leaf_of(n, s) {
            1nat
        } else {
            0nat
        } by {
            if is_leaf_of(n, s) {
                let c = n->Leaf_byte;
                lemma_freq_contains(s, c);
                let k = choose|k: int| 0 <= k < nodes@.len() && (#[trigger] nodes@[k])->Leaf_byte == c;
                assert(nodes@[k] is Leaf);
                assert(nodes@[k] == n);
                assert(nodes@.contains(n));
                assert(m.contains(n));
            } else if m.count(n) > 0 {
                assert(nodes@.contains(n));
                let k = choose|k: int| 0 <= k < nodes@.len() && nodes@[k] == n;
                assert(nodes@[k] is Leaf);
                lemma_freq_contains(s, n->Leaf_byte);
            }
        }
    }
    nodes
}

impl HuffmanCode {
    pub closed spec fn root(&self) -> HuffmanNode {
        self.root
    }

    /// A built code table always holds the codes of the tree.
    /// Whether the code table has been built.
    pub closed spec fn has_table(&self) -> bool {
        self.dict is Some
    }

    pub closed spec fn wf(&self) -> bool {
        match self.dict {
            Some(m) => codes_of(m@) == self.root.code_table(),
            None => true,
        }
    }

    /// Builds the Huffman tree of `input`; `None` when `input` is empty.
    fn build_encoding(input: &[u8]) -> (r: Option<HuffmanCode>)
        requires
            input@.len() <= i32::MAX,
        ensures
            input@.len() == 0 <==> r is None,
            r is Some ==> r->0.wf() && !r->0.has_table() && is_tree_for(r->0.root(), input@)
                && built_greedily(r->0.root(), input@),
    {
        if input.len() == 0 {
            return None;
        }
        let ghost s = input@;
        let nodes = leaves_of(input);
        // take the two lightest nodes and join them until one is left
        let mut queue = PriorityQueue::from_vec(nodes, PriorityType::Min);
        let ghost mut hist: Seq<Multiset<HuffmanNode>> = seq![queue.contents()];
        while queue.len() > 1
            invariant
                hist.len() >= 1,
                leaf_forest(hist[0], s),
                hist.last() == queue.contents(),
                forall|i: int| 0 <= i < hist.len() - 1 ==> greedy_step(#[trigger] hist[i], hist[i + 1]),
                queue.wf(),
                queue.mode() == PriorityType::Min,
                queue.items().len() > 0,
                forest_ok(queue.contents(), s),
                s.len() <= i32::MAX,
            decreases queue.items().len(),
        {
            let ghost m0 = queue.contents();
            let ghost items0 = queue.items();
            let first = queue.remove().unwrap();
            let ghost items1 = queue.items();
            let second = queue.remove().unwrap();
            proof {
                broadcast use vstd::seq_lib::to_multiset_contains;

                lemma_combine_step(m0, first, second, s);
                assert forall|n: HuffmanNode| #[trigger] m0.count(n) > 0 implies first.weight()
                    <= n.weight() by {
                    assert(items0.contains(n));
                    let i = choose|i: int| 0 <= i < items0.len() && items0[i] == n;
                    assert(prefers(PriorityType::Min, first.spec_priority(), items0[i].spec_priority()));
                }
                assert forall|n: HuffmanNode| #[trigger] m0.remove(first).count(n) > 0 implies second.weight()
                    <= n.weight() by {
                    assert(items1.to_multiset().count(n) > 0);
                    assert(items1.contains(n));
                    let i = choose|i: int| 0 <= i < items1.len() && items1[i] == n;
                    assert(prefers(PriorityType::Min, second.spec_priority(), items1[i].spec_priority()));
                }
            }
            let new_node = HuffmanNode::combine(first, second);
            queue.insert(new_node);
            proof {
                assert(joins_lightest(m0, first, second, queue.contents()));
                let old_hist = hist;
                hist = hist.push(queue.contents());
                assert forall|i: int| 0 <= i < hist.len() - 1 implies greedy_step(
                    #[trigger] hist[i],
                    hist[i + 1],
                ) by {
                    if i < old_hist.len() - 1 {
                        assert(hist[i] == old_hist[i] && hist[i + 1] == old_hist[i + 1]);
                    } else {
                        assert(hist[i] == m0);
                    }
                }
            }
        }
        let ghost m = queue.contents();
        let root = queue.remove().unwrap();
        proof {
            broadcast use vstd::seq_lib::to_multiset_len;

            assert(queue.contents().len() == 0);
            assert(forall|n: HuffmanNode| #[trigger] m.remove(root).count(n) == 0) by {
                assert(queue.contents() =~= Multiset::empty());
            }
            assert(node_ok(root, s));
            assert forall|x: u8| s.to_set().contains(x) implies root.symbols().contains(x) by {
                assert(s.contains(x));
                let n = choose|n: HuffmanNode| m.count(n) > 0 && #[trigger] n.symbols().contains(x);
                if n != root {
                    assert(m.remove(root).count(n) == m.count(n));
                }
            }
            assert(root.symbols() =~= s.to_set());
            assert(m.count(root) == 1);
            assert(m =~= Multiset::singleton(root)) by {
                assert forall|n: HuffmanNode| m.count(n) == Multiset::singleton(root).count(n) by {
                    if n != root {
                        assert(m.remove(root).count(n) == m.count(n));
                    }
                }
            }
            assert(built_greedily(root, s));
        }
        Some(HuffmanCode { root, dict: None })
    }

    /// The tree in its pre-order encoding, padded with zero bits to whole bytes.
    fn serialize(&self) -> (r: Vec<u8>)
        ensures
            bytes_to_bits(r@) == padded(self.root().serialized()),
    {
        let mut sink = new_writer();
        self.root.serialize(&mut sink);
        assert(written_bits(sink) =~= self.root.serialized());
        byte_align(&mut sink);
        into_bytes(sink)
    }

    /// Reads a tree from the front of `bytes`.
    pub fn deserialize(bytes: &[u8]) -> (r: Result<HuffmanCode, DecompressError>)
        ensures
            match parse_tree(bytes_to_bits(bytes@)) {
                Some((t, _)) => r is Ok && r->Ok_0.root() == t && r->Ok_0.wf()
                    && !r->Ok_0.has_table(),
                None => r is Err && r->Err_0 == DecompressError::CorruptTree,
            },
    {
        let mut source = new_reader(bytes);
        match HuffmanNode::deserialize(&mut source) {
            Some(root) => Ok(HuffmanCode { root, dict: None }),
            None => Err(DecompressError::CorruptTree),
        }
    }

    /// Builds the code table once; later calls keep it.
    fn get_map(&mut self)
        requires
            old(self).wf(),
        ensures
            final(self).wf(),
            final(self).root() == old(self).root(),
            final(self).dict is Some,
            old(self).has_table() ==> *final(self) == *old(self),
    {
        if self.dict.is_none() {
            let mut map: HashMap<u8, Vec<bool>> = HashMap::new();
            self.root.build_encoding_map(&mut map, Vec::new());
            assert(codes_of(map@) =~= self.root.code_table());
            self.dict = Some(map);
        }
    }

    /// The codes of `bytes`, one after another, padded with zero bits to whole bytes.
    fn encode(&mut self, bytes: &[u8]) -> (r: Vec<u8>)
        requires
            old(self).wf(),
            forall|i: int| 0 <= i < bytes@.len() ==> old(self).root().symbols().contains(#[trigger] bytes@[i]),
        ensures
            final(self).wf(),
            final(self).root() == old(self).root(),
            bytes_to_bits(r@) == padded(encoded_bits(old(self).root().code_table(), bytes@)),
    {
        self.get_map();
        let ghost table = self.root.code_table();
        let map = match &self.dict {
            Some(m) => m,
            None => return Vec::new(),
        };
        let mut sink = new_writer();
        let mut i: usize = 0;
        assert(bytes@.take(0) =~= Seq::<u8>::empty());
        while i < bytes.len()
            invariant
                i <= bytes@.len(),
                codes_of(map@) == table,
                forall|j: int| 0 <= j < bytes@.len() ==> table.contains_key(#[trigger] bytes@[j]),
                written_bits(sink) == encoded_bits(table, bytes@.take(i as int)),
            decreases bytes@.len() - i,
        {
            let b = bytes[i];
            assert(table.contains_key(bytes@[i as int]));
            assert(map@.contains_key(b));
            let ghost before = written_bits(sink);
            if let Some(code) = map.get(&b) {
                let mut j: usize = 0;
                while j < code.len()
                    invariant
                        j <= code@.len(),
                        written_bits(sink) == before + code@.take(j as int),
                    decreases code@.len() - j,
                {
                    write_bit(&mut sink, code[j]);
                    assert(code@.take(j + 1) =~= code@.take(j as int).push(code@[j as int]));
                    j += 1;
                }
                proof {
                    assert(code@.take(code@.len() as int) =~= code@);
                    assert(table[b] == code@);
                    lemma_encoded_push(table, bytes@.take(i as int), b);
                    assert(bytes@.take(i + 1) =~= bytes@.take(i as int).push(b));
                }
            }
            i += 1;
        }
        assert(bytes@.take(bytes@.len() as int) =~= bytes@);
        byte_align(&mut sink);
        into_bytes(sink)
    }

    /// Reads `num_encoded` bytes, each by a walk from the root.
    fn decode(&self, bytes: &[u8], num_encoded: u32) -> (r: Result<Vec<u8>, DecompressError>)
        ensures
            match decode_n(self.root(), bytes_to_bits(bytes@), num_encoded as nat) {
                Some(out) => r is Ok && r->Ok_0@ == out,
                None => r is Err && r->Err_0 == DecompressError::TruncatedStream,
            },
    {
        let ghost all = bytes_to_bits(bytes@);
        let ghost root = self.root;
        let mut source = new_reader(bytes);
        let mut decoded: Vec<u8> = Vec::new();
        let mut bytes_decoded: u32 = 0;
        while bytes_decoded < num_encoded
            invariant
                bytes_decoded <= num_encoded,
                root == self.root,
                all == bytes_to_bits(bytes@),
                match decode_n(root, unread_bits(source), (num_encoded - bytes_decoded) as nat) {
                    Some(t) => decode_n(root, all, num_encoded as nat) == Some(decoded@ + t),
                    None => decode_n(root, all, num_encoded as nat) is None,
                },
            decreases num_encoded - bytes_decoded,
        {
            let ghost rem = unread_bits(source);
            assert(root.walk(rem) is None ==> decode_n(
                root,
                rem,
                (num_encoded - bytes_decoded) as nat,
            ) is None);
            let byte = match self.root.decode(&mut source) {
                Some(b) => b,
                None => {
                    assert(decode_n(root, rem, (num_encoded - bytes_decoded) as nat) is None);
                    assert(decode_n(root, all, num_encoded as nat) is None);
                    return Err(DecompressError::TruncatedStream);
                },
            };
            proof {
                let n = (num_encoded - bytes_decoded) as nat;
                let k = (root.walk(rem)->0).1;
                assert(unread_bits(source) == rem.skip(k as int));
                if let Some(t) = decode_n(root, unread_bits(source), (n - 1) as nat) {
                    assert(decoded@ + (seq![byte] + t) =~= decoded@.push(byte) + t);
                }
            }
            decoded.push(byte);
            bytes_decoded += 1;
        }
        assert(decoded@ + Seq::<u8>::empty() =~= decoded@);
        Ok(decoded)
    }
}

impl HuffmanCode {
    pub fn compress_string(input: &str) -> (r: Vec<u8>)
        requires
            input.spec_bytes().len() <= i32::MAX,
        ensures
            is_compression_of(input.spec_bytes(), r@),
    {
        Self::compress_bytes(input.as_bytes())
    }

    /// Compresses `input`; an empty input comes back unchanged.
    pub fn compress_bytes(input: &[u8]) -> (r: Vec<u8>)
        requires
            input@.len() <= i32::MAX,
        ensures
            is_compression_of(input@, r@),
    {
        let mut tree = match Self::build_encoding(input) {
            Some(tree) => tree,
            None => return Vec::new(),
        };
        let ghost t = tree.root();
        let mut tree_bytes = tree.serialize();
        proof {
            let ser = t.serialized();
            lemma_bytes_to_bits_len(tree_bytes@);
            lemma_serialized_len(t);
            lemma_leaf_count(t);
            input@.lemma_cardinality_of_set();
            assert(padding(ser.len()).len() <= 7);
            assert(tree_bytes@.len() <= u32::MAX);
        }
        let mut tree_len_bytes = be_bytes(tree_bytes.len() as u32);
        let mut input_len_bytes = be_bytes(input.len() as u32);
        let mut body_bytes = tree.encode(input);
        let ghost a = tree_len_bytes@;
        let ghost b = tree_bytes@;
        let ghost c = input_len_bytes@;
        let ghost d = body_bytes@;
        let mut compressed: Vec<u8> = Vec::new();
        compressed.append(&mut tree_len_bytes);
        compressed.append(&mut tree_bytes);
        compressed.append(&mut input_len_bytes);
        compressed.append(&mut body_bytes);
        proof {
            let out = compressed@;
            let tl = b.len() as int;
            assert(out =~= a + b + c + d);
            assert(out.subrange(0, 4) =~= a);
            assert(out.subrange(4, 4 + tl) =~= b);
            assert(out.subrange(4 + tl, 8 + tl) =~= c);
            assert(out.subrange(8 + tl, out.len() as int) =~= d);
            assert(compressed_form(t, input@, out));
        }
        compressed
    }

    /// Reads a compressed stream back into the bytes it was made from.
    pub fn decompress_bytes(input: &[u8]) -> (r: Result<Vec<u8>, DecompressError>)
        ensures
            match decompressed(input@) {
                Ok(out) => r is Ok && r->Ok_0@ == out,
                Err(e) => r is Err && r->Err_0 == e,
            },
    {
        if input.len() < 4 {
            return Err(DecompressError::TruncatedStream);
        }
        let tree_len = read_be_u32(input, 0) as usize;
        if input.len() - 4 < tree_len || input.len() - 4 - tree_len < 4 {
            return Err(DecompressError::TruncatedStream);
        }
        let tree_bytes = vstd::slice::slice_subrange(input, 4, tree_len + 4);
        let tree = match HuffmanCode::deserialize(tree_bytes) {
            Ok(tree) => tree,
            Err(e) => return Err(e),
        };
        let num_encoded = read_be_u32(input, tree_len + 4);
        let remaining_bytes = vstd::slice::slice_subrange(input, tree_len + 8, input.len());
        tree.decode(remaining_bytes, num_encoded)
    }
}

/// `out` is what compressing `s` gives: `s` itself when empty, else the compressed
/// form of `s` with a tree that the greedy construction builds from `s`.
pub open spec fn is_compression_of(s: Seq<u8>, out: Seq<u8>) -> bool {
    if s.len() == 0 {
        out == s
    } else {
        exists|t: HuffmanNode|
            is_tree_for(t, s) && built_greedily(t, s) && #[trigger] compressed_form(t, s, out)
    }
}

/// The encoding of a tree takes ten bits per leaf, less one.
pub proof fn lemma_serialized_len(t: HuffmanNode)
    ensures
        t.serialized().len() == 10 * t.leaf_count() - 1,
    decreases t,
{
    match t {
        HuffmanNode::Nonleaf { left, right, .. } => {
            lemma_serialized_len(*left);
            lemma_serialized_len(*right);
        },
        HuffmanNode::Leaf { byte, .. } => {
            crate::bits::lemma_bits_msb_len(byte as nat, 8);
        },
    }
}

/// Without repeated byte values, a tree has one leaf per byte value.
pub proof fn lemma_leaf_count(t: HuffmanNode)
    requires
        t.distinct_leaves(),
    ensures
        t.symbols().finite(),
        t.symbols().len() == t.leaf_count(),
    decreases t,
{
    match t {
        HuffmanNode::Nonleaf { left, right, .. } => {
            lemma_leaf_count(*left);
            lemma_leaf_count(*right);
            vstd::set_lib::lemma_set_disjoint_lens(left.symbols(), right.symbols());
        },
        HuffmanNode::Leaf { byte, .. } => {
            assert(set![byte].len() == 1);
        },
    }
}

/// Decoding the codes of `s` from a tree read back from the encoding of `t` gives `s`,
/// whatever bits follow.
pub proof fn lemma_decode_encoded(t: HuffmanNode, s: Seq<u8>, rest: Seq<bool>)
    requires
        forall|i: int| 0 <= i < s.len() ==> t.symbols().contains(#[trigger] s[i]),
    ensures
        decode_n(t.stripped(), encoded_bits(t.code_table(), s) + rest, s.len()) == Some(s),
    decreases s.len(),
{
    let table = t.code_table();
    if s.len() == 0 {
        assert(s =~= Seq::<u8>::empty());
    } else {
        let b = s[0];
        let code = table[b];
        let tail = encoded_bits(table, s.skip(1));
        assert(t.symbols().contains(b));
        assert(code =~= t.path_to(b));
        lemma_path_to(t, b);
        lemma_stripped(t, code);
        lemma_walk_path(t.stripped(), code, tail + rest);
        assert(encoded_bits(table, s) + rest =~= code + (tail + rest));
        assert((code + (tail + rest)).skip(code.len() as int) =~= tail + rest);
        assert forall|i: int| 0 <= i < s.skip(1).len() implies t.symbols().contains(
            #[trigger] s.skip(1)[i],
        ) by {
            assert(s.skip(1)[i] == s[i + 1]);
        }
        lemma_decode_encoded(t, s.skip(1), rest);
        assert(seq![b] + s.skip(1) =~= s);
    }
}

/// Decompressing what compressing a non-empty byte string gave yields that string.
pub proof fn lemma_round_trip(s: Seq<u8>, out: Seq<u8>)
    requires
        s.len() > 0,
        is_compression_of(s, out),
    ensures
        decompressed(out) == Ok::<Seq<u8>, DecompressError>(s),
{
    let t = choose|t: HuffmanNode| is_tree_for(t, s) && #[trigger] compressed_form(t, s, out);
    let tl = be_u32(out.subrange(0, 4));
    lemma_parse_serialized(t, padding(t.serialized().len()));
    assert forall|i: int| 0 <= i < s.len() implies t.symbols().contains(#[trigger] s[i]) by {
        assert(s.to_set().contains(s[i]));
    }
    lemma_decode_encoded(t, s, padding(encoded_bits(t.code_table(), s).len()));
}

/// A byte string of one repeated value gets a tree of a single leaf, whose code is
/// empty.
pub proof fn lemma_single_symbol(s: Seq<u8>, t: HuffmanNode)
    requires
        s.len() > 0,
        forall|i: int| 0 <= i < s.len() ==> #[trigger] s[i] == s[0],
        is_tree_for(t, s),
    ensures
        t.leaf_count() == 1,
        t is Leaf,
        t.code_table() == map![s[0] => Seq::<bool>::empty()],
{
    assert(s.to_set() =~= set![s[0]]) by {
        assert(s.contains(s[0]));
    }
    lemma_leaf_count(t);
    assert(set![s[0]].len() == 1);
    if let HuffmanNode::Nonleaf { left, right, .. } = t {
        lemma_leaf_count_pos(*left);
        lemma_leaf_count_pos(*right);
    }
    assert(t.code_table() =~= map![s[0] => Seq::<bool>::empty()]);
}

/// Reading back the serialized bytes of any tree gives the same tree with its weights
/// zeroed: the same byte value at the end of every path.
pub proof fn lemma_serialize_round_trip(t: HuffmanNode, bytes: Seq<u8>, path: Seq<bool>)
    requires
        bytes_to_bits(bytes) == padded(t.serialized()),
    ensures
        parse_tree(bytes_to_bits(bytes)) is Some,
        (parse_tree(bytes_to_bits(bytes))->0).0 == t.stripped(),
        t.stripped().at_path(path) == t.at_path(path),
{
    lemma_parse_serialized(t, padding(t.serialized().len()));
    lemma_stripped(t, path);
}

/// Decoding a strict prefix of the codes of `s` runs out of bits.
pub proof fn lemma_decode_short(t: HuffmanNode, s: Seq<u8>, k: int)
    requires
        forall|i: int| 0 <= i < s.len() ==> t.symbols().contains(#[trigger] s[i]),
        0 <= k < encoded_bits(t.code_table(), s).len(),
    ensures
        decode_n(t.stripped(), encoded_bits(t.code_table(), s).take(k), s.len()) is None,
    decreases s.len(),
{
    let table = t.code_table();
    let e = encoded_bits(table, s);
    let b = s[0];
    let code = table[b];
    let tail = encoded_bits(table, s.skip(1));
    assert(t.symbols().contains(b));
    assert(code =~= t.path_to(b));
    lemma_path_to(t, b);
    lemma_stripped(t, code);
    if k < code.len() {
        lemma_walk_prefix(t.stripped(), code, k);
        assert(e.take(k) =~= code.take(k));
    } else {
        let rest = tail.take(k - code.len());
        assert(e.take(k) =~= code + rest);
        lemma_walk_path(t.stripped(), code, rest);
        assert((code + rest).skip(code.len() as int) =~= rest);
        assert forall|i: int| 0 <= i < s.skip(1).len() implies t.symbols().contains(
            #[trigger] s.skip(1)[i],
        ) by {
            assert(s.skip(1)[i] == s[i + 1]);
        }
        lemma_decode_short(t, s.skip(1), k - code.len());
    }
}

/// A compressed stream with its last byte cut off is refused.
pub proof fn lemma_truncation_rejected(s: Seq<u8>, out: Seq<u8>)
    requires
        s.len() > 0,
        is_compression_of(s, out),
    ensures
        decompressed(out.drop_last()) is Err,
{
    let t = choose|t: HuffmanNode| is_tree_for(t, s) && #[trigger] compressed_form(t, s, out);
    let tl = be_u32(out.subrange(0, 4));
    let cut = out.drop_last();
    let table = t.code_table();
    let e = encoded_bits(table, s);
    let d = out.subrange(8 + tl, out.len() as int);
    assert(cut.subrange(0, 4) =~= out.subrange(0, 4));
    lemma_bytes_to_bits_len(d);
    if d.len() > 0 {
        assert(cut.subrange(4, 4 + tl) =~= out.subrange(4, 4 + tl));
        assert(cut.subrange(4 + tl, 8 + tl) =~= out.subrange(4 + tl, 8 + tl));
        assert(cut.subrange(8 + tl, cut.len() as int) =~= d.drop_last());
        lemma_parse_serialized(t, padding(t.serialized().len()));
        lemma_bytes_to_bits_len(d.drop_last());
        let k = 8 * (d.len() - 1);
        assert(bytes_to_bits(d) == bytes_to_bits(d.drop_last()) + bits_msb(d.last() as nat, 8));
        assert(bytes_to_bits(d.drop_last()) =~= bytes_to_bits(d).take(k));
        assert(k < e.len());
        assert(bytes_to_bits(d).take(k) =~= e.take(k));
        assert forall|i: int| 0 <= i < s.len() implies t.symbols().contains(#[trigger] s[i]) by {
            assert(s.to_set().contains(s[i]));
        }
        lemma_decode_short(t, s, k);
    }
}

/// Appending a byte appends its code.
pub proof fn lemma_encoded_push(table: Map<u8, Seq<bool>>, s: Seq<u8>, b: u8)
    ensures
        encoded_bits(table, s.push(b)) == encoded_bits(table, s) + table[b],
    decreases s.len(),
{
    if s.len() == 0 {
        assert(s.push(b).skip(1) =~= Seq::<u8>::empty());
        assert(encoded_bits(table, Seq::<u8>::empty()) == Seq::<bool>::empty());
        assert(encoded_bits(table, s.push(b)) =~= table[b]);
    } else {
        lemma_encoded_push(table, s.skip(1), b);
        assert(s.push(b).skip(1) =~= s.skip(1).push(b));
        assert(encoded_bits(table, s.push(b)) =~= encoded_bits(table, s) + table[b]);
    }
}

/// A node that construction may hold for input `s`.
pub open spec fn node_ok(n: HuffmanNode, s: Seq<u8>) -> bool {
    &&& n.distinct_leaves()
    &&& weights_match(n, s)
    &&& n.weight() == freq(s, n.symbols())
    &&& n.symbols().subset_of(s.to_set())
    &&& exists|x: u8| n.symbols().contains(x)
}

/// The nodes that construction holds for input `s`: each sound, pairwise sharing no
/// byte value, and together covering every byte value of `s`.
pub open spec fn forest_ok(m: Multiset<HuffmanNode>, s: Seq<u8>) -> bool {
    &&& forall|n: HuffmanNode| m.count(n) > 0 ==> #[trigger] node_ok(n, s)
    &&& forall|a: HuffmanNode, b: HuffmanNode|
        #![trigger m.count(a), m.count(b)]
        m.count(a) > 0 && m.count(b) > 0 && a != b ==> a.symbols().disjoint(b.symbols())
    &&& forall|n: HuffmanNode| #[trigger] m.count(n) <= 1
    &&& forall|x: u8|
        s.contains(x) ==> exists|n: HuffmanNode| m.count(n) > 0 && #[trigger] n.symbols().contains(x)
}

proof fn lemma_combine_step(m: Multiset<HuffmanNode>, x: HuffmanNode, y: HuffmanNode, s: Seq<u8>)
    requires
        forest_ok(m, s),
        m.count(x) > 0,
        m.remove(x).count(y) > 0,
        s.len() <= i32::MAX,
    ensures
        x != y,
        x.symbols().disjoint(y.symbols()),
        0 <= x.weight() + y.weight() <= s.len(),
        forest_ok(
            m.remove(x).remove(y).insert(
                HuffmanNode::Nonleaf {
                    priority: (x.weight() + y.weight()) as i32,
                    left: Box::new(x),
                    right: Box::new(y),
                },
            ),
            s,
        ),
{
    let z = HuffmanNode::Nonleaf {
        priority: (x.weight() + y.weight()) as i32,
        left: Box::new(x),
        right: Box::new(y),
    };
    let m2 = m.remove(x).remove(y);
    let m3 = m2.insert(z);
    assert(m.count(x) <= 1);
    assert(x != y);
    assert(m.count(y) > 0);
    assert(node_ok(x, s));
    assert(node_ok(y, s));
    assert(x.symbols().disjoint(y.symbols()));
    lemma_freq_union(s, x.symbols(), y.symbols());
    lemma_freq_le(s, x.symbols().union(y.symbols()));
    assert(z.symbols() == x.symbols().union(y.symbols()));
    let xs = choose|c: u8| x.symbols().contains(c);
    let ys = choose|c: u8| y.symbols().contains(c);
    assert(z.symbols().contains(xs));
    assert(z.distinct_leaves());
    assert(weights_match(z, s));
    assert(z.weight() == freq(s, z.symbols()));
    assert(z.symbols().subset_of(s.to_set()));
    assert(node_ok(z, s));
    assert(m2.count(z) == 0) by {
        if m2.count(z) > 0 {
            assert(m.count(z) > 0);
            if z == x {
                assert(y.symbols().contains(ys));
                assert(x.symbols().contains(ys));
            } else {
                assert(z.symbols().disjoint(x.symbols()));
                assert(z.symbols().contains(xs));
            }
        }
    }
    assert forall|n: HuffmanNode| m3.count(n) > 0 implies #[trigger] node_ok(n, s) by {
        if n != z {
            assert(m.count(n) > 0);
        }
    }
    assert forall|a: HuffmanNode, b: HuffmanNode|
        #![trigger m3.count(a), m3.count(b)]
        m3.count(a) > 0 && m3.count(b) > 0 && a != b implies a.symbols().disjoint(b.symbols()) by {
        if a == z {
            assert(m2.count(b) > 0);
            assert(b != x && b != y);
            assert(m.count(b) > 0 && m.count(x) > 0 && m.count(y) > 0);
            assert(b.symbols().disjoint(x.symbols()));
            assert(b.symbols().disjoint(y.symbols()));
        } else if b == z {
            assert(m2.count(a) > 0);
            assert(a != x && a != y);
            assert(m.count(a) > 0 && m.count(x) > 0 && m.count(y) > 0);
            assert(a.symbols().disjoint(x.symbols()));
            assert(a.symbols().disjoint(y.symbols()));
        } else {
            assert(m.count(a) > 0 && m.count(b) > 0);
        }
    }
    assert forall|n: HuffmanNode| #[trigger] m3.count(n) <= 1 by {
        assert(m.count(n) <= 1);
    }
    assert forall|c: u8| s.contains(c) implies exists|n: HuffmanNode|
        m3.count(n) > 0 && #[trigger] n.symbols().contains(c) by {
        let n = choose|n: HuffmanNode| m.count(n) > 0 && #[trigger] n.symbols().contains(c);
        if n == x || n == y {
            assert(z.symbols().contains(c));
            assert(m3.count(z) > 0);
        } else {
            assert(m3.count(n) > 0);
        }
    }
}

} // verus!
