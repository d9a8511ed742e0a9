use vstd::prelude::*;
use crate::digest::{Digest, digest_byte, digest_bit, digest_bytes, word_bit};
use crate::model::{GTree, complete, digest_of, empty_digest, leaf_digest};
use crate::prefix::Prefix;
use crate::wrap::Wrap;

verus! {

/// The shard selector: the first eight path bits of the region a node
/// belongs to, packed into a byte.
#[derive(Clone, Copy, PartialEq, Eq, Structural, Debug, Hash)]
pub struct MapId {
    pub id: u8,
}

/// The value of one bit of a prefix, padded with zeroes beyond its depth.
pub open spec fn bitval(p: Seq<bool>, i: int) -> u8 {
    if i < p.len() && p[i] {
        1
    } else {
        0
    }
}

/// The first eight bits of a prefix as a byte, most significant first.
pub open spec fn prefix_byte(p: Seq<bool>) -> u8 {
    (128 * bitval(p, 0) + 64 * bitval(p, 1) + 32 * bitval(p, 2) + 16 * bitval(p, 3) + 8 * bitval(
        p,
        4,
    ) + 4 * bitval(p, 5) + 2 * bitval(p, 6) + bitval(p, 7)) as u8
}

impl MapId {
    /// The shard of an internal node standing at `scope`.
    pub fn internal(scope: &Prefix) -> (r: MapId)
        requires
            scope.wf(),
        ensures
            r.id == prefix_byte(scope@),
    {
        MapId { id: shard_byte(scope) }
    }

    /// The shard of a leaf, from the first byte of its key hash.
    pub fn leaf(digest: &Digest) -> (r: MapId)
        ensures
            r.id == digest_byte(*digest, 0),
    {
        MapId { id: digest.first_byte() }
    }

    /// The shard index.
    pub fn id(&self) -> (r: u8)
        ensures
            r == self.id,
    {
        self.id
    }
}

/// A content-addressed reference to a stored node: the shard it lives in and
/// the hash that identifies it there. `Empty` stands for no node at all.
#[derive(Clone, Copy, PartialEq, Eq, Structural, Debug, Hash)]
pub enum Label {
    Internal(MapId, Digest),
    Leaf(MapId, Digest),
    Empty,
}

impl Label {
    pub fn is_empty(&self) -> (r: bool)
        ensures
            r == (*self is Empty),
    {
        match self {
            Label::Empty => true,
            _ => false,
        }
    }

    /// The shard of a non-empty label.
    pub fn map(&self) -> (r: MapId)
        requires
            !(*self is Empty),
        ensures
            r == self.spec_map(),
    {
        match self {
            Label::Internal(map, _) => *map,
            Label::Leaf(map, _) => *map,
            Label::Empty => MapId { id: 0 },
        }
    }

    pub open spec fn spec_map(self) -> MapId {
        match self {
            Label::Internal(map, _) => map,
            Label::Leaf(map, _) => map,
            Label::Empty => MapId { id: 0 },
        }
    }

    /// The hash a label carries; the empty label denotes the empty node,
    /// whose hash is fixed.
    pub open spec fn spec_hash(self) -> Digest {
        match self {
            Label::Internal(_, hash) => hash,
            Label::Leaf(_, hash) => hash,
            Label::Empty => empty_digest(),
        }
    }

    /// Reads the hash; `empty` must be the precomputed hash of the empty node.
    pub fn hash(&self, empty: &Digest) -> (r: Digest)
        requires
            *empty == empty_digest(),
        ensures
            r == self.spec_hash(),
    {
        match self {
            Label::Internal(_, hash) => *hash,
            Label::Leaf(_, hash) => *hash,
            Label::Empty => *empty,
        }
    }
}

/// A label written out as bytes: its kind, its shard, and its hash. An
/// internal node hashes its children's labels whole, so that one hash pins
/// the children exactly.
pub open spec fn kind_byte(l: Label) -> u8 {
    match l {
        Label::Empty => 0,
        Label::Internal(..) => 1,
        Label::Leaf(..) => 2,
    }
}

pub open spec fn label_bytes(l: Label) -> Seq<u8> {
    seq![kind_byte(l), l.spec_map().id] + digest_bytes(l.spec_hash())
}

/// The hash of an internal node: a tag byte, then the two child labels.
pub open spec fn internal_digest(a: Label, b: Label) -> Digest {
    digest_of(seq![0u8] + label_bytes(a) + label_bytes(b))
}

/// The label a leaf over `key` and `value` gets, wherever it stands.
pub open spec fn leaf_label(key: Seq<u8>, value: Seq<u8>) -> Label {
    Label::Leaf(
        MapId { id: digest_byte(digest_of(key), 0) },
        leaf_digest(digest_of(key), digest_of(value)),
    )
}

/// The label an internal node with child labels `a`, `b` gets at position `p`.
pub open spec fn internal_label(p: Seq<bool>, a: Label, b: Label) -> Label {
    Label::Internal(MapId { id: prefix_byte(p) }, internal_digest(a, b))
}

/// The label of a tree standing at position `p`.
pub open spec fn tree_label(t: GTree, p: Seq<bool>) -> Label
    decreases t,
{
    match t {
        GTree::Empty => Label::Empty,
        GTree::Leaf { key, value } => leaf_label(key, value),
        GTree::Internal { left, right } => internal_label(
            p,
            tree_label(*left, p.push(false)),
            tree_label(*right, p.push(true)),
        ),
        GTree::Stub { label } => label,
    }
}

/// The root hash of a tree standing at position `p`: the commitment to its
/// record set.
pub open spec fn gtree_hash(t: GTree, p: Seq<bool>) -> Digest {
    tree_label(t, p).spec_hash()
}

/// A stored trie node.
#[derive(Clone, Debug)]
pub enum Node {
    Internal(Label, Label),
    Leaf(Wrap, Wrap),
    Empty,
}

/// A stored node as the specification sees it.
pub enum NodeV {
    Internal(Label, Label),
    Leaf { key: Seq<u8>, kd: Digest, value: Seq<u8>, vd: Digest },
    Empty,
}

/// Strips a node down to its mathematical content.
pub open spec fn node_view(n: Node) -> NodeV {
    match n {
        Node::Internal(l, r) => NodeV::Internal(l, r),
        Node::Leaf(k, v) => NodeV::Leaf { key: k.data@, kd: k.digest, value: v.data@, vd: v.digest },
        Node::Empty => NodeV::Empty,
    }
}

impl Node {
    /// An equal node, rebuilt field by field.
    pub fn duplicate(&self) -> (r: Node)
        ensures
            node_view(r) == node_view(*self),
    {
        match self {
            Node::Internal(l, r) => Node::Internal(*l, *r),
            Node::Leaf(k, v) => Node::Leaf(k.duplicate(), v.duplicate()),
            Node::Empty => Node::Empty,
        }
    }
}

/// One arena slot: a node and the count of parents and holders that
/// reference it.
#[derive(Clone, Debug)]
pub struct Entry {
    pub node: Node,
    pub references: u64,
}

/// A tree is materialized below `label`: the store holds, at the labels the
/// tree's hashes dictate, exactly the nodes the tree describes.
pub open spec fn tree_at(nodes: Map<Label, NodeV>, label: Label, t: GTree, p: Seq<bool>) -> bool
    decreases t,
{
    match t {
        GTree::Empty => label == Label::Empty,
        GTree::Leaf { key, value } => {
            &&& label == leaf_label(key, value)
            &&& nodes.contains_key(label)
            &&& nodes[label] == (NodeV::Leaf {
                key,
                kd: digest_of(key),
                value,
                vd: digest_of(value),
            })
        },
        GTree::Internal { left, right } => {
            &&& p.len() < 256
            &&& label == internal_label(
                p,
                tree_label(*left, p.push(false)),
                tree_label(*right, p.push(true)),
            )
            &&& nodes.contains_key(label)
            &&& nodes[label] == NodeV::Internal(
                tree_label(*left, p.push(false)),
                tree_label(*right, p.push(true)),
            )
            &&& tree_at(nodes, tree_label(*left, p.push(false)), *left, p.push(false))
            &&& tree_at(nodes, tree_label(*right, p.push(true)), *right, p.push(true))
        },
        GTree::Stub { .. } => false,
    }
}

/// Materialization only reads the node map; a store that keeps every node of
/// the tree keeps the tree materialized.
pub proof fn lemma_tree_at_monotone(
    m1: Map<Label, NodeV>,
    m2: Map<Label, NodeV>,
    label: Label,
    t: GTree,
    p: Seq<bool>,
)
    requires
        tree_at(m1, label, t, p),
        forall|l: Label| #[trigger] m1.contains_key(l) ==> m2.contains_key(l) && m2[l] == m1[l],
    ensures
        tree_at(m2, label, t, p),
    decreases t,
{
    match t {
        GTree::Internal { left, right } => {
            assert(tree_at(m1, tree_label(*left, p.push(false)), *left, p.push(false)));
            assert(tree_at(m1, tree_label(*right, p.push(true)), *right, p.push(true)));
            lemma_tree_at_monotone(
                m1,
                m2,
                tree_label(*left, p.push(false)),
                *left,
                p.push(false),
            );
            lemma_tree_at_monotone(
                m1,
                m2,
                tree_label(*right, p.push(true)),
                *right,
                p.push(true),
            );
        },
        _ => {},
    }
}

/// The byte that selects the shard of a prefix.
pub fn shard_byte(scope: &Prefix) -> (b: u8)
    requires
        scope.wf(),
    ensures
        b == prefix_byte(scope@),
{
    let b = scope.bits.first_byte();
    proof {
        let w = scope.bits.w0;
        let p = scope@;
        lemma_byte_sum(b);
        assert forall|j: u64| j < 8 implies ((b >> (7 - j) as u8) & 1) as u8 == bitval(
            p,
            j as int,
        ) by {
            lemma_byte_bit(w, j);
            crate::prefix::lemma_bit_is_bool(w, (63 - j) as u64);
            assert((63 - j as int) as u64 == (63 - j) as u64);
            assert((w >> (63 - j as int) as u64) & 1 == if word_bit(w, j as int) {
                1u64
            } else {
                0u64
            });
            if j as int >= scope.depth {
                assert(!digest_bit(scope.bits, j as int));
            } else {
                assert(p[j as int] == digest_bit(scope.bits, j as int));
            }
        }
        assert(((b >> 7u8) & 1) as u8 == bitval(p, 0));
        assert(((b >> 6u8) & 1) as u8 == bitval(p, 1));
        assert(((b >> 5u8) & 1) as u8 == bitval(p, 2));
        assert(((b >> 4u8) & 1) as u8 == bitval(p, 3));
        assert(((b >> 3u8) & 1) as u8 == bitval(p, 4));
        assert(((b >> 2u8) & 1) as u8 == bitval(p, 5));
        assert(((b >> 1u8) & 1) as u8 == bitval(p, 6));
        assert(((b >> 0u8) & 1) as u8 == bitval(p, 7));
    }
    b
}

/// A byte is the weighted sum of its bits.
proof fn lemma_byte_sum(b: u8)
    by (bit_vector)
    ensures
        b == 128 * ((b >> 7u8) & 1) + 64 * ((b >> 6u8) & 1) + 32 * ((b >> 5u8) & 1) + 16 * ((b
            >> 4u8) & 1) + 8 * ((b >> 3u8) & 1) + 4 * ((b >> 2u8) & 1) + 2 * ((b >> 1u8) & 1) + ((b
            >> 0u8) & 1),
{
}

/// Bit `j` of the first byte of a word is bit `j` of the word.
proof fn lemma_byte_bit(w: u64, j: u64)
    by (bit_vector)
    requires
        j < 8,
    ensures
        (((w >> 56u64) as u8 >> (7 - j) as u8) & 1) as u64 == (w >> (63 - j) as u64) & 1,
{
}

/// The hash a stored node must carry in its label.
pub open spec fn nodev_hash(n: NodeV) -> Digest {
    match n {
        NodeV::Empty => empty_digest(),
        NodeV::Internal(a, b) => internal_digest(a, b),
        NodeV::Leaf { kd, vd, .. } => leaf_digest(kd, vd),
    }
}

/// What every stored slot satisfies: the label matches the node's kind and
/// hash, leaf wraps carry their own digests, and a leaf sits in the shard of
/// its key hash.
pub open spec fn entry_ok(l: Label, n: NodeV) -> bool {
    match n {
        NodeV::Empty => false,
        NodeV::Internal(a, b) => l is Internal && l.spec_hash() == internal_digest(a, b),
        NodeV::Leaf { key, kd, value, vd } => {
            &&& l is Leaf
            &&& kd == digest_of(key)
            &&& vd == digest_of(value)
            &&& l.spec_hash() == leaf_digest(kd, vd)
            &&& l.spec_map().id == digest_byte(kd, 0)
        },
    }
}

/// A complete tree's label has the kind of the tree's root.
pub proof fn lemma_tree_label_kind(t: GTree, p: Seq<bool>)
    requires
        complete(t),
    ensures
        t is Empty <==> tree_label(t, p) is Empty,
        t is Leaf <==> tree_label(t, p) is Leaf,
        t is Internal <==> tree_label(t, p) is Internal,
{
}

/// A word rebuilt from its eight bytes, most significant first.
proof fn lemma_word_from_bytes(w: u64)
    by (bit_vector)
    ensures
        w == (((w >> 56u64) as u8) as u64) * 0x100000000000000 + (((w >> 48u64) as u8) as u64)
            * 0x1000000000000 + (((w >> 40u64) as u8) as u64) * 0x10000000000 + (((w >> 32u64) as u8)
            as u64) * 0x100000000 + (((w >> 24u64) as u8) as u64) * 0x1000000 + (((w >> 16u64) as u8)
            as u64) * 0x10000 + (((w >> 8u64) as u8) as u64) * 0x100 + (((w >> 0u64) as u8) as u64),
{
}

/// Digests with the same bytes are the same digest.
pub proof fn lemma_digest_bytes_inj(x: Digest, y: Digest)
    requires
        digest_bytes(x) == digest_bytes(y),
    ensures
        x == y,
{
    let sx = digest_bytes(x);
    let sy = digest_bytes(y);
    assert forall|i: int| 0 <= i < 32 implies digest_byte(x, i) == digest_byte(y, i) by {
        assert(sx[i] == digest_byte(x, i));
        assert(sy[i] == digest_byte(y, i));
        assert(sx[i] == sy[i]);
    }
    lemma_word_from_bytes(x.w0);
    lemma_word_from_bytes(y.w0);
    lemma_word_from_bytes(x.w1);
    lemma_word_from_bytes(y.w1);
    lemma_word_from_bytes(x.w2);
    lemma_word_from_bytes(y.w2);
    lemma_word_from_bytes(x.w3);
    lemma_word_from_bytes(y.w3);
    assert(digest_byte(x, 0) == digest_byte(y, 0));
    assert(digest_byte(x, 1) == digest_byte(y, 1));
    assert(digest_byte(x, 2) == digest_byte(y, 2));
    assert(digest_byte(x, 3) == digest_byte(y, 3));
    assert(digest_byte(x, 4) == digest_byte(y, 4));
    assert(digest_byte(x, 5) == digest_byte(y, 5));
    assert(digest_byte(x, 6) == digest_byte(y, 6));
    assert(digest_byte(x, 7) == digest_byte(y, 7));
    assert(digest_byte(x, 8) == digest_byte(y, 8));
    assert(digest_byte(x, 9) == digest_byte(y, 9));
    assert(digest_byte(x, 10) == digest_byte(y, 10));
    assert(digest_byte(x, 11) == digest_byte(y, 11));
    assert(digest_byte(x, 12) == digest_byte(y, 12));
    assert(digest_byte(x, 13) == digest_byte(y, 13));
    assert(digest_byte(x, 14) == digest_byte(y, 14));
    assert(digest_byte(x, 15) == digest_byte(y, 15));
    assert(digest_byte(x, 16) == digest_byte(y, 16));
    assert(digest_byte(x, 17) == digest_byte(y, 17));
    assert(digest_byte(x, 18) == digest_byte(y, 18));
    assert(digest_byte(x, 19) == digest_byte(y, 19));
    assert(digest_byte(x, 20) == digest_byte(y, 20));
    assert(digest_byte(x, 21) == digest_byte(y, 21));
    assert(digest_byte(x, 22) == digest_byte(y, 22));
    assert(digest_byte(x, 23) == digest_byte(y, 23));
    assert(digest_byte(x, 24) == digest_byte(y, 24));
    assert(digest_byte(x, 25) == digest_byte(y, 25));
    assert(digest_byte(x, 26) == digest_byte(y, 26));
    assert(digest_byte(x, 27) == digest_byte(y, 27));
    assert(digest_byte(x, 28) == digest_byte(y, 28));
    assert(digest_byte(x, 29) == digest_byte(y, 29));
    assert(digest_byte(x, 30) == digest_byte(y, 30));
    assert(digest_byte(x, 31) == digest_byte(y, 31));
}

/// Labels with the same bytes are the same label.
pub proof fn lemma_label_bytes_inj(a: Label, b: Label)
    requires
        label_bytes(a) == label_bytes(b),
    ensures
        a == b,
{
    let la = label_bytes(a);
    let lb = label_bytes(b);
    assert(la[0] == kind_byte(a) && la[1] == a.spec_map().id);
    assert(lb[0] == kind_byte(b) && lb[1] == b.spec_map().id);
    assert(kind_byte(a) == kind_byte(b));
    assert(a.spec_map().id == b.spec_map().id);
    assert forall|i: int| 0 <= i < 32 implies digest_bytes(a.spec_hash())[i] == digest_bytes(
        b.spec_hash(),
    )[i] by {
        assert(la[2 + i] == digest_bytes(a.spec_hash())[i]);
        assert(lb[2 + i] == digest_bytes(b.spec_hash())[i]);
        assert(la[2 + i] == lb[2 + i]);
    }
    assert(digest_bytes(a.spec_hash()) =~= digest_bytes(b.spec_hash()));
    lemma_digest_bytes_inj(a.spec_hash(), b.spec_hash());
}

/// Under the injectivity hypothesis, equal internal hashes pin equal child
/// labels.
pub proof fn lemma_internal_digest_inj(a: Label, b: Label, c: Label, d: Label)
    requires
        crate::model::digest_injective(),
        internal_digest(a, b) == internal_digest(c, d),
    ensures
        a == c,
        b == d,
{
    let s1 = seq![0u8] + label_bytes(a) + label_bytes(b);
    let s2 = seq![0u8] + label_bytes(c) + label_bytes(d);
    assert(digest_of(s1) == digest_of(s2));
    assert(s1 == s2);
    assert(label_bytes(a).len() == 34 && label_bytes(b).len() == 34);
    assert(label_bytes(c).len() == 34 && label_bytes(d).len() == 34);
    assert forall|i: int| 0 <= i < 34 implies label_bytes(a)[i] == label_bytes(c)[i] by {
        assert(s1[1 + i] == label_bytes(a)[i]);
        assert(s2[1 + i] == label_bytes(c)[i]);
        assert(s1[1 + i] == s2[1 + i]);
    }
    assert forall|i: int| 0 <= i < 34 implies label_bytes(b)[i] == label_bytes(d)[i] by {
        assert(s1[35 + i] == label_bytes(b)[i]);
        assert(s2[35 + i] == label_bytes(d)[i]);
        assert(s1[35 + i] == s2[35 + i]);
    }
    assert(label_bytes(a) =~= label_bytes(c));
    assert(label_bytes(b) =~= label_bytes(d));
    lemma_label_bytes_inj(a, c);
    lemma_label_bytes_inj(b, d);
}

/// Under the injectivity hypothesis, equal leaf hashes pin equal key and
/// value hashes.
pub proof fn lemma_leaf_digest_inj(k1: Digest, v1: Digest, k2: Digest, v2: Digest)
    requires
        crate::model::digest_injective(),
        leaf_digest(k1, v1) == leaf_digest(k2, v2),
    ensures
        k1 == k2,
        v1 == v2,
{
    let s1 = seq![1u8] + digest_bytes(k1) + digest_bytes(v1);
    let s2 = seq![1u8] + digest_bytes(k2) + digest_bytes(v2);
    assert(digest_of(s1) == digest_of(s2));
    assert(s1 == s2);
    assert forall|i: int| 0 <= i < 32 implies digest_bytes(k1)[i] == digest_bytes(k2)[i] by {
        assert(s1[1 + i] == digest_bytes(k1)[i]);
        assert(s2[1 + i] == digest_bytes(k2)[i]);
        assert(s1[1 + i] == s2[1 + i]);
    }
    assert forall|i: int| 0 <= i < 32 implies digest_bytes(v1)[i] == digest_bytes(v2)[i] by {
        assert(s1[33 + i] == digest_bytes(v1)[i]);
        assert(s2[33 + i] == digest_bytes(v2)[i]);
        assert(s1[33 + i] == s2[33 + i]);
    }
    assert(digest_bytes(k1) =~= digest_bytes(k2));
    assert(digest_bytes(v1) =~= digest_bytes(v2));
    lemma_digest_bytes_inj(k1, k2);
    lemma_digest_bytes_inj(v1, v2);
}

/// Extending a prefix below the shard depth keeps or steps its byte: a zero
/// bit leaves it, a one bit adds that position's weight.
pub proof fn lemma_prefix_byte_push(p: Seq<bool>, b: bool)
    requires
        p.len() < 8,
    ensures
        prefix_byte(p.push(b)) == (if b {
            prefix_byte(p) + crate::store::pow2_8(7 - p.len() as int)
        } else {
            prefix_byte(p) as int
        }),
{
    let q = p.push(b);
    assert forall|i: int| 0 <= i < 8 implies bitval(q, i) == (if i < p.len() {
        bitval(p, i)
    } else if i == p.len() {
        if b {
            1u8
        } else {
            0u8
        }
    } else {
        0u8
    }) by {
        if i < p.len() {
            assert(q[i] == p[i]);
        } else if i == p.len() {
            assert(q[i] == b);
        }
    }
    assert forall|i: int| p.len() < i < 8 implies bitval(p, i) == 0 by {}
    assert(bitval(p, p.len() as int) == 0);
}

} // verus!
