use vstd::prelude::*;
use crate::digest::{Digest, digest_bit, digest_bytes};

verus! {

/// What the hashing routine returns on given bytes. The digest is a pure
/// function of the input bytes; nothing further is assumed of it.
pub uninterp spec fn digest_of(data: Seq<u8>) -> Digest;

/// The standing assumption the store's content addressing rests on:
/// distinct byte strings never share a digest. Every claim about stored
/// trees is made under this hypothesis; nothing is assumed of it outright.
pub open spec fn digest_injective() -> bool {
    forall|a: Seq<u8>, b: Seq<u8>|
        #![trigger digest_of(a), digest_of(b)]
        digest_of(a) == digest_of(b) ==> a == b
}

/// The hash of the empty node.
pub open spec fn empty_digest() -> Digest {
    digest_of(Seq::<u8>::empty())
}

/// The hash of a leaf: a tag byte, then the key hash, then the value hash.
pub open spec fn leaf_digest(k: Digest, v: Digest) -> Digest {
    digest_of(seq![1u8] + digest_bytes(k) + digest_bytes(v))
}

/// A mathematical trie: the shape every stored or standalone map denotes.
/// `Stub` stands for a subtree elided from an exported proof; complete trees
/// contain none.
pub enum GTree {
    Empty,
    Leaf { key: Seq<u8>, value: Seq<u8> },
    Internal { left: Box<GTree>, right: Box<GTree> },
    Stub { label: crate::node::Label },
}

/// The records a tree holds: key digest to (key bytes, value bytes).
/// Stubs hold none; they only stand in for elided subtrees.
pub open spec fn records(t: GTree) -> Map<Digest, (Seq<u8>, Seq<u8>)>
    decreases t,
{
    match t {
        GTree::Empty => Map::empty(),
        GTree::Leaf { key, value } => Map::empty().insert(digest_of(key), (key, value)),
        GTree::Internal { left, right } => records(*left).union_prefer_right(records(*right)),
        GTree::Stub { .. } => Map::empty(),
    }
}

/// Compactness: an internal node never has two empty children nor an empty
/// child beside a leaf; such shapes collapse to the survivor.
pub open spec fn compact_pair(l: GTree, r: GTree) -> bool {
    match (l, r) {
        (GTree::Empty, GTree::Empty) => false,
        (GTree::Empty, GTree::Leaf { .. }) => false,
        (GTree::Leaf { .. }, GTree::Empty) => false,
        _ => true,
    }
}

/// Whether `path` starts with the bits `p`.
pub open spec fn path_under(path: Digest, p: Seq<bool>) -> bool {
    p.len() <= 256 && forall|i: int| 0 <= i < p.len() ==> digest_bit(path, i) == p[i]
}

/// Structural well-formedness of a tree standing at position `p`: internal
/// nodes are compact, and every leaf lies on its key's path.
pub open spec fn wf(t: GTree, p: Seq<bool>) -> bool
    decreases t,
{
    match t {
        GTree::Empty => true,
        GTree::Leaf { key, value } => path_under(digest_of(key), p),
        GTree::Internal { left, right } => {
            &&& p.len() < 256
            &&& compact_pair(*left, *right)
            &&& wf(*left, p.push(false))
            &&& wf(*right, p.push(true))
        },
        GTree::Stub { .. } => true,
    }
}

/// A tree with no elided subtrees.
pub open spec fn complete(t: GTree) -> bool
    decreases t,
{
    match t {
        GTree::Internal { left, right } => complete(*left) && complete(*right),
        GTree::Stub { .. } => false,
        _ => true,
    }
}

/// One operation of a batch, as the specification sees it.
pub enum OpSpec {
    Get { path: Digest, key: Seq<u8> },
    Put { path: Digest, key: Seq<u8>, value: Seq<u8> },
    Remove { path: Digest, key: Seq<u8> },
}

impl OpSpec {
    pub open spec fn path(self) -> Digest {
        match self {
            OpSpec::Get { path, .. } => path,
            OpSpec::Put { path, .. } => path,
            OpSpec::Remove { path, .. } => path,
        }
    }
}

/// The effect of one operation on a record map.
pub open spec fn apply_one(
    recs: Map<Digest, (Seq<u8>, Seq<u8>)>,
    op: OpSpec,
) -> Map<Digest, (Seq<u8>, Seq<u8>)> {
    match op {
        OpSpec::Get { .. } => recs,
        OpSpec::Put { path, key, value } => recs.insert(path, (key, value)),
        OpSpec::Remove { path, .. } => recs.remove(path),
    }
}

/// The effect of a batch, applied first to last.
pub open spec fn apply_ops(
    recs: Map<Digest, (Seq<u8>, Seq<u8>)>,
    ops: Seq<OpSpec>,
) -> Map<Digest, (Seq<u8>, Seq<u8>)>
    decreases ops.len(),
{
    if ops.len() == 0 {
        recs
    } else {
        apply_ops(apply_one(recs, ops[0]), ops.drop_first())
    }
}

/// What a read of `path` observes in a record map.
pub open spec fn lookup(recs: Map<Digest, (Seq<u8>, Seq<u8>)>, path: Digest) -> Option<Seq<u8>> {
    if recs.contains_key(path) {
        Some(recs[path].1)
    } else {
        None
    }
}

/// Applying a concatenation applies the two halves in order.
pub proof fn lemma_apply_ops_app(
    recs: Map<Digest, (Seq<u8>, Seq<u8>)>,
    a: Seq<OpSpec>,
    b: Seq<OpSpec>,
)
    ensures
        apply_ops(recs, a + b) == apply_ops(apply_ops(recs, a), b),
    decreases a.len(),
{
    if a.len() == 0 {
        assert(a + b =~= b);
    } else {
        assert((a + b).drop_first() =~= a.drop_first() + b);
        lemma_apply_ops_app(apply_one(recs, a[0]), a.drop_first(), b);
    }
}

/// Every key of a well-formed tree's records lies under the tree's position.
pub proof fn lemma_records_under(t: GTree, p: Seq<bool>)
    requires
        wf(t, p),
    ensures
        forall|d: Digest| records(t).contains_key(d) ==> #[trigger] path_under(d, p),
        forall|d: Digest| records(t).contains_key(d) ==> digest_of(#[trigger] records(t)[d].0)
            == d,
    decreases t,
{
    match t {
        GTree::Internal { left, right } => {
            lemma_records_under(*left, p.push(false));
            lemma_records_under(*right, p.push(true));
            assert forall|d: Digest| records(t).contains_key(d) implies #[trigger] path_under(
                d,
                p,
            ) by {
                if records(*right).contains_key(d) {
                    assert(path_under(d, p.push(true)));
                    assert forall|i: int| 0 <= i < p.len() implies digest_bit(d, i) == p[i] by {
                        assert(digest_bit(d, i) == p.push(true)[i]);
                    }
                } else {
                    assert(records(*left).contains_key(d));
                    assert(path_under(d, p.push(false)));
                    assert forall|i: int| 0 <= i < p.len() implies digest_bit(d, i) == p[i] by {
                        assert(digest_bit(d, i) == p.push(false)[i]);
                    }
                }
            }
            assert forall|d: Digest| records(t).contains_key(d) implies digest_of(
                #[trigger] records(t)[d].0,
            ) == d by {
                if records(*right).contains_key(d) {
                    assert(records(t)[d] == records(*right)[d]);
                    assert(digest_of(records(*right)[d].0) == d);
                } else {
                    assert(records(t)[d] == records(*left)[d]);
                    assert(digest_of(records(*left)[d].0) == d);
                }
            }
        },
        _ => {},
    }
}

/// Left and right subtrees hold records on disjoint key regions, told apart
/// by the bit at the split depth.
pub proof fn lemma_records_split(t: GTree, p: Seq<bool>)
    requires
        wf(t, p),
        t is Internal,
    ensures
        forall|d: Digest| records(*t->Internal_left).contains_key(d) ==> !#[trigger] digest_bit(
            d,
            p.len() as int,
        ),
        forall|d: Digest| records(*t->Internal_right).contains_key(d) ==> #[trigger] digest_bit(
            d,
            p.len() as int,
        ),
{
    let left = *t->Internal_left;
    let right = *t->Internal_right;
    lemma_records_under(left, p.push(false));
    lemma_records_under(right, p.push(true));
    assert forall|d: Digest|
        records(left).contains_key(d) implies !#[trigger] digest_bit(d, p.len() as int) by {
        assert(path_under(d, p.push(false)));
        assert(digest_bit(d, p.len() as int) == p.push(false)[p.len() as int]);
    }
    assert forall|d: Digest|
        records(right).contains_key(d) implies #[trigger] digest_bit(d, p.len() as int) by {
        assert(path_under(d, p.push(true)));
        assert(digest_bit(d, p.len() as int) == p.push(true)[p.len() as int]);
    }
}

} // verus!
