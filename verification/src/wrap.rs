use vstd::prelude::*;
use crate::digest::{Digest, digest_bytes};
use crate::node::{Label, internal_digest, kind_byte, label_bytes};
use crate::model::{digest_of, empty_digest, leaf_digest};

verus! {

/// Relies on blake3::hash: the returned digest is a pure function of the
/// input bytes alone, here read out as four big-endian words.
#[verifier::external_body]
pub fn hash_bytes(data: &Vec<u8>) -> (r: Digest)
    ensures
        r == digest_of(data@),
{
    let h = blake3::hash(data.as_slice());
    let b = h.as_bytes();
    Digest {
        w0: u64::from_be_bytes(b[0..8].try_into().unwrap()),
        w1: u64::from_be_bytes(b[8..16].try_into().unwrap()),
        w2: u64::from_be_bytes(b[16..24].try_into().unwrap()),
        w3: u64::from_be_bytes(b[24..32].try_into().unwrap()),
    }
}

/// Computes the hash of the empty node.
pub fn empty_hash() -> (r: Digest)
    ensures
        r == empty_digest(),
{
    let data: Vec<u8> = Vec::new();
    hash_bytes(&data)
}

/// Writes a label out as its kind, its shard and its hash bytes.
pub fn label_to_bytes(l: &Label, empty: &Digest) -> (r: Vec<u8>)
    requires
        *empty == empty_digest(),
    ensures
        r@ == label_bytes(*l),
{
    let mut out: Vec<u8> = Vec::new();
    let kind: u8 = match l {
        Label::Empty => 0,
        Label::Internal(..) => 1,
        Label::Leaf(..) => 2,
    };
    out.push(kind);
    let mid: u8 = match l {
        Label::Empty => 0,
        Label::Internal(m, _) => m.id,
        Label::Leaf(m, _) => m.id,
    };
    out.push(mid);
    let h = l.hash(empty);
    let mut hb = h.to_bytes();
    out.append(&mut hb);
    proof {
        assert(out@ =~= label_bytes(*l));
    }
    out
}

/// Computes the hash of an internal node from its child labels.
pub fn internal_hash(a: &Label, b: &Label, empty: &Digest) -> (h: Digest)
    requires
        *empty == empty_digest(),
    ensures
        h == internal_digest(*a, *b),
{
    let mut data: Vec<u8> = Vec::new();
    data.push(0);
    let mut ab = label_to_bytes(a, empty);
    data.append(&mut ab);
    let mut bb = label_to_bytes(b, empty);
    data.append(&mut bb);
    proof {
        assert(data@ =~= seq![0u8] + label_bytes(*a) + label_bytes(*b));
    }
    hash_bytes(&data)
}

/// Computes the hash of a leaf from its key and value hashes.
pub fn leaf_hash(k: &Digest, v: &Digest) -> (h: Digest)
    ensures
        h == leaf_digest(*k, *v),
{
    let mut data: Vec<u8> = Vec::new();
    data.push(1);
    let mut kb = k.to_bytes();
    data.append(&mut kb);
    let mut vb = v.to_bytes();
    data.append(&mut vb);
    proof {
        assert(data@ =~= seq![1u8] + digest_bytes(*k) + digest_bytes(*v));
    }
    hash_bytes(&data)
}

/// A value paired with its digest: the unit a trie stores and compares.
/// Two wraps are the same record exactly when their digests are equal.
#[derive(Clone, Debug)]
pub struct Wrap {
    pub data: Vec<u8>,
    pub digest: Digest,
}

impl Wrap {
    /// The digest field is the digest of the data.
    pub open spec fn wf(&self) -> bool {
        self.digest == digest_of(self.data@)
    }

    /// Wraps a value, computing its digest once.
    pub fn new(data: Vec<u8>) -> (r: Wrap)
        ensures
            r.wf(),
            r.data@ == data@,
    {
        let digest = hash_bytes(&data);
        Wrap { data, digest }
    }

    /// The wrapped bytes.
    pub fn inner(&self) -> (r: &Vec<u8>)
        ensures
            r == &self.data,
    {
        &self.data
    }

    /// The precomputed digest.
    pub fn digest(&self) -> (r: Digest)
        ensures
            r == self.digest,
    {
        self.digest
    }

    /// An equal wrap, rebuilt field by field.
    pub fn duplicate(&self) -> (r: Wrap)
        ensures
            r.data@ == self.data@,
            r.digest == self.digest,
    {
        let data = clone_bytes(&self.data);
        Wrap { data, digest: self.digest }
    }
}

/// An equal byte vector.
pub fn clone_bytes(v: &Vec<u8>) -> (r: Vec<u8>)
    ensures
        r@ == v@,
{
    let r = v.clone();
    proof {
        assert(r@ =~= v@);
    }
    r
}

} // verus!
