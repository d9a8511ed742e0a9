use vstd::prelude::*;
use crate::digest::{Digest, digest_bit, digest_lt};
use crate::model::{
    GTree, complete, digest_injective, digest_of, lookup, path_under, records, wf,
};
use crate::node::{Label, MapId, Node, tree_at, tree_label};
use crate::prefix::Prefix;
use crate::store::Store;
use crate::wrap::{Wrap, leaf_hash};

verus! {

/// A standalone proof tree: the leaves a caller asked about, every other
/// subtree elided down to its label. The tree carries the same commitment as
/// the table it was cut from, so it proves inclusion of the kept records and
/// exclusion of everything the kept regions do not mention.
pub enum ProofTree {
    Empty,
    Leaf(Wrap, Wrap),
    Internal(Box<ProofTree>, Box<ProofTree>),
    Stub(Label),
}

impl ProofTree {
    /// The mathematical tree this artifact denotes.
    pub open spec fn view(self) -> GTree
        decreases self,
    {
        match self {
            ProofTree::Empty => GTree::Empty,
            ProofTree::Leaf(k, v) => GTree::Leaf { key: k.data@, value: v.data@ },
            ProofTree::Internal(l, r) => GTree::Internal {
                left: Box::new((*l)@),
                right: Box::new((*r)@),
            },
            ProofTree::Stub(label) => GTree::Stub { label },
        }
    }

    /// Every kept leaf carries the digests of its own bytes.
    pub open spec fn wraps_ok(self) -> bool
        decreases self,
    {
        match self {
            ProofTree::Leaf(k, v) => k.wf() && v.wf(),
            ProofTree::Internal(l, r) => (*l).wraps_ok() && (*r).wraps_ok(),
            _ => true,
        }
    }

    /// The label this tree gets at position `pr`; for the whole artifact,
    /// its commitment.
    pub fn label_of(&self, pr: &Prefix, empty: &Digest) -> (r: Label)
        requires
            pr.wf(),
            wf(self@, pr@),
            self.wraps_ok(),
            *empty == crate::model::empty_digest(),
        ensures
            r == tree_label(self@, pr@),
        decreases self,
    {
        match self {
            ProofTree::Empty => Label::Empty,
            ProofTree::Stub(label) => *label,
            ProofTree::Leaf(k, v) => {
                let kd = k.digest();
                let vd = v.digest();
                Label::Leaf(MapId::leaf(&kd), leaf_hash(&kd, &vd))
            },
            ProofTree::Internal(l, r) => {
                let la = l.label_of(&pr.left(), empty);
                let lb = r.label_of(&pr.right(), empty);
                Label::Internal(MapId::internal(pr), crate::wrap::internal_hash(&la, &lb, empty))
            },
        }
    }

    /// The commitment of the whole artifact: equal to the commitment of the
    /// table it was exported from.
    pub fn commit(&self) -> (r: Digest)
        requires
            wf(self@, Seq::<bool>::empty()),
            self.wraps_ok(),
        ensures
            r == tree_label(self@, Seq::<bool>::empty()).spec_hash(),
    {
        let e = crate::wrap::empty_hash();
        let rp = Prefix::root();
        let label = self.label_of(&rp, &e);
        label.hash(&e)
    }

    /// Verifies an artifact that arrived from elsewhere: every kept leaf
    /// must carry the digests of its own bytes, every position must be well
    /// formed. A tree that passes, and whose recomputed commitment matches
    /// the expected one, is exactly as trustworthy as the table it claims to
    /// come from; a doctored one fails here or shifts the commitment.
    pub fn check(&self, pr: &Prefix) -> (r: bool)
        requires
            pr.wf(),
        ensures
            r ==> self.wraps_ok() && wf(self@, pr@),
        decreases self,
    {
        match self {
            ProofTree::Empty => true,
            ProofTree::Stub(_) => true,
            ProofTree::Leaf(k, v) => {
                let kd = crate::wrap::hash_bytes(&k.data);
                let vd = crate::wrap::hash_bytes(&v.data);
                crate::apply::digests_equal(&kd, &k.digest) && crate::apply::digests_equal(
                    &vd,
                    &v.digest,
                ) && pr.contains(&kd)
            },
            ProofTree::Internal(l, r) => {
                if pr.depth >= 256 {
                    return false;
                }
                let compact = match (&**l, &**r) {
                    (ProofTree::Empty, ProofTree::Empty) => false,
                    (ProofTree::Empty, ProofTree::Leaf(..)) => false,
                    (ProofTree::Leaf(..), ProofTree::Empty) => false,
                    _ => true,
                };
                compact && l.check(&pr.left()) && r.check(&pr.right())
            },
        }
    }

    /// What the artifact holds for `key`: the value, its absence, or nothing
    /// decidable because the walk reached an elided subtree.
    pub fn get(&self, key: &Vec<u8>) -> (r: Option<Option<Vec<u8>>>)
        requires
            wf(self@, Seq::<bool>::empty()),
            self.wraps_ok(),
        ensures
            digest_injective() ==> match r {
                Some(o) => match o {
                    Some(v) => lookup(records(self@), digest_of(key@)) == Some(v@),
                    None => lookup(records(self@), digest_of(key@)) is None,
                },
                None => true,
            },
    {
        let kd = crate::wrap::hash_bytes(key);
        let rp = Prefix::root();
        self.seek(&kd, &rp, Ghost(key@))
    }

    /// The walk behind `get`, following the key digest's bits.
    fn seek(&self, kd: &Digest, pr: &Prefix, Ghost(kb): Ghost<Seq<u8>>) -> (r: Option<
        Option<Vec<u8>>,
    >)
        requires
            pr.wf(),
            wf(self@, pr@),
            self.wraps_ok(),
            *kd == digest_of(kb),
        ensures
            digest_injective() ==> match r {
                Some(o) => match o {
                    Some(v) => lookup(records(self@), digest_of(kb)) == Some(v@),
                    None => lookup(records(self@), digest_of(kb)) is None,
                },
                None => true,
            },
        decreases self,
    {
        match self {
            ProofTree::Empty => Some(None),
            ProofTree::Stub(_) => None,
            ProofTree::Leaf(k, v) => {
                if crate::apply::digests_equal(&k.digest, kd) {
                    proof {
                        if digest_injective() {
                            assert(digest_of(k.data@) == digest_of(kb));
                            assert(k.data@ == kb);
                        }
                    }
                    Some(Some(crate::wrap::clone_bytes(&v.data)))
                } else {
                    proof {
                        if digest_injective() {
                            assert(digest_of(k.data@) != digest_of(kb));
                        }
                    }
                    Some(None)
                }
            },
            ProofTree::Internal(l, r) => {
                proof {
                    crate::model::lemma_records_split(self@, pr@);
                }
                if pr.depth >= 256 {
                    return None;
                }
                let side = kd.bit(pr.depth);
                let sub = if !side {
                    l.seek(kd, &pr.left(), Ghost(kb))
                } else {
                    r.seek(kd, &pr.right(), Ghost(kb))
                };
                proof {
                    if digest_injective() {
                        let d = digest_of(kb);
                        let recl = records((*l)@);
                        let recr = records((*r)@);
                        if !side {
                            assert(!recr.contains_key(d));
                            assert(lookup(records(self@), d) == lookup(recl, d));
                        } else {
                            assert(!recl.contains_key(d));
                            assert(lookup(records(self@), d) == lookup(recr, d));
                        }
                    }
                }
                sub
            },
        }
    }
}

/// Finds where sorted paths under a position change from its left half to
/// its right half.
fn split_paths(paths: &Vec<Digest>, lo: usize, hi: usize, depth: u16, Ghost(p): Ghost<Seq<bool>>)
    -> (mid: usize)
    requires
        depth < 256,
        p.len() == depth,
        lo <= hi <= paths@.len(),
        forall|i: int, j: int|
            lo <= i < j < hi ==> digest_lt(#[trigger] paths@[i], #[trigger] paths@[j]),
        forall|i: int| lo <= i < hi ==> path_under(#[trigger] paths@[i], p),
    ensures
        lo <= mid <= hi,
        forall|i: int| lo <= i < mid ==> !digest_bit(#[trigger] paths@[i], depth as int),
        forall|i: int| mid <= i < hi ==> digest_bit(#[trigger] paths@[i], depth as int),
{
    let ghost s = paths@;
    let mut m: usize = lo;
    while m < hi
        invariant
            lo <= m <= hi <= s.len(),
            s == paths@,
            depth < 256,
            p.len() == depth,
            forall|i: int, j: int|
                lo <= i < j < hi ==> digest_lt(#[trigger] s[i], #[trigger] s[j]),
            forall|i: int| lo <= i < hi ==> path_under(#[trigger] s[i], p),
            forall|i: int| lo <= i < m ==> !digest_bit(#[trigger] s[i], depth as int),
        decreases hi - m,
    {
        if paths[m].bit(depth) {
            proof {
                assert forall|i: int|
                    m <= i < hi implies digest_bit(#[trigger] s[i], depth as int) by {
                    if i > m {
                        if !digest_bit(s[i], depth as int) {
                            assert forall|k: int|
                                0 <= k < depth implies digest_bit(s[i], k) == digest_bit(
                                s[m as int],
                                k,
                            ) by {
                                assert(digest_bit(s[i], k) == p[k]);
                                assert(digest_bit(s[m as int], k) == p[k]);
                            }
                            crate::prefix::lemma_digest_bit_order(
                                s[i],
                                s[m as int],
                                depth as int,
                            );
                            crate::batch::lemma_digest_order(s[i], s[m as int]);
                            assert(false);
                        }
                    }
                }
            }
            return m;
        }
        m = m + 1;
    }
    m
}

/// Cuts the proof tree for a window of sorted key paths out of a
/// materialized subtree: touched regions are kept whole, untouched ones
/// become stubs, and the artifact's label stays that of the source.
fn export_rec(
    store: &Store,
    label: Label,
    tree: Ghost<GTree>,
    pr: Prefix,
    paths: &Vec<Digest>,
    lo: usize,
    hi: usize,
) -> (r: ProofTree)
    requires
        store.wf(),
        store.scope.depth == 0,
        pr.wf(),
        lo <= hi <= paths@.len(),
        forall|i: int, j: int|
            lo <= i < j < hi ==> digest_lt(#[trigger] paths@[i], #[trigger] paths@[j]),
        forall|i: int| lo <= i < hi ==> path_under(#[trigger] paths@[i], pr@),
        digest_injective() ==> {
            &&& wf(tree@, pr@) && complete(tree@)
            &&& label == tree_label(tree@, pr@)
            &&& tree_at(store.nodes(), label, tree@, pr@)
        },
    ensures
        digest_injective() ==> {
            &&& wf(r@, pr@)
            &&& r.wraps_ok()
            &&& tree_label(r@, pr@) == label
            &&& (r@ is Empty <==> label is Empty)
            &&& (r@ is Leaf ==> label is Leaf)
            &&& forall|i: int|
                lo <= i < hi ==> lookup(records(r@), #[trigger] paths@[i]) == lookup(
                    records(tree@),
                    paths@[i],
                )
        },
    decreases 256 - pr.depth,
{
    if label.is_empty() {
        proof {
            if digest_injective() {
                crate::node::lemma_tree_label_kind(tree@, pr@);
                assert(tree@ is Empty);
            }
        }
        return ProofTree::Empty;
    }
    if hi <= lo {
        proof {
            if digest_injective() {
                assert(tree_label(GTree::Stub { label }, pr@) == label);
            }
        }
        return ProofTree::Stub(label);
    }
    proof {
        store.lemma_full_covers(label);
    }
    match store.fetch(&label) {
        None => {
            proof {
                if digest_injective() {
                    assert(false);
                }
            }
            ProofTree::Stub(label)
        },
        Some(node) => {
            match node {
                Node::Empty => {
                    proof {
                        if digest_injective() {
                            store.lemma_entry_ok(label);
                            assert(false);
                        }
                    }
                    ProofTree::Stub(label)
                },
                Node::Leaf(k, v) => {
                    proof {
                        if digest_injective() {
                            match tree@ {
                                GTree::Leaf { key, value } => {
                                    assert(k.data@ == key && v.data@ == value);
                                    assert(k.digest == digest_of(key) && v.digest == digest_of(
                                        value,
                                    ));
                                },
                                _ => {
                                    assert(false);
                                },
                            }
                        }
                    }
                    let r = ProofTree::Leaf(k, v);
                    proof {
                        if digest_injective() {
                            assert(r@ == tree@);
                        }
                    }
                    r
                },
                Node::Internal(a, b) => {
                    if pr.depth >= 256 {
                        proof {
                            if digest_injective() {
                                assert(false);
                            }
                        }
                        return ProofTree::Stub(label);
                    }
                    let ghost tl = crate::apply::left_of(tree@);
                    let ghost tr = crate::apply::right_of(tree@);
                    proof {
                        if digest_injective() {
                            match tree@ {
                                GTree::Internal { left, right } => {},
                                _ => {
                                    assert(false);
                                },
                            }
                        }
                    }
                    let mid = split_paths(paths, lo, hi, pr.depth, Ghost(pr@));
                    proof {
                        if digest_injective() {
                            assert forall|i: int|
                                lo <= i < mid implies path_under(
                                #[trigger] paths@[i],
                                pr@.push(false),
                            ) by {
                                crate::apply::lemma_path_under_push(paths@[i], pr@, false);
                            }
                            assert forall|i: int|
                                mid <= i < hi implies path_under(
                                #[trigger] paths@[i],
                                pr@.push(true),
                            ) by {
                                crate::apply::lemma_path_under_push(paths@[i], pr@, true);
                            }
                        }
                    }
                    let le = export_rec(store, a, Ghost(tl), pr.left(), paths, lo, mid);
                    let ri = export_rec(store, b, Ghost(tr), pr.right(), paths, mid, hi);
                    let r = ProofTree::Internal(Box::new(le), Box::new(ri));
                    proof {
                        if digest_injective() {
                            crate::node::lemma_tree_label_kind(tl, pr@.push(false));
                            crate::node::lemma_tree_label_kind(tr, pr@.push(true));
                            assert(crate::model::compact_pair(le@, ri@)) by {
                                if le@ is Empty && ri@ is Empty {
                                    assert(tl is Empty && tr is Empty);
                                    assert(false);
                                }
                                if le@ is Empty && ri@ is Leaf {
                                    assert(tl is Empty && tr is Leaf);
                                    assert(false);
                                }
                                if le@ is Leaf && ri@ is Empty {
                                    assert(tl is Leaf && tr is Empty);
                                    assert(false);
                                }
                            }
                            lemma_export_combine(
                                tree@,
                                tl,
                                tr,
                                r@,
                                le@,
                                ri@,
                                pr@,
                                paths@,
                                lo as int,
                                mid as int,
                                hi as int,
                            );
                        }
                    }
                    r
                },
            }
        },
    }
}

/// Joining the two exported halves keeps the requested lookups of both.
proof fn lemma_export_combine(
    t: GTree,
    tl: GTree,
    tr: GTree,
    e: GTree,
    el: GTree,
    er: GTree,
    p: Seq<bool>,
    paths: Seq<Digest>,
    lo: int,
    mid: int,
    hi: int,
)
    requires
        digest_injective(),
        p.len() < 256,
        t is Internal,
        tl == crate::apply::left_of(t),
        tr == crate::apply::right_of(t),
        e is Internal,
        el == crate::apply::left_of(e),
        er == crate::apply::right_of(e),
        wf(t, p),
        wf(el, p.push(false)),
        wf(er, p.push(true)),
        0 <= lo <= mid <= hi <= paths.len(),
        forall|i: int| lo <= i < mid ==> !digest_bit(#[trigger] paths[i], p.len() as int),
        forall|i: int| mid <= i < hi ==> digest_bit(#[trigger] paths[i], p.len() as int),
        forall|i: int|
            lo <= i < mid ==> lookup(records(el), #[trigger] paths[i]) == lookup(
                records(tl),
                paths[i],
            ),
        forall|i: int|
            mid <= i < hi ==> lookup(records(er), #[trigger] paths[i]) == lookup(
                records(tr),
                paths[i],
            ),
    ensures
        forall|i: int|
            lo <= i < hi ==> lookup(records(e), #[trigger] paths[i]) == lookup(
                records(t),
                paths[i],
            ),
{
    crate::model::lemma_records_split(t, p);
    crate::model::lemma_records_under(el, p.push(false));
    crate::model::lemma_records_under(er, p.push(true));
    let d = p.len() as int;
    assert forall|i: int| lo <= i < hi implies lookup(records(e), #[trigger] paths[i]) == lookup(
        records(t),
        paths[i],
    ) by {
        let key = paths[i];
        assert(records(t) == records(tl).union_prefer_right(records(tr)));
        assert(records(e) == records(el).union_prefer_right(records(er)));
        if i < mid {
            assert(!records(tr).contains_key(key));
            assert forall|k: Digest|
                records(er).contains_key(k) implies #[trigger] digest_bit(k, d) by {
                assert(path_under(k, p.push(true)));
                crate::apply::lemma_path_under_push(k, p, true);
            }
            assert(!records(er).contains_key(key));
            assert(lookup(records(t), key) == lookup(records(tl), key));
            assert(lookup(records(e), key) == lookup(records(el), key));
        } else {
            assert(records(tr).contains_key(key) || !records(tr).contains_key(key));
            assert forall|k: Digest|
                records(el).contains_key(k) implies !#[trigger] digest_bit(k, d) by {
                assert(path_under(k, p.push(false)));
                crate::apply::lemma_path_under_push(k, p, false);
            }
            assert(!records(tl).contains_key(key));
            assert(!records(el).contains_key(key));
            assert(lookup(records(t), key) == lookup(records(tr), key));
            assert(lookup(records(e), key) == lookup(records(er), key));
        }
    }
}

/// Every key up to `upto` has its digest listed.
pub open spec fn covers_keys(out: Seq<Digest>, keys: Seq<Vec<u8>>, upto: int) -> bool {
    forall|k: int|
        #![trigger keys[k]]
        0 <= k < upto ==> exists|i: int| 0 <= i < out.len() && out[i] == digest_of(keys[k]@)
}

/// Every listed digest comes from one of the keys.
pub open spec fn from_keys(out: Seq<Digest>, keys: Seq<Vec<u8>>) -> bool {
    forall|i: int|
        0 <= i < out.len() ==> exists|k: int|
            0 <= k < keys.len() && #[trigger] out[i] == digest_of(keys[k]@)
}

/// Where `d` belongs among sorted paths, or an equal neighbour.
fn path_position(out: &Vec<Digest>, d: &Digest) -> (r: (usize, bool))
    requires
        forall|i: int, j: int|
            0 <= i < j < out@.len() ==> digest_lt(#[trigger] out@[i], #[trigger] out@[j]),
    ensures
        r.1 == (exists|i: int| 0 <= i < out@.len() && #[trigger] out@[i] == *d),
        !r.1 ==> {
            &&& r.0 <= out@.len()
            &&& forall|i: int| 0 <= i < r.0 ==> digest_lt(#[trigger] out@[i], *d)
            &&& forall|i: int| r.0 <= i < out@.len() ==> digest_lt(*d, #[trigger] out@[i])
        },
{
    let ghost s = out@;
    let mut pos: usize = 0;
    while pos < out.len()
        invariant
            s == out@,
            pos <= s.len(),
            forall|i: int, j: int|
                0 <= i < j < s.len() ==> digest_lt(#[trigger] s[i], #[trigger] s[j]),
            forall|i: int| 0 <= i < pos ==> digest_lt(#[trigger] s[i], *d),
        decreases s.len() - pos,
    {
        let p = out[pos];
        if crate::apply::digests_equal(&p, d) {
            return (pos, true);
        }
        let lt = crate::transaction::digest_less(&p, d);
        if !lt {
            proof {
                crate::batch::lemma_digest_order(p, *d);
                assert forall|i: int|
                    pos <= i < s.len() implies digest_lt(*d, #[trigger] s[i]) by {
                    crate::batch::lemma_digest_order(s[i], *d);
                    if i > pos {
                        assert(digest_lt(s[pos as int], s[i]));
                    }
                    crate::batch::lemma_digest_lt_trans(s[i], *d, s[pos as int]);
                }
                assert forall|i: int|
                    0 <= i < s.len() && #[trigger] s[i] == *d implies false by {
                    if i >= pos {
                        assert(digest_lt(*d, s[i]));
                        crate::batch::lemma_digest_order(s[i], *d);
                    }
                }
            }
            return (pos, false);
        }
        pos = pos + 1;
    }
    proof {
        assert forall|i: int| 0 <= i < s.len() && #[trigger] s[i] == *d implies false by {
            crate::batch::lemma_digest_order(s[i], *d);
        }
    }
    (pos, false)
}

/// Sorts key paths ascending, dropping duplicates; the result lists exactly
/// the digests of the given keys.
fn sort_paths(keys: &Vec<Vec<u8>>) -> (out: Vec<Digest>)
    ensures
        forall|i: int, j: int|
            0 <= i < j < out@.len() ==> digest_lt(#[trigger] out@[i], #[trigger] out@[j]),
        covers_keys(out@, keys@, keys@.len() as int),
        from_keys(out@, keys@),
{
    let mut out: Vec<Digest> = Vec::new();
    let mut k: usize = 0;
    while k < keys.len()
        invariant
            k <= keys@.len(),
            forall|i: int, j: int|
                0 <= i < j < out@.len() ==> digest_lt(#[trigger] out@[i], #[trigger] out@[j]),
            covers_keys(out@, keys@, k as int),
            from_keys(out@, keys@),
        decreases keys@.len() - k,
    {
        let d = crate::wrap::hash_bytes(&keys[k]);
        let ghost olds = out@;
        let (pos, dup) = path_position(&out, &d);
        if !dup {
            out.insert(pos, d);
            proof {
                let s = out@;
                assert(s == olds.insert(pos as int, d));
                assert forall|a: int, b: int| 0 <= a < b < s.len() implies digest_lt(
                    #[trigger] s[a],
                    #[trigger] s[b],
                ) by {
                    if a < pos as int && b == pos as int {
                        assert(s[a] == olds[a]);
                    } else if a == pos as int && b > pos as int {
                        assert(s[b] == olds[b - 1]);
                    } else if b < pos as int {
                        assert(s[a] == olds[a] && s[b] == olds[b]);
                    } else if a > pos as int {
                        assert(s[a] == olds[a - 1] && s[b] == olds[b - 1]);
                    } else {
                        assert(s[a] == olds[a] && s[b] == olds[b - 1]);
                        crate::batch::lemma_digest_lt_trans(olds[a], d, olds[b - 1]);
                    }
                }
                assert(s[pos as int] == d);
                assert(covers_keys(s, keys@, k as int + 1)) by {
                    assert forall|kk: int|
                        #![trigger keys@[kk]]
                        0 <= kk < k + 1 implies exists|i: int|
                        0 <= i < s.len() && s[i] == digest_of(keys@[kk]@) by {
                        if kk < k {
                            assert(covers_keys(olds, keys@, k as int));
                            let i0 = choose|i: int|
                                0 <= i < olds.len() && olds[i] == digest_of(keys@[kk]@);
                            let inew = if i0 < pos as int {
                                i0
                            } else {
                                i0 + 1
                            };
                            assert(s[inew] == olds[i0]);
                        } else {
                            assert(s[pos as int] == digest_of(keys@[kk]@));
                        }
                    }
                }
                assert(from_keys(s, keys@)) by {
                    assert forall|i: int|
                        0 <= i < s.len() implies exists|kk: int|
                        0 <= kk < keys@.len() && #[trigger] s[i] == digest_of(keys@[kk]@) by {
                        if i < pos as int {
                            assert(s[i] == olds[i]);
                        } else if i > pos as int {
                            assert(s[i] == olds[i - 1]);
                        } else {
                            assert(s[i] == digest_of(keys@[k as int]@));
                        }
                    }
                }
            }
        } else {
            proof {
                assert forall|kk: int|
                    #![trigger keys@[kk]]
                    0 <= kk < k + 1 implies exists|i: int|
                    0 <= i < out@.len() && out@[i] == digest_of(keys@[kk]@) by {}
            }
        }
        k = k + 1;
    }
    out
}

impl crate::table::Database {
    /// Cuts a proof tree for a chosen key set out of the table in slot `t`:
    /// the artifact carries the table's commitment, answers every requested
    /// key exactly as the table does, and elides everything else.
    pub fn export(&self, t: usize, keys: &Vec<Vec<u8>>) -> (r: ProofTree)
        requires
            self.wf(),
            t < self.tables@.len(),
            self.tables@[t as int].materialized(self.store),
        ensures
            digest_injective() ==> {
                &&& wf(r@, Seq::<bool>::empty())
                &&& r.wraps_ok()
                &&& tree_label(r@, Seq::<bool>::empty()) == self.tables@[t as int].root
                &&& forall|k: int|
                    #![trigger keys@[k]]
                    0 <= k < keys@.len() ==> lookup(records(r@), digest_of(keys@[k]@)) == lookup(
                        self.records_of(t as int),
                        digest_of(keys@[k]@),
                    )
            },
    {
        let paths = sort_paths(keys);
        let rp = Prefix::root();
        let ghost tree = self.tables@[t as int].tree@;
        let n = paths.len();
        let r = export_rec(&self.store, self.tables[t].root, Ghost(tree), rp, &paths, 0, n);
        proof {
            if digest_injective() {
                assert forall|k: int|
                    #![trigger keys@[k]]
                    0 <= k < keys@.len() implies lookup(
                    records(r@),
                    digest_of(keys@[k]@),
                ) == lookup(self.records_of(t as int), digest_of(keys@[k]@)) by {
                    assert(covers_keys(paths@, keys@, keys@.len() as int));
                    let i0 = choose|i: int|
                        0 <= i < paths@.len() && paths@[i] == digest_of(keys@[k]@);
                    assert(lookup(records(r@), paths@[i0]) == lookup(records(tree), paths@[i0]));
                }
            }
        }
        r
    }
}

} // verus!
