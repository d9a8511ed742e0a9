use vstd::prelude::*;
use crate::digest::Digest;
use crate::model::{
    GTree, OpSpec, apply_ops, complete, digest_injective, digest_of, lemma_apply_ops_app, lookup,
    records, wf,
};
use crate::node::{lemma_internal_digest_inj, lemma_leaf_digest_inj, tree_label};

verus! {

/// Running one batch and then another leaves the same records as running
/// their concatenation once; a later write to a key wins over an earlier
/// one, so the merge is right-biased.
pub proof fn law_batch_merge(
    recs: Map<Digest, (Seq<u8>, Seq<u8>)>,
    b1: Seq<OpSpec>,
    b2: Seq<OpSpec>,
)
    ensures
        apply_ops(apply_ops(recs, b1), b2) == apply_ops(recs, b1 + b2),
{
    lemma_apply_ops_app(recs, b1, b2);
}

/// A table compared with itself disagrees nowhere: any difference list over
/// one and the same record map is empty.
pub proof fn law_diff_self(recs: Map<Digest, (Seq<u8>, Seq<u8>)>)
    ensures
        forall|ds: Seq<crate::diff::DiffEntry>|
            crate::diff::lists_diff(ds, recs, recs) ==> ds.len() == 0,
{
    assert forall|ds: Seq<crate::diff::DiffEntry>|
        crate::diff::lists_diff(ds, recs, recs) implies ds.len() == 0 by {
        if ds.len() > 0 {
            let e0 = ds[0];
            assert(lookup(recs, digest_of(e0.key.data@)) != lookup(
                recs,
                digest_of(e0.key.data@),
            ));
            assert(false);
        }
    }
}

/// Disagreement is symmetric: whatever separates the left table from the
/// right separates the right from the left, with the sides swapped.
pub proof fn law_diff_mirror(
    ra: Map<Digest, (Seq<u8>, Seq<u8>)>,
    rb: Map<Digest, (Seq<u8>, Seq<u8>)>,
    ds: Seq<crate::diff::DiffEntry>,
    sw: Seq<crate::diff::DiffEntry>,
)
    requires
        crate::diff::lists_diff(ds, ra, rb),
        sw.len() == ds.len(),
        forall|j: int|
            0 <= j < ds.len() ==> (#[trigger] sw[j]).key.data@ == ds[j].key.data@ && sw[j].left
                == ds[j].right && sw[j].right == ds[j].left,
    ensures
        crate::diff::lists_diff(sw, rb, ra),
{
    assert forall|j: int| 0 <= j < sw.len() implies {
        &&& lookup(rb, digest_of((#[trigger] sw[j]).key.data@)) != lookup(
            ra,
            digest_of(sw[j].key.data@),
        )
        &&& crate::diff::opt_bytes(sw[j].left) == lookup(rb, digest_of(sw[j].key.data@))
        &&& crate::diff::opt_bytes(sw[j].right) == lookup(ra, digest_of(sw[j].key.data@))
    } by {
        assert(ds[j].key.data@ == sw[j].key.data@);
    }
    assert forall|i: int, j: int| 0 <= i < j < sw.len() implies digest_of(sw[i].key.data@)
        != digest_of(sw[j].key.data@) by {
        assert(digest_of(ds[i].key.data@) != digest_of(ds[j].key.data@));
    }
    assert forall|d: Digest|
        lookup(rb, d) != lookup(ra, d) implies exists|j: int|
        0 <= j < sw.len() && digest_of((#[trigger] sw[j]).key.data@) == d by {
        let j0 = choose|j: int|
            0 <= j < ds.len() && digest_of((#[trigger] ds[j]).key.data@) == d;
        assert(sw[j0].key.data@ == ds[j0].key.data@);
        assert(digest_of(sw[j0].key.data@) == d);
    }
}

/// Under the content-addressing hypothesis, one label fixes one whole tree:
/// two complete well-formed trees with the same label at the same position
/// are the same tree, so equal commitments carry equal records.
pub proof fn law_commit_sound(t1: GTree, t2: GTree, p: Seq<bool>)
    requires
        digest_injective(),
        complete(t1),
        complete(t2),
        wf(t1, p),
        wf(t2, p),
        tree_label(t1, p) == tree_label(t2, p),
    ensures
        t1 == t2,
        records(t1) == records(t2),
    decreases t1,
{
    match t1 {
        GTree::Empty => {
            match t2 {
                GTree::Empty => {},
                GTree::Leaf { .. } => {
                    assert(false);
                },
                GTree::Internal { .. } => {
                    assert(false);
                },
                GTree::Stub { .. } => {
                    assert(false);
                },
            }
        },
        GTree::Leaf { key: k1, value: v1 } => {
            match t2 {
                GTree::Leaf { key: k2, value: v2 } => {
                    lemma_leaf_digest_inj(
                        digest_of(k1),
                        digest_of(v1),
                        digest_of(k2),
                        digest_of(v2),
                    );
                    assert(k1 == k2 && v1 == v2);
                },
                GTree::Empty => {
                    assert(false);
                },
                GTree::Internal { .. } => {
                    assert(false);
                },
                GTree::Stub { .. } => {
                    assert(false);
                },
            }
        },
        GTree::Internal { left: l1, right: r1 } => {
            match t2 {
                GTree::Internal { left: l2, right: r2 } => {
                    lemma_internal_digest_inj(
                        tree_label(*l1, p.push(false)),
                        tree_label(*r1, p.push(true)),
                        tree_label(*l2, p.push(false)),
                        tree_label(*r2, p.push(true)),
                    );
                    law_commit_sound(*l1, *l2, p.push(false));
                    law_commit_sound(*r1, *r2, p.push(true));
                    assert(t1 == t2);
                },
                GTree::Empty => {
                    assert(false);
                },
                GTree::Leaf { .. } => {
                    assert(false);
                },
                GTree::Stub { .. } => {
                    assert(false);
                },
            }
        },
        GTree::Stub { .. } => {
            assert(false);
        },
    }
}

} // verus!
