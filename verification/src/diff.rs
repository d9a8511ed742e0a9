use vstd::prelude::*;
use crate::digest::Digest;
use crate::model::{GTree, complete, digest_injective, digest_of, lookup, records, wf};
use crate::node::{Label, Node, tree_at, tree_label};
use crate::store::Store;
use crate::wrap::Wrap;

verus! {

/// One collected record: a key and its value, both with their digests.
pub struct Record {
    pub key: Wrap,
    pub value: Wrap,
}

/// Whether a collected list is exactly a record map: every entry is in the
/// map under its key digest, and every map entry appears exactly once.
pub open spec fn lists_records(rs: Seq<Record>, recs: Map<Digest, (Seq<u8>, Seq<u8>)>) -> bool {
    &&& forall|j: int|
        0 <= j < rs.len() ==> {
            &&& recs.contains_key(digest_of((#[trigger] rs[j]).key.data@))
            &&& recs[digest_of(rs[j].key.data@)] == (rs[j].key.data@, rs[j].value.data@)
            &&& rs[j].key.wf()
            &&& rs[j].value.wf()
        }
    &&& forall|d: Digest|
        recs.contains_key(d) ==> exists|j: int|
            0 <= j < rs.len() && digest_of((#[trigger] rs[j]).key.data@) == d
    &&& forall|i: int, j: int|
        0 <= i < j < rs.len() ==> digest_of(rs[i].key.data@) != digest_of(rs[j].key.data@)
}

/// Walks a materialized subtree and collects its records. The walk is
/// bounded by the trie's height, so it ends whatever the store holds.
pub fn collect(
    store: &Store,
    label: Label,
    tree: Ghost<GTree>,
    depth: u16,
    Ghost(p): Ghost<Seq<bool>>,
    out: &mut Vec<Record>,
)
    requires
        store.wf(),
        store.scope.depth == 0,
        depth as int == p.len(),
        depth <= 256,
        digest_injective() ==> {
            &&& wf(tree@, p) && complete(tree@)
            &&& label == tree_label(tree@, p)
            &&& tree_at(store.nodes(), label, tree@, p)
        },
    ensures
        final(out)@.len() >= old(out)@.len(),
        forall|j: int| 0 <= j < old(out)@.len() ==> final(out)@[j] == old(out)@[j],
        digest_injective() ==> {
            &&& forall|j: int|
                old(out)@.len() <= j < final(out)@.len() ==> {
                    &&& records(tree@).contains_key(
                        digest_of((#[trigger] final(out)@[j]).key.data@),
                    )
                    &&& records(tree@)[digest_of(final(out)@[j].key.data@)] == (
                    final(out)@[j].key.data@, final(out)@[j].value.data@)
                    &&& final(out)@[j].key.wf()
                    &&& final(out)@[j].value.wf()
                }
            &&& forall|d: Digest|
                records(tree@).contains_key(d) ==> exists|j: int|
                    old(out)@.len() <= j < final(out)@.len() && digest_of(
                        (#[trigger] final(out)@[j]).key.data@,
                    ) == d
            &&& forall|i: int, j: int|
                old(out)@.len() <= i < j < final(out)@.len() ==> digest_of(
                    final(out)@[i].key.data@,
                ) != digest_of(final(out)@[j].key.data@)
        },
    decreases 256 - depth,
{
    match &label {
        Label::Empty => {
            proof {
                if digest_injective() {
                    crate::node::lemma_tree_label_kind(tree@, p);
                    assert(tree@ is Empty);
                }
            }
        },
        _ => {
            proof {
                store.lemma_full_covers(label);
            }
            match store.fetch(&label) {
                None => {
                    proof {
                        if digest_injective() {
                            assert(false);
                        }
                    }
                },
                Some(node) => {
                    match node {
                        Node::Empty => {
                            proof {
                                if digest_injective() {
                                    store.lemma_entry_ok(label);
                                    assert(false);
                                }
                            }
                        },
                        Node::Leaf(k, v) => {
                            proof {
                                if digest_injective() {
                                    match tree@ {
                                        GTree::Leaf { key, value } => {
                                            assert(k.data@ == key && v.data@ == value);
                                            assert(k.digest == digest_of(key) && v.digest
                                                == digest_of(value));
                                        },
                                        _ => {
                                            assert(false);
                                        },
                                    }
                                }
                            }
                            let ghost mark = out@.len();
                            out.push(Record { key: k, value: v });
                            proof {
                                if digest_injective() {
                                    match tree@ {
                                        GTree::Leaf { key, value } => {
                                            assert(records(tree@).contains_key(digest_of(key)));
                                            assert forall|d: Digest|
                                                records(tree@).contains_key(d) implies exists|
                                                j: int,
                                            |
                                                old(out)@.len() <= j < out@.len() && digest_of(
                                                    (#[trigger] out@[j]).key.data@,
                                                ) == d by {
                                                assert(d == digest_of(key));
                                                assert(out@[mark as int].key.data@ == key);
                                                assert(digest_of(out@[mark as int].key.data@) == d);
                                            }
                                        },
                                        _ => {},
                                    }
                                }
                            }
                        },
                        Node::Internal(a, b) => {
                            if depth >= 256 {
                                proof {
                                    if digest_injective() {
                                        assert(false);
                                    }
                                }
                            } else {
                                let ghost tl = crate::apply::left_of(tree@);
                                let ghost tr = crate::apply::right_of(tree@);
                                proof {
                                    if digest_injective() {
                                        match tree@ {
                                            GTree::Internal { left, right } => {},
                                            _ => {
                                                assert(false);
                                            },
                                        }
                                    }
                                }
                                let ghost mark0 = out@.len();
                                collect(store, a, Ghost(tl), depth + 1, Ghost(p.push(false)), out);
                                let ghost mark1 = out@.len();
                                collect(store, b, Ghost(tr), depth + 1, Ghost(p.push(true)), out);
                                proof {
                                    if digest_injective() {
                                        lemma_collect_union(
                                            tree@,
                                            tl,
                                            tr,
                                            p,
                                            old(out)@,
                                            out@,
                                            mark0 as int,
                                            mark1 as int,
                                        );
                                    }
                                }
                            }
                        },
                    }
                },
            }
        },
    }
}

/// Joining the two halves of a walk lists the union of the subtrees'
/// records, with no key listed twice.
proof fn lemma_collect_union(
    t: GTree,
    tl: GTree,
    tr: GTree,
    p: Seq<bool>,
    olds: Seq<Record>,
    news: Seq<Record>,
    mark0: int,
    mark1: int,
)
    requires
        digest_injective(),
        p.len() < 256,
        t is Internal,
        tl == crate::apply::left_of(t),
        tr == crate::apply::right_of(t),
        wf(t, p),
        olds.len() == mark0,
        mark0 <= mark1 <= news.len(),
        forall|j: int|
            mark0 <= j < mark1 ==> {
                &&& records(tl).contains_key(digest_of((#[trigger] news[j]).key.data@))
                &&& records(tl)[digest_of(news[j].key.data@)] == (news[j].key.data@, news[j].value.data@)
                &&& news[j].key.wf()
                &&& news[j].value.wf()
            },
        forall|d: Digest|
            records(tl).contains_key(d) ==> exists|j: int|
                mark0 <= j < mark1 && digest_of((#[trigger] news[j]).key.data@) == d,
        forall|i: int, j: int|
            mark0 <= i < j < mark1 ==> digest_of(news[i].key.data@) != digest_of(
                news[j].key.data@,
            ),
        forall|j: int|
            mark1 <= j < news.len() ==> {
                &&& records(tr).contains_key(digest_of((#[trigger] news[j]).key.data@))
                &&& records(tr)[digest_of(news[j].key.data@)] == (news[j].key.data@, news[j].value.data@)
                &&& news[j].key.wf()
                &&& news[j].value.wf()
            },
        forall|d: Digest|
            records(tr).contains_key(d) ==> exists|j: int|
                mark1 <= j < news.len() && digest_of((#[trigger] news[j]).key.data@) == d,
        forall|i: int, j: int|
            mark1 <= i < j < news.len() ==> digest_of(news[i].key.data@) != digest_of(
                news[j].key.data@,
            ),
    ensures
        forall|j: int|
            mark0 <= j < news.len() ==> {
                &&& records(t).contains_key(digest_of((#[trigger] news[j]).key.data@))
                &&& records(t)[digest_of(news[j].key.data@)] == (news[j].key.data@, news[j].value.data@)
                &&& news[j].key.wf()
                &&& news[j].value.wf()
            },
        forall|d: Digest|
            records(t).contains_key(d) ==> exists|j: int|
                mark0 <= j < news.len() && digest_of((#[trigger] news[j]).key.data@) == d,
        forall|i: int, j: int|
            mark0 <= i < j < news.len() ==> digest_of(news[i].key.data@) != digest_of(
                news[j].key.data@,
            ),
{
    crate::model::lemma_records_split(t, p);
    let d = p.len() as int;
    assert(records(t) == records(tl).union_prefer_right(records(tr)));
    assert forall|j: int| mark0 <= j < news.len() implies {
        &&& records(t).contains_key(digest_of((#[trigger] news[j]).key.data@))
        &&& records(t)[digest_of(news[j].key.data@)] == (news[j].key.data@, news[j].value.data@)
        &&& news[j].key.wf()
        &&& news[j].value.wf()
    } by {
        let kd = digest_of(news[j].key.data@);
        if j < mark1 {
            assert(records(tl).contains_key(kd));
            assert(!digest_bit_of(kd, d));
            assert(!records(tr).contains_key(kd));
        } else {
            assert(records(tr).contains_key(kd));
        }
    }
    assert forall|i: int, j: int|
        mark0 <= i < j < news.len() implies digest_of(news[i].key.data@) != digest_of(
        news[j].key.data@,
    ) by {
        if i < mark1 && j >= mark1 {
            let di = digest_of(news[i].key.data@);
            let dj = digest_of(news[j].key.data@);
            assert(records(tl).contains_key(di));
            assert(records(tr).contains_key(dj));
            assert(!digest_bit_of(di, d) && digest_bit_of(dj, d));
        }
    }
    assert forall|d2: Digest| records(t).contains_key(d2) implies exists|j: int|
        mark0 <= j < news.len() && digest_of((#[trigger] news[j]).key.data@) == d2 by {
        if records(tr).contains_key(d2) {
            let j = choose|j: int|
                mark1 <= j < news.len() && digest_of((#[trigger] news[j]).key.data@) == d2;
            assert(mark0 <= j < news.len() && digest_of(news[j].key.data@) == d2);
        } else {
            assert(records(tl).contains_key(d2));
            let j = choose|j: int|
                mark0 <= j < mark1 && digest_of((#[trigger] news[j]).key.data@) == d2;
            assert(mark0 <= j < news.len() && digest_of(news[j].key.data@) == d2);
        }
    }
}

/// A readable alias inside this file's proofs.
pub open spec fn digest_bit_of(d: Digest, i: int) -> bool {
    crate::digest::digest_bit(d, i)
}

/// One difference between two tables: the key, what the left table holds
/// there, and what the right table holds there.
pub struct DiffEntry {
    pub key: Wrap,
    pub left: Option<Wrap>,
    pub right: Option<Wrap>,
}

/// The bytes an optional wrap carries.
pub open spec fn opt_bytes(x: Option<Wrap>) -> Option<Seq<u8>> {
    match x {
        Some(w) => Some(w.data@),
        None => None,
    }
}

/// What the difference list claims: one entry for every key on which the two
/// record maps disagree, carrying exactly what each side holds there, with
/// no key listed twice.
pub open spec fn lists_diff(
    ds: Seq<DiffEntry>,
    ra: Map<Digest, (Seq<u8>, Seq<u8>)>,
    rb: Map<Digest, (Seq<u8>, Seq<u8>)>,
) -> bool {
    &&& forall|j: int|
        0 <= j < ds.len() ==> {
            &&& lookup(ra, digest_of((#[trigger] ds[j]).key.data@)) != lookup(
                rb,
                digest_of(ds[j].key.data@),
            )
            &&& opt_bytes(ds[j].left) == lookup(ra, digest_of(ds[j].key.data@))
            &&& opt_bytes(ds[j].right) == lookup(rb, digest_of(ds[j].key.data@))
        }
    &&& forall|d: Digest|
        lookup(ra, d) != lookup(rb, d) ==> exists|j: int|
            0 <= j < ds.len() && digest_of((#[trigger] ds[j]).key.data@) == d
    &&& forall|i: int, j: int|
        0 <= i < j < ds.len() ==> digest_of(ds[i].key.data@) != digest_of(ds[j].key.data@)
}

/// Looks a key digest up in a collected record list.
fn find_record(rs: &Vec<Record>, d: &Digest) -> (r: Option<usize>)
    ensures
        match r {
            Some(i) => i < rs@.len() && rs@[i as int].key.digest == *d,
            None => forall|i: int| 0 <= i < rs@.len() ==> (#[trigger] rs@[i]).key.digest != *d,
        },
{
    let mut i: usize = 0;
    while i < rs.len()
        invariant
            i <= rs@.len(),
            forall|j: int| 0 <= j < i ==> (#[trigger] rs@[j]).key.digest != *d,
        decreases rs@.len() - i,
    {
        if crate::apply::digests_equal(&rs[i].key.digest, d) {
            return Some(i);
        }
        i = i + 1;
    }
    None
}

/// The left-to-right half of the disagreement: every key the left records
/// hold whose value differs on the right.
#[verifier::rlimit(100)]
/// The left-to-right half of the disagreement: every key the left records
/// hold whose value differs on the right.
#[verifier::rlimit(100)]
fn diff_left(
    a: &Vec<Record>,
    b: &Vec<Record>,
    Ghost(ra): Ghost<Map<Digest, (Seq<u8>, Seq<u8>)>>,
    Ghost(rb): Ghost<Map<Digest, (Seq<u8>, Seq<u8>)>>,
) -> (out: Vec<DiffEntry>)
    requires
        digest_injective() ==> lists_records(a@, ra) && lists_records(b@, rb),
    ensures
        digest_injective() ==> {
            &&& forall|x: int|
                0 <= x < out@.len() ==> {
                    &&& lookup(ra, digest_of((#[trigger] out@[x]).key.data@)) != lookup(
                        rb,
                        digest_of(out@[x].key.data@),
                    )
                    &&& opt_bytes(out@[x].left) == lookup(ra, digest_of(out@[x].key.data@))
                    &&& opt_bytes(out@[x].right) == lookup(rb, digest_of(out@[x].key.data@))
                }
            &&& forall|x: int|
                0 <= x < out@.len() ==> ra.contains_key(digest_of((#[trigger] out@[x]).key.data@))
            &&& forall|x: int, y: int|
                0 <= x < y < out@.len() ==> digest_of(out@[x].key.data@) != digest_of(
                    out@[y].key.data@,
                )
            &&& forall|d: Digest|
                ra.contains_key(d) && lookup(ra, d) != lookup(rb, d) ==> exists|x: int|
                    0 <= x < out@.len() && digest_of((#[trigger] out@[x]).key.data@) == d
        },
{
    let mut out: Vec<DiffEntry> = Vec::new();
    let mut i: usize = 0;
    while i < a.len()
        invariant
            i <= a@.len(),
            digest_injective() ==> {
                &&& lists_records(a@, ra) && lists_records(b@, rb)
                &&& forall|j: int|
                    0 <= j < out@.len() ==> {
                        &&& lookup(ra, digest_of((#[trigger] out@[j]).key.data@)) != lookup(
                            rb,
                            digest_of(out@[j].key.data@),
                        )
                        &&& opt_bytes(out@[j].left) == lookup(ra, digest_of(out@[j].key.data@))
                        &&& opt_bytes(out@[j].right) == lookup(rb, digest_of(out@[j].key.data@))
                    }
                &&& forall|k: int|
                    0 <= k < i && lookup(ra, digest_of((#[trigger] a@[k]).key.data@)) != lookup(
                        rb,
                        digest_of(a@[k].key.data@),
                    ) ==> exists|j: int|
                        0 <= j < out@.len() && digest_of((#[trigger] out@[j]).key.data@)
                            == digest_of(a@[k].key.data@)
                &&& forall|j: int|
                    0 <= j < out@.len() ==> exists|k: int|
                        0 <= k < i && digest_of((#[trigger] out@[j]).key.data@) == digest_of(
                            a@[k].key.data@,
                        )
                &&& forall|x: int, y: int|
                    0 <= x < y < out@.len() ==> digest_of(out@[x].key.data@) != digest_of(
                        out@[y].key.data@,
                    )
            },
        decreases a@.len() - i,
    {
        let ghost olen = out@.len();
        let ghost outs = out@;
        let ghost kd = digest_of(a@[i as int].key.data@);
        let d = a[i].key.digest;
        match find_record(b, &d) {
            Some(jb) => {
                if !crate::apply::digests_equal(&a[i].value.digest, &b[jb].value.digest) {
                    let entry = DiffEntry {
                        key: a[i].key.duplicate(),
                        left: Some(a[i].value.duplicate()),
                        right: Some(b[jb].value.duplicate()),
                    };
                    out.push(entry);
                    proof {
                        if digest_injective() {
                            assert(d == kd);
                            assert(b@[jb as int].key.digest == digest_of(b@[jb as int].key.data@));
                            assert(digest_of(b@[jb as int].key.data@) == kd);
                            assert(rb.contains_key(kd));
                            assert(rb[kd] == (b@[jb as int].key.data@, b@[jb as int].value.data@));
                            assert(ra[kd] == (a@[i as int].key.data@, a@[i as int].value.data@));
                            assert(a@[i as int].value.data@ != b@[jb as int].value.data@);
                            assert(lookup(ra, kd) != lookup(rb, kd));
                            assert(opt_bytes(out@[olen as int].left) == lookup(ra, kd));
                            assert(opt_bytes(out@[olen as int].right) == lookup(rb, kd));
                        }
                    }
                } else {
                    proof {
                        if digest_injective() {
                            assert(d == kd);
                            assert(digest_of(b@[jb as int].key.data@) == kd);
                            assert(rb.contains_key(kd));
                            assert(a@[i as int].value.data@ == b@[jb as int].value.data@);
                            assert(lookup(ra, kd) == lookup(rb, kd));
                        }
                    }
                }
            },
            None => {
                let entry = DiffEntry {
                    key: a[i].key.duplicate(),
                    left: Some(a[i].value.duplicate()),
                    right: None,
                };
                out.push(entry);
                proof {
                    if digest_injective() {
                        assert(d == kd);
                        if rb.contains_key(kd) {
                            let bj = choose|bj: int|
                                0 <= bj < b@.len() && digest_of((#[trigger] b@[bj]).key.data@)
                                    == kd;
                            assert(b@[bj].key.digest == kd);
                            assert(false);
                        }
                        assert(lookup(rb, kd) is None);
                        assert(lookup(ra, kd) == Some(a@[i as int].value.data@));
                        assert(opt_bytes(out@[olen as int].left) == lookup(ra, kd));
                        assert(opt_bytes(out@[olen as int].right) == lookup(rb, kd));
                    }
                }
            },
        }
        proof {
            if digest_injective() {
                if out@.len() > olen {
                    assert(out@.len() == olen + 1);
                    assert(digest_of(out@[olen as int].key.data@) == kd);
                    assert forall|x: int|
                        0 <= x < olen implies digest_of(out@[x].key.data@) != kd by {
                        let k = choose|k: int|
                            0 <= k < i && digest_of((#[trigger] out@[x]).key.data@) == digest_of(
                                a@[k].key.data@,
                            );
                        assert(digest_of(a@[k].key.data@) != digest_of(a@[i as int].key.data@));
                    }
                    assert forall|j: int| 0 <= j < out@.len() implies exists|k: int|
                        0 <= k < i + 1 && digest_of((#[trigger] out@[j]).key.data@) == digest_of(
                            a@[k].key.data@,
                        ) by {
                        if j == olen {
                            assert(digest_of(out@[j].key.data@) == digest_of(
                                a@[i as int].key.data@,
                            ));
                        } else {
                            let k = choose|k: int|
                                0 <= k < i && digest_of((#[trigger] out@[j]).key.data@)
                                    == digest_of(a@[k].key.data@);
                        }
                    }
                } else {
                    assert forall|j: int| 0 <= j < out@.len() implies exists|k: int|
                        0 <= k < i + 1 && digest_of((#[trigger] out@[j]).key.data@) == digest_of(
                            a@[k].key.data@,
                        ) by {
                        let k = choose|k: int|
                            0 <= k < i && digest_of((#[trigger] out@[j]).key.data@) == digest_of(
                                a@[k].key.data@,
                            );
                    }
                }
                assert forall|k: int|
                    0 <= k < i + 1 && lookup(ra, digest_of((#[trigger] a@[k]).key.data@))
                        != lookup(rb, digest_of(a@[k].key.data@)) implies exists|j: int|
                    0 <= j < out@.len() && digest_of((#[trigger] out@[j]).key.data@) == digest_of(
                        a@[k].key.data@,
                    ) by {
                    if k == i as int {
                        assert(digest_of(a@[k].key.data@) == kd);
                        if out@.len() == olen {
                            assert(lookup(ra, kd) == lookup(rb, kd));
                            assert(false);
                        }
                        assert(out@.len() > olen);
                        assert(digest_of(out@[olen as int].key.data@) == kd);
                    } else {
                        let j0 = choose|j: int|
                            0 <= j < outs.len() && digest_of((#[trigger] outs[j]).key.data@)
                                == digest_of(a@[k].key.data@);
                        assert(out@[j0] == outs[j0]);
                        assert(digest_of(out@[j0].key.data@) == digest_of(a@[k].key.data@));
                    }
                }
            }
        }
        i = i + 1;
    }
    proof {
        if digest_injective() {
            assert forall|x: int|
                0 <= x < out@.len() implies ra.contains_key(
                digest_of((#[trigger] out@[x]).key.data@),
            ) by {
                let k = choose|k: int|
                    0 <= k < a@.len() && digest_of((#[trigger] out@[x]).key.data@) == digest_of(
                        a@[k].key.data@,
                    );
            }
            assert forall|d: Digest|
                ra.contains_key(d) && lookup(ra, d) != lookup(rb, d) implies exists|x: int|
                0 <= x < out@.len() && digest_of((#[trigger] out@[x]).key.data@) == d by {
                let k = choose|k: int|
                    0 <= k < a@.len() && digest_of((#[trigger] a@[k]).key.data@) == d;
                assert(lookup(ra, digest_of(a@[k].key.data@)) != lookup(
                    rb,
                    digest_of(a@[k].key.data@),
                ));
            }
        }
    }
    out
}

/// The right-only half: every key the right records hold that the left does
/// not, appended to the left-to-right half.
#[verifier::rlimit(100)]
fn diff_right(
    a: &Vec<Record>,
    b: &Vec<Record>,
    out0: Vec<DiffEntry>,
    Ghost(ra): Ghost<Map<Digest, (Seq<u8>, Seq<u8>)>>,
    Ghost(rb): Ghost<Map<Digest, (Seq<u8>, Seq<u8>)>>,
) -> (out: Vec<DiffEntry>)
    requires
        digest_injective() ==> {
            &&& lists_records(a@, ra) && lists_records(b@, rb)
            &&& forall|x: int|
                0 <= x < out0@.len() ==> {
                    &&& lookup(ra, digest_of((#[trigger] out0@[x]).key.data@)) != lookup(
                        rb,
                        digest_of(out0@[x].key.data@),
                    )
                    &&& opt_bytes(out0@[x].left) == lookup(ra, digest_of(out0@[x].key.data@))
                    &&& opt_bytes(out0@[x].right) == lookup(rb, digest_of(out0@[x].key.data@))
                }
            &&& forall|x: int|
                0 <= x < out0@.len() ==> ra.contains_key(
                    digest_of((#[trigger] out0@[x]).key.data@),
                )
            &&& forall|x: int, y: int|
                0 <= x < y < out0@.len() ==> digest_of(out0@[x].key.data@) != digest_of(
                    out0@[y].key.data@,
                )
            &&& forall|d: Digest|
                ra.contains_key(d) && lookup(ra, d) != lookup(rb, d) ==> exists|x: int|
                    0 <= x < out0@.len() && digest_of((#[trigger] out0@[x]).key.data@) == d
        },
    ensures
        digest_injective() ==> lists_diff(out@, ra, rb),
{
    let ghost outa = out0@;
    let mut out = out0;
    let mut j: usize = 0;
    while j < b.len()
        invariant
            j <= b@.len(),
            out@.len() >= outa.len(),
            forall|x: int| 0 <= x < outa.len() ==> out@[x] == outa[x],
            digest_injective() ==> {
                &&& lists_records(a@, ra) && lists_records(b@, rb)
                &&& forall|x: int|
                    0 <= x < out@.len() ==> {
                        &&& lookup(ra, digest_of((#[trigger] out@[x]).key.data@)) != lookup(
                            rb,
                            digest_of(out@[x].key.data@),
                        )
                        &&& opt_bytes(out@[x].left) == lookup(ra, digest_of(out@[x].key.data@))
                        &&& opt_bytes(out@[x].right) == lookup(rb, digest_of(out@[x].key.data@))
                    }
                &&& forall|x: int|
                    0 <= x < outa.len() ==> ra.contains_key(
                        digest_of((#[trigger] outa[x]).key.data@),
                    )
                &&& forall|x: int|
                    outa.len() <= x < out@.len() ==> !ra.contains_key(
                        digest_of((#[trigger] out@[x]).key.data@),
                    )
                &&& forall|x: int, y: int|
                    0 <= x < y < out@.len() ==> digest_of(out@[x].key.data@) != digest_of(
                        out@[y].key.data@,
                    )
                &&& forall|x: int|
                    outa.len() <= x < out@.len() ==> exists|k: int|
                        0 <= k < j && digest_of((#[trigger] out@[x]).key.data@) == digest_of(
                            b@[k].key.data@,
                        )
                &&& forall|k: int|
                    0 <= k < j && !ra.contains_key(digest_of((#[trigger] b@[k]).key.data@))
                        && lookup(ra, digest_of(b@[k].key.data@)) != lookup(
                        rb,
                        digest_of(b@[k].key.data@),
                    ) ==> exists|x: int|
                        0 <= x < out@.len() && digest_of((#[trigger] out@[x]).key.data@)
                            == digest_of(b@[k].key.data@)
                &&& forall|d: Digest|
                    ra.contains_key(d) && lookup(ra, d) != lookup(rb, d) ==> exists|x: int|
                        0 <= x < outa.len() && digest_of((#[trigger] outa[x]).key.data@) == d
            },
        decreases b@.len() - j,
    {
        let ghost olen = out@.len();
        let ghost outs2 = out@;
        let ghost kd = digest_of(b@[j as int].key.data@);
        let d = b[j].key.digest;
        match find_record(a, &d) {
            Some(ia) => {
                proof {
                    if digest_injective() {
                        assert(a@[ia as int].key.digest == kd);
                        assert(digest_of(a@[ia as int].key.data@) == kd);
                        assert(ra.contains_key(kd));
                    }
                }
            },
            None => {
                let entry = DiffEntry {
                    key: b[j].key.duplicate(),
                    left: None,
                    right: Some(b[j].value.duplicate()),
                };
                out.push(entry);
                proof {
                    if digest_injective() {
                        assert(d == kd);
                        if ra.contains_key(kd) {
                            let x = choose|x: int|
                                0 <= x < a@.len() && digest_of((#[trigger] a@[x]).key.data@) == kd;
                            assert(a@[x].key.digest == kd);
                            assert(false);
                        }
                        assert(lookup(ra, kd) is None);
                        assert(rb.contains_key(kd));
                        assert(lookup(rb, kd) == Some(b@[j as int].value.data@));
                        assert(opt_bytes(out@[olen as int].left) == lookup(ra, kd));
                        assert(opt_bytes(out@[olen as int].right) == lookup(rb, kd));
                        assert forall|x: int|
                            outa.len() <= x < olen implies digest_of(out@[x].key.data@) != kd by {
                            let k = choose|k: int|
                                0 <= k < j && digest_of((#[trigger] out@[x]).key.data@)
                                    == digest_of(b@[k].key.data@);
                            assert(digest_of(b@[k].key.data@) != digest_of(
                                b@[j as int].key.data@,
                            ));
                        }
                        assert forall|x: int|
                            0 <= x < outa.len() implies digest_of(out@[x].key.data@) != kd by {
                            assert(ra.contains_key(digest_of(outa[x].key.data@)));
                            assert(out@[x] == outa[x]);
                        }
                    }
                }
            },
        }
        proof {
            if digest_injective() {
                assert forall|x: int|
                    outa.len() <= x < out@.len() implies exists|k: int|
                    0 <= k < j + 1 && digest_of((#[trigger] out@[x]).key.data@) == digest_of(
                        b@[k].key.data@,
                    ) by {
                    if x < olen {
                        let k = choose|k: int|
                            0 <= k < j && digest_of((#[trigger] outs2[x]).key.data@) == digest_of(
                                b@[k].key.data@,
                            );
                        assert(out@[x] == outs2[x]);
                    } else {
                        assert(digest_of(out@[x].key.data@) == digest_of(b@[j as int].key.data@));
                    }
                }
                assert forall|k: int|
                    0 <= k < j + 1 && !ra.contains_key(digest_of((#[trigger] b@[k]).key.data@))
                        && lookup(ra, digest_of(b@[k].key.data@)) != lookup(
                        rb,
                        digest_of(b@[k].key.data@),
                    ) implies exists|x: int|
                    0 <= x < out@.len() && digest_of((#[trigger] out@[x]).key.data@) == digest_of(
                        b@[k].key.data@,
                    ) by {
                    if k == j as int {
                        assert(digest_of(b@[k].key.data@) == kd);
                        if out@.len() == olen {
                            assert(ra.contains_key(kd));
                            assert(false);
                        }
                        assert(digest_of(out@[olen as int].key.data@) == kd);
                    } else {
                        let x0 = choose|x: int|
                            0 <= x < outs2.len() && digest_of((#[trigger] outs2[x]).key.data@)
                                == digest_of(b@[k].key.data@);
                        assert(out@[x0] == outs2[x0]);
                        assert(digest_of(out@[x0].key.data@) == digest_of(b@[k].key.data@));
                    }
                }
            }
        }
        j = j + 1;
    }
    proof {
        if digest_injective() {
            assert forall|d: Digest|
                lookup(ra, d) != lookup(rb, d) implies exists|x: int|
                0 <= x < out@.len() && digest_of((#[trigger] out@[x]).key.data@) == d by {
                if ra.contains_key(d) {
                    let x = choose|x: int|
                        0 <= x < outa.len() && digest_of((#[trigger] outa[x]).key.data@) == d;
                    assert(out@[x] == outa[x]);
                    assert(digest_of(out@[x].key.data@) == d);
                } else {
                    assert(lookup(ra, d) is None);
                    assert(rb.contains_key(d));
                    let bk = choose|bk: int|
                        0 <= bk < b@.len() && digest_of((#[trigger] b@[bk]).key.data@) == d;
                    assert(lookup(ra, digest_of(b@[bk].key.data@)) != lookup(
                        rb,
                        digest_of(b@[bk].key.data@),
                    ));
                }
            }
        }
    }
    out
}

/// Builds the disagreement between two collected record lists: one entry for
/// every key on which they disagree, carrying exactly what each side holds.
pub fn diff_lists(
    a: &Vec<Record>,
    b: &Vec<Record>,
    Ghost(ra): Ghost<Map<Digest, (Seq<u8>, Seq<u8>)>>,
    Ghost(rb): Ghost<Map<Digest, (Seq<u8>, Seq<u8>)>>,
) -> (r: Vec<DiffEntry>)
    requires
        digest_injective() ==> lists_records(a@, ra) && lists_records(b@, rb),
    ensures
        digest_injective() ==> lists_diff(r@, ra, rb),
{
    let left = diff_left(a, b, Ghost(ra), Ghost(rb));
    diff_right(a, b, left, Ghost(ra), Ghost(rb))
}

} // verus!
