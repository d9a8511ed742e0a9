use vstd::prelude::*;
use crate::batch::{Action, Operation, op_wf, ops_view, ops_wf, sorted_ops};
use crate::digest::{Digest, digest_bit, digest_lt};
use crate::model::{
    GTree, OpSpec, apply_one, apply_ops, complete, digest_injective, digest_of, lemma_apply_ops_app,
    lemma_records_under, lookup, path_under, records, wf,
};
use crate::node::{
    Label, MapId, Node, NodeV, entry_ok, internal_label, leaf_label, lemma_internal_digest_inj,
    lemma_leaf_digest_inj, lemma_tree_label_kind, node_view, tree_at, tree_label,
    lemma_tree_at_monotone,
};
use crate::prefix::{Prefix, lemma_digest_bit_order, lemma_digest_eq_from_bits};
use crate::store::Store;
use crate::wrap::{Wrap, leaf_hash};

verus! {

/// The new node map keeps every old entry: batches only add nodes; releases
/// happen afterwards.
pub open spec fn nodes_extend(m1: Map<Label, NodeV>, m2: Map<Label, NodeV>) -> bool {
    forall|l: Label| #[trigger] m1.contains_key(l) ==> m2.contains_key(l) && m2[l] == m1[l]
}

/// What execution may do to one operation: fill a read's answer, leave
/// everything else alone.
pub open spec fn op_frame(o: Operation, n: Operation) -> bool {
    match o.action {
        Action::Get(_) => {
            &&& n.path == o.path
            &&& n.key.data@ == o.key.data@
            &&& n.key.digest == o.key.digest
            &&& n.action is Get
        },
        _ => n == o,
    }
}

/// What execution may do to a batch: fill reads inside the window, nothing
/// outside it.
pub open spec fn batch_frame(olds: Seq<Operation>, news: Seq<Operation>, lo: int, hi: int) -> bool {
    &&& news.len() == olds.len()
    &&& forall|i: int| 0 <= i < olds.len() ==> op_frame(olds[i], #[trigger] news[i])
    &&& forall|i: int| 0 <= i < olds.len() && !(lo <= i < hi) ==> #[trigger] news[i] == olds[i]
}

/// The bytes a filled read carries.
pub open spec fn opt_data(x: Option<Wrap>) -> Option<Seq<u8>> {
    match x {
        Some(w) => Some(w.data@),
        None => None,
    }
}

/// A read inside the window carries what the records held before the batch.
pub open spec fn get_filled(
    o: Operation,
    n: Operation,
    recs: Map<Digest, (Seq<u8>, Seq<u8>)>,
) -> bool {
    match o.action {
        Action::Get(_) => n.action matches Action::Get(x) && opt_data(x) == lookup(recs, o.path),
        _ => true,
    }
}

/// A frame keeps order, well-formedness, and the batch's specification view.
pub proof fn lemma_frame_props(olds: Seq<Operation>, news: Seq<Operation>, lo: int, hi: int)
    requires
        batch_frame(olds, news, lo, hi),
        sorted_ops(olds),
        ops_wf(olds),
    ensures
        sorted_ops(news),
        ops_wf(news),
        ops_view(news) == ops_view(olds),
        forall|i: int| 0 <= i < news.len() ==> (#[trigger] news[i]).path == olds[i].path,
{
    assert forall|i: int| 0 <= i < news.len() implies (#[trigger] news[i]).path == olds[i].path by {
        assert(op_frame(olds[i], news[i]));
    }
    assert forall|i: int, j: int| 0 <= i < j < news.len() implies digest_lt(
        news[i].path,
        news[j].path,
    ) by {
        assert(op_frame(olds[i], news[i]));
        assert(op_frame(olds[j], news[j]));
    }
    assert forall|i: int| 0 <= i < news.len() implies op_wf(#[trigger] news[i]) by {
        assert(op_frame(olds[i], news[i]));
        assert(op_wf(olds[i]));
    }
    assert forall|i: int| 0 <= i < news.len() implies ops_view(news)[i] == ops_view(olds)[i] by {
        assert(op_frame(olds[i], news[i]));
    }
    assert(ops_view(news) =~= ops_view(olds));
}

/// Frames compose across adjacent windows.
pub proof fn lemma_frame_compose(
    a: Seq<Operation>,
    b: Seq<Operation>,
    c: Seq<Operation>,
    lo: int,
    mid: int,
    hi: int,
)
    requires
        lo <= mid <= hi,
        batch_frame(a, b, lo, mid),
        batch_frame(b, c, mid, hi),
    ensures
        batch_frame(a, c, lo, hi),
{
    assert forall|i: int| 0 <= i < a.len() implies op_frame(a[i], #[trigger] c[i]) by {
        assert(op_frame(a[i], b[i]));
        assert(op_frame(b[i], c[i]));
    }
    assert forall|i: int| 0 <= i < a.len() && !(lo <= i < hi) implies #[trigger] c[i] == a[i] by {
        assert(b[i] == a[i]);
        assert(c[i] == b[i]);
    }
}

/// Running a batch on a union leaves an untouched right side alone.
pub proof fn lemma_apply_preserve_right(
    a: Map<Digest, (Seq<u8>, Seq<u8>)>,
    b: Map<Digest, (Seq<u8>, Seq<u8>)>,
    ops: Seq<OpSpec>,
)
    requires
        forall|i: int| 0 <= i < ops.len() ==> !b.contains_key((#[trigger] ops[i]).path()),
    ensures
        apply_ops(a.union_prefer_right(b), ops) == apply_ops(a, ops).union_prefer_right(b),
    decreases ops.len(),
{
    if ops.len() > 0 {
        let u = a.union_prefer_right(b);
        assert(!b.contains_key(ops[0].path()));
        match ops[0] {
            OpSpec::Get { .. } => {},
            OpSpec::Put { path, key, value } => {
                assert(apply_one(u, ops[0]) =~= apply_one(a, ops[0]).union_prefer_right(b));
            },
            OpSpec::Remove { path, .. } => {
                assert(apply_one(u, ops[0]) =~= apply_one(a, ops[0]).union_prefer_right(b));
            },
        }
        assert forall|i: int|
            0 <= i < ops.drop_first().len() implies !b.contains_key(
            (#[trigger] ops.drop_first()[i]).path(),
        ) by {
            assert(ops.drop_first()[i] == ops[i + 1]);
        }
        lemma_apply_preserve_right(apply_one(a, ops[0]), b, ops.drop_first());
    }
}

/// Running a batch on a union whose left side it never touches runs it on
/// the right side.
pub proof fn lemma_apply_preserve_left(
    a: Map<Digest, (Seq<u8>, Seq<u8>)>,
    b: Map<Digest, (Seq<u8>, Seq<u8>)>,
    ops: Seq<OpSpec>,
)
    requires
        forall|i: int| 0 <= i < ops.len() ==> !a.contains_key((#[trigger] ops[i]).path()),
    ensures
        apply_ops(a.union_prefer_right(b), ops) == a.union_prefer_right(apply_ops(b, ops)),
    decreases ops.len(),
{
    if ops.len() > 0 {
        let u = a.union_prefer_right(b);
        assert(!a.contains_key(ops[0].path()));
        match ops[0] {
            OpSpec::Get { .. } => {},
            OpSpec::Put { path, key, value } => {
                assert(apply_one(u, ops[0]) =~= a.union_prefer_right(apply_one(b, ops[0])));
            },
            OpSpec::Remove { path, .. } => {
                assert(apply_one(u, ops[0]) =~= a.union_prefer_right(apply_one(b, ops[0])));
            },
        }
        assert forall|i: int|
            0 <= i < ops.drop_first().len() implies !a.contains_key(
            (#[trigger] ops.drop_first()[i]).path(),
        ) by {
            assert(ops.drop_first()[i] == ops[i + 1]);
        }
        lemma_apply_preserve_left(a, apply_one(b, ops[0]), ops.drop_first());
    }
}

/// Running a batch whose paths all carry one bit value keeps every key of
/// the result carrying it.
pub proof fn lemma_apply_dom_bit(
    recs: Map<Digest, (Seq<u8>, Seq<u8>)>,
    ops: Seq<OpSpec>,
    d: int,
    v: bool,
)
    requires
        forall|k: Digest| recs.contains_key(k) ==> #[trigger] digest_bit(k, d) == v,
        forall|i: int| 0 <= i < ops.len() ==> digest_bit((#[trigger] ops[i]).path(), d) == v,
    ensures
        forall|k: Digest|
            apply_ops(recs, ops).contains_key(k) ==> #[trigger] digest_bit(k, d) == v,
    decreases ops.len(),
{
    if ops.len() > 0 {
        assert forall|k: Digest|
            apply_one(recs, ops[0]).contains_key(k) implies #[trigger] digest_bit(k, d) == v by {
            if k != ops[0].path() {
                assert(recs.contains_key(k));
            }
        }
        assert forall|i: int|
            0 <= i < ops.drop_first().len() implies digest_bit(
            (#[trigger] ops.drop_first()[i]).path(),
            d,
        ) == v by {
            assert(ops.drop_first()[i] == ops[i + 1]);
        }
        lemma_apply_dom_bit(apply_one(recs, ops[0]), ops.drop_first(), d, v);
    }
}

/// Splitting a window splits its effect.
pub proof fn lemma_apply_split(
    recs: Map<Digest, (Seq<u8>, Seq<u8>)>,
    ops: Seq<OpSpec>,
    lo: int,
    mid: int,
    hi: int,
)
    requires
        0 <= lo <= mid <= hi <= ops.len(),
    ensures
        apply_ops(recs, ops.subrange(lo, hi)) == apply_ops(
            apply_ops(recs, ops.subrange(lo, mid)),
            ops.subrange(mid, hi),
        ),
{
    assert(ops.subrange(lo, hi) =~= ops.subrange(lo, mid) + ops.subrange(mid, hi));
    lemma_apply_ops_app(recs, ops.subrange(lo, mid), ops.subrange(mid, hi));
}

/// A path below an extended position is below the position, with the added
/// bit at the split depth.
pub proof fn lemma_path_under_push(x: Digest, p: Seq<bool>, b: bool)
    requires
        p.len() < 256,
    ensures
        path_under(x, p.push(b)) <==> (path_under(x, p) && digest_bit(x, p.len() as int) == b),
{
    if path_under(x, p.push(b)) {
        assert forall|i: int| 0 <= i < p.len() implies digest_bit(x, i) == p[i] by {
            assert(digest_bit(x, i) == p.push(b)[i]);
        }
        assert(digest_bit(x, p.len() as int) == p.push(b)[p.len() as int]);
    }
    if path_under(x, p) && digest_bit(x, p.len() as int) == b {
        assert forall|i: int| 0 <= i < p.push(b).len() implies digest_bit(x, i) == p.push(b)[i] by {
            if i < p.len() {
                assert(digest_bit(x, i) == p[i]);
            }
        }
    }
}

/// Two distinct paths cannot both lie below a full-length position.
pub proof fn lemma_distinct_under(a: Digest, b: Digest, p: Seq<bool>)
    requires
        path_under(a, p),
        path_under(b, p),
        a != b,
    ensures
        p.len() < 256,
{
    if p.len() == 256 {
        assert forall|i: int| 0 <= i < 256 implies digest_bit(a, i) == digest_bit(b, i) by {
            assert(digest_bit(a, i) == p[i]);
            assert(digest_bit(b, i) == p[i]);
        }
        lemma_digest_eq_from_bits(a, b);
    }
}

/// Finds where the operations of a window change from the left region to
/// the right one.
fn split_point(
    ops: &Vec<Operation>,
    lo: usize,
    hi: usize,
    depth: u16,
    Ghost(p): Ghost<Seq<bool>>,
) -> (mid: usize)
    requires
        depth < 256,
        p.len() == depth,
        sorted_ops(ops@),
        lo <= hi <= ops@.len(),
        forall|i: int| lo <= i < hi ==> path_under((#[trigger] ops@[i]).path, p),
    ensures
        lo <= mid <= hi,
        forall|i: int| lo <= i < mid ==> !digest_bit((#[trigger] ops@[i]).path, depth as int),
        forall|i: int| mid <= i < hi ==> digest_bit((#[trigger] ops@[i]).path, depth as int),
{
    let ghost s = ops@;
    let mut m: usize = lo;
    while m < hi
        invariant
            lo <= m <= hi <= s.len(),
            s == ops@,
            sorted_ops(s),
            depth < 256,
            p.len() == depth,
            forall|i: int| lo <= i < hi ==> path_under((#[trigger] s[i]).path, p),
            forall|i: int| lo <= i < m ==> !digest_bit((#[trigger] s[i]).path, depth as int),
        decreases hi - m,
    {
        if ops[m].path.bit(depth) {
            proof {
                assert forall|i: int|
                    m <= i < hi implies digest_bit((#[trigger] s[i]).path, depth as int) by {
                    if i > m {
                        if !digest_bit(s[i].path, depth as int) {
                            assert forall|k: int|
                                0 <= k < depth implies digest_bit(s[i].path, k) == digest_bit(
                                s[m as int].path,
                                k,
                            ) by {
                                assert(digest_bit(s[i].path, k) == p[k]);
                                assert(digest_bit(s[m as int].path, k) == p[k]);
                            }
                            lemma_digest_bit_order(s[i].path, s[m as int].path, depth as int);
                            crate::batch::lemma_sorted_pair(s, m as int, i);
                            crate::batch::lemma_digest_order(s[i].path, s[m as int].path);
                            assert(false);
                        }
                    }
                }
            }
            return m;
        }
        m = m + 1;
    }
    m
}

/// Stores a fresh leaf, or points at the entry an equal leaf already holds,
/// and takes one reference on it.
fn build_leaf(
    store: &mut Store,
    key: Wrap,
    value: Wrap,
    Ghost(p): Ghost<Seq<bool>>,
) -> (res: (Label, Ghost<GTree>))
    requires
        old(store).wf(),
        old(store).scope.depth == 0,
        key.wf(),
        value.wf(),
    ensures
        final(store).wf(),
        final(store).scope == old(store).scope,
        nodes_extend(old(store).nodes(), final(store).nodes()),
        res.1@ == (GTree::Leaf { key: key.data@, value: value.data@ }),
        res.0 == leaf_label(key.data@, value.data@),
        digest_injective() ==> tree_at(final(store).nodes(), res.0, res.1@, p),
{
    let ghost t2 = GTree::Leaf { key: key.data@, value: value.data@ };
    let kd = key.digest();
    let vd = value.digest();
    let h = leaf_hash(&kd, &vd);
    let l = Label::Leaf(MapId::leaf(&kd), h);
    proof {
        store.lemma_full_covers(l);
    }
    let node = Node::Leaf(key, value);
    let ghost nv = node_view(node);
    let fresh = store.populate(l, node);
    proof {
        if fresh {
            assert(store.nodes().contains_key(l));
        }
        assert(store.has(l));
    }
    store.incref(l);
    proof {
        if digest_injective() {
            if fresh {
                assert(store.nodes()[l] == nv);
            } else {
                old(store).lemma_entry_ok(l);
                let ex = old(store).nodes()[l];
                assert(entry_ok(l, ex));
                match ex {
                    NodeV::Leaf { key: k2, kd: kd2, value: v2, vd: vd2 } => {
                        lemma_leaf_digest_inj(kd2, vd2, kd, vd);
                        assert(digest_of(k2) == digest_of(key.data@));
                        assert(k2 == key.data@);
                        assert(digest_of(v2) == digest_of(value.data@));
                        assert(v2 == value.data@);
                        assert(store.nodes()[l] == nv);
                    },
                    _ => {
                        assert(false);
                    },
                }
            }
            assert(tree_at(store.nodes(), l, t2, p));
        }
    }
    (l, Ghost(t2))
}

/// Joins two rebuilt children: collapses towards the survivor when one side
/// is empty, otherwise stores the parent and takes one reference on it.
fn combine(
    store: &mut Store,
    prefix: Prefix,
    l2: Label,
    tl: Ghost<GTree>,
    r2: Label,
    tr: Ghost<GTree>,
    pending: &mut Vec<Label>,
) -> (res: (Label, Ghost<GTree>))
    requires
        old(store).wf(),
        old(store).scope.depth == 0,
        prefix.wf(),
        prefix.depth < 256,
        digest_injective() ==> {
            &&& wf(tl@, prefix@.push(false)) && complete(tl@)
            &&& wf(tr@, prefix@.push(true)) && complete(tr@)
            &&& l2 == tree_label(tl@, prefix@.push(false))
            &&& r2 == tree_label(tr@, prefix@.push(true))
            &&& tree_at(old(store).nodes(), l2, tl@, prefix@.push(false))
            &&& tree_at(old(store).nodes(), r2, tr@, prefix@.push(true))
        },
    ensures
        final(store).wf(),
        final(store).scope == old(store).scope,
        nodes_extend(old(store).nodes(), final(store).nodes()),
        digest_injective() ==> {
            &&& wf(res.1@, prefix@) && complete(res.1@)
            &&& res.0 == tree_label(res.1@, prefix@)
            &&& tree_at(final(store).nodes(), res.0, res.1@, prefix@)
            &&& records(res.1@) == records(tl@).union_prefer_right(records(tr@))
        },
{
    let ghost p = prefix@;
    let empty_l = matches!(l2, Label::Empty);
    let empty_r = matches!(r2, Label::Empty);
    let leaf_l = matches!(l2, Label::Leaf(..));
    let leaf_r = matches!(r2, Label::Leaf(..));
    proof {
        if digest_injective() {
            lemma_tree_label_kind(tl@, p.push(false));
            lemma_tree_label_kind(tr@, p.push(true));
        }
    }
    if empty_l && empty_r {
        proof {
            if digest_injective() {
                assert(tl@ is Empty && tr@ is Empty);
                assert(records(GTree::Empty) =~= records(tl@).union_prefer_right(records(tr@)));
            }
        }
        (Label::Empty, Ghost(GTree::Empty))
    } else if empty_l && leaf_r {
        proof {
            if digest_injective() {
                assert(tl@ is Empty);
                assert(tr@ is Leaf);
                assert(records(tr@) =~= records(tl@).union_prefer_right(records(tr@)));
                assert(tree_label(tr@, p) == tree_label(tr@, p.push(true)));
            }
        }
        (r2, Ghost(tr@))
    } else if leaf_l && empty_r {
        proof {
            if digest_injective() {
                assert(tl@ is Leaf);
                assert(tr@ is Empty);
                assert(records(tl@) =~= records(tl@).union_prefer_right(records(tr@)));
                assert(tree_label(tl@, p) == tree_label(tl@, p.push(false)));
            }
        }
        (l2, Ghost(tl@))
    } else {
        let ghost t2 = GTree::Internal { left: Box::new(tl@), right: Box::new(tr@) };
        let node = Node::Internal(l2, r2);
        let label = store.label_at(&prefix, &node);
        proof {
            store.lemma_full_covers(label);
        }
        let ghost nv = node_view(node);
        let fresh = store.populate(label, node);
        if !fresh {
            pending.push(l2);
            pending.push(r2);
        }
        proof {
            if fresh {
                assert(store.nodes().contains_key(label));
            }
            assert(store.has(label));
        }
        store.incref(label);
        proof {
            if digest_injective() {
                assert(!(tl@ is Stub) && !(tr@ is Stub));
                assert(crate::model::compact_pair(tl@, tr@));
                assert(wf(t2, p) && complete(t2));
                assert(label == internal_label(p, l2, r2));
                assert(label == tree_label(t2, p));
                if fresh {
                    assert(store.nodes()[label] == nv);
                } else {
                    old(store).lemma_entry_ok(label);
                    let ex = old(store).nodes()[label];
                    match ex {
                        NodeV::Internal(a, b) => {
                            lemma_internal_digest_inj(a, b, l2, r2);
                            assert(store.nodes()[label] == NodeV::Internal(l2, r2));
                        },
                        _ => {
                            assert(false);
                        },
                    }
                }
                lemma_tree_at_monotone(
                    old(store).nodes(),
                    store.nodes(),
                    l2,
                    tl@,
                    p.push(false),
                );
                lemma_tree_at_monotone(
                    old(store).nodes(),
                    store.nodes(),
                    r2,
                    tr@,
                    p.push(true),
                );
                assert(tree_at(store.nodes(), label, t2, p));
            }
        }
        (label, Ghost(t2))
    }
}


/// The left subtree, when there is one.
pub open spec fn left_of(t: GTree) -> GTree {
    match t {
        GTree::Internal { left, .. } => *left,
        _ => GTree::Empty,
    }
}

/// The right subtree, when there is one.
pub open spec fn right_of(t: GTree) -> GTree {
    match t {
        GTree::Internal { right, .. } => *right,
        _ => GTree::Empty,
    }
}

/// Splits the window at the current depth, runs both sides, and joins the
/// results.
#[verifier::rlimit(100)]
fn descend(
    store: &mut Store,
    a: Label,
    ta: Ghost<GTree>,
    b: Label,
    tb: Ghost<GTree>,
    prefix: Prefix,
    ops: &mut Vec<Operation>,
    lo: usize,
    hi: usize,
    pending: &mut Vec<Label>,
) -> (res: (Label, Ghost<GTree>))
    requires
        old(store).wf(),
        old(store).scope.depth == 0,
        prefix.wf(),
        prefix.depth < 256,
        lo <= hi <= old(ops)@.len(),
        sorted_ops(old(ops)@),
        ops_wf(old(ops)@),
        forall|i: int| lo <= i < hi ==> path_under((#[trigger] old(ops)@[i]).path, prefix@),
        digest_injective() ==> {
            &&& wf(ta@, prefix@.push(false)) && complete(ta@)
            &&& wf(tb@, prefix@.push(true)) && complete(tb@)
            &&& a == tree_label(ta@, prefix@.push(false))
            &&& b == tree_label(tb@, prefix@.push(true))
            &&& tree_at(old(store).nodes(), a, ta@, prefix@.push(false))
            &&& tree_at(old(store).nodes(), b, tb@, prefix@.push(true))
        },
    ensures
        final(store).wf(),
        final(store).scope == old(store).scope,
        nodes_extend(old(store).nodes(), final(store).nodes()),
        batch_frame(old(ops)@, final(ops)@, lo as int, hi as int),
        digest_injective() ==> {
            &&& wf(res.1@, prefix@) && complete(res.1@)
            &&& res.0 == tree_label(res.1@, prefix@)
            &&& tree_at(final(store).nodes(), res.0, res.1@, prefix@)
            &&& records(res.1@) == apply_ops(
                records(ta@).union_prefer_right(records(tb@)),
                ops_view(old(ops)@).subrange(lo as int, hi as int),
            )
            &&& forall|i: int|
                lo <= i < hi ==> get_filled(
                    old(ops)@[i],
                    final(ops)@[i],
                    records(ta@).union_prefer_right(records(tb@)),
                )
        },
    decreases 256 - prefix.depth as int, 0int,
{
    let ghost p = prefix@;
    let ghost oldops = ops@;
    let ghost vops = ops_view(oldops);
    let ghost recl = records(ta@);
    let ghost recr = records(tb@);
    let ghost d = prefix.depth as int;
    let mid = split_point(ops, lo, hi, prefix.depth, Ghost(p));
    let pl = prefix.left();
    proof {
        assert forall|i: int|
            lo <= i < mid implies path_under((#[trigger] ops@[i]).path, pl@) by {
            lemma_path_under_push(ops@[i].path, p, false);
        }
    }
    let rl = apply_rec(store, a, ta, pl, ops, lo, mid, pending);
    let (la, tla) = rl;
    let ghost mops = ops@;
    let ghost nodes1 = store.nodes();
    proof {
        lemma_frame_props(oldops, mops, lo as int, mid as int);
        assert forall|i: int|
            mid <= i < hi implies path_under((#[trigger] ops@[i]).path, p) by {
            assert(mops[i] == oldops[i]);
        }
        if digest_injective() {
            crate::node::lemma_tree_at_monotone(
                old(store).nodes(),
                nodes1,
                b,
                tb@,
                p.push(true),
            );
        }
    }
    let pr = prefix.right();
    proof {
        assert forall|i: int|
            mid <= i < hi implies path_under((#[trigger] ops@[i]).path, pr@) by {
            assert(mops[i] == oldops[i]);
            lemma_path_under_push(ops@[i].path, p, true);
        }
    }
    let rr = apply_rec(store, b, tb, pr, ops, mid, hi, pending);
    let (lb, tlb) = rr;
    let ghost fops = ops@;
    proof {
        lemma_frame_props(mops, fops, mid as int, hi as int);
        lemma_frame_compose(oldops, mops, fops, lo as int, mid as int, hi as int);
        if digest_injective() {
            crate::node::lemma_tree_at_monotone(nodes1, store.nodes(), la, tla@, p.push(false));
        }
    }
    let resc = combine(store, prefix, la, tla, lb, tlb, pending);
    proof {
        if digest_injective() {
            let gl = vops.subrange(lo as int, mid as int);
            let gr = vops.subrange(mid as int, hi as int);
            // keys of the two sides carry the split bit
            lemma_records_under(ta@, p.push(false));
            lemma_records_under(tb@, p.push(true));
            assert forall|k: Digest| recl.contains_key(k) implies !#[trigger] digest_bit(
                k,
                d,
            ) by {
                assert(path_under(k, p.push(false)));
                lemma_path_under_push(k, p, false);
            }
            assert forall|k: Digest| recr.contains_key(k) implies #[trigger] digest_bit(
                k,
                d,
            ) by {
                assert(path_under(k, p.push(true)));
                lemma_path_under_push(k, p, true);
            }
            // the two windows carry the split bit
            assert forall|i: int| 0 <= i < gl.len() implies !digest_bit(
                (#[trigger] gl[i]).path(),
                d,
            ) by {
                assert(gl[i] == vops[lo + i]);
                assert(vops[lo + i].path() == oldops[lo + i].path);
            }
            assert forall|i: int| 0 <= i < gr.len() implies digest_bit(
                (#[trigger] gr[i]).path(),
                d,
            ) by {
                assert(gr[i] == vops[mid + i]);
                assert(vops[mid + i].path() == oldops[mid + i].path);
            }
            // left recursion's effect, stated over this window
            assert(records(tla@) == apply_ops(recl, gl));
            // right recursion ran on the framed batch, whose view is the same
            assert(ops_view(mops).subrange(mid as int, hi as int) =~= gr);
            assert(records(tlb@) == apply_ops(recr, gr));
            // stitch the two effects together
            lemma_apply_split(recl.union_prefer_right(recr), vops, lo as int, mid as int, hi as int);
            assert forall|i: int| 0 <= i < gl.len() implies !recr.contains_key(
                (#[trigger] gl[i]).path(),
            ) by {}
            lemma_apply_preserve_right(recl, recr, gl);
            lemma_apply_dom_bit(recl, gl, d, false);
            assert forall|i: int| 0 <= i < gr.len() implies !apply_ops(recl, gl).contains_key(
                (#[trigger] gr[i]).path(),
            ) by {}
            lemma_apply_preserve_left(apply_ops(recl, gl), recr, gr);
            assert(records(resc.1@) == apply_ops(
                recl.union_prefer_right(recr),
                vops.subrange(lo as int, hi as int),
            ));
            // reads answered on one side are answered on the union
            let u = recl.union_prefer_right(recr);
            assert forall|i: int| lo <= i < hi implies get_filled(
                oldops[i],
                fops[i],
                u,
            ) by {
                if i < mid {
                    assert(get_filled(oldops[i], mops[i], recl));
                    assert(fops[i] == mops[i]);
                    if oldops[i].action is Get {
                        assert(!recr.contains_key(oldops[i].path));
                        assert(lookup(u, oldops[i].path) == lookup(recl, oldops[i].path));
                    }
                } else {
                    assert(get_filled(mops[i], fops[i], recr));
                    assert(op_frame(oldops[i], mops[i]));
                    if oldops[i].action is Get {
                        assert(mops[i].path == oldops[i].path);
                        assert(!recl.contains_key(oldops[i].path));
                        assert(lookup(u, oldops[i].path) == lookup(recr, oldops[i].path));
                    }
                }
            }
        }
    }
    resc
}

/// Rewrites the subtree at `label` according to the window of operations,
/// returning the new root and its mathematical shape. Nodes are only added;
/// references to be released are collected for one sweep at the end.
pub fn apply_rec(
    store: &mut Store,
    label: Label,
    tree: Ghost<GTree>,
    prefix: Prefix,
    ops: &mut Vec<Operation>,
    lo: usize,
    hi: usize,
    pending: &mut Vec<Label>,
) -> (res: (Label, Ghost<GTree>))
    requires
        old(store).wf(),
        old(store).scope.depth == 0,
        prefix.wf(),
        lo <= hi <= old(ops)@.len(),
        sorted_ops(old(ops)@),
        ops_wf(old(ops)@),
        forall|i: int| lo <= i < hi ==> path_under((#[trigger] old(ops)@[i]).path, prefix@),
        digest_injective() ==> {
            &&& wf(tree@, prefix@) && complete(tree@)
            &&& label == tree_label(tree@, prefix@)
            &&& tree_at(old(store).nodes(), label, tree@, prefix@)
        },
    ensures
        final(store).wf(),
        final(store).scope == old(store).scope,
        nodes_extend(old(store).nodes(), final(store).nodes()),
        batch_frame(old(ops)@, final(ops)@, lo as int, hi as int),
        digest_injective() ==> {
            &&& wf(res.1@, prefix@) && complete(res.1@)
            &&& res.0 == tree_label(res.1@, prefix@)
            &&& tree_at(final(store).nodes(), res.0, res.1@, prefix@)
            &&& records(res.1@) == apply_ops(
                records(tree@),
                ops_view(old(ops)@).subrange(lo as int, hi as int),
            )
            &&& forall|i: int|
                lo <= i < hi ==> get_filled(old(ops)@[i], final(ops)@[i], records(tree@))
        },
    decreases 256 - prefix.depth as int, 1int,
{
    let ghost p = prefix@;
    let ghost oldops = ops@;
    let ghost vops = ops_view(oldops);
    if hi <= lo {
        proof {
            lemma_frame_refl(ops@, lo as int, hi as int);
            assert(vops.subrange(lo as int, hi as int) =~= Seq::<OpSpec>::empty());
        }
        return (label, tree);
    }
    match &label {
        Label::Empty => {
            proof {
                if digest_injective() {
                    lemma_tree_label_kind(tree@, p);
                    assert(tree@ is Empty);
                }
            }
            if hi - lo == 1 {
                let newlabel = handle_empty_single(store, ops, lo, Ghost(p));
                proof {
                    if digest_injective() {
                        assert(records(tree@) =~= Map::<Digest, (Seq<u8>, Seq<u8>)>::empty());
                        lemma_single_effect(records(tree@), vops, lo as int);
                        assert(records(newlabel.1@) == apply_one(records(tree@), vops[lo as int]));
                    }
                }
                newlabel
            } else {
                if prefix.depth >= 256 {
                    proof {
                        assert(hi - lo >= 2);
                        assert(oldops[lo as int].path != oldops[lo as int + 1].path) by {
                            crate::batch::lemma_sorted_pair(oldops, lo as int, lo as int + 1);
                            crate::batch::lemma_digest_order(
                                oldops[lo as int].path,
                                oldops[lo as int + 1].path,
                            );
                        }
                        lemma_distinct_under(
                            oldops[lo as int].path,
                            oldops[lo as int + 1].path,
                            p,
                        );
                        assert(false);
                    }
                    frame_untouched(ops, lo, hi);
                    return (label, tree);
                }
                let r = descend(
                    store,
                    Label::Empty,
                    Ghost(GTree::Empty),
                    Label::Empty,
                    Ghost(GTree::Empty),
                    prefix,
                    ops,
                    lo,
                    hi,
                    pending,
                );
                proof {
                    if digest_injective() {
                        assert(records(tree@) =~= records(GTree::Empty).union_prefer_right(
                            records(GTree::Empty),
                        ));
                    }
                }
                r
            }
        },
        _ => {
            match store.fetch(&label) {
                None => {
                    proof {
                        if digest_injective() {
                            assert(store.nodes().contains_key(label));
                            assert(false);
                        }
                    }
                    frame_untouched(ops, lo, hi);
                    (label, tree)
                },
                Some(node) => {
                    match node {
                        Node::Empty => {
                            proof {
                                if digest_injective() {
                                    store.lemma_entry_ok(label);
                                    assert(false);
                                }
                            }
                            frame_untouched(ops, lo, hi);
                            (label, tree)
                        },
                        Node::Leaf(k, v) => {
                            let kd = k.digest();
                            proof {
                                if digest_injective() {
                                    match tree@ {
                                        GTree::Leaf { key, value } => {
                                            assert(k.data@ == key && k.digest == digest_of(key)
                                                && v.data@ == value && v.digest == digest_of(
                                                value,
                                            ));
                                        },
                                        _ => {
                                            assert(false);
                                        },
                                    }
                                }
                            }
                            let direct = hi - lo == 1 && digests_equal(&ops[lo].path, &kd);
                            if direct {
                                let r = handle_leaf_direct(
                                    store,
                                    label,
                                    tree,
                                    k,
                                    v,
                                    ops,
                                    lo,
                                    pending,
                                    Ghost(p),
                                );
                                proof {
                                    if digest_injective() {
                                        lemma_single_effect(records(tree@), vops, lo as int);
                                    }
                                }
                                r
                            } else {
                                if prefix.depth >= 256 {
                                    proof {
                                        if digest_injective() {
                                            if hi - lo >= 2 {
                                                assert(oldops[lo as int].path != oldops[lo as int
                                                    + 1].path) by {
                                                    crate::batch::lemma_sorted_pair(
                                                        oldops,
                                                        lo as int,
                                                        lo as int + 1,
                                                    );
                                                    crate::batch::lemma_digest_order(
                                                        oldops[lo as int].path,
                                                        oldops[lo as int + 1].path,
                                                    );
                                                }
                                                lemma_distinct_under(
                                                    oldops[lo as int].path,
                                                    oldops[lo as int + 1].path,
                                                    p,
                                                );
                                            } else {
                                                match tree@ {
                                                    GTree::Leaf { key, value } => {
                                                        lemma_distinct_under(
                                                            oldops[lo as int].path,
                                                            digest_of(key),
                                                            p,
                                                        );
                                                    },
                                                    _ => {},
                                                }
                                            }
                                            assert(false);
                                        }
                                    }
                                    frame_untouched(ops, lo, hi);
                                    return (label, tree);
                                }
                                let leaf_bit = kd.bit(prefix.depth);
                                proof {
                                    if digest_injective() {
                                        match tree@ {
                                            GTree::Leaf { key, value } => {
                                                lemma_path_under_push(digest_of(key), p, leaf_bit);
                                                assert(wf(tree@, p.push(leaf_bit)));
                                            },
                                            _ => {},
                                        }
                                    }
                                }
                                let r = if !leaf_bit {
                                    descend(
                                        store,
                                        label,
                                        tree,
                                        Label::Empty,
                                        Ghost(GTree::Empty),
                                        prefix,
                                        ops,
                                        lo,
                                        hi,
                                        pending,
                                    )
                                } else {
                                    descend(
                                        store,
                                        Label::Empty,
                                        Ghost(GTree::Empty),
                                        label,
                                        tree,
                                        prefix,
                                        ops,
                                        lo,
                                        hi,
                                        pending,
                                    )
                                };
                                proof {
                                    if digest_injective() {
                                        if !leaf_bit {
                                            assert(records(tree@) =~= records(
                                                tree@,
                                            ).union_prefer_right(records(GTree::Empty)));
                                        } else {
                                            assert(records(tree@) =~= records(
                                                GTree::Empty,
                                            ).union_prefer_right(records(tree@)));
                                        }
                                    }
                                }
                                r
                            }
                        },
                        Node::Internal(a, b) => {
                            if prefix.depth >= 256 {
                                proof {
                                    if digest_injective() {
                                        assert(false);
                                    }
                                }
                                frame_untouched(ops, lo, hi);
                                return (label, tree);
                            }
                            proof {
                                store.lemma_full_covers(label);
                                if !(a is Empty) {
                                    store.lemma_full_covers(a);
                                }
                                if !(b is Empty) {
                                    store.lemma_full_covers(b);
                                }
                            }
                            proof {
                                if digest_injective() {
                                    match tree@ {
                                        GTree::Internal { left, right } => {
                                            assert(a == tree_label(*left, p.push(false)));
                                            assert(b == tree_label(*right, p.push(true)));
                                            lemma_tree_label_kind(*left, p.push(false));
                                            lemma_tree_label_kind(*right, p.push(true));
                                            assert(tree_at(store.nodes(), a, *left, p.push(false)));
                                            assert(tree_at(store.nodes(), b, *right, p.push(true)));
                                            if !(a is Empty) {
                                                match *left {
                                                    GTree::Empty => {
                                                        assert(false);
                                                    },
                                                    GTree::Stub { .. } => {
                                                        assert(false);
                                                    },
                                                    _ => {
                                                        assert(store.nodes().contains_key(a));
                                                    },
                                                }
                                            }
                                            if !(b is Empty) {
                                                match *right {
                                                    GTree::Empty => {
                                                        assert(false);
                                                    },
                                                    GTree::Stub { .. } => {
                                                        assert(false);
                                                    },
                                                    _ => {
                                                        assert(store.nodes().contains_key(b));
                                                    },
                                                }
                                            }
                                        },
                                        _ => {
                                            assert(false);
                                        },
                                    }
                                }
                            }
                            let ok_a = a.is_empty() || store.contains(&a);
                            let ok_b = b.is_empty() || store.contains(&b);
                            if !(ok_a && ok_b) {
                                proof {
                                    if digest_injective() {
                                        assert(false);
                                    }
                                }
                                frame_untouched(ops, lo, hi);
                                return (label, tree);
                            }
                            store.incref(a);
                            proof {
                                if !(b is Empty) {
                                    assert(store.has(b) == store.nodes().contains_key(b));
                                }
                            }
                            store.incref(b);
                            pending.push(label);
                            let ghost tl0 = left_of(tree@);
                            let ghost tr0 = right_of(tree@);
                            let r = descend(
                                store,
                                a,
                                Ghost(tl0),
                                b,
                                Ghost(tr0),
                                prefix,
                                ops,
                                lo,
                                hi,
                                pending,
                            );
                            proof {
                                if digest_injective() {
                                    assert(records(tree@) =~= records(tl0).union_prefer_right(
                                        records(tr0),
                                    ));
                                }
                            }
                            r
                        },
                    }
                },
            }
        },
    }
}

/// The batch is untouched: the identity frame.
proof fn lemma_frame_refl(s: Seq<Operation>, lo: int, hi: int)
    ensures
        batch_frame(s, s, lo, hi),
{
    assert forall|i: int| 0 <= i < s.len() implies op_frame(s[i], #[trigger] s[i]) by {}
}

/// The batch is untouched, phrased on the vector for exit paths.
fn frame_untouched(ops: &Vec<Operation>, lo: usize, hi: usize)
    ensures
        batch_frame(ops@, ops@, lo as int, hi as int),
{
    proof {
        lemma_frame_refl(ops@, lo as int, hi as int);
    }
}

/// One operation's window applies exactly that operation.
proof fn lemma_single_effect(recs: Map<Digest, (Seq<u8>, Seq<u8>)>, vops: Seq<OpSpec>, lo: int)
    requires
        0 <= lo < vops.len(),
    ensures
        apply_ops(recs, vops.subrange(lo, lo + 1)) == apply_one(recs, vops[lo]),
{
    let s = vops.subrange(lo, lo + 1);
    assert(s.len() == 1);
    assert(s[0] == vops[lo]);
    assert(apply_ops(recs, s) == apply_ops(apply_one(recs, s[0]), s.drop_first()));
    assert(s.drop_first().len() == 0);
    assert(apply_ops(apply_one(recs, s[0]), s.drop_first()) == apply_one(recs, s[0]));
}

/// Runs a single operation against an empty subtree.
fn handle_empty_single(
    store: &mut Store,
    ops: &mut Vec<Operation>,
    lo: usize,
    Ghost(p): Ghost<Seq<bool>>,
) -> (res: (Label, Ghost<GTree>))
    requires
        old(store).wf(),
        old(store).scope.depth == 0,
        lo < old(ops)@.len(),
        sorted_ops(old(ops)@),
        ops_wf(old(ops)@),
        path_under(old(ops)@[lo as int].path, p),
    ensures
        final(store).wf(),
        final(store).scope == old(store).scope,
        nodes_extend(old(store).nodes(), final(store).nodes()),
        batch_frame(old(ops)@, final(ops)@, lo as int, lo as int + 1),
        wf(res.1@, p) && complete(res.1@),
        res.0 == tree_label(res.1@, p),
        digest_injective() ==> tree_at(final(store).nodes(), res.0, res.1@, p),
        records(res.1@) == apply_one(
            Map::<Digest, (Seq<u8>, Seq<u8>)>::empty(),
            ops_view(old(ops)@)[lo as int],
        ),
        get_filled(
            old(ops)@[lo as int],
            final(ops)@[lo as int],
            Map::<Digest, (Seq<u8>, Seq<u8>)>::empty(),
        ),
{
    let ghost oldops = ops@;
    let is_get = matches!(&ops[lo].action, Action::Get(_));
    if is_get {
        let path = ops[lo].path;
        let key = ops[lo].key.duplicate();
        let newop = Operation { path, key, action: Action::Get(None) };
        ops.set(lo, newop);
        proof {
            assert forall|i: int| 0 <= i < ops@.len() implies op_frame(
                oldops[i],
                #[trigger] ops@[i],
            ) by {
                if i != lo {
                    assert(ops@[i] == oldops[i]);
                }
            }
            assert(records(GTree::Empty) =~= apply_one(
                Map::<Digest, (Seq<u8>, Seq<u8>)>::empty(),
                ops_view(oldops)[lo as int],
            ));
        }
        (Label::Empty, Ghost(GTree::Empty))
    } else {
        let is_put = matches!(&ops[lo].action, Action::Put(_));
        if is_put {
            let key = ops[lo].key.duplicate();
            let value = match &ops[lo].action {
                Action::Put(v) => v.duplicate(),
                _ => Wrap::new(Vec::new()),
            };
            proof {
                assert(op_wf(oldops[lo as int]));
            }
            let r = build_leaf(store, key, value, Ghost(p));
            proof {
                lemma_frame_refl(ops@, lo as int, lo as int + 1);
                let ov = ops_view(oldops)[lo as int];
                assert(records(r.1@) =~= apply_one(
                    Map::<Digest, (Seq<u8>, Seq<u8>)>::empty(),
                    ov,
                ));
                assert(wf(r.1@, p));
            }
            r
        } else {
            proof {
                lemma_frame_refl(ops@, lo as int, lo as int + 1);
                assert(records(GTree::Empty) =~= apply_one(
                    Map::<Digest, (Seq<u8>, Seq<u8>)>::empty(),
                    ops_view(oldops)[lo as int],
                ));
            }
            (Label::Empty, Ghost(GTree::Empty))
        }
    }
}

/// Runs the single operation aimed at a stored leaf.
fn handle_leaf_direct(
    store: &mut Store,
    label: Label,
    tree: Ghost<GTree>,
    k: Wrap,
    v: Wrap,
    ops: &mut Vec<Operation>,
    lo: usize,
    pending: &mut Vec<Label>,
    Ghost(p): Ghost<Seq<bool>>,
) -> (res: (Label, Ghost<GTree>))
    requires
        old(store).wf(),
        old(store).scope.depth == 0,
        lo < old(ops)@.len(),
        sorted_ops(old(ops)@),
        ops_wf(old(ops)@),
        path_under(old(ops)@[lo as int].path, p),
        old(ops)@[lo as int].path == k.digest,
        digest_injective() ==> {
            &&& tree@ matches GTree::Leaf { key, value } && k.data@ == key && k.digest
                == digest_of(key) && v.data@ == value && v.digest == digest_of(value)
            &&& wf(tree@, p) && complete(tree@)
            &&& label == tree_label(tree@, p)
            &&& tree_at(old(store).nodes(), label, tree@, p)
        },
    ensures
        final(store).wf(),
        final(store).scope == old(store).scope,
        nodes_extend(old(store).nodes(), final(store).nodes()),
        batch_frame(old(ops)@, final(ops)@, lo as int, lo as int + 1),
        digest_injective() ==> {
            &&& wf(res.1@, p) && complete(res.1@)
            &&& res.0 == tree_label(res.1@, p)
            &&& tree_at(final(store).nodes(), res.0, res.1@, p)
            &&& records(res.1@) == apply_one(records(tree@), ops_view(old(ops)@)[lo as int])
            &&& get_filled(old(ops)@[lo as int], final(ops)@[lo as int], records(tree@))
        },
{
    let ghost oldops = ops@;
    let is_get = matches!(&ops[lo].action, Action::Get(_));
    if is_get {
        let path = ops[lo].path;
        let key = ops[lo].key.duplicate();
        let newop = Operation { path, key, action: Action::Get(Some(v.duplicate())) };
        ops.set(lo, newop);
        proof {
            assert forall|i: int| 0 <= i < ops@.len() implies op_frame(
                oldops[i],
                #[trigger] ops@[i],
            ) by {
                if i != lo {
                    assert(ops@[i] == oldops[i]);
                }
            }
            if digest_injective() {
                match tree@ {
                    GTree::Leaf { key: tk, value: tv } => {
                        assert(records(tree@).contains_key(oldops[lo as int].path));
                        assert(lookup(records(tree@), oldops[lo as int].path) == Some(tv));
                    },
                    _ => {},
                }
            }
        }
        (label, tree)
    } else {
        let is_put = matches!(&ops[lo].action, Action::Put(_));
        if is_put {
            let key = ops[lo].key.duplicate();
            let value = match &ops[lo].action {
                Action::Put(nv) => nv.duplicate(),
                _ => Wrap::new(Vec::new()),
            };
            proof {
                assert(op_wf(oldops[lo as int]));
            }
            let r = build_leaf(store, key, value, Ghost(p));
            pending.push(label);
            proof {
                lemma_frame_refl(ops@, lo as int, lo as int + 1);
                if digest_injective() {
                    match tree@ {
                        GTree::Leaf { key: tk, value: tv } => {
                            assert(records(r.1@) =~= apply_one(
                                records(tree@),
                                ops_view(oldops)[lo as int],
                            ));
                        },
                        _ => {},
                    }
                    assert(wf(r.1@, p));
                }
            }
            r
        } else {
            pending.push(label);
            proof {
                lemma_frame_refl(ops@, lo as int, lo as int + 1);
                if digest_injective() {
                    match tree@ {
                        GTree::Leaf { key: tk, value: tv } => {
                            assert(records(GTree::Empty) =~= apply_one(
                                records(tree@),
                                ops_view(oldops)[lo as int],
                            ));
                        },
                        _ => {},
                    }
                }
            }
            (Label::Empty, Ghost(GTree::Empty))
        }
    }
}

/// Compares two digests.
pub fn digests_equal(a: &Digest, b: &Digest) -> (r: bool)
    ensures
        r == (*a == *b),
{
    a.w0 == b.w0 && a.w1 == b.w1 && a.w2 == b.w2 && a.w3 == b.w3
}

/// Lets go of every collected reference, dropping entries whose last
/// reference goes away and cascading into their children.
pub fn release(store: &mut Store, pending: &mut Vec<Label>)
    requires
        old(store).wf(),
        old(store).scope.depth == 0,
    ensures
        final(store).wf(),
        final(store).scope == old(store).scope,
        final(pending)@.len() == 0,
        final(store).spec_size() <= old(store).spec_size(),
{
    proof {
        store.lemma_size_nonneg();
    }
    while pending.len() > 0
        invariant
            store.wf(),
            store.scope.depth == 0,
            store.scope == old(store).scope,
            store.spec_size() >= 0,
            store.spec_size() <= old(store).spec_size(),
        decreases store.spec_size(), pending@.len(),
    {
        let l = match pending.pop() {
            Some(l) => l,
            None => {
                return ;
            },
        };
        proof {
            if !(l is Empty) {
                store.lemma_full_covers(l);
            }
        }
        match store.try_decref(l, false) {
            Some(node) => {
                match node {
                    Node::Internal(a, b) => {
                        pending.push(a);
                        pending.push(b);
                    },
                    _ => {},
                }
            },
            None => {},
        }
        proof {
            store.lemma_size_nonneg();
        }
    }
}

/// Runs a batch against a root: rewrites the trie, fills the reads, then
/// releases every reference the rewrite let go of.
pub fn apply(
    store: &mut Store,
    root: Label,
    tree: Ghost<GTree>,
    batch: crate::batch::Batch,
) -> (res: (Label, Ghost<GTree>, crate::batch::Batch))
    requires
        old(store).wf(),
        old(store).scope.depth == 0,
        batch.wf(),
        digest_injective() ==> {
            &&& wf(tree@, Seq::<bool>::empty()) && complete(tree@)
            &&& root == tree_label(tree@, Seq::<bool>::empty())
            &&& tree_at(old(store).nodes(), root, tree@, Seq::<bool>::empty())
        },
    ensures
        final(store).wf(),
        final(store).scope == old(store).scope,
        res.2.wf(),
        batch_frame(batch.operations@, res.2.operations@, 0, batch.operations@.len() as int),
        res.2@ == batch@,
        digest_injective() ==> {
            &&& wf(res.1@, Seq::<bool>::empty()) && complete(res.1@)
            &&& res.0 == tree_label(res.1@, Seq::<bool>::empty())
            &&& records(res.1@) == apply_ops(records(tree@), batch@)
            &&& forall|i: int|
                0 <= i < batch.operations@.len() ==> get_filled(
                    batch.operations@[i],
                    res.2.operations@[i],
                    records(tree@),
                )
        },
{
    let crate::batch::Batch { operations: mut ops } = batch;
    let ghost oldops = ops@;
    let root_prefix = Prefix::root();
    let mut pending: Vec<Label> = Vec::new();
    let n = ops.len();
    proof {
        assert forall|i: int|
            0 <= i < n implies path_under((#[trigger] ops@[i]).path, root_prefix@) by {}
    }
    let r = apply_rec(store, root, tree, root_prefix, &mut ops, 0, n, &mut pending);
    release(store, &mut pending);
    proof {
        lemma_frame_props(oldops, ops@, 0, n as int);
        if digest_injective() {
            assert(ops_view(oldops).subrange(0, n as int) =~= ops_view(oldops));
        }
    }
    let out = crate::batch::Batch::new(ops);
    (r.0, r.1, out)
}

} // verus!
