use vstd::prelude::*;
use crate::errors::SyncError;
use crate::model::GTree;
use crate::node::{Label, Node, NodeV, node_view};
use crate::prefix::Prefix;
use crate::store::Store;
use crate::table::{Database, Table};

verus! {

/// How many levels of a subtree one answer carries.
pub const ANSWER_DEPTH: u16 = 3;

/// The labels a receiver wants expanded.
#[derive(Debug)]
pub struct Question {
    pub labels: Vec<Label>,
}

/// The nodes a sender returns, in the order a depth-first walk of each
/// asked-for subtree meets them.
#[derive(Debug)]
pub struct TableAnswer {
    pub nodes: Vec<Node>,
}

/// A sending handle on one table: its root, with one reference of its own so
/// the subtree outlives the table it came from.
#[derive(Debug)]
pub struct TableSender {
    pub root: Label,
}

/// The receiving half of a transfer: the root once it is known, and the
/// subtrees still to be asked for, each with the position it will stand at.
#[derive(Debug)]
pub struct TableReceiver {
    pub root: Label,
    pub started: bool,
    pub pending: Vec<(Label, Prefix)>,
}

/// The root label a transfer is carrying: fixed once the first answer has
/// been seen.
pub open spec fn transferred_root(receiver: TableReceiver, answer: TableAnswer) -> Label {
    if receiver.started {
        receiver.root
    } else if answer.nodes@.len() == 0 {
        Label::Empty
    } else {
        crate::store::spec_label_at(Seq::<bool>::empty(), node_view(answer.nodes@[0]))
    }
}

/// What one learning step produced: a finished table, or the receiver with
/// its next question.
pub enum TableStatus {
    Complete(usize),
    Incomplete(TableReceiver, Question),
}

/// The nodes a depth-limited walk of one subtree meets, parent before
/// children, left before right; nothing when a needed label is absent.
pub open spec fn walk_spec(m: Map<Label, NodeV>, label: Label, ttl: nat) -> Option<Seq<NodeV>>
    decreases ttl,
{
    if label is Empty {
        Some(Seq::<NodeV>::empty())
    } else if !m.contains_key(label) {
        None::<Seq<NodeV>>
    } else {
        match m[label] {
            NodeV::Internal(a, b) => {
                if ttl > 0 {
                    match walk_spec(m, a, (ttl - 1) as nat) {
                        Some(sa) => match walk_spec(m, b, (ttl - 1) as nat) {
                            Some(sb) => Some(seq![m[label]] + sa + sb),
                            None => None::<Seq<NodeV>>,
                        },
                        None => None::<Seq<NodeV>>,
                    }
                } else {
                    Some(seq![m[label]])
                }
            },
            _ => Some(seq![m[label]]),
        }
    }
}

/// The walks of a list of labels, one after the other.
pub open spec fn answer_spec(m: Map<Label, NodeV>, labels: Seq<Label>, ttl: nat) -> Option<
    Seq<NodeV>,
>
    decreases labels.len(),
{
    if labels.len() == 0 {
        Some(Seq::<NodeV>::empty())
    } else {
        match walk_spec(m, labels[0], ttl) {
            Some(w) => match answer_spec(m, labels.drop_first(), ttl) {
                Some(rest) => Some(w + rest),
                None => None::<Seq<NodeV>>,
            },
            None => None::<Seq<NodeV>>,
        }
    }
}

/// A node list as the specification sees it.
pub open spec fn nodes_view(s: Seq<Node>) -> Seq<NodeV> {
    s.map(|i: int, n: Node| node_view(n))
}

/// Walks `label`'s subtree to the given depth, pushing every met node.
fn grab(
    store: &Store,
    collector: &mut Vec<Node>,
    label: Label,
    ttl: u16,
) -> (r: Result<(), SyncError>)
    requires
        store.wf(),
        store.scope.depth == 0,
    ensures
        final(collector)@.len() >= old(collector)@.len(),
        r is Ok <==> walk_spec(store.nodes(), label, ttl as nat) is Some,
        r is Ok ==> nodes_view(final(collector)@) == nodes_view(old(collector)@) + walk_spec(
            store.nodes(),
            label,
            ttl as nat,
        )->Some_0,
        r matches Err(e) ==> e == SyncError::MalformedQuestion,
    decreases ttl,
{
    let ghost m = store.nodes();
    if label.is_empty() {
        proof {
            assert(nodes_view(collector@) =~= nodes_view(collector@) + Seq::<NodeV>::empty());
        }
        return Ok(());
    }
    proof {
        store.lemma_full_covers(label);
    }
    match store.fetch(&label) {
        None => Err(SyncError::MalformedQuestion),
        Some(node) => {
            let recur: Option<(Label, Label)> = match &node {
                Node::Internal(a, b) => if ttl > 0 {
                    Some((*a, *b))
                } else {
                    None
                },
                _ => None,
            };
            let ghost nv = node_view(node);
            collector.push(node);
            let ghost mid = collector@;
            proof {
                assert(nodes_view(mid) =~= nodes_view(old(collector)@) + seq![nv]);
                assert(nv == m[label]);
            }
            match recur {
                Some((a, b)) => {
                    let ra = grab(store, collector, a, ttl - 1);
                    if ra.is_err() {
                        return ra;
                    }
                    let ghost mid2 = collector@;
                    let rb = grab(store, collector, b, ttl - 1);
                    proof {
                        if rb is Ok {
                            let sa = walk_spec(m, a, (ttl - 1) as nat)->Some_0;
                            let sb = walk_spec(m, b, (ttl - 1) as nat)->Some_0;
                            assert(nodes_view(mid2) == nodes_view(mid) + sa);
                            assert(nodes_view(collector@) == nodes_view(mid2) + sb);
                            assert(nodes_view(collector@) =~= nodes_view(old(collector)@) + (seq![
                                nv,
                            ] + sa + sb));
                        }
                    }
                    rb
                },
                None => {
                    proof {
                        assert(nodes_view(collector@) =~= nodes_view(old(collector)@) + seq![nv]);
                    }
                    Ok(())
                },
            }
        },
    }
}

impl Database {
    /// Opens a sending handle on the table in slot `t`, taking one reference
    /// on its root so the transfer outlives later changes to the table.
    pub fn send(&mut self, t: usize) -> (r: TableSender)
        requires
            old(self).wf(),
            t < old(self).tables@.len(),
            old(self).tables@[t as int].materialized(old(self).store),
        ensures
            final(self).wf(),
            final(self).tables@ == old(self).tables@,
            r.root == old(self).tables@[t as int].root,
            final(self).store.nodes() == old(self).store.nodes(),
            !(old(self).tables@[t as int].root is Empty) && old(self).store.has(
                old(self).tables@[t as int].root,
            ) ==> final(self).store.refs() == old(self).store.refs().insert(
                old(self).tables@[t as int].root,
                crate::store::sat_inc(old(self).store.refs()[old(self).tables@[t as int].root]),
            ),
    {
        let root = self.tables[t].root;
        let ghost tree = self.tables@[t as int].tree@;
        proof {
            if !(root is Empty) {
                self.store.lemma_full_covers(root);
                if crate::model::digest_injective() {
                    match tree {
                        GTree::Empty => {
                            assert(false);
                        },
                        GTree::Stub { .. } => {
                            assert(false);
                        },
                        _ => {
                            assert(self.store.nodes().contains_key(root));
                        },
                    }
                }
            }
        }
        if root.is_empty() || self.store.contains(&root) {
            self.store.incref(root);
        }
        TableSender { root }
    }

    /// The opening answer of a transfer: the sender's root subtree, down to
    /// the answer depth.
    pub fn hello(&self, sender: &TableSender) -> (r: Result<TableAnswer, SyncError>)
        requires
            self.wf(),
        ensures
            (r is Ok) <==> walk_spec(
                self.store.nodes(),
                sender.root,
                ANSWER_DEPTH as nat,
            ) is Some,
            r matches Ok(ans) ==> nodes_view(ans.nodes@) == walk_spec(
                self.store.nodes(),
                sender.root,
                ANSWER_DEPTH as nat,
            )->Some_0,
            r matches Err(e) ==> e == SyncError::MalformedQuestion,
    {
        let mut labels: Vec<Label> = Vec::new();
        labels.push(sender.root);
        let ghost ls = labels@;
        let r = self.answer(sender, &Question { labels });
        proof {
            let m = self.store.nodes();
            assert(ls.len() == 1 && ls[0] == sender.root);
            assert(ls.drop_first() =~= Seq::<Label>::empty());
            assert(answer_spec(m, ls.drop_first(), ANSWER_DEPTH as nat) == Some(
                Seq::<NodeV>::empty(),
            ));
            match walk_spec(m, sender.root, ANSWER_DEPTH as nat) {
                Some(w) => {
                    assert(answer_spec(m, ls, ANSWER_DEPTH as nat) == Some(
                        w + Seq::<NodeV>::empty(),
                    ));
                    assert(w + Seq::<NodeV>::empty() =~= w);
                },
                None => {},
            }
        }
        r
    }

    /// Answers a question about the sender's map: for each asked-for label
    /// in order, the nodes of its subtree down to the answer depth, in walk
    /// order. A question naming a label the store does not hold is refused,
    /// and only then.
    pub fn answer(&self, sender: &TableSender, question: &Question) -> (r: Result<
        TableAnswer,
        SyncError,
    >)
        requires
            self.wf(),
        ensures
            (r is Ok) <==> answer_spec(
                self.store.nodes(),
                question.labels@,
                ANSWER_DEPTH as nat,
            ) is Some,
            r matches Ok(ans) ==> nodes_view(ans.nodes@) == answer_spec(
                self.store.nodes(),
                question.labels@,
                ANSWER_DEPTH as nat,
            )->Some_0,
            r matches Err(e) ==> e == SyncError::MalformedQuestion,
    {
        let ghost m = self.store.nodes();
        let ghost ls = question.labels@;
        let mut collector: Vec<Node> = Vec::new();
        let mut i: usize = 0;
        proof {
            assert(ls.skip(0) =~= ls);
            match answer_spec(m, ls, ANSWER_DEPTH as nat) {
                Some(rest) => {
                    assert(nodes_view(collector@) =~= Seq::<NodeV>::empty());
                    assert(nodes_view(collector@) + rest =~= rest);
                },
                None => {},
            }
        }
        while i < question.labels.len()
            invariant
                self.wf(),
                m == self.store.nodes(),
                ls == question.labels@,
                i <= ls.len(),
                match answer_spec(m, ls.skip(i as int), ANSWER_DEPTH as nat) {
                    Some(rest) => answer_spec(m, ls, ANSWER_DEPTH as nat) == Some(
                        nodes_view(collector@) + rest,
                    ),
                    None => answer_spec(m, ls, ANSWER_DEPTH as nat) is None,
                },
            decreases question.labels@.len() - i,
        {
            let ghost pre = collector@;
            let r = grab(&self.store, &mut collector, question.labels[i], ANSWER_DEPTH);
            proof {
                lemma_answer_spec_step(m, ls, ANSWER_DEPTH as nat, i as int);
            }
            match r {
                Ok(_) => {
                    proof {
                        let w = walk_spec(m, ls[i as int], ANSWER_DEPTH as nat)->Some_0;
                        match answer_spec(m, ls.skip(i as int + 1), ANSWER_DEPTH as nat) {
                            Some(rest) => {
                                assert(nodes_view(collector@) + rest =~= nodes_view(pre) + (w
                                    + rest));
                            },
                            None => {},
                        }
                    }
                },
                Err(e) => {
                    return Err(SyncError::MalformedQuestion);
                },
            }
            i = i + 1;
        }
        proof {
            assert(ls.skip(ls.len() as int) =~= Seq::<Label>::empty());
            let rest = answer_spec(m, ls.skip(ls.len() as int), ANSWER_DEPTH as nat)->Some_0;
            assert(nodes_view(collector@) + rest =~= nodes_view(collector@));
        }
        Ok(TableAnswer { nodes: collector })
    }

    /// Closes a transfer on the sending side: the handle's reference becomes
    /// a registered table under `name`, rooted at the commitment that was
    /// being sent.
    pub fn end(&mut self, sender: TableSender, name: &str) -> (t: usize)
        requires
            old(self).wf(),
        ensures
            final(self).wf(),
            t == old(self).tables@.len(),
            final(self).tables@.len() == old(self).tables@.len() + 1,
            forall|i: int|
                0 <= i < old(self).tables@.len() ==> final(self).tables@[i] == old(
                    self,
                ).tables@[i],
            final(self).tables@[t as int].root == sender.root,
            final(self).tables@[t as int].name@ == name@,
            final(self).store == old(self).store,
    {
        let t = self.tables.len();
        let ghost stub = GTree::Stub { label: sender.root };
        let ghost treev = if sender.root is Empty {
            GTree::Empty
        } else {
            stub
        };
        let tree = Ghost(treev);
        let table = Table { root: sender.root, tree, name: name.to_owned() };
        self.tables.push(table);
        proof {
            lemma_tables_grow(*old(self), *self);
        }
        t
    }

    /// Opens an empty receiver bound to this database's arena.
    pub fn receive(&self) -> (r: TableReceiver)
        ensures
            !r.started,
            r.pending@.len() == 0,
    {
        TableReceiver { root: Label::Empty, started: false, pending: Vec::new() }
    }

    /// Consumes one answer: checks every received node against the label
    /// that asked for it, stores what is new, reuses what is already held,
    /// and either finishes the table or asks about what is still missing.
    pub fn learn(&mut self, receiver: TableReceiver, answer: &TableAnswer, name: &str) -> (r:
        Result<TableStatus, SyncError>)
        requires
            old(self).wf(),
            forall|i: int|
                0 <= i < receiver.pending@.len() ==> (#[trigger] receiver.pending@[i]).1.wf(),
        ensures
            final(self).wf(),
            final(self).tables@.len() >= old(self).tables@.len(),
            forall|i: int|
                0 <= i < old(self).tables@.len() ==> final(self).tables@[i] == old(
                    self,
                ).tables@[i],
            r matches Err(e) ==> e == SyncError::MalformedAnswer,
            r matches Ok(st) ==> match st {
                TableStatus::Complete(slot) => {
                    &&& slot == old(self).tables@.len()
                    &&& final(self).tables@.len() == old(self).tables@.len() + 1
                    &&& final(self).tables@[slot as int].root == transferred_root(
                        receiver,
                        *answer,
                    )
                    &&& final(self).tables@[slot as int].name@ == name@
                },
                TableStatus::Incomplete(rc, q) => {
                    &&& final(self).tables@.len() == old(self).tables@.len()
                    &&& rc.started
                    &&& rc.root == transferred_root(receiver, *answer)
                    &&& q.labels@.len() == rc.pending@.len()
                    &&& q.labels@.len() > 0
                    &&& forall|i: int|
                        0 <= i < q.labels@.len() ==> q.labels@[i] == (
                        #[trigger] rc.pending@[i]).0 && rc.pending@[i].1.wf()
                },
            },
    {
        let ghost troot = transferred_root(receiver, *answer);
        let mut expected: Vec<(Label, Prefix)> = Vec::new();
        let mut started = receiver.started;
        let mut root = receiver.root;
        if !started {
            // the opening answer carries the root; its label is computed,
            // not checked, and becomes the commitment being transferred
            if answer.nodes.len() == 0 {
                // an empty map: the transfer is already complete
                let t = self.tables.len();
                let table = Table {
                    root: Label::Empty,
                    tree: Ghost(GTree::Empty),
                    name: name.to_owned(),
                };
                self.tables.push(table);
                proof {
                    lemma_tables_grow(*old(self), *self);
                    assert(transferred_root(receiver, *answer) == Label::Empty);
                }
                return Ok(TableStatus::Complete(t));
            }
            let first = &answer.nodes[0];
            let rp = Prefix::root();
            root = self.store.label_at(&rp, first);
            if root.is_empty() {
                return Err(SyncError::MalformedAnswer);
            }
            started = true;
            expected.push((root, rp));
        } else {
            let mut i: usize = 0;
            while i < receiver.pending.len()
                invariant
                    *self == *old(self),
                    forall|k: int|
                        0 <= k < receiver.pending@.len() ==> (
                        #[trigger] receiver.pending@[k]).1.wf(),
                    forall|k: int|
                        0 <= k < expected@.len() ==> (#[trigger] expected@[k]).1.wf(),
                decreases receiver.pending@.len() - i,
            {
                expected.push((receiver.pending[i].0, receiver.pending[i].1));
                i = i + 1;
            }
        }
        let mut missing: Vec<(Label, Prefix)> = Vec::new();
        let mut idx: usize = 0;
        let mut e: usize = 0;
        while e < expected.len()
            invariant
                self.wf(),
                self.store.scope.depth == 0,
                self.tables@ == old(self).tables@,
                root == troot,
                forall|k: int| 0 <= k < expected@.len() ==> (#[trigger] expected@[k]).1.wf(),
                forall|x: int| 0 <= x < missing@.len() ==> (#[trigger] missing@[x]).1.wf(),
            decreases expected@.len() - e,
        {
            let (want, at) = (expected[e].0, expected[e].1);
            match self.absorb(want, at, answer, &mut idx, ANSWER_DEPTH, &mut missing) {
                Ok(_) => {},
                Err(err) => {
                    return Err(err);
                },
            }
            e = e + 1;
        }
        if missing.len() == 0 {
            let t = self.tables.len();
            let ghost stub = GTree::Stub { label: root };
            let table = Table { root, tree: Ghost(stub), name: name.to_owned() };
            self.tables.push(table);
            proof {
                assert(crate::node::tree_label(stub, Seq::<bool>::empty()) == root);
                assert(crate::model::wf(stub, Seq::<bool>::empty()));
                lemma_tables_grow(*old(self), *self);
            }
            Ok(TableStatus::Complete(t))
        } else {
            let mut labels: Vec<Label> = Vec::new();
            let mut i: usize = 0;
            while i < missing.len()
                invariant
                    self.wf(),
                    self.tables@ == old(self).tables@,
                    root == troot,
                    i <= missing@.len(),
                    labels@.len() == i,
                    forall|x: int| 0 <= x < i ==> labels@[x] == (#[trigger] missing@[x]).0,
                    forall|x: int| 0 <= x < missing@.len() ==> (#[trigger] missing@[x]).1.wf(),
                    missing@.len() > 0,
                decreases missing@.len() - i,
            {
                labels.push(missing[i].0);
                i = i + 1;
            }
            let receiver = TableReceiver { root, started: true, pending: missing };
            Ok(TableStatus::Incomplete(receiver, Question { labels }))
        }
    }

    /// Installs one expected subtree from the answer: the node must hash to
    /// the label that asked for it; known subtrees are reused without
    /// reading further; children beyond the answer's depth become pending.
    fn absorb(
        &mut self,
        want: Label,
        at: Prefix,
        answer: &TableAnswer,
        idx: &mut usize,
        ttl: u16,
        missing: &mut Vec<(Label, Prefix)>,
    ) -> (r: Result<(), SyncError>)
        requires
            old(self).wf(),
            at.wf(),
        ensures
            final(self).wf(),
            final(self).store.scope == old(self).store.scope,
            final(self).tables@ == old(self).tables@,
            final(self).store.scope.depth == old(self).store.scope.depth,
            final(missing)@.len() >= old(missing)@.len(),
            forall|x: int| 0 <= x < old(missing)@.len() ==> final(missing)@[x] == old(missing)@[x],
            forall|x: int|
                old(missing)@.len() <= x < final(missing)@.len() ==> (
                #[trigger] final(missing)@[x]).1.wf(),
            r matches Err(e) ==> e == SyncError::MalformedAnswer,
        decreases ttl,
    {
        if want.is_empty() {
            return Ok(());
        }
        proof {
            self.store.lemma_full_covers(want);
        }
        if *idx >= answer.nodes.len() {
            return Err(SyncError::MalformedAnswer);
        }
        let node = answer.nodes[*idx].duplicate();
        *idx = *idx + 1;
        let computed = self.store.label_at(&at, &node);
        let same = match (&computed, &want) {
            (Label::Internal(m1, h1), Label::Internal(m2, h2)) => m1.id == m2.id
                && crate::apply::digests_equal(h1, h2),
            (Label::Leaf(m1, h1), Label::Leaf(m2, h2)) => m1.id == m2.id
                && crate::apply::digests_equal(h1, h2),
            _ => false,
        };
        if !same {
            return Err(SyncError::MalformedAnswer);
        }
        // every received wrap must carry the digest of its own bytes, and a
        // leaf must lie in the region that asked for it
        match &node {
            Node::Leaf(k, v) => {
                let kd = crate::wrap::hash_bytes(&k.data);
                let vd = crate::wrap::hash_bytes(&v.data);
                if !(crate::apply::digests_equal(&kd, &k.digest)
                    && crate::apply::digests_equal(&vd, &v.digest)) {
                    return Err(SyncError::MalformedAnswer);
                }
                if !at.contains(&k.digest) {
                    return Err(SyncError::MalformedAnswer);
                }
            },
            _ => {},
        }
        let known = self.store.contains(&want);
        proof {
            assert(computed == want);
            assert(crate::node::entry_ok(want, node_view(node)));
        }
        let fresh = self.store.populate(want, node.duplicate());
        proof {
            if fresh {
                assert(self.store.nodes().contains_key(want));
            }
            assert(self.store.has(want));
        }
        self.store.incref(want);
        if known {
            // the whole subtree is already held: reuse it and skip the
            // nodes the answer spent on it
            skip_subtree(&node, answer, idx, ttl);
            return Ok(());
        }
        match &node {
            Node::Internal(a, b) => {
                if ttl > 0 && at.depth < 256 {
                    let ra = self.absorb(*a, at.left(), answer, idx, ttl - 1, missing);
                    if ra.is_err() {
                        return ra;
                    }
                    self.absorb(*b, at.right(), answer, idx, ttl - 1, missing)
                } else if at.depth < 256 {
                    // a child the arena already holds is reused on the spot;
                    // only genuinely unknown children go into the question
                    proof {
                        if !(*a is Empty) {
                            self.store.lemma_full_covers(*a);
                        }
                    }
                    if !a.is_empty() {
                        if self.store.contains(a) {
                            self.store.incref(*a);
                        } else {
                            missing.push((*a, at.left()));
                        }
                    }
                    proof {
                        if !(*b is Empty) {
                            self.store.lemma_full_covers(*b);
                        }
                    }
                    if !b.is_empty() {
                        if self.store.contains(b) {
                            self.store.incref(*b);
                        } else {
                            missing.push((*b, at.right()));
                        }
                    }
                    Ok(())
                } else {
                    Err(SyncError::MalformedAnswer)
                }
            },
            _ => Ok(()),
        }
    }
}

/// Advances the cursor past the nodes an already-known subtree occupies in
/// the answer.
fn skip_subtree(node: &Node, answer: &TableAnswer, idx: &mut usize, ttl: u16)
    decreases ttl,
{
    match node {
        Node::Internal(a, b) => {
            if ttl > 0 {
                if !a.is_empty() && *idx < answer.nodes.len() {
                    let child = answer.nodes[*idx].duplicate();
                    *idx = *idx + 1;
                    skip_subtree(&child, answer, idx, ttl - 1);
                }
                if !b.is_empty() && *idx < answer.nodes.len() {
                    let child = answer.nodes[*idx].duplicate();
                    *idx = *idx + 1;
                    skip_subtree(&child, answer, idx, ttl - 1);
                }
            }
        },
        _ => {},
    }
}

/// One step of an answer: the first label's walk, then the rest.
proof fn lemma_answer_spec_step(m: Map<Label, NodeV>, ls: Seq<Label>, ttl: nat, i: int)
    requires
        0 <= i < ls.len(),
    ensures
        answer_spec(m, ls.skip(i), ttl) == (match walk_spec(m, ls[i], ttl) {
            Some(w) => match answer_spec(m, ls.skip(i + 1), ttl) {
                Some(rest) => Some(w + rest),
                None => None::<Seq<NodeV>>,
            },
            None => None::<Seq<NodeV>>,
        }),
{
    assert(ls.skip(i).len() > 0);
    assert(ls.skip(i)[0] == ls[i]);
    assert(ls.skip(i).drop_first() =~= ls.skip(i + 1));
}

/// Adding a table keeps every earlier slot.
proof fn lemma_tables_grow(olded: Database, newed: Database)
    requires
        olded.wf(),
        newed.store.wf(),
        newed.store.scope.depth == 0,
        newed.tables@.len() == olded.tables@.len() + 1,
        forall|i: int| 0 <= i < olded.tables@.len() ==> newed.tables@[i] == olded.tables@[i],
        newed.tables@[olded.tables@.len() as int].inv(),
    ensures
        newed.wf(),
        newed.tables@.len() >= olded.tables@.len(),
{
    assert forall|i: int| 0 <= i < newed.tables@.len() implies (#[trigger] newed.tables@[i]).inv()
        by {
        if i < olded.tables@.len() {
            assert(newed.tables@[i] == olded.tables@[i]);
        }
    }
}

} // verus!
