use vstd::prelude::*;
use crate::apply::{apply, get_filled, release};
use crate::digest::Digest;
use crate::model::{GTree, apply_ops, complete, digest_injective, digest_of, records, wf};
use crate::node::{Label, lemma_tree_label_kind, tree_at, tree_label};
use crate::response::TableResponse;
use crate::store::Store;
use crate::transaction::TableTransaction;
use crate::node::{Node, NodeV, node_view};
use crate::prefix::Prefix;
use crate::wrap::{empty_hash, hash_bytes};

verus! {

/// One persistent map: a root label into the shared arena and the
/// mathematical tree it stands for.
pub struct Table {
    pub root: Label,
    pub tree: Ghost<GTree>,
    pub name: String,
}

impl Table {
    /// The shape the table claims, under the content-addressing hypothesis.
    /// A freshly received table may still stand for an elided tree; a
    /// materialized one never does.
    pub open spec fn inv(self) -> bool {
        digest_injective() ==> {
            &&& wf(self.tree@, Seq::<bool>::empty())
            &&& self.root == tree_label(self.tree@, Seq::<bool>::empty())
        }
    }

    /// Whether the table's tree is whole and present in a store.
    pub open spec fn materialized(self, st: Store) -> bool {
        digest_injective() ==> {
            &&& complete(self.tree@)
            &&& tree_at(st.nodes(), self.root, self.tree@, Seq::<bool>::empty())
        }
    }

    /// The key-value pairs the table holds, keyed by key digest.
    pub open spec fn spec_records(self) -> Map<Digest, (Seq<u8>, Seq<u8>)> {
        records(self.tree@)
    }

    /// The cryptographic commitment to the table's contents.
    pub fn commit(&self) -> (r: Digest)
        ensures
            r == self.root.spec_hash(),
            self.inv() && digest_injective() ==> r == tree_label(
                self.tree@,
                Seq::<bool>::empty(),
            ).spec_hash(),
    {
        let e = empty_hash();
        self.root.hash(&e)
    }

    /// The root label.
    pub fn get_root(&self) -> (r: Label)
        ensures
            r == self.root,
    {
        self.root
    }

    /// The table's name.
    pub fn get_name(&self) -> (r: &String)
        ensures
            r == &self.name,
    {
        &self.name
    }
}

/// A family of tables over one shared, deduplicating node arena.
pub struct Database {
    pub store: Store,
    pub tables: Vec<Table>,
}

impl Database {
    /// The store is sound and every registered table is shaped as it claims.
    pub open spec fn wf(self) -> bool {
        &&& self.store.wf()
        &&& self.store.scope.depth == 0
        &&& forall|i: int| 0 <= i < self.tables@.len() ==> (#[trigger] self.tables@[i]).inv()
    }

    /// An empty database.
    pub fn new() -> (r: Database)
        ensures
            r.wf(),
            r.tables@.len() == 0,
    {
        Database { store: Store::new(), tables: Vec::new() }
    }

    /// How many tables are registered.
    pub fn table_count(&self) -> (r: usize)
        ensures
            r == self.tables@.len(),
    {
        self.tables.len()
    }

    /// Registers an empty table and hands back its slot.
    pub fn empty_table(&mut self, name: &str) -> (t: usize)
        requires
            old(self).wf(),
        ensures
            final(self).wf(),
            final(self).store == old(self).store,
            final(self).tables@.len() == old(self).tables@.len() + 1,
            t == old(self).tables@.len(),
            forall|i: int|
                0 <= i < old(self).tables@.len() ==> final(self).tables@[i] == old(
                    self,
                ).tables@[i],
            final(self).tables@[t as int].root == Label::Empty,
            final(self).tables@[t as int].tree@ == GTree::Empty,
            final(self).tables@[t as int].spec_records() == Map::<Digest, (Seq<u8>, Seq<u8>)>::empty(),
    {
        let t = self.tables.len();
        let table = Table { root: Label::Empty, tree: Ghost(GTree::Empty), name: name.to_owned() };
        self.tables.push(table);
        proof {
            assert(records(GTree::Empty) =~= Map::<Digest, (Seq<u8>, Seq<u8>)>::empty());
        }
        t
    }

    /// Finds the first registered table carrying `name`.
    pub fn get_table(&self, name: &str) -> (r: Option<usize>)
        ensures
            match r {
                Some(i) => i < self.tables@.len() && self.tables@[i as int].name@ == name@,
                None => forall|i: int|
                    0 <= i < self.tables@.len() ==> (#[trigger] self.tables@[i]).name@ != name@,
            },
    {
        let target: String = name.to_owned();
        let mut i: usize = 0;
        while i < self.tables.len()
            invariant
                target@ == name@,
                i <= self.tables@.len(),
                forall|j: int| 0 <= j < i ==> (#[trigger] self.tables@[j]).name@ != name@,
            decreases self.tables@.len() - i,
        {
            if self.tables[i].name == target {
                return Some(i);
            }
            i = i + 1;
        }
        None
    }

    /// The commitment of the table in slot `t`.
    pub fn commit(&self, t: usize) -> (r: Digest)
        requires
            t < self.tables@.len(),
        ensures
            r == self.tables@[t as int].root.spec_hash(),
    {
        self.tables[t].commit()
    }

    /// The records of the table in slot `t`, as the specification sees them.
    pub open spec fn records_of(self, t: int) -> Map<Digest, (Seq<u8>, Seq<u8>)> {
        self.tables@[t].spec_records()
    }

    /// Runs a transaction against the table in slot `t` and answers its
    /// reads. The new table holds the old records with the batch applied.
    pub fn execute(&mut self, t: usize, transaction: TableTransaction) -> (r: TableResponse)
        requires
            old(self).wf(),
            t < old(self).tables@.len(),
            transaction.wf(),
            old(self).tables@[t as int].materialized(old(self).store),
        ensures
            final(self).wf(),
            final(self).tables@.len() == old(self).tables@.len(),
            forall|i: int|
                0 <= i < old(self).tables@.len() && i != t ==> final(self).tables@[i] == old(
                    self,
                ).tables@[i],
            final(self).tables@[t as int].name == old(self).tables@[t as int].name,
            r.batch.wf(),
            r.batch@ == transaction@,
            digest_injective() ==> {
                &&& complete(final(self).tables@[t as int].tree@)
                &&& final(self).records_of(t as int) == apply_ops(
                    old(self).records_of(t as int),
                    transaction@,
                )
                &&& forall|i: int|
                    0 <= i < transaction.operations@.len() ==> get_filled(
                        transaction.operations@[i],
                        r.batch.operations@[i],
                        old(self).records_of(t as int),
                    )
            },
    {
        let ghost oldtable = old(self).tables@[t as int];
        let batch = transaction.finalize();
        let root = self.tables[t].root;
        let ghost tree = self.tables@[t as int].tree@;
        let name = self.tables[t].name.clone();
        let (root2, tree2, batch2) = apply(&mut self.store, root, Ghost(tree), batch);
        let newtable = Table { root: root2, tree: tree2, name };
        self.tables.set(t, newtable);
        proof {
            assert forall|i: int|
                0 <= i < self.tables@.len() implies (#[trigger] self.tables@[i]).inv() by {
                if i != t {
                    assert(self.tables@[i] == old(self).tables@[i]);
                }
            }
        }
        TableResponse::new(batch2)
    }

    /// Registers another handle on the same contents: a constant-time clone
    /// that shares every node.
    pub fn clone_table(&mut self, t: usize, name: &str) -> (r: usize)
        requires
            old(self).wf(),
            t < old(self).tables@.len(),
            old(self).tables@[t as int].materialized(old(self).store),
        ensures
            final(self).wf(),
            r == old(self).tables@.len(),
            final(self).tables@.len() == old(self).tables@.len() + 1,
            forall|i: int|
                0 <= i < old(self).tables@.len() ==> final(self).tables@[i] == old(
                    self,
                ).tables@[i],
            final(self).tables@[r as int].root == old(self).tables@[t as int].root,
            final(self).tables@[r as int].tree == old(self).tables@[t as int].tree,
            final(self).tables@[r as int].spec_records() == old(self).records_of(t as int),
            final(self).tables@[r as int].materialized(final(self).store),
            final(self).store.nodes() == old(self).store.nodes(),
            !(old(self).tables@[t as int].root is Empty) && old(self).store.has(
                old(self).tables@[t as int].root,
            ) ==> final(self).store.refs() == old(self).store.refs().insert(
                old(self).tables@[t as int].root,
                crate::store::sat_inc(old(self).store.refs()[old(self).tables@[t as int].root]),
            ),
    {
        let root = self.tables[t].root;
        let ghost tree = self.tables@[t as int].tree@;
        proof {
            if !(root is Empty) {
                self.store.lemma_full_covers(root);
                if digest_injective() {
                    match tree {
                        GTree::Empty => {
                            assert(false);
                        },
                        GTree::Stub { .. } => {
                            assert(false);
                        },
                        _ => {
                            assert(self.store.nodes().contains_key(root));
                        },
                    }
                }
            }
        }
        if root.is_empty() || self.store.contains(&root) {
            self.store.incref(root);
        }
        let r = self.tables.len();
        let table = Table { root, tree: Ghost(tree), name: name.to_owned() };
        self.tables.push(table);
        proof {
            assert forall|i: int|
                0 <= i < self.tables@.len() implies (#[trigger] self.tables@[i]).inv() by {
                if i < r {
                    assert(self.tables@[i] == old(self).tables@[i]);
                }
            }
            if digest_injective() {
                crate::node::lemma_tree_at_monotone(
                    old(self).store.nodes(),
                    self.store.nodes(),
                    root,
                    tree,
                    Seq::<bool>::empty(),
                );
            }
        }
        r
    }

    /// Lets a table go: releases its subtree and leaves an empty table in
    /// the slot, so other slots keep their places.
    pub fn drop_table(&mut self, t: usize)
        requires
            old(self).wf(),
            t < old(self).tables@.len(),
        ensures
            final(self).wf(),
            final(self).tables@.len() == old(self).tables@.len(),
            forall|i: int|
                0 <= i < old(self).tables@.len() && i != t ==> final(self).tables@[i] == old(
                    self,
                ).tables@[i],
            final(self).tables@[t as int].root == Label::Empty,
            final(self).tables@[t as int].spec_records() == Map::<Digest, (Seq<u8>, Seq<u8>)>::empty(),
            final(self).store.spec_size() <= old(self).store.spec_size(),
            old(self).tables@[t as int].root is Empty ==> final(self).store == old(self).store,
    {
        let root = self.tables[t].root;
        let name = self.tables[t].name.clone();
        if !root.is_empty() {
            let mut pending: Vec<Label> = Vec::new();
            pending.push(root);
            release(&mut self.store, &mut pending);
        }
        let table = Table { root: Label::Empty, tree: Ghost(GTree::Empty), name };
        self.tables.set(t, table);
        proof {
            assert(records(GTree::Empty) =~= Map::<Digest, (Seq<u8>, Seq<u8>)>::empty());
            assert forall|i: int|
                0 <= i < self.tables@.len() implies (#[trigger] self.tables@[i]).inv() by {
                if i != t {
                    assert(self.tables@[i] == old(self).tables@[i]);
                }
            }
        }
    }

    /// Walks the table's tree in the arena and re-derives its mathematical
    /// shape, hash by hash. On success the table is materialized again — the
    /// way back into service after batches, releases or a transfer — and,
    /// for a table that was whole, its records are untouched.
    pub fn refresh(&mut self, t: usize) -> (r: bool)
        requires
            old(self).wf(),
            t < old(self).tables@.len(),
        ensures
            final(self).wf(),
            final(self).store == old(self).store,
            final(self).tables@.len() == old(self).tables@.len(),
            forall|i: int|
                0 <= i < old(self).tables@.len() && i != t ==> final(self).tables@[i] == old(
                    self,
                ).tables@[i],
            final(self).tables@[t as int].root == old(self).tables@[t as int].root,
            final(self).tables@[t as int].name == old(self).tables@[t as int].name,
            r ==> final(self).tables@[t as int].materialized(final(self).store),
            !r ==> *final(self) == *old(self),
            r && digest_injective() && complete(old(self).tables@[t as int].tree@) && old(
                self,
            ).tables@[t as int].inv() ==> final(self).records_of(t as int) == old(self).records_of(
                t as int,
            ),
    {
        let root = self.tables[t].root;
        let rp = Prefix::root();
        match snapshot(&self.store, root, rp, 0) {
            Some(tree) => {
                let ghost oldtree = self.tables@[t as int].tree@;
                let name = self.tables[t].name.clone();
                let table = Table { root, tree, name };
                self.tables.set(t, table);
                proof {
                    assert forall|i: int|
                        0 <= i < self.tables@.len() implies (#[trigger] self.tables@[i]).inv() by {
                        if i != t {
                            assert(self.tables@[i] == old(self).tables@[i]);
                        }
                    }
                    if digest_injective() && complete(oldtree) && old(self).tables@[t as int].inv() {
                        crate::laws::law_commit_sound(oldtree, tree@, Seq::<bool>::empty());
                    }
                }
                true
            },
            None => false,
        }
    }

    /// Lists every key on which two tables disagree, with what each holds
    /// there. Both tables must live in this database: the comparison walks
    /// one shared arena.
    pub fn diff(&self, ta: usize, tb: usize) -> (r: Vec<crate::diff::DiffEntry>)
        requires
            self.wf(),
            ta < self.tables@.len(),
            tb < self.tables@.len(),
            self.tables@[ta as int].materialized(self.store),
            self.tables@[tb as int].materialized(self.store),
        ensures
            crate::model::digest_injective() ==> crate::diff::lists_diff(
                r@,
                self.records_of(ta as int),
                self.records_of(tb as int),
            ),
    {
        let ghost ra = self.records_of(ta as int);
        let ghost rb = self.records_of(tb as int);
        let mut left: Vec<crate::diff::Record> = Vec::new();
        let rp = crate::prefix::Prefix::root();
        let ghost treea = self.tables@[ta as int].tree@;
        let ghost treeb = self.tables@[tb as int].tree@;
        crate::diff::collect(
            &self.store,
            self.tables[ta].root,
            Ghost(treea),
            0,
            Ghost(Seq::<bool>::empty()),
            &mut left,
        );
        let mut right: Vec<crate::diff::Record> = Vec::new();
        crate::diff::collect(
            &self.store,
            self.tables[tb].root,
            Ghost(treeb),
            0,
            Ghost(Seq::<bool>::empty()),
            &mut right,
        );
        proof {
            if crate::model::digest_injective() {
                assert(crate::diff::lists_records(left@, ra));
                assert(crate::diff::lists_records(right@, rb));
            }
        }
        crate::diff::diff_lists(&left, &right, Ghost(ra), Ghost(rb))
    }

    /// Reads every record a table holds, in the order the trie keeps them.
    pub fn export_records(&self, t: usize) -> (r: Vec<crate::diff::Record>)
        requires
            self.wf(),
            t < self.tables@.len(),
            self.tables@[t as int].materialized(self.store),
        ensures
            crate::model::digest_injective() ==> crate::diff::lists_records(
                r@,
                self.records_of(t as int),
            ),
    {
        let mut out: Vec<crate::diff::Record> = Vec::new();
        let ghost tree = self.tables@[t as int].tree@;
        crate::diff::collect(
            &self.store,
            self.tables[t].root,
            Ghost(tree),
            0,
            Ghost(Seq::<bool>::empty()),
            &mut out,
        );
        out
    }

    /// How many entries the arena holds; an empty database holds none, and
    /// dropping every table brings the count back down.
    pub fn size(&self) -> (r: usize)
        requires
            self.wf(),
            self.store.spec_size() <= usize::MAX,
        ensures
            r == self.store.spec_size(),
    {
        self.store.size()
    }
}


/// Rebuilds the mathematical tree below `label` from what the store holds,
/// verifying every hash, every shard, every leaf position and compactness on
/// the way; succeeds exactly when the subtree is whole and well formed.
fn snapshot(store: &Store, label: Label, pr: Prefix, depth: u16) -> (r: Option<Ghost<GTree>>)
    requires
        store.wf(),
        store.scope.depth == 0,
        pr.wf(),
        pr.depth == depth,
        depth <= 256,
    ensures
        r matches Some(t) ==> {
            &&& tree_at(store.nodes(), label, t@, pr@)
            &&& wf(t@, pr@)
            &&& complete(t@)
            &&& label == tree_label(t@, pr@)
        },
    decreases 256 - depth,
{
    match &label {
        Label::Empty => Some(Ghost(GTree::Empty)),
        _ => {
            proof {
                store.lemma_full_covers(label);
            }
            match store.fetch(&label) {
                None => None,
                Some(node) => {
                    proof {
                        store.lemma_entry_ok(label);
                    }
                    match node {
                        Node::Empty => None,
                        Node::Leaf(k, v) => {
                            let kd = hash_bytes(&k.data);
                            let vd = hash_bytes(&v.data);
                            if !(crate::apply::digests_equal(&kd, &k.digest)
                                && crate::apply::digests_equal(&vd, &v.digest)) {
                                return None;
                            }
                            if !pr.contains(&k.digest) {
                                return None;
                            }
                            let ghost t = GTree::Leaf { key: k.data@, value: v.data@ };
                            proof {
                                assert(node_view(node) == store.nodes()[label]);
                                assert(crate::model::path_under(digest_of(k.data@), pr@));
                            }
                            Some(Ghost(t))
                        },
                        Node::Internal(a, b) => {
                            if depth >= 256 {
                                return None;
                            }
                            if label.map().id() != crate::node::shard_byte(&pr) {
                                return None;
                            }
                            let bad = match (&a, &b) {
                                (Label::Empty, Label::Empty) => true,
                                (Label::Empty, Label::Leaf(..)) => true,
                                (Label::Leaf(..), Label::Empty) => true,
                                _ => false,
                            };
                            if bad {
                                return None;
                            }
                            let ta = match snapshot(store, a, pr.left(), depth + 1) {
                                Some(t) => t,
                                None => {
                                    return None;
                                },
                            };
                            let tb = match snapshot(store, b, pr.right(), depth + 1) {
                                Some(t) => t,
                                None => {
                                    return None;
                                },
                            };
                            let ghost t = GTree::Internal {
                                left: Box::new(ta@),
                                right: Box::new(tb@),
                            };
                            proof {
                                lemma_tree_label_kind(ta@, pr@.push(false));
                                lemma_tree_label_kind(tb@, pr@.push(true));
                                assert(crate::model::compact_pair(ta@, tb@));
                                assert(node_view(node) == store.nodes()[label]);
                                assert(label == crate::node::internal_label(pr@, a, b));
                                assert(label == tree_label(t, pr@));
                                assert(tree_at(store.nodes(), label, t, pr@));
                            }
                            Some(Ghost(t))
                        },
                    }
                },
            }
        },
    }
}

} // verus!
