use vstd::prelude::*;
use crate::digest::{Digest, digest_bit, digest_byte};
use crate::model::{empty_digest, leaf_digest};
use crate::node::{Entry, Label, MapId, Node, NodeV, entry_ok, internal_digest, internal_label, lemma_prefix_byte_push, node_view, prefix_byte, shard_byte};
use crate::prefix::Prefix;
use crate::wrap::{Wrap, empty_hash, internal_hash, leaf_hash};

verus! {

/// Shards with a scope this deep are not split further.
pub const DEPTH: u16 = 8;

/// Whether a shard slice holds an entry for `l`.
pub open spec fn shard_has(s: Seq<(Label, Entry)>, l: Label) -> bool {
    exists|j: int| 0 <= j < s.len() && s[j].0 == l
}

/// The slot of `l` in a shard slice; meaningful under key uniqueness.
pub open spec fn shard_at(s: Seq<(Label, Entry)>, l: Label) -> int {
    choose|j: int| 0 <= j < s.len() && s[j].0 == l
}

/// No two slots of a shard carry the same label.
pub open spec fn unique_keys(s: Seq<(Label, Entry)>) -> bool {
    forall|i: int, j: int| 0 <= i < j < s.len() ==> s[i].0 != s[j].0
}

/// The node arena: one shard per possible first byte of the scope's key
/// region, each mapping labels to nodes and reference counts.
pub struct Store {
    pub shards: Vec<Vec<(Label, Entry)>>,
    pub scope: Prefix,
    pub empty_d: Digest,
}

impl Store {
    /// How many shards a scope this deep owns.
    pub open spec fn spec_shard_count(depth: int) -> int {
        if depth >= 8 {
            1
        } else {
            256int / pow2_8(depth)
        }
    }

    /// The first shard this store's scope covers.
    pub open spec fn base(self) -> int {
        prefix_byte(self.scope@) as int
    }

    pub open spec fn wf(self) -> bool {
        &&& self.scope.wf()
        &&& self.shards@.len() == Self::spec_shard_count(self.scope.depth as int)
        &&& self.base() + self.shards@.len() <= 256
        &&& forall|k: int| 0 <= k < self.shards@.len() ==> unique_keys(#[trigger] self.shards@[k]@)
        &&& forall|k: int, j: int|
            0 <= k < self.shards@.len() && 0 <= j < self.shards@[k]@.len()
                ==> (#[trigger] self.shards@[k]@[j]).0.spec_map().id == self.base() + k && !(
            self.shards@[k]@[j].0 is Empty) && entry_ok(
                self.shards@[k]@[j].0,
                node_view(self.shards@[k]@[j].1.node),
            )
        &&& self.empty_d == empty_digest()
    }

    /// The shard slot a label belongs to, relative to this store's base.
    pub open spec fn sidx(self, l: Label) -> int {
        l.spec_map().id - self.base()
    }

    /// Whether this store's scope covers the label's shard.
    pub open spec fn covers(self, l: Label) -> bool {
        !(l is Empty) && 0 <= self.sidx(l) < self.shards@.len()
    }

    /// Whether the store holds an entry for `l`.
    pub open spec fn has(self, l: Label) -> bool {
        self.covers(l) && shard_has(self.shards@[self.sidx(l)]@, l)
    }

    /// The entry stored under `l`.
    pub open spec fn entry_of(self, l: Label) -> Entry {
        self.shards@[self.sidx(l)]@[shard_at(self.shards@[self.sidx(l)]@, l)].1
    }

    /// The stored nodes, as a map from label to node content.
    pub open spec fn nodes(self) -> Map<Label, NodeV> {
        Map::new(|l: Label| self.has(l), |l: Label| node_view(self.entry_of(l).node))
    }

    /// The stored reference counts.
    pub open spec fn refs(self) -> Map<Label, nat> {
        Map::new(|l: Label| self.has(l), |l: Label| self.entry_of(l).references as nat)
    }

    /// Total number of entries across the shards.
    pub open spec fn spec_size(self) -> int {
        total_len(self.shards@)
    }

    /// An empty store covering the whole key space.
    pub fn new() -> (r: Store)
        ensures
            r.wf(),
            r.scope.depth == 0,
            r.nodes() == Map::<Label, NodeV>::empty(),
            r.refs() == Map::<Label, nat>::empty(),
            r.spec_size() == 0,
    {
        let mut shards: Vec<Vec<(Label, Entry)>> = Vec::new();
        let mut k: usize = 0;
        while k < 256
            invariant
                k <= 256,
                shards@.len() == k,
                forall|i: int| 0 <= i < k ==> (#[trigger] shards@[i])@.len() == 0,
            decreases 256 - k,
        {
            shards.push(Vec::new());
            k = k + 1;
        }
        let r = Store { shards, scope: Prefix::root(), empty_d: empty_hash() };
        proof {
            lemma_total_len_zero(r.shards@);
            assert(r.nodes() =~= Map::<Label, NodeV>::empty());
            assert(r.refs() =~= Map::<Label, nat>::empty());
            assert(prefix_byte(r.scope@) == 0);
        }
        r
    }

    /// Number of entries held; used to detect leaked nodes.
    pub fn size(&self) -> (r: usize)
        requires
            self.wf(),
            self.spec_size() <= usize::MAX,
        ensures
            r == self.spec_size(),
    {
        let mut total: usize = 0;
        let mut k: usize = 0;
        proof {
            lemma_total_len_mono(self.shards@, 0);
            assert(self.shards@.take(0) =~= Seq::<Vec<(Label, Entry)>>::empty());
        }
        while k < self.shards.len()
            invariant
                self.wf(),
                k <= self.shards@.len(),
                self.spec_size() <= usize::MAX,
                total == total_len(self.shards@.take(k as int)),
                total <= self.spec_size(),
            decreases self.shards@.len() - k,
    {
            proof {
                lemma_total_len_step(self.shards@, k as int);
                lemma_total_len_mono(self.shards@, k as int + 1);
            }
            total = total + self.shards[k].len();
            k = k + 1;
        }
        proof {
            assert(self.shards@.take(self.shards@.len() as int) =~= self.shards@);
        }
        total
    }

    /// Finds the slot of `l` in its shard.
    fn find(&self, l: Label) -> (r: Option<usize>)
        requires
            self.wf(),
            self.covers(l),
        ensures
            match r {
                Some(i) => {
                    &&& self.has(l)
                    &&& 0 <= i < self.shards@[self.sidx(l)]@.len()
                    &&& self.shards@[self.sidx(l)]@[i as int].0 == l
                    &&& i == shard_at(self.shards@[self.sidx(l)]@, l)
                },
                None => !self.has(l),
            },
    {
        let base = shard_byte(&self.scope);
        let k = (l.map().id() - base) as usize;
        let shard = &self.shards[k];
        let ghost s = shard@;
        proof {
            assert(k as int == self.sidx(l));
        }
        let mut i: usize = 0;
        while i < shard.len()
            invariant
                self.wf(),
                self.covers(l),
                k as int == self.sidx(l),
                s == self.shards@[k as int]@,
                s == shard@,
                unique_keys(s),
                i <= s.len(),
                forall|j: int| 0 <= j < i ==> s[j].0 != l,
            decreases s.len() - i,
        {
            if shard[i].0 == l {
                proof {
                    assert(s[i as int].0 == l);
                    assert(shard_has(s, l));
                    let w = shard_at(s, l);
                    assert(s[w].0 == l);
                    if w < i as int {
                        assert(s[w].0 != s[i as int].0);
                    } else if w > i as int {
                        assert(s[i as int].0 != s[w].0);
                    }
                    assert(w == i as int);
                    assert(self.sidx(l) == k as int);
                    assert(self.has(l));
                }
                return Some(i);
            }
            i = i + 1;
        }
        proof {
            if shard_has(s, l) {
                let w = shard_at(s, l);
                assert(s[w].0 == l);
                assert(false);
            }
        }
        None
    }

    /// Whether an entry for `l` is stored. The empty label is never stored.
    pub fn contains(&self, l: &Label) -> (r: bool)
        requires
            self.wf(),
            self.covers(*l) || *l is Empty,
        ensures
            r == self.has(*l),
    {
        match l {
            Label::Empty => false,
            _ => self.find(*l).is_some(),
        }
    }

    /// Reads the node stored under `l`, if any.
    pub fn fetch(&self, l: &Label) -> (r: Option<Node>)
        requires
            self.wf(),
            self.covers(*l) || *l is Empty,
        ensures
            match r {
                Some(n) => self.has(*l) && node_view(n) == self.nodes()[*l],
                None => !self.has(*l),
            },
    {
        match l {
            Label::Empty => None,
            _ => match self.find(*l) {
                Some(i) => {
                    let base = shard_byte(&self.scope);
                    let k = (l.map().id() - base) as usize;
                    Some(self.shards[k][i].1.node.duplicate())
                },
                None => None,
            },
        }
    }

    /// Reads the reference count stored under `l`, if any.
    pub fn references(&self, l: &Label) -> (r: Option<u64>)
        requires
            self.wf(),
            self.covers(*l) || *l is Empty,
        ensures
            match r {
                Some(c) => self.has(*l) && c as nat == self.refs()[*l],
                None => !self.has(*l),
            },
    {
        match l {
            Label::Empty => None,
            _ => match self.find(*l) {
                Some(i) => {
                    let base = shard_byte(&self.scope);
                    let k = (l.map().id() - base) as usize;
                    Some(self.shards[k][i].1.references)
                },
                None => None,
            },
        }
    }

    /// Stores `node` under `l` with no references yet. Nothing happens when
    /// the label is empty or already present; the result says whether the
    /// entry is new.
    pub fn populate(&mut self, l: Label, node: Node) -> (r: bool)
        requires
            old(self).wf(),
            old(self).covers(l) || l is Empty,
            !(l is Empty) ==> entry_ok(l, node_view(node)),
        ensures
            final(self).wf(),
            final(self).scope == old(self).scope,
            r == (!(l is Empty) && !old(self).has(l)),
            r ==> final(self).nodes() == old(self).nodes().insert(l, node_view(node))
                && final(self).refs() == old(self).refs().insert(l, 0nat) && final(self).spec_size()
                == old(self).spec_size() + 1,
            !r ==> *final(self) == *old(self),
    {
        match &l {
            Label::Empty => false,
            _ => {
                match self.find(l) {
                    Some(_) => false,
                    None => {
                        let base = shard_byte(&self.scope);
                        let k = (l.map().id() - base) as usize;
                        let ghost olds = self.shards@[k as int]@;
                        let ghost theentry = Entry { node, references: 0 };
                        let mut tmp: Vec<(Label, Entry)> = Vec::new();
                        self.shards.set_and_swap(k, &mut tmp);
                        tmp.push((l, Entry { node, references: 0 }));
                        self.shards.set_and_swap(k, &mut tmp);
                        proof {
                            assert(self.shards@ =~= old(self).shards@.update(
                                k as int,
                                self.shards@[k as int],
                            ));
                            let news = self.shards@[k as int]@;
                            assert(news == olds.push((l, theentry)));
                            assert forall|i: int, j: int|
                                0 <= i < j < news.len() implies news[i].0 != news[j].0 by {
                                if j < olds.len() {
                                } else {
                                    assert(news[j].0 == l);
                                    assert(!shard_has(olds, l));
                                    assert(news[i] == olds[i]);
                                }
                            }
                            lemma_store_update(*old(self), *self, k as int);
                            assert(shard_has(news, l)) by {
                                assert(news[olds.len() as int].0 == l);
                            }
                            let w = shard_at(news, l);
                            assert(news[w].0 == l);
                            assert(w == olds.len() as int) by {
                                if w < olds.len() {
                                    assert(olds[w].0 == l);
                                    assert(shard_has(olds, l));
                                }
                            }
                            assert forall|x: Label|
                                x != l && old(self).has(x) implies #[trigger] self.has(x)
                                && self.entry_of(x) == old(self).entry_of(x) by {
                                lemma_same_entry_push(olds, news, x, *old(self), *self, k as int);
                            }
                            assert forall|x: Label| #[trigger]
                                self.has(x) && x != l implies old(self).has(x) by {
                                if self.sidx(x) == k {
                                    let w2 = shard_at(news, x);
                                    assert(news[w2].0 == x);
                                    assert(w2 < olds.len());
                                    assert(shard_has(olds, x));
                                }
                            }
                            assert(self.nodes() =~= old(self).nodes().insert(l, node_view(theentry.node)));
                            assert(self.refs() =~= old(self).refs().insert(l, 0nat));
                            lemma_total_len_update(old(self).shards@, self.shards@, k as int);
                        }
                        true
                    },
                }
            },
        }
    }

    /// Adds one reference to `l`; counts saturate rather than overflow.
    /// The empty label has no entry and no count.
    pub fn incref(&mut self, l: Label)
        requires
            old(self).wf(),
            old(self).covers(l) || l is Empty,
            !(l is Empty) ==> old(self).has(l),
        ensures
            final(self).wf(),
            final(self).scope == old(self).scope,
            final(self).nodes() == old(self).nodes(),
            final(self).spec_size() == old(self).spec_size(),
            l is Empty ==> *final(self) == *old(self),
            !(l is Empty) ==> final(self).refs() == old(self).refs().insert(
                l,
                sat_inc(old(self).refs()[l]),
            ),
    {
        match &l {
            Label::Empty => {},
            _ => {
                match self.find(l) {
                    Some(i) => {
                        let base = shard_byte(&self.scope);
                        let k = (l.map().id() - base) as usize;
                        let ghost olds = self.shards@[k as int]@;
                        let node = self.shards[k][i].1.node.duplicate();
                        let refs = self.shards[k][i].1.references;
                        let new_refs = if refs == u64::MAX {
                            refs
                        } else {
                            refs + 1
                        };
                        let mut tmp: Vec<(Label, Entry)> = Vec::new();
                        self.shards.set_and_swap(k, &mut tmp);
                        tmp.set(i, (l, Entry { node, references: new_refs }));
                        self.shards.set_and_swap(k, &mut tmp);
                        proof {
                            assert(self.shards@ =~= old(self).shards@.update(
                                k as int,
                                self.shards@[k as int],
                            ));
                            assert(self.shards@[k as int]@ =~= olds.update(
                                i as int,
                                (l, self.shards@[k as int]@[i as int].1),
                            ));
                            self.lemma_after_set(*old(self), k as int, i as int, olds, l);
                            assert(self.nodes() =~= old(self).nodes());
                            assert(self.refs() =~= old(self).refs().insert(
                                l,
                                sat_inc(old(self).refs()[l]),
                            ));
                        }
                    },
                    None => {},
                }
            },
        }
    }

    /// Removes one reference from `l`. When the last reference goes away the
    /// entry is dropped and its node handed back, unless `preserve` keeps the
    /// entry in place at a count of zero. Absent or empty labels change
    /// nothing.
    pub fn try_decref(&mut self, l: Label, preserve: bool) -> (r: Option<Node>)
        requires
            old(self).wf(),
            old(self).covers(l) || l is Empty,
        ensures
            final(self).wf(),
            final(self).scope == old(self).scope,
            !old(self).has(l) ==> *final(self) == *old(self) && r is None,
            old(self).has(l) && old(self).refs()[l] >= 2 ==> {
                &&& final(self).nodes() == old(self).nodes()
                &&& final(self).refs() == old(self).refs().insert(
                    l,
                    (old(self).refs()[l] - 1) as nat,
                )
                &&& final(self).spec_size() == old(self).spec_size()
                &&& r is None
            },
            old(self).has(l) && old(self).refs()[l] <= 1 && preserve ==> {
                &&& final(self).nodes() == old(self).nodes()
                &&& final(self).refs() == old(self).refs().insert(l, 0nat)
                &&& final(self).spec_size() == old(self).spec_size()
                &&& r is None
            },
            old(self).has(l) && old(self).refs()[l] <= 1 && !preserve ==> {
                &&& final(self).nodes() == old(self).nodes().remove(l)
                &&& final(self).refs() == old(self).refs().remove(l)
                &&& final(self).spec_size() == old(self).spec_size() - 1
                &&& r matches Some(n) && node_view(n) == old(self).nodes()[l]
            },
    {
        match &l {
            Label::Empty => None,
            _ => {
                match self.find(l) {
                    None => None,
                    Some(i) => {
                        let base = shard_byte(&self.scope);
                        let k = (l.map().id() - base) as usize;
                        let refs = self.shards[k][i].1.references;
                        if refs >= 2 {
                            let ghost olds = self.shards@[k as int]@;
                            let node = self.shards[k][i].1.node.duplicate();
                            let mut tmp: Vec<(Label, Entry)> = Vec::new();
                            self.shards.set_and_swap(k, &mut tmp);
                            tmp.set(i, (l, Entry { node, references: refs - 1 }));
                            self.shards.set_and_swap(k, &mut tmp);
                            proof {
                                assert(self.shards@ =~= old(self).shards@.update(
                                    k as int,
                                    self.shards@[k as int],
                                ));
                                assert(self.shards@[k as int]@ =~= olds.update(
                                    i as int,
                                    (l, self.shards@[k as int]@[i as int].1),
                                ));
                                self.lemma_after_set(*old(self), k as int, i as int, olds, l);
                                assert(self.nodes() =~= old(self).nodes());
                                assert(self.refs() =~= old(self).refs().insert(
                                    l,
                                    (old(self).refs()[l] - 1) as nat,
                                ));
                            }
                            None
                        } else if preserve {
                            let ghost olds = self.shards@[k as int]@;
                            let node = self.shards[k][i].1.node.duplicate();
                            let newrefs = if refs == 0 {
                                0
                            } else {
                                refs - 1
                            };
                            let mut tmp: Vec<(Label, Entry)> = Vec::new();
                            self.shards.set_and_swap(k, &mut tmp);
                            tmp.set(i, (l, Entry { node, references: newrefs }));
                            self.shards.set_and_swap(k, &mut tmp);
                            proof {
                                assert(self.shards@ =~= old(self).shards@.update(
                                    k as int,
                                    self.shards@[k as int],
                                ));
                                assert(self.shards@[k as int]@ =~= olds.update(
                                    i as int,
                                    (l, self.shards@[k as int]@[i as int].1),
                                ));
                                self.lemma_after_set(*old(self), k as int, i as int, olds, l);
                                assert(self.nodes() =~= old(self).nodes());
                                assert(self.refs() =~= old(self).refs().insert(l, 0nat));
                            }
                            None
                        } else {
                            let ghost olds = self.shards@[k as int]@;
                            let mut tmp: Vec<(Label, Entry)> = Vec::new();
                            self.shards.set_and_swap(k, &mut tmp);
                            let pair = tmp.swap_remove(i);
                            self.shards.set_and_swap(k, &mut tmp);
                            proof {
                                assert(self.shards@ =~= old(self).shards@.update(
                                    k as int,
                                    self.shards@[k as int],
                                ));
                                let news = self.shards@[k as int]@;
                                assert(news =~= olds.update(i as int, olds.last()).drop_last());
                                lemma_store_update(*old(self), *self, k as int);
                                assert forall|a: int, b: int|
                                    0 <= a < b < news.len() implies news[a].0 != news[b].0 by {}
                                assert forall|x: Label|
                                    x != l && old(self).has(x) implies #[trigger] self.has(x)
                                    && self.entry_of(x) == old(self).entry_of(x) by {
                                    if old(self).sidx(x) == k {
                                        let w = shard_at(olds, x);
                                        assert(olds[w].0 == x);
                                        let wn = if w == olds.len() - 1 {
                                            i as int
                                        } else {
                                            w
                                        };
                                        if wn < news.len() {
                                            assert(news[wn].0 == x);
                                            assert(shard_has(news, x));
                                            let w2 = shard_at(news, x);
                                            assert(news[w2].0 == x);
                                            assert(w2 == wn);
                                        } else {
                                            assert(w == i as int);
                                            assert(false);
                                        }
                                    }
                                }
                                assert forall|x: Label| #[trigger]
                                    self.has(x) implies x != l && old(self).has(x) by {
                                    if self.sidx(x) == k {
                                        let w2 = shard_at(news, x);
                                        assert(news[w2].0 == x);
                                        if w2 == i as int && i as int == olds.len() - 1 {
                                            assert(false);
                                        }
                                        if news[w2].0 == l {
                                            let wl = if w2 == i as int {
                                                olds.len() - 1
                                            } else {
                                                w2
                                            };
                                            assert(olds[wl].0 == l);
                                            assert(wl != i as int);
                                            assert(false);
                                        }
                                        assert(shard_has(olds, x));
                                    }
                                }
                                assert(self.nodes() =~= old(self).nodes().remove(l));
                                assert(self.refs() =~= old(self).refs().remove(l));
                                lemma_total_len_update(old(self).shards@, self.shards@, k as int);
                            }
                            Some(pair.1.node)
                        }
                    },
                }
            },
        }
    }

    /// Removes one reference from `l`, which must be stored or empty;
    /// spelled out over `try_decref`'s contract.
    pub fn decref(&mut self, l: Label, preserve: bool) -> (r: Option<Node>)
        requires
            old(self).wf(),
            old(self).covers(l) || l is Empty,
            !(l is Empty) ==> old(self).has(l),
        ensures
            final(self).wf(),
            final(self).scope == old(self).scope,
            l is Empty ==> *final(self) == *old(self) && r is None,
            !(l is Empty) && old(self).refs()[l] >= 2 ==> final(self).nodes() == old(self).nodes()
                && final(self).refs() == old(self).refs().insert(
                l,
                (old(self).refs()[l] - 1) as nat,
            ) && r is None,
            !(l is Empty) && old(self).refs()[l] <= 1 && preserve ==> final(self).nodes() == old(
                self,
            ).nodes() && final(self).refs() == old(self).refs().insert(l, 0nat) && r is None,
            !(l is Empty) && old(self).refs()[l] <= 1 && !preserve ==> final(self).nodes() == old(
                self,
            ).nodes().remove(l) && final(self).refs() == old(self).refs().remove(l) && (
            r matches Some(n) && node_view(n) == old(self).nodes()[l]),
    {
        self.try_decref(l, preserve)
    }

    /// The canonical label of a node standing at `scope`.
    pub fn label_at(&self, scope: &Prefix, node: &Node) -> (r: Label)
        requires
            self.wf(),
            scope.wf(),
        ensures
            r == spec_label_at(scope@, node_view(*node)),
    {
        match node {
            Node::Empty => Label::Empty,
            Node::Internal(l, rr) => {
                Label::Internal(MapId::internal(scope), internal_hash(l, rr, &self.empty_d))
            },
            Node::Leaf(k, v) => {
                let kd = k.digest();
                let vd = v.digest();
                Label::Leaf(MapId::leaf(&kd), leaf_hash(&kd, &vd))
            },
        }
    }

    /// Frame lemma used by every in-place shard update: an update that keeps
    /// a slot's label keeps every other label's entry.
    proof fn lemma_after_set(
        &self,
        olded: Store,
        k: int,
        i: int,
        olds: Seq<(Label, Entry)>,
        l: Label,
    )
        requires
            olded.wf(),
            0 <= k < olded.shards@.len(),
            olds == olded.shards@[k]@,
            0 <= i < olds.len(),
            olds[i].0 == l,
            i == shard_at(olds, l),
            self.scope == olded.scope,
            self.empty_d == olded.empty_d,
            self.shards@ == olded.shards@.update(k, self.shards@[k]),
            self.shards@[k]@ == olds.update(i, (l, self.shards@[k]@[i].1)),
            node_view(self.shards@[k]@[i].1.node) == node_view(olds[i].1.node),
        ensures
            self.wf(),
            self.spec_size() == olded.spec_size(),
            forall|x: Label| self.has(x) == olded.has(x),
            forall|x: Label|
                x != l && olded.has(x) ==> #[trigger] self.entry_of(x) == olded.entry_of(x),
            olded.has(l) && self.has(l) && self.entry_of(l) == self.shards@[k]@[i].1,
    {
        let news = self.shards@[k]@;
        assert(news.len() == olds.len());
        assert forall|a: int| 0 <= a < news.len() implies news[a].0 == olds[a].0 by {}
        assert forall|a: int, b: int| 0 <= a < b < news.len() implies news[a].0 != news[b].0 by {}
        assert forall|x: Label| self.has(x) == olded.has(x) by {
            if olded.covers(x) && olded.sidx(x) == k {
                if shard_has(olds, x) {
                    let w = shard_at(olds, x);
                    assert(olds[w].0 == x);
                    assert(news[w].0 == x);
                    assert(shard_has(news, x));
                }
                if shard_has(news, x) {
                    let w = shard_at(news, x);
                    assert(news[w].0 == x);
                    assert(olds[w].0 == x);
                    assert(shard_has(olds, x));
                }
            }
        }
        assert forall|x: Label|
            x != l && olded.has(x) implies #[trigger] self.entry_of(x) == olded.entry_of(x) by {
            if olded.sidx(x) == k {
                let w = shard_at(olds, x);
                let w2 = shard_at(news, x);
                assert(olds[w].0 == x);
                assert(news[w2].0 == x);
                assert(olds[w2].0 == x);
                assert(w2 == w);
                assert(w != i);
            }
        }
        assert(shard_has(news, l)) by {
            assert(news[i].0 == l);
        }
        assert(shard_at(news, l) == i) by {
            let w = shard_at(news, l);
            assert(news[w].0 == l);
            assert(olds[w].0 == l);
            assert(w == shard_at(olds, l)) by {
                if w != i {
                    assert(olds[i].0 == l);
                }
            }
        }
        lemma_total_len_update(olded.shards@, self.shards@, k);
    }
}


/// What a split hands back: two stores over the two halves of the scope, or
/// the store itself once the scope is a single shard.
pub enum SplitOutcome {
    Halves(Store, Store),
    Unsplittable(Store),
}

impl Store {
    /// Splits the store into the two halves of its scope: the left half
    /// keeps the lower shards, the right half the upper ones, and together
    /// they hold exactly the entries this store held. A store already down
    /// to one shard is handed back whole.
    pub fn split(self) -> (r: SplitOutcome)
        requires
            self.wf(),
        ensures
            match r {
                SplitOutcome::Unsplittable(s) => s == self && self.scope.depth >= DEPTH,
                SplitOutcome::Halves(l, rr) => {
                    &&& self.scope.depth < DEPTH
                    &&& l.wf() && rr.wf()
                    &&& l.scope@ == self.scope@.push(false)
                    &&& rr.scope@ == self.scope@.push(true)
                    &&& forall|x: Label|
                        #![trigger l.has(x)]
                        l.has(x) == (self.has(x) && l.covers(x))
                    &&& forall|x: Label|
                        #![trigger rr.has(x)]
                        rr.has(x) == (self.has(x) && rr.covers(x))
                    &&& forall|x: Label|
                        l.has(x) ==> #[trigger] l.nodes()[x] == self.nodes()[x] && l.refs()[x]
                            == self.refs()[x]
                    &&& forall|x: Label|
                        rr.has(x) ==> #[trigger] rr.nodes()[x] == self.nodes()[x] && rr.refs()[x]
                            == self.refs()[x]
                    &&& forall|x: Label| #[trigger] self.has(x) ==> l.covers(x) || rr.covers(x)
                    &&& forall|x: Label| !(#[trigger] l.covers(x) && rr.covers(x))
                    &&& l.spec_size() + rr.spec_size() == self.spec_size()
                },
            },
    {
        if self.scope.depth >= DEPTH {
            return SplitOutcome::Unsplittable(self);
        }
        let ghost whole = self;
        let Store { mut shards, scope, empty_d } = self;
        let half = shards.len() / 2;
        let upper = shards.split_off(half);
        let left_scope = scope.left();
        let right_scope = scope.right();
        let l = Store { shards, scope: left_scope, empty_d };
        let rr = Store { shards: upper, scope: right_scope, empty_d };
        proof {
            lemma_prefix_byte_push(scope@, false);
            lemma_prefix_byte_push(scope@, true);
            let d = scope.depth as int;
            let count = Store::spec_shard_count(d);
            assert(count == 256int / pow2_8(d));
            assert(half as int == count / 2);
            assert(Store::spec_shard_count(d + 1) == count / 2);
            assert(l.base() == whole.base());
            assert(rr.base() == whole.base() + half);
            assert(l.wf());
            assert(rr.wf());
            assert forall|x: Label|
                #![trigger l.has(x)]
                l.has(x) == (whole.has(x) && l.covers(x)) by {
                if l.covers(x) {
                    assert(l.shards@[l.sidx(x)] == whole.shards@[whole.sidx(x)]);
                }
            }
            assert forall|x: Label|
                #![trigger rr.has(x)]
                rr.has(x) == (whole.has(x) && rr.covers(x)) by {
                if rr.covers(x) {
                    assert(rr.shards@[rr.sidx(x)] == whole.shards@[whole.sidx(x)]);
                }
            }
            assert forall|x: Label|
                l.has(x) implies #[trigger] l.nodes()[x] == whole.nodes()[x] && l.refs()[x]
                == whole.refs()[x] by {
                assert(l.shards@[l.sidx(x)] == whole.shards@[whole.sidx(x)]);
            }
            assert forall|x: Label|
                rr.has(x) implies #[trigger] rr.nodes()[x] == whole.nodes()[x] && rr.refs()[x]
                == whole.refs()[x] by {
                assert(rr.shards@[rr.sidx(x)] == whole.shards@[whole.sidx(x)]);
            }
            lemma_total_len_split(whole.shards@, half as int);
            assert(l.shards@ =~= whole.shards@.subrange(0, half as int));
            assert(rr.shards@ =~= whole.shards@.subrange(half as int, whole.shards@.len() as int));
            assert(l.spec_size() + rr.spec_size() == whole.spec_size());
        }
        SplitOutcome::Halves(l, rr)
    }

    /// Joins the two halves of a split scope back into one store over their
    /// parent scope, holding exactly the entries of both.
    pub fn merge(left: Store, right: Store) -> (r: Store)
        requires
            left.wf(),
            right.wf(),
            1 <= left.scope.depth <= DEPTH,
            right.scope.depth == left.scope.depth,
            left.scope@.drop_last() == right.scope@.drop_last(),
            left.scope@.last() == false,
            right.scope@.last() == true,
        ensures
            r.wf(),
            r.scope@ == left.scope@.drop_last(),
            forall|x: Label|
                #![trigger r.has(x)]
                r.has(x) == (left.has(x) || right.has(x)),
            forall|x: Label|
                left.has(x) ==> #[trigger] r.nodes()[x] == left.nodes()[x] && r.refs()[x]
                    == left.refs()[x],
            forall|x: Label|
                right.has(x) ==> #[trigger] r.nodes()[x] == right.nodes()[x] && r.refs()[x]
                    == right.refs()[x],
            r.spec_size() == left.spec_size() + right.spec_size(),
    {
        let parent = Prefix { bits: left.scope.bits, depth: left.scope.depth - 1 };
        let ghost lw = left;
        let ghost rw = right;
        proof {
            assert(digest_bit(left.scope.bits, left.scope.depth - 1) == left.scope@.last());
            assert(parent.wf());
            assert(parent@ =~= left.scope@.drop_last());
            lemma_prefix_byte_push(parent@, false);
            lemma_prefix_byte_push(parent@, true);
            assert(parent@.push(false) =~= left.scope@);
            assert(parent@.push(true) =~= right.scope@);
            assert(prefix_byte(left.scope@) == prefix_byte(parent@));
        }
        let Store { shards: mut lshards, scope: _, empty_d } = left;
        let Store { shards: mut rshards, scope: _, empty_d: _ } = right;
        lshards.append(&mut rshards);
        let r = Store { shards: lshards, scope: parent, empty_d };
        proof {
            let d = parent.depth as int;
            let half = Store::spec_shard_count(d + 1);
            assert(Store::spec_shard_count(d) == 2 * half);
            assert(r.base() == lw.base());
            assert(rw.base() == lw.base() + half);
            assert(r.wf()) by {
                assert forall|k: int, j: int|
                    0 <= k < r.shards@.len() && 0 <= j < r.shards@[k]@.len() implies (
                #[trigger] r.shards@[k]@[j]).0.spec_map().id == r.base() + k && !(
                r.shards@[k]@[j].0 is Empty) && entry_ok(
                    r.shards@[k]@[j].0,
                    node_view(r.shards@[k]@[j].1.node),
                ) by {
                    if k < half {
                        assert(r.shards@[k] == lw.shards@[k]);
                    } else {
                        assert(r.shards@[k] == rw.shards@[k - half]);
                    }
                }
                assert forall|k: int|
                    0 <= k < r.shards@.len() implies unique_keys(#[trigger] r.shards@[k]@) by {
                    if k < half {
                        assert(r.shards@[k] == lw.shards@[k]);
                    } else {
                        assert(r.shards@[k] == rw.shards@[k - half]);
                    }
                }
            }
            assert forall|x: Label|
                #![trigger r.has(x)]
                r.has(x) == (lw.has(x) || rw.has(x)) by {
                if r.covers(x) {
                    if r.sidx(x) < half {
                        assert(r.shards@[r.sidx(x)] == lw.shards@[lw.sidx(x)]);
                    } else {
                        assert(r.shards@[r.sidx(x)] == rw.shards@[rw.sidx(x)]);
                    }
                }
            }
            assert forall|x: Label|
                lw.has(x) implies #[trigger] r.nodes()[x] == lw.nodes()[x] && r.refs()[x]
                == lw.refs()[x] by {
                assert(r.shards@[r.sidx(x)] == lw.shards@[lw.sidx(x)]);
            }
            assert forall|x: Label|
                rw.has(x) implies #[trigger] r.nodes()[x] == rw.nodes()[x] && r.refs()[x]
                == rw.refs()[x] by {
                assert(r.shards@[r.sidx(x)] == rw.shards@[rw.sidx(x)]);
            }
            lemma_total_len_split(r.shards@, half);
            assert(r.shards@.subrange(0, half) =~= lw.shards@);
            assert(r.shards@.subrange(half, r.shards@.len() as int) =~= rw.shards@);
        }
        r
    }
}

/// The entry count of a shard sequence splits at any point.
proof fn lemma_total_len_split(s: Seq<Vec<(Label, Entry)>>, at: int)
    requires
        0 <= at <= s.len(),
    ensures
        total_len(s) == total_len(s.subrange(0, at)) + total_len(s.subrange(at, s.len() as int)),
    decreases s.len(),
{
    if s.len() == 0 {
        assert(s.subrange(0, at) =~= s);
        assert(s.subrange(at, 0) =~= Seq::<Vec<(Label, Entry)>>::empty());
    } else if at == s.len() {
        assert(s.subrange(0, at) =~= s);
        assert(s.subrange(at, s.len() as int) =~= Seq::<Vec<(Label, Entry)>>::empty());
    } else {
        lemma_total_len_split(s.drop_last(), at);
        assert(s.subrange(0, at) =~= s.drop_last().subrange(0, at));
        assert(s.subrange(at, s.len() as int).drop_last() =~= s.drop_last().subrange(
            at,
            s.len() - 1,
        ));
        assert(s.subrange(at, s.len() as int).last() == s.last());
    }
}

/// One more reference, saturating at the counter's top.
pub open spec fn sat_inc(n: nat) -> nat {
    if n >= u64::MAX {
        n
    } else {
        n + 1
    }
}

/// The label a node gets when it stands at position `p`.
pub open spec fn spec_label_at(p: Seq<bool>, n: NodeV) -> Label {
    match n {
        NodeV::Empty => Label::Empty,
        NodeV::Internal(l, r) => internal_label(p, l, r),
        NodeV::Leaf { key, kd, value, vd } => Label::Leaf(
            MapId { id: digest_byte(kd, 0) },
            leaf_digest(kd, vd),
        ),
    }
}

/// Total entry count of a sequence of shards.
pub open spec fn total_len(s: Seq<Vec<(Label, Entry)>>) -> int
    decreases s.len(),
{
    if s.len() == 0 {
        0
    } else {
        total_len(s.drop_last()) + s.last()@.len()
    }
}

proof fn lemma_total_len_zero(s: Seq<Vec<(Label, Entry)>>)
    requires
        forall|i: int| 0 <= i < s.len() ==> (#[trigger] s[i])@.len() == 0,
    ensures
        total_len(s) == 0,
    decreases s.len(),
{
    if s.len() > 0 {
        lemma_total_len_zero(s.drop_last());
    }
}

proof fn lemma_total_len_prefix(s: Seq<Vec<(Label, Entry)>>, k: int)
    requires
        0 <= k <= s.len(),
    ensures
        total_len(s.take(k)) + total_len_from(s, k) == total_len(s),
    decreases s.len() - k,
{
    if k == s.len() {
        assert(s.take(k) =~= s);
    } else {
        lemma_total_len_prefix(s, k + 1);
        lemma_total_len_step(s, k);
    }
}

/// Entry count of the shards from `k` on.
pub open spec fn total_len_from(s: Seq<Vec<(Label, Entry)>>, k: int) -> int
    decreases s.len() - k,
{
    if k < 0 || k >= s.len() {
        0
    } else {
        s[k]@.len() + total_len_from(s, k + 1)
    }
}

proof fn lemma_total_len_step(s: Seq<Vec<(Label, Entry)>>, k: int)
    requires
        0 <= k < s.len(),
    ensures
        total_len(s.take(k + 1)) == total_len(s.take(k)) + s[k]@.len(),
{
    assert(s.take(k + 1).drop_last() =~= s.take(k));
    assert(s.take(k + 1).last() == s[k]);
}

proof fn lemma_total_len_mono(s: Seq<Vec<(Label, Entry)>>, k: int)
    requires
        0 <= k <= s.len(),
    ensures
        total_len(s.take(k)) <= total_len(s),
    decreases s.len() - k,
{
    lemma_total_len_nonneg(s, k);
    lemma_total_len_prefix(s, k);
}

proof fn lemma_total_len_nonneg(s: Seq<Vec<(Label, Entry)>>, k: int)
    ensures
        total_len_from(s, k) >= 0,
    decreases s.len() - k,
{
    if 0 <= k < s.len() {
        lemma_total_len_nonneg(s, k + 1);
    }
}

/// Updating one shard changes the total by that shard's change.
proof fn lemma_total_len_update(
    olds: Seq<Vec<(Label, Entry)>>,
    news: Seq<Vec<(Label, Entry)>>,
    k: int,
)
    requires
        0 <= k < olds.len(),
        news == olds.update(k, news[k]),
        news.len() == olds.len(),
    ensures
        total_len(news) == total_len(olds) + news[k]@.len() - olds[k]@.len(),
    decreases olds.len(),
{
    if olds.len() - 1 == k {
        assert(news.drop_last() =~= olds.drop_last());
    } else {
        assert(news.drop_last() =~= olds.drop_last().update(k, news[k]));
        lemma_total_len_update(olds.drop_last(), news.drop_last(), k);
        assert(news.last() == olds.last());
    }
}

/// Changing one shard leaves every label of the other shards untouched.
proof fn lemma_store_update(olded: Store, newed: Store, k: int)
    requires
        olded.wf(),
        0 <= k < olded.shards@.len(),
        newed.scope == olded.scope,
        newed.empty_d == olded.empty_d,
        newed.shards@.len() == olded.shards@.len(),
        newed.shards@ == olded.shards@.update(k, newed.shards@[k]),
    ensures
        newed.base() == olded.base(),
        forall|x: Label| newed.sidx(x) == olded.sidx(x) && newed.covers(x) == olded.covers(x),
        forall|x: Label|
            olded.sidx(x) != k ==> newed.has(x) == olded.has(x) && (olded.has(x)
                ==> #[trigger] newed.entry_of(x) == olded.entry_of(x)),
{
    assert forall|x: Label|
        olded.sidx(x) != k implies newed.has(x) == olded.has(x) && (olded.has(x)
            ==> #[trigger] newed.entry_of(x) == olded.entry_of(x)) by {
        if olded.covers(x) {
            assert(newed.shards@[olded.sidx(x)] == olded.shards@[olded.sidx(x)]);
        }
    }
}

/// The whole-sequence count splits as prefix plus suffix, at zero.
proof fn lemma_total_len_prefix_pub(s: Seq<Vec<(Label, Entry)>>)
    ensures
        total_len(s) == total_len_from(s, 0),
{
    lemma_total_len_prefix(s, 0);
    assert(s.take(0) =~= Seq::<Vec<(Label, Entry)>>::empty());
}

/// Suffix counts are sums of lengths, never negative.
proof fn lemma_total_len_from_nonneg(s: Seq<Vec<(Label, Entry)>>, k: int)
    ensures
        total_len_from(s, k) >= 0,
    decreases s.len() - k,
{
    if 0 <= k < s.len() {
        lemma_total_len_from_nonneg(s, k + 1);
    }
}

/// After a push of a fresh label, every other label keeps its entry.
proof fn lemma_same_entry_push(
    olds: Seq<(Label, Entry)>,
    news: Seq<(Label, Entry)>,
    x: Label,
    olded: Store,
    newed: Store,
    k: int,
)
    requires
        olded.wf(),
        0 <= k < olded.shards@.len(),
        olds == olded.shards@[k]@,
        news == newed.shards@[k]@,
        newed.shards@ == olded.shards@.update(k, newed.shards@[k]),
        newed.scope == olded.scope,
        news.len() == olds.len() + 1,
        forall|j: int| 0 <= j < olds.len() ==> news[j] == olds[j],
        x != news.last().0,
        olded.has(x),
        unique_keys(news),
    ensures
        newed.has(x),
        newed.entry_of(x) == olded.entry_of(x),
{
    if olded.sidx(x) == k {
        let w = shard_at(olds, x);
        assert(olds[w].0 == x);
        assert(news[w].0 == x);
        assert(shard_has(news, x));
        let w2 = shard_at(news, x);
        assert(news[w2].0 == x);
        assert(w2 == w) by {
            if w2 != w {
                assert(news[w].0 == news[w2].0);
            }
        }
    } else {
        assert(newed.shards@[olded.sidx(x)] == olded.shards@[olded.sidx(x)]);
    }
}

/// Two to the eighth at most; the width of a scope this deep.
pub open spec fn pow2_8(d: int) -> int {
    if d <= 0 {
        1
    } else if d == 1 {
        2
    } else if d == 2 {
        4
    } else if d == 3 {
        8
    } else if d == 4 {
        16
    } else if d == 5 {
        32
    } else if d == 6 {
        64
    } else if d == 7 {
        128
    } else {
        256
    }
}

impl Store {
    /// A store over the whole key space covers every non-empty label.
    pub proof fn lemma_full_covers(&self, l: Label)
        requires
            self.wf(),
            self.scope.depth == 0,
            !(l is Empty),
        ensures
            self.covers(l),
    {
        assert(self.scope@.len() == 0);
        assert(prefix_byte(self.scope@) == 0);
        assert(self.shards@.len() == 256);
    }

    /// The entry count never goes below zero.
    pub proof fn lemma_size_nonneg(&self)
        ensures
            self.spec_size() >= 0,
    {
        lemma_total_len_from_nonneg(self.shards@, 0);
        lemma_total_len_prefix_pub(self.shards@);
    }

    /// Every stored entry satisfies the slot conditions.
    pub proof fn lemma_entry_ok(&self, l: Label)
        requires
            self.wf(),
            self.has(l),
        ensures
            entry_ok(l, self.nodes()[l]),
    {
        let k = self.sidx(l);
        let s = self.shards@[k]@;
        let j = shard_at(s, l);
        assert(s[j].0 == l);
        assert(entry_ok(s[j].0, node_view(s[j].1.node)));
    }
}

} // verus!
