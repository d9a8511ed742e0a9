use vstd::prelude::*;
use crate::batch::{Action, Batch, Operation, op_view, op_wf, ops_view, ops_wf, sorted_ops};
use crate::digest::{Digest, digest_lt};
use crate::errors::QueryError;
use crate::model::{OpSpec, digest_of};
use crate::wrap::Wrap;

verus! {

/// A read issued while building a transaction; redeem it against the
/// response that execution returns.
#[derive(Clone, Copy, PartialEq, Eq, Structural, Debug)]
pub struct Query {
    pub path: Digest,
}

/// A batch under construction. Operations are kept in strict path order, so
/// a second operation on the same key is caught as it is added, and
/// finalizing costs nothing.
#[derive(Debug)]
pub struct TableTransaction {
    pub operations: Vec<Operation>,
}

impl TableTransaction {
    pub open spec fn wf(self) -> bool {
        sorted_ops(self.operations@) && ops_wf(self.operations@)
    }

    /// The operations so far, as the specification sees them.
    pub open spec fn view(self) -> Seq<OpSpec> {
        ops_view(self.operations@)
    }

    /// An empty transaction.
    pub fn new() -> (r: TableTransaction)
        ensures
            r.wf(),
            r@ == Seq::<OpSpec>::empty(),
    {
        let r = TableTransaction { operations: Vec::new() };
        proof {
            assert(r@ =~= Seq::<OpSpec>::empty());
        }
        r
    }

    /// Where `path` belongs in the order, or an equal neighbour.
    fn position(&self, path: &Digest) -> (r: (usize, bool))
        requires
            self.wf(),
        ensures
            r.1 == (exists|i: int|
                0 <= i < self.operations@.len() && (#[trigger] self.operations@[i]).path == *path),
            !r.1 ==> {
                &&& r.0 <= self.operations@.len()
                &&& forall|i: int|
                    0 <= i < r.0 ==> digest_lt(
                        (#[trigger] self.operations@[i]).path,
                        *path,
                    )
                &&& forall|i: int|
                    r.0 <= i < self.operations@.len() ==> digest_lt(
                        *path,
                        (#[trigger] self.operations@[i]).path,
                    )
            },
    {
        let ghost s = self.operations@;
        let mut i: usize = 0;
        while i < self.operations.len()
            invariant
                self.wf(),
                s == self.operations@,
                i <= s.len(),
                forall|j: int| 0 <= j < i ==> digest_lt((#[trigger] s[j]).path, *path),
            decreases s.len() - i,
        {
            let p = self.operations[i].path;
            if p == *path {
                return (i, true);
            }
            let lt = digest_less(&p, path);
            if !lt {
                proof {
                    crate::batch::lemma_digest_order(p, *path);
                    assert forall|j: int| i <= j < s.len() implies digest_lt(
                        *path,
                        (#[trigger] s[j]).path,
                    ) by {
                        crate::batch::lemma_digest_order(s[j].path, *path);
                        if j > i {
                            assert(digest_lt(s[i as int].path, s[j].path));
                        }
                        crate::batch::lemma_digest_lt_trans(s[j].path, *path, s[i as int].path);
                    }
                    assert forall|j: int|
                        0 <= j < s.len() && (#[trigger] s[j]).path == *path implies false by {
                        if j < i as int {
                        } else {
                            assert(digest_lt(*path, s[j].path));
                            crate::batch::lemma_digest_order(s[j].path, *path);
                        }
                    }
                }
                return (i, false);
            }
            i = i + 1;
        }
        proof {
            assert forall|j: int|
                0 <= j < s.len() && (#[trigger] s[j]).path == *path implies false by {
                crate::batch::lemma_digest_order(s[j].path, *path);
            }
        }
        (i, false)
    }

    /// Inserts `op` at its place in the order; refuses a second operation on
    /// an already-used path.
    fn push_op(&mut self, op: Operation) -> (r: Result<(), QueryError>)
        requires
            old(self).wf(),
            op_wf(op),
        ensures
            final(self).wf(),
            match r {
                Ok(_) => {
                    &&& !(exists|i: int|
                        0 <= i < old(self).operations@.len() && (
                        #[trigger] old(self).operations@[i]).path == op.path)
                    &&& final(self).operations@.to_multiset() == old(
                        self,
                    ).operations@.to_multiset().insert(op)
                    &&& exists|i: int|
                        0 <= i <= old(self).operations@.len() && final(self).operations@ == old(
                            self,
                        ).operations@.insert(i, op)
                },
                Err(e) => {
                    &&& e == QueryError::KeyCollision
                    &&& *final(self) == *old(self)
                    &&& exists|i: int|
                        0 <= i < old(self).operations@.len() && (
                        #[trigger] old(self).operations@[i]).path == op.path
                },
            },
    {
        let (pos, found) = self.position(&op.path);
        if found {
            Err(QueryError::KeyCollision)
        } else {
            let ghost olds = self.operations@;
            self.operations.insert(pos, op);
            proof {
                let s = self.operations@;
                assert(s == olds.insert(pos as int, op));
                assert forall|a: int, b: int| 0 <= a < b < s.len() implies digest_lt(
                    s[a].path,
                    s[b].path,
                ) by {
                    if a < pos as int && b == pos as int {
                        assert(s[a] == olds[a]);
                    } else if a == pos as int && b > pos as int {
                        assert(s[b] == olds[b - 1]);
                    } else if b < pos as int {
                        assert(s[a] == olds[a] && s[b] == olds[b]);
                    } else if a > pos as int {
                        assert(s[a] == olds[a - 1] && s[b] == olds[b - 1]);
                    } else if a < pos as int && b > pos as int {
                        assert(s[a] == olds[a] && s[b] == olds[b - 1]);
                        assert(digest_lt(olds[a].path, op.path));
                        assert(digest_lt(op.path, olds[b - 1].path));
                        crate::batch::lemma_digest_lt_trans(olds[a].path, op.path, olds[b - 1].path);
                    }
                }
                assert(ops_wf(s)) by {
                    assert forall|i: int| 0 <= i < s.len() implies op_wf(#[trigger] s[i]) by {
                        if i < pos as int {
                            assert(s[i] == olds[i]);
                        } else if i > pos as int {
                            assert(s[i] == olds[i - 1]);
                        }
                    }
                }
                olds.to_multiset_ensures();
                crate::transaction::lemma_insert_multiset(olds, pos as int, op);
            }
            Ok(())
        }
    }

    /// Schedules a write of `value` under `key`. Fails when the transaction
    /// already touches the key's path, and only then.
    pub fn set(&mut self, key: Vec<u8>, value: Vec<u8>) -> (r: Result<(), QueryError>)
        requires
            old(self).wf(),
        ensures
            final(self).wf(),
            match r {
                Ok(_) => exists|i: int|
                    0 <= i <= old(self)@.len() && final(self)@ == old(self)@.insert(
                        i,
                        OpSpec::Put { path: digest_of(key@), key: key@, value: value@ },
                    ),
                Err(e) => e == QueryError::KeyCollision && *final(self) == *old(self) && (exists|
                    i: int,
                |
                    0 <= i < old(self)@.len() && (#[trigger] old(self)@[i]).path() == digest_of(
                        key@,
                    )),
            },
    {
        let ghost gk = key@;
        let ghost gv = value@;
        let op = Operation::set(key, value);
        let ghost theop = op;
        let r = self.push_op(op);
        proof {
            lemma_push_op_view(*old(self), *self, theop, r is Ok);
            if r is Ok {
                let i0 = choose|i: int|
                    0 <= i <= old(self)@.len() && self@ == old(self)@.insert(i, op_view(theop));
                assert(op_view(theop) == (OpSpec::Put { path: digest_of(key@), key: key@, value: value@ }));
                assert(self@ == old(self)@.insert(
                    i0,
                    OpSpec::Put { path: digest_of(key@), key: key@, value: value@ },
                ));
            }
            if r is Err {
                let i0 = choose|i: int|
                    0 <= i < old(self).operations@.len() && (
                    #[trigger] old(self).operations@[i]).path == theop.path;
                assert(old(self)@[i0].path() == old(self).operations@[i0].path);
                assert(old(self)@[i0].path() == digest_of(key@));
            }
        }
        match r {
            Ok(_) => Ok(()),
            Err(e) => Err(e),
        }
    }

    /// Schedules removal of the record under `key`. Fails when the
    /// transaction already touches the key's path, and only then.
    pub fn remove(&mut self, key: Vec<u8>) -> (r: Result<(), QueryError>)
        requires
            old(self).wf(),
        ensures
            final(self).wf(),
            match r {
                Ok(_) => exists|i: int|
                    0 <= i <= old(self)@.len() && final(self)@ == old(self)@.insert(
                        i,
                        OpSpec::Remove { path: digest_of(key@), key: key@ },
                    ),
                Err(e) => e == QueryError::KeyCollision && *final(self) == *old(self) && (exists|
                    i: int,
                |
                    0 <= i < old(self)@.len() && (#[trigger] old(self)@[i]).path() == digest_of(
                        key@,
                    )),
            },
    {
        let ghost gk = key@;
        let op = Operation::remove(key);
        let ghost theop = op;
        let r = self.push_op(op);
        proof {
            lemma_push_op_view(*old(self), *self, theop, r is Ok);
            if r is Ok {
                let i0 = choose|i: int|
                    0 <= i <= old(self)@.len() && self@ == old(self)@.insert(i, op_view(theop));
                assert(op_view(theop) == (OpSpec::Remove { path: digest_of(key@), key: key@ }));
                assert(self@ == old(self)@.insert(
                    i0,
                    OpSpec::Remove { path: digest_of(key@), key: key@ },
                ));
            }
            if r is Err {
                let i0 = choose|i: int|
                    0 <= i < old(self).operations@.len() && (
                    #[trigger] old(self).operations@[i]).path == theop.path;
                assert(old(self)@[i0].path() == old(self).operations@[i0].path);
                assert(old(self)@[i0].path() == digest_of(key@));
            }
        }
        match r {
            Ok(_) => Ok(()),
            Err(e) => Err(e),
        }
    }

    /// Schedules a read of `key` and hands back the query to redeem against
    /// the response. Fails when the transaction already touches the key's
    /// path, and only then.
    pub fn get(&mut self, key: Vec<u8>) -> (r: Result<Query, QueryError>)
        requires
            old(self).wf(),
        ensures
            final(self).wf(),
            match r {
                Ok(q) => q.path == digest_of(key@) && (exists|i: int|
                    0 <= i <= old(self)@.len() && final(self)@ == old(self)@.insert(
                        i,
                        OpSpec::Get { path: digest_of(key@), key: key@ },
                    )),
                Err(e) => e == QueryError::KeyCollision && *final(self) == *old(self) && (exists|
                    i: int,
                |
                    0 <= i < old(self)@.len() && (#[trigger] old(self)@[i]).path() == digest_of(
                        key@,
                    )),
            },
    {
        let ghost gk = key@;
        let op = Operation::get(key);
        let ghost theop = op;
        let q = Query { path: op.path };
        let r = self.push_op(op);
        proof {
            lemma_push_op_view(*old(self), *self, theop, r is Ok);
            if r is Ok {
                let i0 = choose|i: int|
                    0 <= i <= old(self)@.len() && self@ == old(self)@.insert(i, op_view(theop));
                assert(op_view(theop) == (OpSpec::Get { path: digest_of(key@), key: key@ }));
                assert(self@ == old(self)@.insert(i0, OpSpec::Get { path: digest_of(key@), key: key@ }));
            }
            if r is Err {
                let i0 = choose|i: int|
                    0 <= i < old(self).operations@.len() && (
                    #[trigger] old(self).operations@[i]).path == theop.path;
                assert(old(self)@[i0].path() == old(self).operations@[i0].path);
                assert(old(self)@[i0].path() == digest_of(key@));
            }
        }
        match r {
            Ok(_) => Ok(q),
            Err(e) => Err(e),
        }
    }

    /// Closes the transaction into a batch; the operations are already in
    /// path order.
    pub fn finalize(self) -> (r: Batch)
        requires
            self.wf(),
        ensures
            r.wf(),
            r@ == self@,
            r.operations@ == self.operations@,
    {
        Batch::new(self.operations)
    }
}

/// Inserting into a sequence inserts into its multiset.
pub proof fn lemma_insert_multiset(s: Seq<Operation>, i: int, op: Operation)
    requires
        0 <= i <= s.len(),
    ensures
        s.insert(i, op).to_multiset() == s.to_multiset().insert(op),
{
    assert(s.insert(i, op) =~= s.take(i).push(op) + s.skip(i));
    s.take(i).to_multiset_ensures();
    vstd::seq_lib::lemma_multiset_commutative(s.take(i).push(op), s.skip(i));
    vstd::seq_lib::lemma_multiset_commutative(s.take(i), s.skip(i));
    assert(s.take(i) + s.skip(i) =~= s);
}

/// The view of an in-order insertion is an in-order insertion of views.
proof fn lemma_push_op_view(
    olded: TableTransaction,
    newed: TableTransaction,
    op: Operation,
    ok: bool,
)
    requires
        ok ==> exists|i: int|
            0 <= i <= olded.operations@.len() && newed.operations@ == olded.operations@.insert(
                i,
                op,
            ),
        !ok ==> newed == olded,
    ensures
        ok ==> exists|i: int|
            0 <= i <= olded@.len() && newed@ == olded@.insert(i, op_view(op)),
        !ok ==> newed@ == olded@,
        forall|i: int|
            0 <= i < olded.operations@.len() ==> (#[trigger] olded@[i]).path() == olded.operations@[i].path,
{
    assert forall|i: int| 0 <= i < olded.operations@.len() implies (#[trigger] olded@[i]).path()
        == olded.operations@[i].path by {}
    if ok {
        let i = choose|i: int|
            0 <= i <= olded.operations@.len() && newed.operations@ == olded.operations@.insert(
                i,
                op,
            );
        assert(newed@ =~= olded@.insert(i, op_view(op)));
    }
}

/// Strict order on digests, decided word by word.
pub fn digest_less(a: &Digest, b: &Digest) -> (r: bool)
    ensures
        r == digest_lt(*a, *b),
{
    if a.w0 != b.w0 {
        a.w0 < b.w0
    } else if a.w1 != b.w1 {
        a.w1 < b.w1
    } else if a.w2 != b.w2 {
        a.w2 < b.w2
    } else {
        a.w3 < b.w3
    }
}

} // verus!
