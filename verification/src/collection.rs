use vstd::prelude::*;
use crate::digest::Digest;
use crate::errors::QueryError;
use crate::model::{OpSpec, digest_of};
use crate::response::{TableResponse, spec_answer};
use crate::transaction::{Query, TableTransaction};

verus! {

/// A transaction over a collection: a table whose records carry no payload,
/// so only membership matters. Values are stored as empty byte strings.
#[derive(Debug)]
pub struct CollectionTransaction {
    pub inner: TableTransaction,
}

impl CollectionTransaction {
    pub open spec fn wf(self) -> bool {
        self.inner.wf()
    }

    pub open spec fn view(self) -> Seq<OpSpec> {
        self.inner@
    }

    /// An empty collection transaction.
    pub fn new() -> (r: CollectionTransaction)
        ensures
            r.wf(),
            r@ == Seq::<OpSpec>::empty(),
    {
        CollectionTransaction { inner: TableTransaction::new() }
    }

    /// Schedules a membership test of `item`; fails only on a path the
    /// transaction already touches.
    pub fn contains(&mut self, item: Vec<u8>) -> (r: Result<Query, QueryError>)
        requires
            old(self).wf(),
        ensures
            final(self).wf(),
            match r {
                Ok(q) => q.path == digest_of(item@) && (exists|i: int|
                    0 <= i <= old(self)@.len() && final(self)@ == old(self)@.insert(
                        i,
                        OpSpec::Get { path: digest_of(item@), key: item@ },
                    )),
                Err(e) => e == QueryError::KeyCollision && *final(self) == *old(self) && (exists|
                    i: int,
                |
                    0 <= i < old(self)@.len() && (#[trigger] old(self)@[i]).path() == digest_of(
                        item@,
                    )),
            },
    {
        let r = self.inner.get(item);
        proof {
            if r is Ok {
                let i0 = choose|i: int|
                    0 <= i <= old(self).inner@.len() && self.inner@ == old(self).inner@.insert(
                        i,
                        OpSpec::Get { path: digest_of(item@), key: item@ },
                    );
                assert(self@ == old(self)@.insert(i0, OpSpec::Get { path: digest_of(item@), key: item@ }));
            }
            if r is Err {
                let i0 = choose|i: int|
                    0 <= i < old(self).inner@.len() && (#[trigger] old(self).inner@[i]).path()
                        == digest_of(item@);
                assert(0 <= i0 < old(self)@.len() && old(self)@[i0].path() == digest_of(item@));
            }
        }
        r
    }

    /// Schedules insertion of `item`; fails only on a path the transaction
    /// already touches.
    pub fn insert(&mut self, item: Vec<u8>) -> (r: Result<(), QueryError>)
        requires
            old(self).wf(),
        ensures
            final(self).wf(),
            match r {
                Ok(_) => exists|i: int|
                    0 <= i <= old(self)@.len() && final(self)@ == old(self)@.insert(
                        i,
                        OpSpec::Put {
                            path: digest_of(item@),
                            key: item@,
                            value: Seq::<u8>::empty(),
                        },
                    ),
                Err(e) => e == QueryError::KeyCollision && *final(self) == *old(self) && (exists|
                    i: int,
                |
                    0 <= i < old(self)@.len() && (#[trigger] old(self)@[i]).path() == digest_of(
                        item@,
                    )),
            },
    {
        let empty: Vec<u8> = Vec::new();
        let r = self.inner.set(item, empty);
        proof {
            if r is Ok {
                let i0 = choose|i: int|
                    0 <= i <= old(self).inner@.len() && self.inner@ == old(self).inner@.insert(
                        i,
                        OpSpec::Put { path: digest_of(item@), key: item@, value: Seq::<u8>::empty() },
                    );
                assert(self@ == old(self)@.insert(i0, OpSpec::Put { path: digest_of(item@), key: item@, value: Seq::<u8>::empty() }));
            }
            if r is Err {
                let i0 = choose|i: int|
                    0 <= i < old(self).inner@.len() && (#[trigger] old(self).inner@[i]).path()
                        == digest_of(item@);
                assert(0 <= i0 < old(self)@.len() && old(self)@[i0].path() == digest_of(item@));
            }
        }
        r
    }

    /// Schedules removal of `item`; fails only on a path the transaction
    /// already touches.
    pub fn remove(&mut self, item: Vec<u8>) -> (r: Result<(), QueryError>)
        requires
            old(self).wf(),
        ensures
            final(self).wf(),
            match r {
                Ok(_) => exists|i: int|
                    0 <= i <= old(self)@.len() && final(self)@ == old(self)@.insert(
                        i,
                        OpSpec::Remove { path: digest_of(item@), key: item@ },
                    ),
                Err(e) => e == QueryError::KeyCollision && *final(self) == *old(self) && (exists|
                    i: int,
                |
                    0 <= i < old(self)@.len() && (#[trigger] old(self)@[i]).path() == digest_of(
                        item@,
                    )),
            },
    {
        let r = self.inner.remove(item);
        proof {
            if r is Ok {
                let i0 = choose|i: int|
                    0 <= i <= old(self).inner@.len() && self.inner@ == old(self).inner@.insert(
                        i,
                        OpSpec::Remove { path: digest_of(item@), key: item@ },
                    );
                assert(self@ == old(self)@.insert(i0, OpSpec::Remove { path: digest_of(item@), key: item@ }));
            }
            if r is Err {
                let i0 = choose|i: int|
                    0 <= i < old(self).inner@.len() && (#[trigger] old(self).inner@[i]).path()
                        == digest_of(item@);
                assert(0 <= i0 < old(self)@.len() && old(self)@[i0].path() == digest_of(item@));
            }
        }
        r
    }

    /// Closes the transaction for execution against a table.
    pub fn finalize(self) -> (r: crate::batch::Batch)
        requires
            self.wf(),
        ensures
            r.wf(),
            r@ == self@,
    {
        self.inner.finalize()
    }
}

/// The answers of an executed collection transaction: membership alone.
#[derive(Debug)]
pub struct CollectionResponse {
    pub inner: TableResponse,
}

impl CollectionResponse {
    /// Wraps an executed batch's response.
    pub fn new(inner: TableResponse) -> (r: CollectionResponse)
        ensures
            r.inner == inner,
    {
        CollectionResponse { inner }
    }

    /// Whether the queried item was present when the transaction ran.
    pub fn contains(&self, query: &Query) -> (r: bool)
        requires
            self.inner.batch.wf(),
            exists|i: int|
                0 <= i < self.inner.batch.operations@.len() && (
                #[trigger] self.inner.batch.operations@[i]).path == query.path,
        ensures
            r == (spec_answer(self.inner.batch.operations@, query.path) is Some),
    {
        self.inner.get(query).is_some()
    }
}

/// A transaction rebuilt from recovery records: the keys and values arrive
/// already wrapped, exactly as a write-ahead record carries them.
#[derive(Debug)]
pub struct RecoveryTableTransaction {
    pub inner: TableTransaction,
}

impl RecoveryTableTransaction {
    pub open spec fn wf(self) -> bool {
        self.inner.wf()
    }

    pub open spec fn view(self) -> Seq<OpSpec> {
        self.inner@
    }

    /// An empty recovery transaction.
    pub fn new() -> (r: RecoveryTableTransaction)
        ensures
            r.wf(),
            r@ == Seq::<OpSpec>::empty(),
    {
        RecoveryTableTransaction { inner: TableTransaction::new() }
    }

    /// Replays one logged write.
    pub fn set(&mut self, key: Vec<u8>, value: Vec<u8>) -> (r: Result<(), QueryError>)
        requires
            old(self).wf(),
        ensures
            final(self).wf(),
            match r {
                Ok(_) => exists|i: int|
                    0 <= i <= old(self)@.len() && final(self)@ == old(self)@.insert(
                        i,
                        OpSpec::Put { path: digest_of(key@), key: key@, value: value@ },
                    ),
                Err(e) => e == QueryError::KeyCollision && *final(self) == *old(self) && (exists|
                    i: int,
                |
                    0 <= i < old(self)@.len() && (#[trigger] old(self)@[i]).path() == digest_of(
                        key@,
                    )),
            },
    {
        let r = self.inner.set(key, value);
        proof {
            if r is Ok {
                let i0 = choose|i: int|
                    0 <= i <= old(self).inner@.len() && self.inner@ == old(self).inner@.insert(
                        i,
                        OpSpec::Put { path: digest_of(key@), key: key@, value: value@ },
                    );
                assert(self@ == old(self)@.insert(i0, OpSpec::Put { path: digest_of(key@), key: key@, value: value@ }));
            }
            if r is Err {
                let i0 = choose|i: int|
                    0 <= i < old(self).inner@.len() && (#[trigger] old(self).inner@[i]).path()
                        == digest_of(key@);
                assert(0 <= i0 < old(self)@.len() && old(self)@[i0].path() == digest_of(key@));
            }
        }
        r
    }

    /// Replays one logged removal.
    pub fn remove(&mut self, key: Vec<u8>) -> (r: Result<(), QueryError>)
        requires
            old(self).wf(),
        ensures
            final(self).wf(),
            match r {
                Ok(_) => exists|i: int|
                    0 <= i <= old(self)@.len() && final(self)@ == old(self)@.insert(
                        i,
                        OpSpec::Remove { path: digest_of(key@), key: key@ },
                    ),
                Err(e) => e == QueryError::KeyCollision && *final(self) == *old(self) && (exists|
                    i: int,
                |
                    0 <= i < old(self)@.len() && (#[trigger] old(self)@[i]).path() == digest_of(
                        key@,
                    )),
            },
    {
        let r = self.inner.remove(key);
        proof {
            if r is Ok {
                let i0 = choose|i: int|
                    0 <= i <= old(self).inner@.len() && self.inner@ == old(self).inner@.insert(
                        i,
                        OpSpec::Remove { path: digest_of(key@), key: key@ },
                    );
                assert(self@ == old(self)@.insert(i0, OpSpec::Remove { path: digest_of(key@), key: key@ }));
            }
            if r is Err {
                let i0 = choose|i: int|
                    0 <= i < old(self).inner@.len() && (#[trigger] old(self).inner@[i]).path()
                        == digest_of(key@);
                assert(0 <= i0 < old(self)@.len() && old(self)@[i0].path() == digest_of(key@));
            }
        }
        r
    }

    /// Closes the rebuilt transaction for execution.
    pub fn finalize(self) -> (r: crate::batch::Batch)
        requires
            self.wf(),
        ensures
            r.wf(),
            r@ == self@,
    {
        self.inner.finalize()
    }
}

} // verus!
