use vstd::prelude::*;
use crate::digest::{Digest, digest_lt};
use crate::model::{OpSpec, digest_of};
use crate::wrap::Wrap;

verus! {

/// What one operation does at its path: read the value, write one, or take
/// the record out. A read carries its answer once the batch has run.
#[derive(Clone, Debug)]
pub enum Action {
    Get(Option<Wrap>),
    Put(Wrap),
    Remove,
}

/// One operation of a batch: the key, the path its digest dictates, and the
/// action to take there.
#[derive(Clone, Debug)]
pub struct Operation {
    pub path: Digest,
    pub key: Wrap,
    pub action: Action,
}

/// The operation as the specification sees it.
pub open spec fn op_view(o: Operation) -> OpSpec {
    match o.action {
        Action::Get(_) => OpSpec::Get { path: o.path, key: o.key.data@ },
        Action::Put(v) => OpSpec::Put { path: o.path, key: o.key.data@, value: v.data@ },
        Action::Remove => OpSpec::Remove { path: o.path, key: o.key.data@ },
    }
}

/// The path is the key's digest, and every wrap carries its own digest.
pub open spec fn op_wf(o: Operation) -> bool {
    &&& o.key.wf()
    &&& o.path == digest_of(o.key.data@)
    &&& match o.action {
        Action::Put(v) => v.wf(),
        _ => true,
    }
}

impl Operation {
    /// An operation that writes `value` under `key`.
    pub fn set(key: Vec<u8>, value: Vec<u8>) -> (r: Operation)
        ensures
            op_wf(r),
            op_view(r) == (OpSpec::Put { path: digest_of(key@), key: key@, value: value@ }),
            r.action is Put,
    {
        let key = Wrap::new(key);
        let value = Wrap::new(value);
        let path = key.digest();
        Operation { path, key, action: Action::Put(value) }
    }

    /// An operation that takes the record under `key` out.
    pub fn remove(key: Vec<u8>) -> (r: Operation)
        ensures
            op_wf(r),
            op_view(r) == (OpSpec::Remove { path: digest_of(key@), key: key@ }),
            r.action is Remove,
    {
        let key = Wrap::new(key);
        let path = key.digest();
        Operation { path, key, action: Action::Remove }
    }

    /// An operation that reads the record under `key`; the answer is filled
    /// in by execution.
    pub fn get(key: Vec<u8>) -> (r: Operation)
        ensures
            op_wf(r),
            op_view(r) == (OpSpec::Get { path: digest_of(key@), key: key@ }),
            r.action is Get,
            r.action->Get_0 is None,
    {
        let key = Wrap::new(key);
        let path = key.digest();
        Operation { path, key, action: Action::Get(None) }
    }
}

/// The operations of a batch, in path order.
pub open spec fn ops_view(s: Seq<Operation>) -> Seq<OpSpec> {
    s.map(|i: int, o: Operation| op_view(o))
}

/// Strictly ascending path order: sorted and free of duplicates at once.
pub open spec fn sorted_ops(s: Seq<Operation>) -> bool {
    forall|i: int, j: int| 0 <= i < j < s.len() ==> digest_lt(s[i].path, s[j].path)
}

/// Every operation of the batch is well formed.
pub open spec fn ops_wf(s: Seq<Operation>) -> bool {
    forall|i: int| 0 <= i < s.len() ==> op_wf(#[trigger] s[i])
}

/// A path-sorted, duplicate-free list of operations, ready to run against a
/// table.
#[derive(Debug)]
pub struct Batch {
    pub operations: Vec<Operation>,
}

impl Batch {
    pub open spec fn wf(self) -> bool {
        sorted_ops(self.operations@) && ops_wf(self.operations@)
    }

    /// The batch's operations as the specification sees them.
    pub open spec fn view(self) -> Seq<OpSpec> {
        ops_view(self.operations@)
    }

    /// Wraps operations that are already in strict path order.
    pub fn new(operations: Vec<Operation>) -> (r: Batch)
        requires
            sorted_ops(operations@),
            ops_wf(operations@),
        ensures
            r.wf(),
            r.operations@ == operations@,
    {
        Batch { operations }
    }

    /// Read access to the operations.
    pub fn operations(&self) -> (r: &Vec<Operation>)
        ensures
            r == &self.operations,
    {
        &self.operations
    }

    pub fn len(&self) -> (r: usize)
        ensures
            r == self.operations@.len(),
    {
        self.operations.len()
    }
}

/// Reads one ordered pair out of a sorted operation list.
pub proof fn lemma_sorted_pair(s: Seq<Operation>, i: int, j: int)
    requires
        sorted_ops(s),
        0 <= i < j < s.len(),
    ensures
        digest_lt(s[i].path, s[j].path),
{
}

/// Total order: two digests are equal or one is below the other.
pub proof fn lemma_digest_order(a: Digest, b: Digest)
    ensures
        digest_lt(a, b) || digest_lt(b, a) || a == b,
        !(digest_lt(a, b) && digest_lt(b, a)),
        digest_lt(a, b) ==> a != b,
{
}

/// The order chains.
pub proof fn lemma_digest_lt_trans(a: Digest, b: Digest, c: Digest)
    ensures
        digest_lt(a, b) && digest_lt(b, c) ==> digest_lt(a, c),
{
}

} // verus!
