use vstd::prelude::*;
use crate::batch::{Action, Batch, Operation};
use crate::digest::{Digest, digest_lt};
use crate::transaction::Query;

verus! {

/// What a read observed: the value bytes stored at the path, if any.
pub open spec fn spec_answer(ops: Seq<Operation>, path: Digest) -> Option<Seq<u8>> {
    if exists|i: int| 0 <= i < ops.len() && (#[trigger] ops[i]).path == path {
        let i = choose|i: int| 0 <= i < ops.len() && (#[trigger] ops[i]).path == path;
        match ops[i].action {
            Action::Get(Some(w)) => Some(w.data@),
            _ => None,
        }
    } else {
        None
    }
}

/// The answers an executed batch carries, looked up by query.
#[derive(Debug)]
pub struct TableResponse {
    pub batch: Batch,
}

impl TableResponse {
    /// Wraps an executed batch.
    pub fn new(batch: Batch) -> (r: TableResponse)
        ensures
            r.batch == batch,
    {
        TableResponse { batch }
    }

    /// The answer to a query issued while the executed transaction was
    /// built: the value its read observed, or nothing.
    pub fn get(&self, query: &Query) -> (r: Option<&Vec<u8>>)
        requires
            self.batch.wf(),
            exists|i: int|
                0 <= i < self.batch.operations@.len() && (
                #[trigger] self.batch.operations@[i]).path == query.path,
        ensures
            match r {
                Some(v) => spec_answer(self.batch.operations@, query.path) == Some(v@),
                None => spec_answer(self.batch.operations@, query.path) is None,
            },
    {
        let ghost s = self.batch.operations@;
        let ops = self.batch.operations();
        let mut i: usize = 0;
        while i < ops.len()
            invariant
                self.batch.wf(),
                s == self.batch.operations@,
                s == ops@,
                i <= s.len(),
                exists|j: int| i <= j < s.len() && (#[trigger] s[j]).path == query.path,
            decreases s.len() - i,
        {
            if ops[i].path == query.path {
                proof {
                    assert(s[i as int].path == query.path);
                    assert(exists|j: int| 0 <= j < s.len() && (#[trigger] s[j]).path == query.path);
                    let w = choose|j: int| 0 <= j < s.len() && (#[trigger] s[j]).path == query.path;
                    if w < i as int {
                        crate::batch::lemma_sorted_pair(s, w, i as int);
                        crate::batch::lemma_digest_order(s[w].path, s[i as int].path);
                    } else if w > i as int {
                        crate::batch::lemma_sorted_pair(s, i as int, w);
                        crate::batch::lemma_digest_order(s[i as int].path, s[w].path);
                    }
                    assert(w == i as int);
                }
                match &ops[i].action {
                    Action::Get(Some(w)) => {
                        return Some(w.inner());
                    },
                    _ => {
                        return None;
                    },
                }
            }
            proof {
                let w = choose|j: int| i <= j < s.len() && (#[trigger] s[j]).path == query.path;
                assert(i as int + 1 <= w < s.len() && s[w].path == query.path);
            }
            i = i + 1;
        }
        proof {
            assert(false);
        }
        None
    }
}

} // verus!
