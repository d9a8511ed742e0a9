use zebra::batch::Operation;
use zebra::collection::{CollectionTransaction, RecoveryTableTransaction};
use zebra::digest::Digest;
use zebra::errors::{QueryError, SyncError};
use zebra::node::{Label, MapId};
use zebra::codec::{decode_answer, decode_question, encode_answer, encode_question};
use zebra::store::{SplitOutcome, Store};
use zebra::sync::{Question, TableStatus};
use zebra::table::Database;
use zebra::transaction::TableTransaction;

fn b(i: u32) -> Vec<u8> {
    i.to_le_bytes().to_vec()
}

fn fill(db: &mut Database, t: usize, pairs: impl IntoIterator<Item = (u32, u32)>) {
    let mut tx = TableTransaction::new();
    for (k, v) in pairs {
        tx.set(b(k), b(v)).unwrap();
    }
    db.execute(t, tx);
}

fn read_all(db: &Database, t: usize) -> Vec<(Vec<u8>, Vec<u8>)> {
    db.export_records(t)
        .into_iter()
        .map(|r| (r.key.data.clone(), r.value.data.clone()))
        .collect()
}

fn lookup(records: &[(Vec<u8>, Vec<u8>)], key: &[u8]) -> Option<Vec<u8>> {
    records.iter().find(|(k, _)| k == key).map(|(_, v)| v.clone())
}

#[test]
fn test_if_table_is_correct_after_execution_of_operations() {
    let mut db = Database::new();
    let t = db.empty_table("test");
    fill(&mut db, t, (0..256).map(|i| (i, i)));

    let mut tx = TableTransaction::new();
    for i in 128..256 {
        tx.set(b(i), b(i + 1)).unwrap();
    }
    db.execute(t, tx);

    let records = read_all(&db, t);
    assert_eq!(records.len(), 256);
    for i in 0..256u32 {
        let expected = if i < 128 { i } else { i + 1 };
        assert_eq!(lookup(&records, &b(i)), Some(b(expected)));
    }
}

#[test]
fn clone_keeps_its_own_records() {
    let mut db = Database::new();
    let t = db.empty_table("test");
    fill(&mut db, t, (0..256).map(|i| (i, i)));
    let t2 = db.clone_table(t, "copy");

    let mut tx = TableTransaction::new();
    for i in 128..256 {
        tx.set(b(i), b(i + 1)).unwrap();
    }
    db.execute(t, tx);

    let copy = read_all(&db, t2);
    for i in 0..256u32 {
        assert_eq!(lookup(&copy, &b(i)), Some(b(i)));
    }

    db.drop_table(t2);
    let records = read_all(&db, t);
    for i in 0..256u32 {
        let expected = if i < 128 { i } else { i + 1 };
        assert_eq!(lookup(&records, &b(i)), Some(b(expected)));
    }
}

#[test]
fn test_if_len_is_correct_when_database_contains_zero_elements() {
    let db = Database::new();
    assert_eq!(db.table_count(), 0);
}

#[test]
fn test_if_len_is_correct_when_database_contains_one_element() {
    let mut db = Database::new();
    db.empty_table("test");
    assert_eq!(db.table_count(), 1);
}

#[test]
fn test_if_database_sees_changes_made_on_table() {
    let mut db = Database::new();
    let t = db.empty_table("test");
    fill(&mut db, t, (0..256).map(|i| (i, i)));
    let before = db.commit(t);

    let found = db.get_table("test").unwrap();
    assert_eq!(db.commit(found), before);

    let mut tx = TableTransaction::new();
    for i in 128..256 {
        tx.set(b(i), b(i + 1)).unwrap();
    }
    db.execute(t, tx);

    let found = db.get_table("test").unwrap();
    assert_eq!(db.commit(found), db.commit(t));
    assert_ne!(db.commit(t), before);
}

#[test]
fn test_if_size_of_store_entries_is_correct() {
    let mut db = Database::new();
    assert_eq!(db.size(), 0);

    let t = db.empty_table("test");
    fill(&mut db, t, (0..=8).map(|i| (i, i)));
    assert!(db.size() >= 9);

    db.drop_table(t);
    assert_eq!(db.size(), 0);
}

#[test]
fn commit_is_deterministic_in_the_record_set() {
    let mut db = Database::new();
    let t1 = db.empty_table("forward");
    fill(&mut db, t1, (0..512).map(|i| (i, i)));
    let t2 = db.empty_table("backward");
    fill(&mut db, t2, (0..512).rev().map(|i| (i, i)));
    assert_eq!(db.commit(t1), db.commit(t2));

    let mut one = TableTransaction::new();
    one.set(b(0), b(0)).unwrap();
    let t3 = db.empty_table("spread");
    db.execute(t3, one);
    let mut rest = TableTransaction::new();
    for i in 1..512 {
        rest.set(b(i), b(i)).unwrap();
    }
    db.execute(t3, rest);
    assert_eq!(db.commit(t1), db.commit(t3));
}

#[test]
fn transaction_rejects_second_operation_on_same_key() {
    let mut tx = TableTransaction::new();
    tx.set(b(7), b(1)).unwrap();
    assert_eq!(tx.set(b(7), b(2)), Err(QueryError::KeyCollision));
    assert_eq!(tx.remove(b(7)), Err(QueryError::KeyCollision));
    assert!(tx.get(b(7)).is_err());
    assert!(tx.set(b(8), b(2)).is_ok());
}

#[test]
fn reads_observe_the_state_before_the_batch() {
    let mut db = Database::new();
    let t = db.empty_table("test");
    fill(&mut db, t, [(1, 10), (2, 20)]);

    let mut tx = TableTransaction::new();
    let q1 = tx.get(b(1)).unwrap();
    let q3 = tx.get(b(3)).unwrap();
    let response = db.execute(t, tx);
    assert_eq!(response.get(&q1), Some(&b(10)));
    assert_eq!(response.get(&q3), None);

    let mut tx = TableTransaction::new();
    tx.remove(b(1)).unwrap();
    db.execute(t, tx);
    let mut tx = TableTransaction::new();
    let q1 = tx.get(b(1)).unwrap();
    let response = db.execute(t, tx);
    assert_eq!(response.get(&q1), None);
}

#[test]
fn collection_transaction_tracks_membership() {
    let mut db = Database::new();
    let t = db.empty_table("items");

    let mut tx = CollectionTransaction::new();
    tx.insert(b(5)).unwrap();
    tx.insert(b(6)).unwrap();
    db.execute(t, tx.inner);

    let mut tx = CollectionTransaction::new();
    let q5 = tx.contains(b(5)).unwrap();
    let q7 = tx.contains(b(7)).unwrap();
    let response = zebra::collection::CollectionResponse::new(db.execute(t, tx.inner));
    assert!(response.contains(&q5));
    assert!(!response.contains(&q7));
}

#[test]
fn recovery_transaction_replays_logged_writes() {
    let mut db = Database::new();
    let t = db.empty_table("test");
    fill(&mut db, t, (0..64).map(|i| (i, i)));

    let mut rec = RecoveryTableTransaction::new();
    for i in 0..64 {
        rec.set(b(i), b(i)).unwrap();
    }
    let t2 = db.empty_table("recovered");
    db.execute(t2, rec.inner);
    assert_eq!(db.commit(t), db.commit(t2));
}

fn diff_map(db: &Database, ta: usize, tb: usize) -> Vec<(Vec<u8>, Option<Vec<u8>>, Option<Vec<u8>>)> {
    db.diff(ta, tb)
        .into_iter()
        .map(|e| {
            (
                e.key.data.clone(),
                e.left.map(|w| w.data.clone()),
                e.right.map(|w| w.data.clone()),
            )
        })
        .collect()
}

fn diff_at<'a>(
    d: &'a [(Vec<u8>, Option<Vec<u8>>, Option<Vec<u8>>)],
    key: &[u8],
) -> Option<&'a (Vec<u8>, Option<Vec<u8>>, Option<Vec<u8>>)> {
    d.iter().find(|(k, _, _)| k == key)
}

#[test]
fn diff_empty_empty() {
    let mut db = Database::new();
    let lho = db.empty_table("test");
    let rho = db.empty_table("test2");
    assert_eq!(diff_map(&db, lho, rho).len(), 0);
}

#[test]
fn diff_identity_empty() {
    let mut db = Database::new();
    let lho = db.empty_table("test");
    let rho = db.empty_table("test2");
    fill(&mut db, lho, (0..1024).map(|i| (i, i)));

    let diff = diff_map(&db, lho, rho);
    assert_eq!(diff.len(), 1024);
    for key in 0..1024u32 {
        let e = diff_at(&diff, &b(key)).unwrap();
        assert_eq!(e.1, Some(b(key)));
        assert_eq!(e.2, None);
    }

    let diff = diff_map(&db, rho, lho);
    for key in 0..1024u32 {
        let e = diff_at(&diff, &b(key)).unwrap();
        assert_eq!(e.1, None);
        assert_eq!(e.2, Some(b(key)));
    }
}

#[test]
fn diff_identity_match() {
    let mut db = Database::new();
    let lho = db.empty_table("test");
    let rho = db.empty_table("test2");
    fill(&mut db, lho, (0..1024).map(|i| (i, i)));
    fill(&mut db, rho, (0..1024).map(|i| (i, i)));
    assert_eq!(diff_map(&db, lho, rho).len(), 0);
    assert_eq!(diff_map(&db, rho, lho).len(), 0);
}

#[test]
fn diff_identity_successor() {
    let mut db = Database::new();
    let lho = db.empty_table("test");
    let rho = db.empty_table("test2");
    fill(&mut db, lho, (0..1024).map(|i| (i, i)));
    fill(&mut db, rho, (0..1024).map(|i| (i, i + 1)));

    let diff = diff_map(&db, lho, rho);
    assert_eq!(diff.len(), 1024);
    for key in 0..1024u32 {
        let e = diff_at(&diff, &b(key)).unwrap();
        assert_eq!(e.1, Some(b(key)));
        assert_eq!(e.2, Some(b(key + 1)));
    }

    let diff = diff_map(&db, rho, lho);
    for key in 0..1024u32 {
        let e = diff_at(&diff, &b(key)).unwrap();
        assert_eq!(e.1, Some(b(key + 1)));
        assert_eq!(e.2, Some(b(key)));
    }
}

#[test]
fn diff_first_identity_match_rest_successor() {
    let mut db = Database::new();
    let lho = db.empty_table("test");
    let rho = db.empty_table("test2");
    fill(&mut db, lho, (0..1024).map(|i| (i, i)));
    fill(
        &mut db,
        rho,
        std::iter::once((0, 0)).chain((1..1024).map(|i| (i, i + 1))),
    );

    let diff = diff_map(&db, lho, rho);
    for key in 0..1024u32 {
        if key == 0 {
            assert!(diff_at(&diff, &b(key)).is_none());
        } else {
            let e = diff_at(&diff, &b(key)).unwrap();
            assert_eq!(e.1, Some(b(key)));
            assert_eq!(e.2, Some(b(key + 1)));
        }
    }
}

#[test]
fn diff_half_identity_match_half_successor() {
    let mut db = Database::new();
    let lho = db.empty_table("test");
    let rho = db.empty_table("test2");
    fill(&mut db, lho, (0..1024).map(|i| (i, i)));
    fill(
        &mut db,
        rho,
        (0..512).map(|i| (i, i)).chain((512..1024).map(|i| (i, i + 1))),
    );

    let diff = diff_map(&db, lho, rho);
    for key in 0..1024u32 {
        if key < 512 {
            assert!(diff_at(&diff, &b(key)).is_none());
        } else {
            let e = diff_at(&diff, &b(key)).unwrap();
            assert_eq!(e.1, Some(b(key)));
            assert_eq!(e.2, Some(b(key + 1)));
        }
    }
}

#[test]
fn diff_identity_overlap() {
    let mut db = Database::new();
    let lho = db.empty_table("test");
    let rho = db.empty_table("test2");
    fill(&mut db, lho, (0..1024).map(|i| (i, i)));
    fill(&mut db, rho, (512..1536).map(|i| (i, i)));

    let diff = diff_map(&db, lho, rho);
    for key in 0..1536u32 {
        if key < 512 {
            let e = diff_at(&diff, &b(key)).unwrap();
            assert_eq!(e.1, Some(b(key)));
            assert_eq!(e.2, None);
        } else if key < 1024 {
            assert!(diff_at(&diff, &b(key)).is_none());
        } else {
            let e = diff_at(&diff, &b(key)).unwrap();
            assert_eq!(e.1, None);
            assert_eq!(e.2, Some(b(key)));
        }
    }
}

#[test]
fn test_if_empty_label_question_returns_empty_table_answer() {
    let mut db = Database::new();
    let t = db.empty_table("test");
    let sender = db.send(t);
    let answer = db
        .answer(&sender, &Question { labels: vec![Label::Empty] })
        .unwrap();
    assert_eq!(answer.nodes.len(), 0);
}

#[test]
fn test_if_query_with_nonexsting_entry_returns_malformed_question_error() {
    let mut db = Database::new();
    let t = db.empty_table("test");
    let sender = db.send(t);
    let leaf_label = Label::Leaf(
        MapId { id: 0 },
        Digest { w0: 1, w1: 2, w2: 3, w3: 4 },
    );
    let answer = db.answer(&sender, &Question { labels: vec![leaf_label] });
    assert_eq!(answer.err(), Some(SyncError::MalformedQuestion));
}

#[test]
fn test_if_table_answer_contains_one_valid_node() {
    let mut db = Database::new();
    let t = db.empty_table("test");
    fill(&mut db, t, [(0, 0)]);
    let sender = db.send(t);
    let answer = db.hello(&sender).unwrap();
    assert_eq!(answer.nodes.len(), 1);
}

#[test]
fn grab_three() {
    // two keys whose paths part at the very first bit give a root with two
    // leaf children, and the opening answer carries exactly those three nodes
    let mut db = Database::new();
    let t = db.empty_table("test");
    let first: u32 = 0;
    let mut second: u32 = 1;
    let bit0 = |key: u32| {
        let op = Operation::get(b(key));
        op.path.bit(0)
    };
    while bit0(second) == bit0(first) {
        second += 1;
    }
    fill(&mut db, t, [(first, first), (second, second)]);
    let sender = db.send(t);
    let answer = db.hello(&sender).unwrap();
    assert_eq!(answer.nodes.len(), 3);
}

fn sync_until_complete(src: &mut Database, t: usize, dst: &mut Database, name: &str) -> usize {
    let sender = src.send(t);
    let mut receiver = dst.receive();
    let mut answer = src.hello(&sender).unwrap();
    let mut rounds = 0;
    loop {
        rounds += 1;
        assert!(rounds < 300, "the transfer should settle");
        match dst.learn(receiver, &answer, name).unwrap() {
            TableStatus::Complete(slot) => {
                return slot;
            },
            TableStatus::Incomplete(r, question) => {
                answer = src.answer(&sender, &question).unwrap();
                receiver = r;
            },
        }
    }
}

#[test]
fn sync_roundtrip_transfers_every_record() {
    let mut src = Database::new();
    let t = src.empty_table("test");
    fill(&mut src, t, (0..1024).map(|i| (i, i)));

    let mut dst = Database::new();
    let got = sync_until_complete(&mut src, t, &mut dst, "received");
    assert_eq!(dst.commit(got), src.commit(t));
}

#[test]
fn sync_dedup_completes_in_one_round() {
    let mut src = Database::new();
    let t = src.empty_table("test");
    fill(&mut src, t, (0..256).map(|i| (i, i)));

    // the destination already holds the very same table
    let mut dst = Database::new();
    let mirror = dst.empty_table("mirror");
    fill(&mut dst, mirror, (0..256).map(|i| (i, i)));

    let sender = src.send(t);
    let receiver = dst.receive();
    let answer = src.hello(&sender).unwrap();
    match dst.learn(receiver, &answer, "received").unwrap() {
        TableStatus::Complete(slot) => {
            assert_eq!(dst.commit(slot), src.commit(t));
        },
        TableStatus::Incomplete(..) => panic!("one round should have sufficed"),
    }
}

#[test]
fn operations_carry_their_key_paths() {
    let set = Operation::set(b(1), b(2));
    let get = Operation::get(b(1));
    let rem = Operation::remove(b(1));
    assert_eq!(set.path, get.path);
    assert_eq!(get.path, rem.path);
    let other = Operation::get(b(2));
    assert_ne!(set.path, other.path);
}

#[test]
fn refresh_rematerializes_after_execution() {
    let mut db = Database::new();
    let t = db.empty_table("test");
    fill(&mut db, t, (0..64).map(|i| (i, i)));
    assert!(db.refresh(t));
    let before = db.commit(t);

    let mut tx = TableTransaction::new();
    tx.set(b(7), b(70)).unwrap();
    db.execute(t, tx);
    assert!(db.refresh(t));
    assert_ne!(db.commit(t), before);

    let records = read_all(&db, t);
    assert_eq!(lookup(&records, &b(7)), Some(b(70)));
}

#[test]
fn received_table_serves_reads_after_refresh() {
    let mut src = Database::new();
    let t = src.empty_table("test");
    fill(&mut src, t, (0..128).map(|i| (i, i + 5)));

    let mut dst = Database::new();
    let got = sync_until_complete(&mut src, t, &mut dst, "received");
    assert_eq!(dst.commit(got), src.commit(t));

    assert!(dst.refresh(got));
    let records = read_all(&dst, got);
    for i in 0..128u32 {
        assert_eq!(lookup(&records, &b(i)), Some(b(i + 5)));
    }

    let mut tx = TableTransaction::new();
    tx.set(b(0), b(99)).unwrap();
    dst.execute(got, tx);
    let records = read_all(&dst, got);
    assert_eq!(lookup(&records, &b(0)), Some(b(99)));
}

#[test]
fn store_split() {
    let mut store = Store::new();
    let op = Operation::set(b(0), b(1));
    let (key, value) = match op.action {
        zebra::batch::Action::Put(v) => (op.key, v),
        _ => unreachable!(),
    };
    let path = op.path;
    let node = zebra::node::Node::Leaf(key, value);
    let label = store.label_at(&zebra::prefix::Prefix::root(), &node);
    store.populate(label, node);
    store.incref(label);

    for splits in 0..8u16 {
        store = match store.split() {
            SplitOutcome::Halves(left, right) => {
                if !path.bit(splits) {
                    left
                } else {
                    right
                }
            },
            SplitOutcome::Unsplittable(_) => unreachable!(),
        };
        assert!(store.contains(&label));
    }

    for _ in 8..=255u16 {
        store = match store.split() {
            SplitOutcome::Halves(..) => unreachable!(),
            SplitOutcome::Unsplittable(store) => store,
        };
        assert!(store.contains(&label));
    }
}

#[test]
fn store_merge() {
    let mut store = Store::new();
    let mut labels = Vec::new();
    for i in 0..=8u32 {
        let op = Operation::set(b(i), b(i));
        let (key, value) = match op.action {
            zebra::batch::Action::Put(v) => (op.key, v),
            _ => unreachable!(),
        };
        let node = zebra::node::Node::Leaf(key, value);
        let label = store.label_at(&zebra::prefix::Prefix::root(), &node);
        store.populate(label, node);
        store.incref(label);
        labels.push(label);
    }

    let (l, r) = match store.split() {
        SplitOutcome::Halves(l, r) => (l, r),
        SplitOutcome::Unsplittable(..) => unreachable!(),
    };
    let (ll, lr) = match l.split() {
        SplitOutcome::Halves(l, r) => (l, r),
        SplitOutcome::Unsplittable(..) => unreachable!(),
    };
    let (rl, rr) = match r.split() {
        SplitOutcome::Halves(l, r) => (l, r),
        SplitOutcome::Unsplittable(..) => unreachable!(),
    };

    let l = Store::merge(ll, lr);
    let r = Store::merge(rl, rr);
    let store = Store::merge(l, r);

    for (i, label) in labels.into_iter().enumerate() {
        assert!(store.contains(&label));
        let node = store.fetch(&label).unwrap();
        match node {
            zebra::node::Node::Leaf(key, value) => {
                assert_eq!(key.data, b(i as u32));
                assert_eq!(value.data, b(i as u32));
            },
            _ => unreachable!(),
        }
    }
}

fn export_get(tree: &zebra::export::ProofTree, key: u32) -> Option<Option<Vec<u8>>> {
    tree.get(&b(key))
}

#[test]
fn export_empty() {
    let mut db = Database::new();
    let t = db.empty_table("test");
    let keys: Vec<Vec<u8>> = Vec::new();
    let proof = db.export(t, &keys);
    assert_eq!(proof.commit(), db.commit(t));
}

#[test]
fn export_none() {
    let mut db = Database::new();
    let t = db.empty_table("test");
    fill(&mut db, t, (0..1024).map(|i| (i, i)));
    let keys: Vec<Vec<u8>> = Vec::new();
    let proof = db.export(t, &keys);
    assert_eq!(proof.commit(), db.commit(t));
}

#[test]
fn export_single() {
    let mut db = Database::new();
    let t = db.empty_table("test");
    fill(&mut db, t, (0..1024).map(|i| (i, i)));
    let proof = db.export(t, &vec![b(33)]);
    assert_eq!(proof.commit(), db.commit(t));
    assert_eq!(export_get(&proof, 33), Some(Some(b(33))));
}

#[test]
fn export_half() {
    let mut db = Database::new();
    let t = db.empty_table("test");
    fill(&mut db, t, (0..1024).map(|i| (i, i)));
    let keys: Vec<Vec<u8>> = (0..512).map(b).collect();
    let proof = db.export(t, &keys);
    assert_eq!(proof.commit(), db.commit(t));
    for i in 0..512u32 {
        assert_eq!(export_get(&proof, i), Some(Some(b(i))));
    }
    let mut undecided = 0;
    for i in 512..1024u32 {
        match export_get(&proof, i) {
            None => undecided += 1,
            Some(v) => assert_eq!(v, Some(b(i))),
        }
    }
    assert!(undecided > 0);
}

#[test]
fn export_all() {
    let mut db = Database::new();
    let t = db.empty_table("test");
    fill(&mut db, t, (0..1024).map(|i| (i, i)));
    let keys: Vec<Vec<u8>> = (0..1024).map(b).collect();
    let proof = db.export(t, &keys);
    assert_eq!(proof.commit(), db.commit(t));
    for i in 0..1024u32 {
        assert_eq!(export_get(&proof, i), Some(Some(b(i))));
    }
    assert_eq!(export_get(&proof, 5000), Some(None));
}

#[test]
fn sender_end_registers_the_sent_table() {
    let mut db = Database::new();
    let t = db.empty_table("test");
    fill(&mut db, t, (0..32).map(|i| (i, i)));
    let sender = db.send(t);
    let kept = db.end(sender, "kept");
    assert_eq!(db.commit(kept), db.commit(t));
    assert!(db.refresh(kept));
    let records = read_all(&db, kept);
    assert_eq!(records.len(), 32);
}

#[test]
fn wire_forms_round_trip() {
    let mut src = Database::new();
    let t = src.empty_table("test");
    fill(&mut src, t, (0..64).map(|i| (i, i)));
    let sender = src.send(t);

    let hello = src.hello(&sender).unwrap();
    let bytes = encode_answer(&hello);
    let back = decode_answer(&bytes).unwrap();
    assert_eq!(back.nodes.len(), hello.nodes.len());

    let question = Question {
        labels: vec![Label::Empty, sender.root],
    };
    let qbytes = encode_question(&question);
    let qback = decode_question(&qbytes).unwrap();
    assert_eq!(qback.labels, question.labels);
    assert_eq!(encode_question(&qback), qbytes);

    assert!(decode_question(&vec![1, 2, 3]).is_none());
    assert!(decode_answer(&vec![9]).is_none());
}

#[test]
fn sync_over_the_wire_matches_in_process() {
    let mut src = Database::new();
    let t = src.empty_table("test");
    fill(&mut src, t, (0..256).map(|i| (i, i + 1)));
    let sender = src.send(t);

    let mut dst = Database::new();
    let mut receiver = dst.receive();
    let mut wire = encode_answer(&src.hello(&sender).unwrap());
    let mut rounds = 0;
    let got = loop {
        rounds += 1;
        assert!(rounds < 300);
        let answer = decode_answer(&wire).unwrap();
        match dst.learn(receiver, &answer, "received").unwrap() {
            TableStatus::Complete(slot) => break slot,
            TableStatus::Incomplete(r, question) => {
                let qwire = encode_question(&question);
                let question = decode_question(&qwire).unwrap();
                wire = encode_answer(&src.answer(&sender, &question).unwrap());
                receiver = r;
            },
        }
    };
    assert_eq!(dst.commit(got), src.commit(t));
}
