use goofy_goobers::kafka::{KafkaMessage, KafkaNode, Transaction, XidAssigner};
use goofy_goobers::message::{Envelope, MsgIdGen};
use goofy_goobers::txn::{
    roll_up_transactions, OpType, Operation, Transaction as KvTransaction, TxnMessage, TxnNode,
};

fn kenv(src: &str, dest: &str, msg_id: Option<usize>, m: KafkaMessage) -> Envelope<KafkaMessage> {
    Envelope::from_parts(src.to_string(), dest.to_string(), msg_id, None, m)
}

fn init_kafka(node: &mut KafkaNode, me: &str, all: &[&str], ids: &mut MsgIdGen) {
    let env = kenv(
        "c0",
        me,
        Some(0),
        KafkaMessage::Init {
            node_id: me.to_string(),
            node_ids: all.iter().map(|s| s.to_string()).collect(),
        },
    );
    let rep = node.handle_init(&env, ids);
    assert_eq!(*rep.message(), KafkaMessage::InitOk);
}

#[test]
fn xid_assigner_counts_up_through_the_service() {
    let mut ids = MsgIdGen::new();
    let (mut xa, cas) = XidAssigner::start("n1".to_string(), &mut ids);
    match cas.message() {
        KafkaMessage::Cas { key, from, to, create_if_not_exists } => {
            assert_eq!(*key, "xid".to_string());
            assert_eq!((*from, *to), (0, 0));
            assert_eq!(*create_if_not_exists, Some(true));
        }
        other => panic!("expected cas, got {:?}", other),
    }
    assert_eq!(xa.on_cas_ok(), None);
    let cas1 = xa.request_xid(&mut ids);
    match cas1.message() {
        KafkaMessage::Cas { from, to, .. } => assert_eq!((*from, *to), (0, 1)),
        other => panic!("expected cas, got {:?}", other),
    }
    assert_eq!(xa.on_cas_ok(), Some(1));
    let cas2 = xa.request_xid(&mut ids);
    match cas2.message() {
        KafkaMessage::Cas { from, to, .. } => assert_eq!((*from, *to), (1, 2)),
        other => panic!("expected cas, got {:?}", other),
    }
    assert_eq!(xa.on_cas_ok(), Some(2));
}

#[test]
fn xid_assigner_retries_after_losing_a_race() {
    let mut ids = MsgIdGen::new();
    let (mut xa, _cas) = XidAssigner::start("n1".to_string(), &mut ids);
    // The key already existed: read it back, then serve a request.
    let read = xa.on_precondition_failed(&mut ids);
    match read.message() {
        KafkaMessage::Read { key: Some(k) } => assert_eq!(*k, "xid".to_string()),
        other => panic!("expected read, got {:?}", other),
    }
    assert!(xa.on_read_ok(4, &mut ids).is_none());
    assert_eq!(xa.last_seen_xid, 4);
    let _cas = xa.request_xid(&mut ids);
    // Lost again: another node took 5; re-read and retry.
    let _read = xa.on_precondition_failed(&mut ids);
    let retry = xa.on_read_ok(5, &mut ids).expect("retry cas");
    match retry.message() {
        KafkaMessage::Cas { from, to, .. } => assert_eq!((*from, *to), (5, 6)),
        other => panic!("expected cas, got {:?}", other),
    }
    assert_eq!(xa.on_cas_ok(), Some(6));
}

#[test]
fn send_then_poll_returns_the_offset_and_message() {
    let mut ids = MsgIdGen::new();
    let mut n1 = KafkaNode::new();
    init_kafka(&mut n1, "n1", &["n1"], &mut ids);

    let send = kenv("c1", "n1", Some(3), KafkaMessage::Send { key: "k".to_string(), msg: 100 });
    let out = n1.handle_send(&send, 1, &mut ids);
    assert_eq!(out.len(), 1);
    assert_eq!(*out[0].message(), KafkaMessage::SendOk { offset: 1 });
    assert_eq!(out[0].dest, "c1".to_string());

    let poll = kenv(
        "c1",
        "n1",
        Some(4),
        KafkaMessage::Poll { offsets: vec![("k".to_string(), 0)] },
    );
    n1.handle_poll(poll);
    let (h, released) = n1.release_polls(&mut ids);
    assert_eq!(h, 1);
    assert_eq!(released.len(), 1);
    assert_eq!(
        *released[0].message(),
        KafkaMessage::PollOk { msgs: vec![("k".to_string(), vec![(1, 100)])] }
    );
}

#[test]
fn poll_is_held_until_the_log_is_contiguous() {
    let mut ids = MsgIdGen::new();
    let mut n2 = KafkaNode::new();
    init_kafka(&mut n2, "n2", &["n1", "n2"], &mut ids);

    // Gossip brings xid 2 first: the log has a gap at 1.
    let t2 = Transaction {
        node: "n1".to_string(),
        transaction_id: 2,
        key: "k".to_string(),
        message: 200,
    };
    let gossip2 = kenv("n1", "n2", Some(0), KafkaMessage::Transactions { transactions: vec![t2] });
    n2.handle_transactions(&gossip2);

    let poll = kenv(
        "c1",
        "n2",
        Some(9),
        KafkaMessage::Poll { offsets: vec![("k".to_string(), 0)] },
    );
    n2.handle_poll(poll);
    let (h, released) = n2.release_polls(&mut ids);
    assert_eq!(h, 0);
    assert!(released.is_empty());
    assert_eq!(n2.poll_replies.len(), 1);

    // The gap fills; the held poll is released with both messages in order.
    let t1 = Transaction {
        node: "n1".to_string(),
        transaction_id: 1,
        key: "k".to_string(),
        message: 100,
    };
    let gossip1 = kenv("n1", "n2", Some(1), KafkaMessage::Transactions { transactions: vec![t1] });
    n2.handle_transactions(&gossip1);
    let (h, released) = n2.release_polls(&mut ids);
    assert_eq!(h, 2);
    assert_eq!(released.len(), 1);
    assert_eq!(
        *released[0].message(),
        KafkaMessage::PollOk { msgs: vec![("k".to_string(), vec![(1, 100), (2, 200)])] }
    );
    assert!(n2.poll_replies.is_empty());
}

#[test]
fn duplicate_gossip_is_dropped_by_xid() {
    let mut ids = MsgIdGen::new();
    let mut n2 = KafkaNode::new();
    init_kafka(&mut n2, "n2", &["n1", "n2"], &mut ids);
    let t = Transaction {
        node: "n1".to_string(),
        transaction_id: 1,
        key: "k".to_string(),
        message: 100,
    };
    let gossip = kenv(
        "n1",
        "n2",
        Some(0),
        KafkaMessage::Transactions { transactions: vec![t.clone(), t] },
    );
    n2.handle_transactions(&gossip);
    assert_eq!(n2.log.len(), 1);
}

#[test]
fn commit_offsets_are_listed_back() {
    let mut ids = MsgIdGen::new();
    let mut n1 = KafkaNode::new();
    init_kafka(&mut n1, "n1", &["n1"], &mut ids);
    let commit = kenv(
        "c1",
        "n1",
        Some(5),
        KafkaMessage::CommitOffsets { offsets: vec![("k".to_string(), 5)] },
    );
    let out = n1.handle_commit_offsets(&commit, &vec![1], &mut ids);
    assert_eq!(*out.last().unwrap().message(), KafkaMessage::CommitOffsetsOk);

    let list = kenv(
        "c1",
        "n1",
        Some(6),
        KafkaMessage::ListCommittedOffsets { keys: vec!["k".to_string(), "other".to_string()] },
    );
    let rep = n1.handle_list_committed(&list, &mut ids);
    assert_eq!(
        *rep.message(),
        KafkaMessage::ListCommittedOffsetsOk { offsets: vec![("k".to_string(), 5)] }
    );
}

#[test]
fn kafka_anti_entropy_polls_from_past_the_known_xid() {
    let mut ids = MsgIdGen::new();
    let mut n2 = KafkaNode::new();
    init_kafka(&mut n2, "n2", &["n1", "n2"], &mut ids);
    let polls = n2.tick(&mut ids);
    assert_eq!(polls.len(), 1);
    assert_eq!(polls[0].dest, "n1".to_string());
    assert_eq!(*polls[0].message(), KafkaMessage::PollTransactions { first_xid: 0 });

    let t = Transaction {
        node: "n1".to_string(),
        transaction_id: 4,
        key: "k".to_string(),
        message: 1,
    };
    n2.handle_transactions(&kenv("n1", "n2", Some(0), KafkaMessage::Transactions {
        transactions: vec![t],
    }));
    let polls = n2.tick(&mut ids);
    assert_eq!(*polls[0].message(), KafkaMessage::PollTransactions { first_xid: 5 });
}

#[test]
fn a_later_commit_for_the_same_key_wins() {
    let mut ids = MsgIdGen::new();
    let mut n1 = KafkaNode::new();
    init_kafka(&mut n1, "n1", &["n1"], &mut ids);
    let commit1 = kenv(
        "c1",
        "n1",
        Some(1),
        KafkaMessage::CommitOffsets { offsets: vec![("k".to_string(), 3)] },
    );
    n1.handle_commit_offsets(&commit1, &vec![1], &mut ids);
    let commit2 = kenv(
        "c1",
        "n1",
        Some(2),
        KafkaMessage::CommitOffsets { offsets: vec![("k".to_string(), 7)] },
    );
    n1.handle_commit_offsets(&commit2, &vec![2], &mut ids);
    let list = kenv(
        "c1",
        "n1",
        Some(3),
        KafkaMessage::ListCommittedOffsets { keys: vec!["k".to_string()] },
    );
    let rep = n1.handle_list_committed(&list, &mut ids);
    assert_eq!(
        *rep.message(),
        KafkaMessage::ListCommittedOffsetsOk { offsets: vec![("k".to_string(), 7)] }
    );
}

#[test]
fn release_with_nothing_held_emits_nothing() {
    let mut ids = MsgIdGen::new();
    let mut n1 = KafkaNode::new();
    init_kafka(&mut n1, "n1", &["n1"], &mut ids);
    let (h, released) = n1.release_polls(&mut ids);
    assert_eq!(h, 0);
    assert!(released.is_empty());
}

#[test]
fn reading_an_absent_key_yields_null() {
    let mut ids = MsgIdGen::new();
    let mut n1 = TxnNode::new();
    init_txn(&mut n1, "n1", &["n1"], &mut ids);
    let req = tenv("c1", "n1", Some(1), TxnMessage::Txn { operations: vec![r(5, None)] });
    let out = n1.handle_txn(&req, &mut ids);
    assert_eq!(
        *out.last().unwrap().message(),
        TxnMessage::TxnOk { operations: vec![r(5, None)] }
    );
}

#[test]
fn poll_transactions_returns_own_suffix() {
    let mut ids = MsgIdGen::new();
    let mut n1 = KafkaNode::new();
    init_kafka(&mut n1, "n1", &["n1", "n2"], &mut ids);
    n1.handle_send(&kenv("c1", "n1", Some(1), KafkaMessage::Send { key: "a".to_string(), msg: 10 }), 1, &mut ids);
    n1.handle_send(&kenv("c1", "n1", Some(2), KafkaMessage::Send { key: "a".to_string(), msg: 20 }), 2, &mut ids);
    let peer_t = Transaction {
        node: "n2".to_string(),
        transaction_id: 3,
        key: "a".to_string(),
        message: 30,
    };
    n1.handle_transactions(&kenv("n2", "n1", Some(0), KafkaMessage::Transactions { transactions: vec![peer_t] }));
    let req = kenv("n2", "n1", Some(7), KafkaMessage::PollTransactions { first_xid: 2 });
    let rep = n1.handle_poll_transactions(&req, &mut ids);
    match rep.message() {
        KafkaMessage::Transactions { transactions } => {
            // Only n1's own transactions with xid >= 2.
            assert_eq!(transactions.len(), 1);
            assert_eq!(transactions[0].transaction_id, 2);
            assert_eq!(transactions[0].node, "n1".to_string());
        }
        other => panic!("expected transactions, got {:?}", other),
    }
}

fn tenv(src: &str, dest: &str, msg_id: Option<usize>, m: TxnMessage) -> Envelope<TxnMessage> {
    Envelope::from_parts(src.to_string(), dest.to_string(), msg_id, None, m)
}

fn init_txn(node: &mut TxnNode, me: &str, all: &[&str], ids: &mut MsgIdGen) {
    let env = tenv(
        "c0",
        me,
        Some(0),
        TxnMessage::Init {
            node_id: me.to_string(),
            node_ids: all.iter().map(|s| s.to_string()).collect(),
        },
    );
    let rep = node.handle_init(&env, ids);
    assert_eq!(*rep.message(), TxnMessage::InitOk);
}

fn w(key: u64, value: u64) -> Operation {
    Operation { optype: OpType::Write, key, value: Some(value) }
}

fn r(key: u64, value: Option<u64>) -> Operation {
    Operation { optype: OpType::Read, key, value }
}

#[test]
fn txn_reads_its_own_write() {
    let mut ids = MsgIdGen::new();
    let mut n1 = TxnNode::new();
    init_txn(&mut n1, "n1", &["n1"], &mut ids);
    let req = tenv(
        "c1",
        "n1",
        Some(1),
        TxnMessage::Txn { operations: vec![w(1, 7), r(1, None)] },
    );
    let out = n1.handle_txn(&req, &mut ids);
    assert_eq!(out.len(), 1);
    assert_eq!(
        *out[0].message(),
        TxnMessage::TxnOk { operations: vec![w(1, 7), r(1, Some(7))] }
    );
}

#[test]
fn txn_state_carries_across_requests_and_gossip() {
    let mut ids = MsgIdGen::new();
    let mut n1 = TxnNode::new();
    let mut n2 = TxnNode::new();
    init_txn(&mut n1, "n1", &["n1", "n2"], &mut ids);
    init_txn(&mut n2, "n2", &["n1", "n2"], &mut ids);

    let req = tenv("c1", "n1", Some(1), TxnMessage::Txn { operations: vec![w(3, 30)] });
    let out = n1.handle_txn(&req, &mut ids);
    assert_eq!(out.len(), 2);
    // The gossip envelope goes to n2 and lands in its log.
    n2.handle_transactions(&out[0]);

    let read = tenv("c2", "n2", Some(2), TxnMessage::Txn { operations: vec![r(3, None)] });
    let out2 = n2.handle_txn(&read, &mut ids);
    assert_eq!(
        *out2.last().unwrap().message(),
        TxnMessage::TxnOk { operations: vec![r(3, Some(30))] }
    );
}

#[test]
fn txn_gossip_poll_fills_missed_transactions() {
    let mut ids = MsgIdGen::new();
    let mut n1 = TxnNode::new();
    let mut n2 = TxnNode::new();
    init_txn(&mut n1, "n1", &["n1", "n2"], &mut ids);
    init_txn(&mut n2, "n2", &["n1", "n2"], &mut ids);

    // n1 accepts a transaction; the gossip to n2 is lost.
    let req = tenv("c1", "n1", Some(1), TxnMessage::Txn { operations: vec![w(9, 90)] });
    let _lost = n1.handle_txn(&req, &mut ids);

    // n2's periodic pull asks n1 from xid 0 and applies the reply.
    let polls = n2.tick(&mut ids);
    assert_eq!(polls.len(), 1);
    assert_eq!(polls[0].dest, "n1".to_string());
    assert_eq!(*polls[0].message(), TxnMessage::PollTransactions { first_xid: 0 });
    let reply = n1.handle_poll_transactions(&polls[0], &mut ids);
    n2.handle_transactions(&reply);

    let read = tenv("c2", "n2", Some(2), TxnMessage::Txn { operations: vec![r(9, None)] });
    let out = n2.handle_txn(&read, &mut ids);
    assert_eq!(
        *out.last().unwrap().message(),
        TxnMessage::TxnOk { operations: vec![r(9, Some(90))] }
    );
    // Having caught up, the next pull starts past the known xid.
    let polls = n2.tick(&mut ids);
    assert_eq!(*polls[0].message(), TxnMessage::PollTransactions { first_xid: 1 });
}

#[test]
fn roll_up_folds_writes_in_order() {
    let t1 = KvTransaction {
        node: "n1".to_string(),
        transaction_id: 0,
        operations: vec![w(1, 10), w(2, 20)],
    };
    let t2 = KvTransaction {
        node: "n1".to_string(),
        transaction_id: 1,
        operations: vec![w(1, 11), r(2, Some(20))],
    };
    let state = roll_up_transactions(&vec![t1, t2]);
    // Later writes shadow earlier ones: key 1 ends at 11, key 2 at 20.
    let get = |k: u64| state.iter().rev().find(|p| p.0 == k).map(|p| p.1);
    assert_eq!(get(1), Some(11));
    assert_eq!(get(2), Some(20));
    assert_eq!(get(3), None);
}

#[test]
fn op_type_characters_round_trip() {
    assert_eq!(OpType::from_char('r'), Some(OpType::Read));
    assert_eq!(OpType::from_char('w'), Some(OpType::Write));
    assert_eq!(OpType::from_char('x'), None);
    assert_eq!(OpType::Read.to_char(), 'r');
    assert_eq!(OpType::Write.to_char(), 'w');
}
