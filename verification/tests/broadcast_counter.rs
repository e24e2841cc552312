use goofy_goobers::broadcast::{BroadcastMessage, BroadcastNode, NodeHandler};
use goofy_goobers::counter::{CounterMessage, CounterNode};
use goofy_goobers::message::{Envelope, MsgIdGen};

fn bcast_env(src: &str, dest: &str, msg_id: Option<usize>, m: BroadcastMessage) -> Envelope<BroadcastMessage> {
    Envelope::from_parts(src.to_string(), dest.to_string(), msg_id, None, m)
}

fn init_broadcast(node: &mut BroadcastNode, me: &str, all: &[&str], ids: &mut MsgIdGen) {
    let env = bcast_env(
        "c0",
        me,
        Some(0),
        BroadcastMessage::Init {
            node_id: me.to_string(),
            node_ids: all.iter().map(|s| s.to_string()).collect(),
        },
    );
    let rep = node.handle_init(&env, ids);
    assert_eq!(*rep.message(), BroadcastMessage::InitOk);
}

#[test]
fn handler_keeps_unacked_until_acknowledged() {
    let mut h = NodeHandler::new();
    h.send_message(1);
    h.send_message(2);
    h.send_message(3);
    h.sync_ok(&vec![2]);
    assert_eq!(h.unacked_messages, vec![1, 3]);
    // A duplicate acknowledgment is a no-op.
    h.sync_ok(&vec![2]);
    assert_eq!(h.unacked_messages, vec![1, 3]);
    h.sync_ok(&vec![1, 3]);
    assert!(h.unacked_messages.is_empty());
}

#[test]
fn broadcast_is_stored_acked_and_synced_to_the_neighbour() {
    let mut ids = MsgIdGen::new();
    let mut n1 = BroadcastNode::new();
    let mut n2 = BroadcastNode::new();
    init_broadcast(&mut n1, "n1", &["n1", "n2"], &mut ids);
    init_broadcast(&mut n2, "n2", &["n1", "n2"], &mut ids);

    let req = bcast_env("c1", "n1", Some(5), BroadcastMessage::Broadcast { message: 42 });
    let rep = n1.handle_broadcast(&req, &mut ids);
    assert_eq!(*rep.message(), BroadcastMessage::BroadcastOk);
    assert_eq!(rep.dest, "c1".to_string());

    // The periodic sync carries the payload to n2.
    let syncs = n1.tick(&mut ids);
    assert_eq!(syncs.len(), 1);
    assert_eq!(syncs[0].dest, "n2".to_string());
    assert_eq!(
        *syncs[0].message(),
        BroadcastMessage::Sync { messages: vec![42] }
    );

    let ack = n2.handle_sync(&syncs[0], &mut ids);
    match ack.message() {
        BroadcastMessage::SyncOk { messages } => assert_eq!(*messages, vec![42]),
        other => panic!("expected sync_ok, got {:?}", other),
    }

    // n2's read now returns the payload; n1 applies the ack and goes quiet.
    let read = bcast_env("c2", "n2", Some(6), BroadcastMessage::Read);
    let read_ok = n2.handle_read(&read, &mut ids);
    assert_eq!(
        *read_ok.message(),
        BroadcastMessage::ReadOk { messages: vec![42] }
    );

    n1.handle_sync_ok(&"n2".to_string(), &vec![42]);
    assert!(n1.tick(&mut ids).is_empty());
}

#[test]
fn duplicate_broadcast_does_not_duplicate_storage() {
    let mut ids = MsgIdGen::new();
    let mut n1 = BroadcastNode::new();
    init_broadcast(&mut n1, "n1", &["n1", "n2"], &mut ids);
    let req = bcast_env("c1", "n1", Some(1), BroadcastMessage::Broadcast { message: 9 });
    n1.handle_broadcast(&req, &mut ids);
    n1.handle_broadcast(&req, &mut ids);
    assert_eq!(n1.messages, vec![9]);
}

#[test]
fn read_before_any_broadcast_is_empty() {
    let mut ids = MsgIdGen::new();
    let mut n1 = BroadcastNode::new();
    init_broadcast(&mut n1, "n1", &["n1"], &mut ids);
    let read = bcast_env("c1", "n1", Some(1), BroadcastMessage::Read);
    let rep = n1.handle_read(&read, &mut ids);
    assert_eq!(*rep.message(), BroadcastMessage::ReadOk { messages: vec![] });
}

#[test]
fn topology_is_acknowledged_and_ignored() {
    let mut ids = MsgIdGen::new();
    let mut n1 = BroadcastNode::new();
    init_broadcast(&mut n1, "n1", &["n1", "n2"], &mut ids);
    let before = n1.neighbours.clone();
    let env = bcast_env(
        "c1",
        "n1",
        Some(2),
        BroadcastMessage::Topology {
            topology: vec![("n1".to_string(), vec!["n2".to_string()])],
        },
    );
    let rep = n1.handle_topology(&env, &mut ids);
    assert_eq!(*rep.message(), BroadcastMessage::TopologyOk);
    assert_eq!(n1.neighbours, before);
}

fn kv_env(m: CounterMessage, in_reply_to: Option<usize>) -> Envelope<CounterMessage> {
    Envelope::from_parts("seq-kv".to_string(), "n".to_string(), Some(0), in_reply_to, m)
}

/// Drive one node's pending delta into a simulated sequentially-consistent
/// key-value total, the way the service would answer.
fn flush_counter(node: &mut CounterNode, kv: &mut u64, ids: &mut MsgIdGen) {
    loop {
        let cas = match node.maybe_cas(ids) {
            Some(c) => c,
            None => return,
        };
        let (from, to) = match cas.message() {
            CounterMessage::Cas { from, to, .. } => (*from, *to),
            other => panic!("expected cas, got {:?}", other),
        };
        if *kv == from {
            *kv = to;
            node.handle_cas_ok(&kv_env(CounterMessage::CasOk, cas.msg_id()));
        } else {
            let err = kv_env(
                CounterMessage::Error { code: 22, text: "stale".to_string() },
                cas.msg_id(),
            );
            let read = node.handle_error(&err, ids).expect("retry path");
            match read.message() {
                CounterMessage::Read { key: Some(k) } => assert_eq!(*k, "total".to_string()),
                other => panic!("expected read, got {:?}", other),
            }
            node.handle_read_ok(&kv_env(CounterMessage::ReadOk { value: *kv }, read.msg_id()));
        }
    }
}

#[test]
fn counter_converges_to_the_sum_of_all_deltas() {
    let mut ids = MsgIdGen::new();
    let mut kv: u64 = 0;
    let mut nodes = Vec::new();
    for me in ["n1", "n2", "n3"] {
        let mut n = CounterNode::new();
        let env = Envelope::from_parts(
            "c0".to_string(),
            me.to_string(),
            Some(0),
            None,
            CounterMessage::Init {
                node_id: me.to_string(),
                node_ids: vec!["n1".to_string(), "n2".to_string(), "n3".to_string()],
            },
        );
        let (ack, _cas) = n.handle_init(&env, &mut ids);
        assert_eq!(*ack.message(), CounterMessage::InitOk);
        // Bootstrap: the create-or-observe compare-and-set.
        if kv == 0 {
            n.handle_cas_ok(&kv_env(CounterMessage::CasOk, Some(n.last_cas_id)));
        }
        nodes.push(n);
    }
    // Each node receives add {delta: 1} three times, then pushes.
    for n in nodes.iter_mut() {
        for i in 0..3u64 {
            let add = Envelope::from_parts(
                "c1".to_string(),
                n.node_id.clone(),
                Some(10 + i as usize),
                None,
                CounterMessage::Add { delta: 1 },
            );
            let rep = n.handle_add(&add, &mut ids);
            assert_eq!(*rep.message(), CounterMessage::AddOk);
        }
        flush_counter(n, &mut kv, &mut ids);
    }
    assert_eq!(kv, 9);
    // Gossip round: every node probes its peers and folds in the maximum.
    let replies: Vec<(String, u64)> =
        nodes.iter().map(|n| (n.node_id.clone(), n.value)).collect();
    for n in nodes.iter_mut() {
        let probes = n.tick(&mut ids);
        assert_eq!(probes.len(), 2);
        for p in probes {
            let peer_value = replies.iter().find(|(id, _)| *id == p.dest).unwrap().1;
            let rep = Envelope::from_parts(
                p.dest.clone(),
                n.node_id.clone(),
                Some(0),
                p.msg_id(),
                CounterMessage::ReadOk { value: peer_value },
            );
            n.handle_read_ok(&rep);
        }
    }
    for n in nodes.iter_mut() {
        let read = Envelope::from_parts(
            "c9".to_string(),
            n.node_id.clone(),
            Some(99),
            None,
            CounterMessage::Read { key: None },
        );
        let rep = n.handle_read(&read, &mut ids);
        assert_eq!(*rep.message(), CounterMessage::ReadOk { value: 9 });
    }
}

#[test]
fn counter_fatal_errors_are_handed_back() {
    let mut ids = MsgIdGen::new();
    let mut n = CounterNode::new();
    let env = Envelope::from_parts(
        "c0".to_string(),
        "n1".to_string(),
        Some(0),
        None,
        CounterMessage::Init { node_id: "n1".to_string(), node_ids: vec!["n1".to_string()] },
    );
    n.handle_init(&env, &mut ids);
    let fatal = kv_env(CounterMessage::Error { code: 13, text: "boom".to_string() }, Some(1));
    let err = n.handle_error(&fatal, &mut ids).unwrap_err();
    assert_eq!(err.code, goofy_goobers::error::ErrorCode::Crash);
    let unknown = kv_env(CounterMessage::Error { code: 99, text: "??".to_string() }, Some(1));
    let err = n.handle_error(&unknown, &mut ids).unwrap_err();
    assert_eq!(err.code, goofy_goobers::error::ErrorCode::Crash);
}

#[test]
fn counter_read_ok_from_peer_takes_maximum() {
    let mut n = CounterNode::new();
    n.value = 5;
    let low = Envelope::from_parts(
        "n2".to_string(),
        "n1".to_string(),
        Some(0),
        None,
        CounterMessage::ReadOk { value: 3 },
    );
    n.handle_read_ok(&low);
    assert_eq!(n.value, 5);
    let high = Envelope::from_parts(
        "n2".to_string(),
        "n1".to_string(),
        Some(0),
        None,
        CounterMessage::ReadOk { value: 8 },
    );
    n.handle_read_ok(&high);
    assert_eq!(n.value, 8);
}
