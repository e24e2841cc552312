use goofy_goobers::delivery::{PeerHandler, ResendAction, RESEND_AFTER};
use goofy_goobers::message::{Envelope, MsgIdGen};

fn handler() -> PeerHandler<u64> {
    PeerHandler::new("n2".to_string())
}

fn outbound(ids: &mut MsgIdGen, payload: u64) -> Envelope<u64> {
    Envelope::new("n1".to_string(), "n2".to_string(), None, payload, ids)
}

fn reply_to(msg_id: usize) -> Envelope<u64> {
    Envelope::from_parts("n2".to_string(), "n1".to_string(), Some(77), Some(msg_id), 0)
}

#[test]
fn resend_fires_at_exactly_resend_after() {
    let mut ids = MsgIdGen::new();
    let mut h = handler();
    let e = outbound(&mut ids, 1);
    h.send(e, 1000);
    assert_eq!(h.tick(1000 + RESEND_AFTER - 1), ResendAction::Quiet);
    assert_eq!(h.tick(1000 + RESEND_AFTER), ResendAction::ResendOldest);
}

#[test]
fn ack_removes_the_matching_record_and_duplicates_are_noops() {
    let mut ids = MsgIdGen::new();
    let mut h = handler();
    let e1 = outbound(&mut ids, 1);
    let id1 = e1.msg_id().unwrap();
    let e2 = outbound(&mut ids, 2);
    h.send(e1, 10);
    h.send(e2, 20);
    assert_eq!(h.in_flight.len(), 2);

    h.on_incoming(&reply_to(id1), 30);
    assert_eq!(h.in_flight.len(), 1);
    assert_eq!(*h.in_flight[0].envelope.message(), 2);
    assert_eq!(h.last_message_received, 30);

    // The same ack again finds nothing to drop.
    h.on_incoming(&reply_to(id1), 40);
    assert_eq!(h.in_flight.len(), 1);
    assert_eq!(h.last_message_received, 40);
}

#[test]
fn recovery_flushes_everything_in_order() {
    let mut ids = MsgIdGen::new();
    let mut h = handler();
    h.send(outbound(&mut ids, 1), 100);
    h.send(outbound(&mut ids, 2), 150);
    // Heard from the peer after the newest send: the whole list goes again.
    h.on_incoming(&Envelope::from_parts("n2".to_string(), "n1".to_string(), Some(5), None, 9), 200);
    let now = 150 + RESEND_AFTER;
    assert_eq!(h.tick(now), ResendAction::FlushAll);
    assert_eq!(h.in_flight.len(), 2);
    assert_eq!(*h.in_flight[0].envelope.message(), 1);
    assert_eq!(*h.in_flight[1].envelope.message(), 2);
    assert!(h.in_flight.iter().all(|f| f.sent_at == now));
}

#[test]
fn silent_peer_is_probed_with_the_oldest_only() {
    let mut ids = MsgIdGen::new();
    let mut h = handler();
    h.send(outbound(&mut ids, 1), 100);
    h.send(outbound(&mut ids, 2), 150);
    let now = 150 + RESEND_AFTER;
    assert_eq!(h.tick(now), ResendAction::ResendOldest);
    assert_eq!(h.in_flight[0].sent_at, now);
    assert_eq!(h.in_flight[1].sent_at, 150);
}

#[test]
fn quiet_while_nothing_is_in_flight() {
    let mut h = handler();
    assert_eq!(h.tick(10_000), ResendAction::Quiet);
}
