use goofy_goobers::error::{Error, ErrorCode};
use goofy_goobers::message::{Envelope, MsgIdGen};

#[test]
fn msg_ids_start_at_zero_and_increase() {
    let mut ids = MsgIdGen::new();
    let a: Envelope<u64> = Envelope::new("n1".to_string(), "n2".to_string(), None, 7, &mut ids);
    let b: Envelope<u64> = Envelope::new("n1".to_string(), "n2".to_string(), None, 8, &mut ids);
    assert_eq!(a.msg_id(), Some(0));
    assert_eq!(b.msg_id(), Some(1));
}

#[test]
fn reply_swaps_src_dest_and_references_request() {
    let mut ids = MsgIdGen::new();
    let req: Envelope<u64> =
        Envelope::from_parts("c1".to_string(), "n1".to_string(), Some(41), None, 1);
    let rep = req.reply(2, &mut ids);
    assert_eq!(rep.src, "n1".to_string());
    assert_eq!(rep.dest, "c1".to_string());
    assert_eq!(rep.in_reply_to(), Some(41));
    assert_eq!(*rep.message(), 2);
}

#[test]
fn is_from_node_checks_leading_n() {
    let e: Envelope<u64> = Envelope::from_parts("n3".to_string(), "c1".to_string(), None, None, 0);
    assert!(e.is_from_node());
    let c: Envelope<u64> = Envelope::from_parts("c3".to_string(), "n1".to_string(), None, None, 0);
    assert!(!c.is_from_node());
    let empty: Envelope<u64> =
        Envelope::from_parts("".to_string(), "n1".to_string(), None, None, 0);
    assert!(!empty.is_from_node());
}

#[test]
fn error_codes_round_trip() {
    let all = [
        (0u64, ErrorCode::Timeout),
        (1, ErrorCode::NodeNotFound),
        (10, ErrorCode::NotSupported),
        (11, ErrorCode::TemporarilyUnavailable),
        (12, ErrorCode::MalformedRequest),
        (13, ErrorCode::Crash),
        (14, ErrorCode::Abort),
        (20, ErrorCode::KeyDoesNotExist),
        (21, ErrorCode::KeyAlreadyExists),
        (22, ErrorCode::PreconditionFailed),
        (30, ErrorCode::TransactionConflict),
    ];
    for (num, code) in all {
        assert_eq!(ErrorCode::from_code(num), Some(code));
        assert_eq!(code.code(), num);
    }
}

#[test]
fn unknown_error_codes_are_rejected() {
    assert_eq!(ErrorCode::from_code(2), None);
    assert_eq!(ErrorCode::from_code(15), None);
    assert_eq!(ErrorCode::from_code(99), None);
}

#[test]
fn error_carries_code_and_text() {
    let e = Error { code: ErrorCode::Abort, text: "gone".to_string() };
    assert_eq!(e.code, ErrorCode::Abort);
    assert_eq!(e.text, "gone".to_string());
}
