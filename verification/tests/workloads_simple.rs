use goofy_goobers::echo::{echo_step, EchoMessage};
use goofy_goobers::message::{Envelope, MsgIdGen};
use goofy_goobers::unique_ids::{u64_to_dec, unique_id, UniqueIdsMessage, UniqueIdsNode};

#[test]
fn echo_init_is_acknowledged() {
    let mut ids = MsgIdGen::new();
    let req = Envelope::from_parts(
        "c1".to_string(),
        "n1".to_string(),
        Some(1),
        None,
        EchoMessage::Init { node_id: "n1".to_string(), node_ids: vec!["n1".to_string()] },
    );
    let rep = echo_step(&req, &mut ids);
    assert_eq!(rep.src, "n1".to_string());
    assert_eq!(rep.dest, "c1".to_string());
    assert_eq!(rep.in_reply_to(), Some(1));
    assert_eq!(*rep.message(), EchoMessage::InitOk);
}

#[test]
fn echo_returns_the_same_text() {
    let mut ids = MsgIdGen::new();
    let req = Envelope::from_parts(
        "c1".to_string(),
        "n1".to_string(),
        Some(2),
        None,
        EchoMessage::Echo { echo: "hello there".to_string() },
    );
    let rep = echo_step(&req, &mut ids);
    assert_eq!(
        *rep.message(),
        EchoMessage::EchoOk { echo: "hello there".to_string() }
    );
    assert_eq!(rep.in_reply_to(), Some(2));
}

#[test]
fn decimal_formatting_is_exact() {
    assert_eq!(u64_to_dec(0), "0".to_string());
    assert_eq!(u64_to_dec(7), "7".to_string());
    assert_eq!(u64_to_dec(905), "905".to_string());
    assert_eq!(u64_to_dec(18446744073709551615), "18446744073709551615".to_string());
}

#[test]
fn unique_id_joins_node_and_counter() {
    assert_eq!(unique_id("n3", 0), "n3.0".to_string());
    assert_eq!(unique_id("n12", 12345), "n12.12345".to_string());
}

#[test]
fn generate_after_init_yields_prefixed_ids() {
    let mut ids = MsgIdGen::new();
    let mut node = UniqueIdsNode::new();
    let init = Envelope::from_parts(
        "c1".to_string(),
        "n3".to_string(),
        Some(0),
        None,
        UniqueIdsMessage::Init { node_id: "n3".to_string(), node_ids: vec!["n3".to_string()] },
    );
    let rep = node.handle(&init, &mut ids);
    assert_eq!(*rep.message(), UniqueIdsMessage::InitOk);

    let gen1 = Envelope::from_parts(
        "c1".to_string(),
        "n3".to_string(),
        Some(1),
        None,
        UniqueIdsMessage::Generate,
    );
    let rep1 = node.handle(&gen1, &mut ids);
    assert_eq!(
        *rep1.message(),
        UniqueIdsMessage::GenerateOk { id: "n3.0".to_string() }
    );

    let gen2 = Envelope::from_parts(
        "c1".to_string(),
        "n3".to_string(),
        Some(2),
        None,
        UniqueIdsMessage::Generate,
    );
    let rep2 = node.handle(&gen2, &mut ids);
    assert_eq!(
        *rep2.message(),
        UniqueIdsMessage::GenerateOk { id: "n3.1".to_string() }
    );
}

#[test]
fn ids_from_different_nodes_differ() {
    let a = unique_id("n1", 5);
    let b = unique_id("n2", 5);
    assert_ne!(a, b);
    let c = unique_id("n1", 6);
    assert_ne!(a, c);
}
