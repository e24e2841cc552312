//! The echo workload: `init` is acknowledged, and every `echo` request is
//! answered with `echo_ok` carrying the same text back.

use vstd::prelude::*;

use crate::message::{allocates, is_reply_to, Envelope, MsgIdGen};

verus! {

/// The messages of the echo workload.
#[derive(Debug, Clone, PartialEq, Eq)]
pub enum EchoMessage {
    Init { node_id: String, node_ids: Vec<String> },
    InitOk,
    Echo { echo: String },
    EchoOk { echo: String },
}

/// Answer one request: `init` with `init_ok`, `echo {echo}` with
/// `echo_ok {echo}` carrying the identical text.
pub fn echo_step(env: &Envelope<EchoMessage>, ids: &mut MsgIdGen) -> (out: Envelope<EchoMessage>)
    requires
        env.body.message matches EchoMessage::Init { .. } || env.body.message
            matches EchoMessage::Echo { .. },
        old(ids).next_id < usize::MAX,
    ensures
        is_reply_to(out, *env),
        out.body.msg_id matches Some(id) && allocates(*old(ids), id, *final(ids)),
        match env.body.message {
            EchoMessage::Init { .. } => out.body.message == EchoMessage::InitOk,
            EchoMessage::Echo { echo } => out.body.message matches EchoMessage::EchoOk {
                echo: back,
            } && back@ == echo@,
            _ => false,
        },
{
    match env.message() {
        EchoMessage::Echo { echo } => {
            let back = echo.clone();
            env.reply(EchoMessage::EchoOk { echo: back }, ids)
        },
        _ => env.reply(EchoMessage::InitOk, ids),
    }
}

} // verus!
