//! The envelope codec: framed messages with source, destination and a body
//! that carries an optional message id, an optional reply reference and the
//! workload payload.
//!
//! Message ids come from a per-process monotonic counter, modelled here as an
//! explicit [`MsgIdGen`] value threaded through the constructors, so that
//! monotonicity and distinctness of the ids a process emits are stated and
//! proved rather than assumed.

use vstd::prelude::*;
use vstd::string::StrSliceExecFns;

verus! {

/// The per-process source of fresh message ids: a counter starting at zero
/// that every envelope constructor advances by one.
pub struct MsgIdGen {
    pub next_id: usize,
}

/// Holds when constructing one envelope turned the id state `before` into
/// `after` and stamped the envelope with `id`.
pub open spec fn allocates(before: MsgIdGen, id: usize, after: MsgIdGen) -> bool {
    &&& id == before.next_id
    &&& after.next_id == before.next_id + 1
}

impl MsgIdGen {
    /// A fresh counter; the first envelope built from it gets message id 0.
    pub fn new() -> (r: MsgIdGen)
        ensures
            r.next_id == 0,
    {
        MsgIdGen { next_id: 0 }
    }

    fn fresh(&mut self) -> (id: usize)
        requires
            old(self).next_id < usize::MAX,
        ensures
            allocates(*old(self), id, *final(self)),
    {
        let id = self.next_id;
        self.next_id = self.next_id + 1;
        id
    }
}

/// Message ids a process emits are pairwise distinct and strictly monotonic
/// in emission order: if one envelope was stamped from id state `g0`, and a
/// later envelope from a state `g2` no earlier than the first construction
/// left off, the later id is strictly greater.
pub proof fn lemma_msg_ids_strictly_monotonic(
    g0: MsgIdGen,
    id1: usize,
    g1: MsgIdGen,
    g2: MsgIdGen,
    id2: usize,
    g3: MsgIdGen,
)
    requires
        allocates(g0, id1, g1),
        g1.next_id <= g2.next_id,
        allocates(g2, id2, g3),
    ensures
        id1 < id2,
{
}

/// The addressing discipline of replies: a reply travels from the request's
/// destination back to the request's source and its `in_reply_to` equals the
/// request's message id.
pub open spec fn is_reply_to<B>(rep: Envelope<B>, req: Envelope<B>) -> bool {
    &&& rep.src == req.dest
    &&& rep.dest == req.src
    &&& rep.body.in_reply_to == req.body.msg_id
}

/// The body of an envelope: optional message id, optional reference to the
/// request this replies to, and the workload payload.
#[derive(Debug, Clone)]
pub struct Body<B> {
    pub msg_id: Option<usize>,
    pub in_reply_to: Option<usize>,
    pub message: B,
}

/// A framed message: source node, destination node, body.
#[derive(Debug, Clone)]
pub struct Envelope<B> {
    pub src: String,
    pub dest: String,
    pub body: Body<B>,
}

impl<B> Envelope<B> {
    /// The source string starts with `'n'`: by convention such identifiers
    /// denote cluster peers, all others clients or services.
    pub open spec fn spec_is_from_node(&self) -> bool {
        self.src@.len() > 0 && self.src@[0] == 'n'
    }

    /// Construct a fresh envelope, stamping it with the next message id.
    pub fn new(
        src: String,
        dest: String,
        in_reply_to: Option<usize>,
        message: B,
        ids: &mut MsgIdGen,
    ) -> (r: Envelope<B>)
        requires
            old(ids).next_id < usize::MAX,
        ensures
            r.src == src,
            r.dest == dest,
            r.body.in_reply_to == in_reply_to,
            r.body.message == message,
            r.body.msg_id matches Some(id) && allocates(*old(ids), id, *final(ids)),
    {
        Envelope { src, dest, body: Body { msg_id: Some(ids.fresh()), in_reply_to, message } }
    }

    /// Rebuild an envelope from its parts as they came off the wire. Unlike
    /// [`Envelope::new`] this stamps nothing: the message id is whatever the
    /// sender put there.
    pub fn from_parts(
        src: String,
        dest: String,
        msg_id: Option<usize>,
        in_reply_to: Option<usize>,
        message: B,
    ) -> (r: Envelope<B>)
        ensures
            r.src == src,
            r.dest == dest,
            r.body.msg_id == msg_id,
            r.body.in_reply_to == in_reply_to,
            r.body.message == message,
    {
        Envelope { src, dest, body: Body { msg_id, in_reply_to, message } }
    }

    pub fn is_from_node(&self) -> (r: bool)
        ensures
            r == self.spec_is_from_node(),
    {
        let s = self.src.as_str();
        if s.unicode_len() == 0 {
            false
        } else {
            s.get_char(0) == 'n'
        }
    }

    pub fn message(&self) -> (r: &B)
        ensures
            r == &self.body.message,
    {
        &self.body.message
    }

    pub fn msg_id(&self) -> (r: Option<usize>)
        ensures
            r == self.body.msg_id,
    {
        self.body.msg_id
    }

    pub fn in_reply_to(&self) -> (r: Option<usize>)
        ensures
            r == self.body.in_reply_to,
    {
        self.body.in_reply_to
    }

    /// Build the reply to this envelope: source and destination swapped, a
    /// fresh message id, `in_reply_to` set to this envelope's message id, and
    /// the given payload carried.
    pub fn reply(&self, message: B, ids: &mut MsgIdGen) -> (r: Envelope<B>)
        requires
            old(ids).next_id < usize::MAX,
        ensures
            is_reply_to(r, *self),
            r.src == self.dest,
            r.dest == self.src,
            r.body.in_reply_to == self.body.msg_id,
            r.body.message == message,
            r.body.msg_id matches Some(id) && allocates(*old(ids), id, *final(ids)),
    {
        Envelope {
            src: self.dest.clone(),
            dest: self.src.clone(),
            body: Body { msg_id: Some(ids.fresh()), in_reply_to: self.body.msg_id, message },
        }
    }
}

/// A reply inverts the request's addressing and references its message id:
/// whatever the payloads, the reply travels from the request's destination
/// back to the request's source, and its `in_reply_to` names the request.
pub proof fn lemma_reply_inverts_request<B>(req: Envelope<B>, rep: Envelope<B>)
    requires
        is_reply_to(rep, req),
    ensures
        rep.src == req.dest,
        rep.dest == req.src,
        rep.spec_is_from_node() == (req.dest@.len() > 0 && req.dest@[0] == 'n'),
        req.body.msg_id matches Some(id) ==> rep.body.in_reply_to == Some(id),
{
}

} // verus!
