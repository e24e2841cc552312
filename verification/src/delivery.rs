//! Per-peer acknowledged delivery: one handler per peer tracks the
//! envelopes sent to it that no reply has matched yet, applies incoming
//! acknowledgments, and decides on each timer tick whether to retransmit —
//! everything outstanding after a perceived recovery, or only the oldest
//! message to probe a peer that has gone silent.

use vstd::prelude::*;

use crate::message::Envelope;

verus! {

/// Milliseconds after the newest send before retransmission fires.
pub const RESEND_AFTER: u64 = 200;

/// One outbound envelope awaiting acknowledgment, with the time it was
/// last sent.
pub struct InFlight<B> {
    pub envelope: Envelope<B>,
    pub sent_at: u64,
}

/// What a timer tick decided: nothing is due; every in-flight envelope is
/// to be retransmitted in original order; or only the oldest one, to probe
/// a silent peer without amplification.
#[derive(Debug, Clone, Copy, PartialEq, Eq, Structural)]
pub enum ResendAction {
    Quiet,
    FlushAll,
    ResendOldest,
}

/// The delivery handler for one peer.
pub struct PeerHandler<B> {
    pub peer: String,
    pub in_flight: Vec<InFlight<B>>,
    pub last_message_received: u64,
}

/// Retransmission is due: the newest in-flight record is at least
/// [`RESEND_AFTER`] old.
pub open spec fn resend_due<B>(h: PeerHandler<B>, now: u64) -> bool {
    &&& h.in_flight@.len() > 0
    &&& now >= h.in_flight@.last().sent_at + RESEND_AFTER
}

impl<B> PeerHandler<B> {
    /// A fresh handler for `peer`: nothing in flight, nothing heard.
    pub fn new(peer: String) -> (r: PeerHandler<B>)
        ensures
            r.peer == peer,
            r.in_flight@ == Seq::<InFlight<B>>::empty(),
            r.last_message_received == 0,
    {
        PeerHandler { peer, in_flight: Vec::new(), last_message_received: 0 }
    }

    /// Record one envelope as sent now. The caller puts the same envelope
    /// on the wire; it stays recorded here until a reply matches it.
    pub fn send(&mut self, envelope: Envelope<B>, now: u64)
        requires
            envelope.dest@ == old(self).peer@,
        ensures
            final(self).peer == old(self).peer,
            final(self).last_message_received == old(self).last_message_received,
            final(self).in_flight@ == old(self).in_flight@.push(
                InFlight { envelope, sent_at: now },
            ),
    {
        self.in_flight.push(InFlight { envelope, sent_at: now });
    }

    /// Apply an incoming envelope from this peer: note the time, and if it
    /// replies to an in-flight envelope, drop that record. A duplicate
    /// acknowledgment finds nothing to drop and is a no-op.
    #[verifier::loop_isolation(false)]
    pub fn on_incoming(&mut self, env: &Envelope<B>, now: u64)
        requires
            env.src@ == old(self).peer@,
        ensures
            final(self).peer == old(self).peer,
            final(self).last_message_received == now,
            match env.body.in_reply_to {
                Some(r) => final(self).in_flight@ == old(self).in_flight@.filter(
                    (|f: InFlight<B>| f.envelope.body.msg_id != Some(r)),
                ),
                None => final(self).in_flight@ == old(self).in_flight@,
            },
    {
        self.last_message_received = now;
        let r = match env.in_reply_to() {
            Some(r) => r,
            None => {
                return ;
            },
        };
        proof {
            reveal(Seq::filter);
        }
        let ghost held0 = self.in_flight@;
        let ghost pred = (|f: InFlight<B>| f.envelope.body.msg_id != Some(r));
        let mut kept: Vec<InFlight<B>> = Vec::new();
        let total = self.in_flight.len();
        let mut done: usize = 0;
        while self.in_flight.len() > 0
            invariant
                done <= total,
                self.in_flight@ =~= held0.skip(done as int),
                kept@ == held0.take(done as int).filter(pred),
                self.peer == old(self).peer,
                self.last_message_received == now,
            decreases self.in_flight@.len(),
        {
            proof {
                reveal(Seq::filter);
                assert(held0.take((done + 1) as int).drop_last() =~= held0.take(done as int));
                assert(held0.take((done + 1) as int).last() == held0[done as int]);
                assert(held0.take((done + 1) as int).filter(pred) == if pred(held0[done as int]) {
                    held0.take(done as int).filter(pred).push(held0[done as int])
                } else {
                    held0.take(done as int).filter(pred)
                });
            }
            let rec = self.in_flight.remove(0);
            proof {
                assert(rec == held0[done as int]);
                assert(self.in_flight@ =~= held0.skip((done + 1) as int));
            }
            let matches_reply = match rec.envelope.body.msg_id {
                Some(id) => id == r,
                None => false,
            };
            if !matches_reply {
                kept.push(rec);
            }
            done = done + 1;
        }
        proof {
            assert(held0.take(total as int) =~= held0);
        }
        self.in_flight = kept;
    }

    /// The timer tick. If the newest in-flight record is at least
    /// [`RESEND_AFTER`] old, decide: when the peer has been heard from
    /// since that send, everything outstanding is resent in original order
    /// (and re-stamped); otherwise only the oldest record is resent and
    /// re-stamped, probing the silent peer. The caller retransmits what the
    /// decision names, reading the envelopes back from `in_flight`.
    #[verifier::loop_isolation(false)]
    pub fn tick(&mut self, now: u64) -> (action: ResendAction)
        requires
            now + RESEND_AFTER <= u64::MAX,
        ensures
            final(self).peer == old(self).peer,
            final(self).last_message_received == old(self).last_message_received,
            final(self).in_flight@.len() == old(self).in_flight@.len(),
            forall|k: int|
                0 <= k < old(self).in_flight@.len() ==> (#[trigger] final(self).in_flight@[k]).envelope
                    == old(self).in_flight@[k].envelope,
            !resend_due(*old(self), now) ==> {
                &&& action == ResendAction::Quiet
                &&& *final(self) == *old(self)
            },
            (resend_due(*old(self), now) && old(self).last_message_received
                > old(self).in_flight@.last().sent_at) ==> {
                &&& action == ResendAction::FlushAll
                &&& forall|k: int|
                    0 <= k < old(self).in_flight@.len()
                        ==> (#[trigger] final(self).in_flight@[k]).sent_at == now
            },
            (resend_due(*old(self), now) && old(self).last_message_received
                <= old(self).in_flight@.last().sent_at) ==> {
                &&& action == ResendAction::ResendOldest
                &&& final(self).in_flight@[0].sent_at == now
                &&& forall|k: int|
                    1 <= k < old(self).in_flight@.len() ==> (#[trigger] final(self).in_flight@[k])
                        == old(self).in_flight@[k]
            },
    {
        let n = self.in_flight.len();
        if n == 0 {
            return ResendAction::Quiet;
        }
        let newest_sent = self.in_flight[n - 1].sent_at;
        if now < newest_sent || now - newest_sent < RESEND_AFTER {
            return ResendAction::Quiet;
        }
        if self.last_message_received > newest_sent {
            let ghost snap = self.in_flight@;
            let mut k: usize = 0;
            while k < self.in_flight.len()
                invariant
                    k <= snap.len(),
                    self.in_flight@.len() == snap.len(),
                    self.peer == old(self).peer,
                    self.last_message_received == old(self).last_message_received,
                    forall|t: int|
                        0 <= t < k ==> (#[trigger] self.in_flight@[t]).envelope == snap[t].envelope
                            && self.in_flight@[t].sent_at == now,
                    forall|t: int| k <= t < snap.len() ==> (#[trigger] self.in_flight@[t]) == snap[t],
                decreases snap.len() - k,
            {
                let f = &mut self.in_flight[k];
                f.sent_at = now;
                k = k + 1;
            }
            ResendAction::FlushAll
        } else {
            let f = &mut self.in_flight[0];
            f.sent_at = now;
            ResendAction::ResendOldest
        }
    }
}

/// After an acknowledgment is applied, the in-flight list holds no envelope
/// whose matching reply has been observed: every record carrying the
/// acknowledged message id is gone.
pub proof fn lemma_ack_clears_in_flight<B>(before: Seq<InFlight<B>>, r: usize, kept: Seq<InFlight<B>>)
    requires
        kept == before.filter((|f: InFlight<B>| f.envelope.body.msg_id != Some(r))),
    ensures
        forall|k: int|
            0 <= k < kept.len() ==> (#[trigger] kept[k]).envelope.body.msg_id != Some(r),
{
    let pred = (|f: InFlight<B>| f.envelope.body.msg_id != Some(r));
    assert forall|k: int| 0 <= k < kept.len() implies (#[trigger] kept[k]).envelope.body.msg_id
        != Some(r) by {
        before.lemma_filter_pred(pred, k);
    }
}

} // verus!
