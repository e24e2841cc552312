//! The kafka-style partitioned log workload: a replicated append-only log of
//! transactions keyed by globally unique, strictly increasing xids obtained
//! from the external key-value service, gossiped to peers, with poll replies
//! withheld until the log's xid prefix is contiguous.

use vstd::prelude::*;
use vstd::string::StringExecFns;

use crate::message::{allocates, is_reply_to, Envelope, MsgIdGen};

verus! {

/// One replicated log entry: originating node, its xid, and the payload.
#[derive(Debug, Clone, PartialEq, Eq)]
pub struct Transaction {
    pub node: String,
    pub transaction_id: usize,
    pub key: String,
    pub message: u64,
}

/// The mathematical image of a [`Transaction`].
pub ghost struct TxnView {
    pub node: Seq<char>,
    pub transaction_id: int,
    pub key: Seq<char>,
    pub message: u64,
}

impl View for Transaction {
    type V = TxnView;

    open spec fn view(&self) -> TxnView {
        TxnView {
            node: self.node@,
            transaction_id: self.transaction_id as int,
            key: self.key@,
            message: self.message,
        }
    }
}

/// The log as a sequence of transaction images.
pub open spec fn log_view(s: Seq<Transaction>) -> Seq<TxnView> {
    s.map_values(|t: Transaction| t@)
}

/// Strictly sorted by xid; strictness makes the ids pairwise distinct.
pub open spec fn sorted_unique(s: Seq<TxnView>) -> bool {
    forall|p: int, q: int|
        0 <= p < q < s.len() ==> #[trigger] s[p].transaction_id < #[trigger] s[q].transaction_id
}

/// Some entry carries the xid `id`.
pub open spec fn has_id(s: Seq<TxnView>, id: int) -> bool {
    exists|j: int| 0 <= j < s.len() && #[trigger] s[j].transaction_id == id
}

/// `t` placed at its sorted position in `s` (`s` sorted by xid).
pub open spec fn insert_sorted(s: Seq<TxnView>, t: TxnView) -> Seq<TxnView>
    decreases s.len(),
{
    if s.len() == 0 {
        seq![t]
    } else if t.transaction_id > s.last().transaction_id {
        s.push(t)
    } else {
        insert_sorted(s.drop_last(), t).push(s.last())
    }
}

/// The log after offering it `t`: unchanged if the xid is already present,
/// otherwise `t` at its sorted position.
pub open spec fn insert_txn_spec(s: Seq<TxnView>, t: TxnView) -> Seq<TxnView> {
    if has_id(s, t.transaction_id) {
        s
    } else {
        insert_sorted(s, t)
    }
}

/// The log after offering it each element of `xs` in order.
pub open spec fn merge_txns(s: Seq<TxnView>, xs: Seq<TxnView>) -> Seq<TxnView>
    decreases xs.len(),
{
    if xs.len() == 0 {
        s
    } else {
        insert_txn_spec(merge_txns(s, xs.drop_last()), xs.last())
    }
}

/// What offering one transaction does to a sorted log: the log stays sorted;
/// an already-present xid changes nothing; a fresh xid adds exactly that
/// entry.
pub proof fn lemma_insert_txn_props(s: Seq<TxnView>, t: TxnView)
    requires
        sorted_unique(s),
    ensures
        sorted_unique(insert_txn_spec(s, t)),
        has_id(s, t.transaction_id) ==> insert_txn_spec(s, t) == s,
        !has_id(s, t.transaction_id) ==> {
            &&& insert_txn_spec(s, t).len() == s.len() + 1
            &&& forall|v: TxnView|
                #[trigger] insert_txn_spec(s, t).contains(v) <==> (s.contains(v) || v == t)
            &&& forall|id: int|
                #[trigger] has_id(insert_txn_spec(s, t), id) <==> (has_id(s, id) || id
                    == t.transaction_id)
        },
{
    if !has_id(s, t.transaction_id) {
        lemma_insert_sorted_props(s, t);
    }
}

/// Sorted insertion of a fresh xid: the result is sorted, one longer, and
/// holds exactly the old entries plus `t`.
pub proof fn lemma_insert_sorted_props(s: Seq<TxnView>, t: TxnView)
    requires
        sorted_unique(s),
        !has_id(s, t.transaction_id),
    ensures
        sorted_unique(insert_sorted(s, t)),
        insert_sorted(s, t).len() == s.len() + 1,
        forall|v: TxnView| #[trigger] insert_sorted(s, t).contains(v) <==> (s.contains(v) || v == t),
        forall|id: int|
            #[trigger] has_id(insert_sorted(s, t), id) <==> (has_id(s, id) || id
                == t.transaction_id),
    decreases s.len(),
{
    let out = insert_sorted(s, t);
    if s.len() == 0 {
        assert forall|v: TxnView| #[trigger] out.contains(v) implies (s.contains(v) || v == t) by {
            let j = choose|j: int| 0 <= j < out.len() && out[j] == v;
            assert(out[0] == t);
        }
        assert(out.contains(t)) by {
            assert(out[0] == t);
        }
        assert forall|id: int| #[trigger] has_id(out, id) implies (has_id(s, id) || id
            == t.transaction_id) by {
            let j = choose|j: int| 0 <= j < out.len() && out[j].transaction_id == id;
        }
        assert(has_id(out, t.transaction_id)) by {
            assert(out[0].transaction_id == t.transaction_id);
        }
    } else if t.transaction_id > s.last().transaction_id {
        assert(out == s.push(t));
        assert forall|p: int, q: int| 0 <= p < q < out.len() implies out[p].transaction_id
            < out[q].transaction_id by {
            if q == s.len() {
                assert(out[q] == t);
                if p < s.len() - 1 {
                    assert(s[p].transaction_id < s[s.len() - 1].transaction_id);
                }
            }
        }
        assert forall|v: TxnView| #[trigger] out.contains(v) implies (s.contains(v) || v == t) by {
            let j = choose|j: int| 0 <= j < out.len() && out[j] == v;
            if j < s.len() {
                assert(s[j] == v);
            }
        }
        assert forall|v: TxnView| s.contains(v) || v == t implies #[trigger] out.contains(v) by {
            if s.contains(v) {
                let j = choose|j: int| 0 <= j < s.len() && s[j] == v;
                assert(out[j] == v);
            } else {
                assert(out[s.len() as int] == v);
            }
        }
        assert forall|id: int| #[trigger] has_id(out, id) implies (has_id(s, id) || id
            == t.transaction_id) by {
            let j = choose|j: int| 0 <= j < out.len() && out[j].transaction_id == id;
            if j < s.len() {
                assert(s[j].transaction_id == id);
            }
        }
        assert forall|id: int| has_id(s, id) || id == t.transaction_id implies #[trigger] has_id(
            out,
            id,
        ) by {
            if has_id(s, id) {
                let j = choose|j: int| 0 <= j < s.len() && s[j].transaction_id == id;
                assert(out[j].transaction_id == id);
            } else {
                assert(out[s.len() as int].transaction_id == id);
            }
        }
    } else {
        let head = s.drop_last();
        assert(sorted_unique(head)) by {
            assert forall|p: int, q: int| 0 <= p < q < head.len() implies head[p].transaction_id
                < head[q].transaction_id by {
                assert(s[p].transaction_id < s[q].transaction_id);
            }
        }
        assert(!has_id(head, t.transaction_id)) by {
            if has_id(head, t.transaction_id) {
                let j = choose|j: int| 0 <= j < head.len() && head[j].transaction_id
                    == t.transaction_id;
                assert(s[j].transaction_id == t.transaction_id);
            }
        }
        lemma_insert_sorted_props(head, t);
        let sub = insert_sorted(head, t);
        assert(out == sub.push(s.last()));
        // t's id is strictly below the last entry's id (they differ, and it
        // is not above it).
        assert(s.contains(s.last())) by {
            assert(s[s.len() - 1] == s.last());
        }
        assert(t.transaction_id != s.last().transaction_id) by {
            if t.transaction_id == s.last().transaction_id {
                assert(s[s.len() - 1].transaction_id == t.transaction_id);
            }
        }
        assert forall|p: int, q: int| 0 <= p < q < out.len() implies out[p].transaction_id
            < out[q].transaction_id by {
            if q == out.len() - 1 {
                assert(out[q] == s.last());
                assert(sub.contains(sub[p])) by {
                    assert(0 <= p < sub.len());
                }
                // Every entry of sub is an old entry below the last, or t.
                if head.contains(sub[p]) {
                    let j = choose|j: int| 0 <= j < head.len() && head[j] == sub[p];
                    assert(s[j].transaction_id < s[s.len() - 1].transaction_id);
                }
            }
        }
        assert forall|v: TxnView| #[trigger] out.contains(v) implies (s.contains(v) || v == t) by {
            let j = choose|j: int| 0 <= j < out.len() && out[j] == v;
            if j < sub.len() {
                assert(sub.contains(v)) by {
                    assert(sub[j] == v);
                }
                if head.contains(v) {
                    let p = choose|p: int| 0 <= p < head.len() && head[p] == v;
                    assert(s[p] == v);
                }
            } else {
                assert(v == s.last());
            }
        }
        assert forall|v: TxnView| s.contains(v) || v == t implies #[trigger] out.contains(v) by {
            if v == t {
                assert(sub.contains(t));
                let p = choose|p: int| 0 <= p < sub.len() && sub[p] == t;
                assert(out[p] == t);
            } else {
                let j = choose|j: int| 0 <= j < s.len() && s[j] == v;
                if j < s.len() - 1 {
                    assert(head[j] == v);
                    assert(sub.contains(v));
                    let p = choose|p: int| 0 <= p < sub.len() && sub[p] == v;
                    assert(out[p] == v);
                } else {
                    assert(out[out.len() - 1] == v);
                }
            }
        }
        assert forall|id: int| #[trigger] has_id(out, id) implies (has_id(s, id) || id
            == t.transaction_id) by {
            let j = choose|j: int| 0 <= j < out.len() && out[j].transaction_id == id;
            assert(out.contains(out[j]));
            if s.contains(out[j]) {
                let p = choose|p: int| 0 <= p < s.len() && s[p] == out[j];
                assert(s[p].transaction_id == id);
            }
        }
        assert forall|id: int| has_id(s, id) || id == t.transaction_id implies #[trigger] has_id(
            out,
            id,
        ) by {
            if id == t.transaction_id {
                assert(out.contains(t));
                let p = choose|p: int| 0 <= p < out.len() && out[p] == t;
                assert(out[p].transaction_id == id);
            } else {
                let j = choose|j: int| 0 <= j < s.len() && s[j].transaction_id == id;
                assert(out.contains(s[j])) by {
                    assert(s.contains(s[j]));
                }
                let p = choose|p: int| 0 <= p < out.len() && out[p] == s[j];
                assert(out[p].transaction_id == id);
            }
        }
    }
}

/// Offer one transaction to the sorted log: inserted at its xid position,
/// or dropped if that xid is already present.
#[verifier::loop_isolation(false)]
pub fn insert_txn(log: &mut Vec<Transaction>, t: Transaction)
    requires
        sorted_unique(log_view(old(log)@)),
    ensures
        log_view(final(log)@) == insert_txn_spec(log_view(old(log)@), t@),
        sorted_unique(log_view(final(log)@)),
{
    let ghost s = log_view(log@);
    proof {
        lemma_insert_txn_props(s, t@);
    }
    let mut pos = log.len();
    while pos > 0 && log[pos - 1].transaction_id > t.transaction_id
        invariant
            pos <= log@.len(),
            forall|k: int| pos <= k < log@.len() ==> #[trigger] s[k].transaction_id > t@.transaction_id,
        decreases pos,
    {
        pos = pos - 1;
    }
    if pos > 0 && log[pos - 1].transaction_id == t.transaction_id {
        proof {
            assert(has_id(s, t@.transaction_id)) by {
                assert(s[pos - 1].transaction_id == t@.transaction_id);
            }
        }
        return ;
    }
    proof {
        assert(!has_id(s, t@.transaction_id)) by {
            if has_id(s, t@.transaction_id) {
                let j = choose|j: int| 0 <= j < s.len() && s[j].transaction_id
                    == t@.transaction_id;
                if j < pos {
                    if j < pos - 1 {
                        assert(s[j].transaction_id < s[pos - 1].transaction_id);
                    }
                }
            }
        }
        assert forall|k: int| 0 <= k < pos implies #[trigger] s[k].transaction_id
            < t@.transaction_id by {
            assert(s[pos - 1].transaction_id < t@.transaction_id);
            if k < pos - 1 {
                assert(s[k].transaction_id < s[pos - 1].transaction_id);
            }
        }
        lemma_insert_sorted_at(s, t@, pos as int);
    }
    log.insert(pos, t);
    proof {
        assert(log_view(log@) =~= s.subrange(0, pos as int) + seq![t@] + s.subrange(
            pos as int,
            s.len() as int,
        ));
    }
}

/// Sorted insertion lands exactly at the boundary position: everything
/// before it has a smaller xid, everything after a larger one.
proof fn lemma_insert_sorted_at(s: Seq<TxnView>, t: TxnView, pos: int)
    requires
        sorted_unique(s),
        0 <= pos <= s.len(),
        forall|k: int| 0 <= k < pos ==> #[trigger] s[k].transaction_id < t.transaction_id,
        forall|k: int| pos <= k < s.len() ==> #[trigger] s[k].transaction_id > t.transaction_id,
    ensures
        insert_sorted(s, t) == s.subrange(0, pos) + seq![t] + s.subrange(pos, s.len() as int),
    decreases s.len(),
{
    if s.len() == 0 {
        assert(insert_sorted(s, t) =~= s.subrange(0, pos) + seq![t] + s.subrange(
            pos,
            s.len() as int,
        ));
    } else if pos == s.len() {
        assert(s[s.len() - 1].transaction_id < t.transaction_id);
        assert(insert_sorted(s, t) == s.push(t));
        assert(s.push(t) =~= s.subrange(0, pos) + seq![t] + s.subrange(pos, s.len() as int));
    } else {
        assert(s[s.len() - 1].transaction_id > t.transaction_id);
        let head = s.drop_last();
        assert(sorted_unique(head)) by {
            assert forall|p: int, q: int| 0 <= p < q < head.len() implies head[p].transaction_id
                < head[q].transaction_id by {
                assert(s[p].transaction_id < s[q].transaction_id);
            }
        }
        assert forall|k: int| 0 <= k < pos implies #[trigger] head[k].transaction_id
            < t.transaction_id by {
            assert(s[k].transaction_id < t.transaction_id);
        }
        assert forall|k: int| pos <= k < head.len() implies #[trigger] head[k].transaction_id
            > t.transaction_id by {
            assert(s[k].transaction_id > t.transaction_id);
        }
        lemma_insert_sorted_at(head, t, pos);
        assert(insert_sorted(s, t) == insert_sorted(head, t).push(s.last()));
        assert(insert_sorted(head, t).push(s.last()) =~= s.subrange(0, pos) + seq![t] + s.subrange(
            pos,
            s.len() as int,
        ));
    }
}

/// The phase of the xid assigner's conversation with the key-value service.
#[derive(Debug, Clone, Copy, PartialEq, Eq, Structural)]
pub enum XidPhase {
    /// The bootstrap `cas {from: 0, to: 0, create}` is in flight.
    BootstrapCas,
    /// The bootstrap lost the race; a `read` of the xid key is in flight.
    BootstrapRead,
    /// Nothing in flight; ready to serve a request.
    Idle,
    /// A `cas {from: last, to: last + 1}` for a requester is in flight.
    AwaitingCas,
    /// That compare-and-set lost; a re-`read` of the xid key is in flight.
    AwaitingRead,
}

/// The xid assigner: one outstanding request against the key-value service
/// at a time, and the highest xid this node has successfully claimed.
pub struct XidAssigner {
    pub node_id: String,
    pub last_seen_xid: usize,
    pub phase: XidPhase,
}

impl XidAssigner {
    /// Start the assigner: the bootstrap compare-and-set creates the xid key
    /// at zero, or fails against an existing key.
    pub fn start(node_id: String, ids: &mut MsgIdGen) -> (out: (XidAssigner, Envelope<KafkaMessage>))
        requires
            old(ids).next_id < usize::MAX,
        ensures
            out.0.node_id@ == node_id@,
            out.0.last_seen_xid == 0,
            out.0.phase == XidPhase::BootstrapCas,
            out.1.src@ == node_id@,
            out.1.dest@ == "seq-kv"@,
            out.1.body.in_reply_to is None,
            out.1.body.msg_id matches Some(id) && allocates(*old(ids), id, *final(ids)),
            out.1.body.message matches KafkaMessage::Cas {
                key,
                from: 0,
                to: 0,
                create_if_not_exists: Some(true),
            } && key@ == "xid"@,
    {
        let cas = Envelope::new(
            node_id.clone(),
            String::from_str("seq-kv"),
            None,
            KafkaMessage::Cas {
                key: String::from_str("xid"),
                from: 0,
                to: 0,
                create_if_not_exists: Some(true),
            },
            ids,
        );
        (XidAssigner { node_id, last_seen_xid: 0, phase: XidPhase::BootstrapCas }, cas)
    }

    /// Serve one xid request: emit `cas {from: last, to: last + 1}`. Only
    /// meaningful when idle; the caller queues requests otherwise.
    pub fn request_xid(&mut self, ids: &mut MsgIdGen) -> (out: Envelope<KafkaMessage>)
        requires
            old(self).phase == XidPhase::Idle,
            old(self).last_seen_xid < usize::MAX,
            old(ids).next_id < usize::MAX,
        ensures
            final(self).node_id == old(self).node_id,
            final(self).last_seen_xid == old(self).last_seen_xid,
            final(self).phase == XidPhase::AwaitingCas,
            out.src@ == old(self).node_id@,
            out.dest@ == "seq-kv"@,
            out.body.in_reply_to is None,
            out.body.msg_id matches Some(id) && allocates(*old(ids), id, *final(ids)),
            out.body.message matches KafkaMessage::Cas { key, from, to, create_if_not_exists: None }
                && key@ == "xid"@ && from == old(self).last_seen_xid as u64 && to == (old(
                self,
            ).last_seen_xid + 1) as u64,
    {
        let cas = Envelope::new(
            self.node_id.clone(),
            String::from_str("seq-kv"),
            None,
            KafkaMessage::Cas {
                key: String::from_str("xid"),
                from: self.last_seen_xid as u64,
                to: (self.last_seen_xid + 1) as u64,
                create_if_not_exists: None,
            },
            ids,
        );
        self.phase = XidPhase::AwaitingCas;
        cas
    }

    /// The service acknowledged the in-flight compare-and-set. For the
    /// bootstrap this pins the counter at zero; for a request it claims the
    /// next xid, strictly above every xid this node claimed before.
    pub fn on_cas_ok(&mut self) -> (assigned: Option<usize>)
        requires
            old(self).phase == XidPhase::BootstrapCas || old(self).phase == XidPhase::AwaitingCas,
            old(self).last_seen_xid < usize::MAX,
        ensures
            final(self).node_id == old(self).node_id,
            final(self).phase == XidPhase::Idle,
            old(self).phase == XidPhase::BootstrapCas ==> assigned is None
                && final(self).last_seen_xid == 0,
            old(self).phase == XidPhase::AwaitingCas ==> {
                &&& assigned == Some((old(self).last_seen_xid + 1) as usize)
                &&& final(self).last_seen_xid == old(self).last_seen_xid + 1
                &&& final(self).last_seen_xid > old(self).last_seen_xid
            },
    {
        match self.phase {
            XidPhase::BootstrapCas => {
                self.last_seen_xid = 0;
                self.phase = XidPhase::Idle;
                None
            },
            _ => {
                self.last_seen_xid = self.last_seen_xid + 1;
                self.phase = XidPhase::Idle;
                Some(self.last_seen_xid)
            },
        }
    }

    /// The in-flight compare-and-set failed its precondition: another node
    /// moved the counter first. Fall back to reading the authoritative
    /// value.
    pub fn on_precondition_failed(&mut self, ids: &mut MsgIdGen) -> (out: Envelope<KafkaMessage>)
        requires
            old(self).phase == XidPhase::BootstrapCas || old(self).phase == XidPhase::AwaitingCas,
            old(ids).next_id < usize::MAX,
        ensures
            final(self).node_id == old(self).node_id,
            final(self).last_seen_xid == old(self).last_seen_xid,
            old(self).phase == XidPhase::BootstrapCas ==> final(self).phase
                == XidPhase::BootstrapRead,
            old(self).phase == XidPhase::AwaitingCas ==> final(self).phase
                == XidPhase::AwaitingRead,
            out.src@ == old(self).node_id@,
            out.dest@ == "seq-kv"@,
            out.body.in_reply_to is None,
            out.body.msg_id matches Some(id) && allocates(*old(ids), id, *final(ids)),
            out.body.message matches KafkaMessage::Read { key: Some(k) } && k@ == "xid"@,
    {
        let read = Envelope::new(
            self.node_id.clone(),
            String::from_str("seq-kv"),
            None,
            KafkaMessage::Read { key: Some(String::from_str("xid")) },
            ids,
        );
        self.phase = match self.phase {
            XidPhase::BootstrapCas => XidPhase::BootstrapRead,
            _ => XidPhase::AwaitingRead,
        };
        read
    }

    /// The authoritative xid came back. After a bootstrap race the assigner
    /// simply adopts it and goes idle; inside a request it adopts it and
    /// retries the compare-and-set at once.
    pub fn on_read_ok(&mut self, value: u64, ids: &mut MsgIdGen) -> (out: Option<
        Envelope<KafkaMessage>,
    >)
        requires
            old(self).phase == XidPhase::BootstrapRead || old(self).phase == XidPhase::AwaitingRead,
            value < usize::MAX as u64,
            old(ids).next_id < usize::MAX,
        ensures
            final(self).node_id == old(self).node_id,
            final(self).last_seen_xid == value as usize,
            value >= old(self).last_seen_xid as u64 ==> final(self).last_seen_xid >= old(self).last_seen_xid,
            old(self).phase == XidPhase::BootstrapRead ==> out is None && final(self).phase
                == XidPhase::Idle && *final(ids) == *old(ids),
            old(self).phase == XidPhase::AwaitingRead ==> {
                &&& final(self).phase == XidPhase::AwaitingCas
                &&& out matches Some(cas)
                &&& cas.src@ == old(self).node_id@
                &&& cas.dest@ == "seq-kv"@
                &&& cas.body.in_reply_to is None
                &&& cas.body.msg_id matches Some(id) && allocates(*old(ids), id, *final(ids))
                &&& cas.body.message matches KafkaMessage::Cas {
                    key,
                    from,
                    to,
                    create_if_not_exists: None,
                } && key@ == "xid"@ && from == value && to == value + 1
            },
    {
        self.last_seen_xid = value as usize;
        match self.phase {
            XidPhase::BootstrapRead => {
                self.phase = XidPhase::Idle;
                None
            },
            _ => {
                let cas = Envelope::new(
                    self.node_id.clone(),
                    String::from_str("seq-kv"),
                    None,
                    KafkaMessage::Cas {
                        key: String::from_str("xid"),
                        from: value,
                        to: value + 1,
                        create_if_not_exists: None,
                    },
                    ids,
                );
                self.phase = XidPhase::AwaitingCas;
                Some(cas)
            },
        }
    }
}

/// The messages of the kafka-log workload, including the key-value
/// service's surface and the node-to-node gossip.
#[derive(Debug, Clone, PartialEq, Eq)]
pub enum KafkaMessage {
    Init { node_id: String, node_ids: Vec<String> },
    InitOk,
    Topology { topology: Vec<(String, Vec<String>)> },
    TopologyOk,
    Read { key: Option<String> },
    ReadOk { value: u64 },
    Write { key: String, value: u64 },
    WriteOk,
    Cas { key: String, from: u64, to: u64, create_if_not_exists: Option<bool> },
    CasOk,
    Send { key: String, msg: u64 },
    SendOk { offset: usize },
    Poll { offsets: Vec<(String, usize)> },
    PollOk { msgs: Vec<(String, Vec<(usize, u64)>)> },
    CommitOffsets { offsets: Vec<(String, usize)> },
    CommitOffsetsOk,
    ListCommittedOffsets { keys: Vec<String> },
    ListCommittedOffsetsOk { offsets: Vec<(String, usize)> },
    Transactions { transactions: Vec<Transaction> },
    PollTransactions { first_xid: usize },
    Error { code: u64, text: String },
}

/// The pseudo-key under which a commit for `k` is logged.
pub open spec fn commit_key(k: Seq<char>) -> Seq<char> {
    "offsets:"@ + k
}

/// Integer image of an offset/message pair list.
pub open spec fn pairs_view(v: Seq<(usize, u64)>) -> Seq<(int, u64)> {
    v.map_values(|p: (usize, u64)| (p.0 as int, p.1))
}

/// What a poll for key `k` from offset `off` must contain: the `(xid,
/// message)` pairs of every log entry for `k` at or past `off`, in log
/// (that is, xid) order.
pub open spec fn poll_msgs(s: Seq<TxnView>, k: Seq<char>, off: int) -> Seq<(int, u64)> {
    s.filter(|v: TxnView| v.key == k && v.transaction_id >= off).map_values(
        |v: TxnView| (v.transaction_id, v.message),
    )
}

/// The message of the last log entry carrying exactly the key `key`.
pub open spec fn last_with_key(s: Seq<TxnView>, key: Seq<char>) -> Option<u64>
    decreases s.len(),
{
    if s.len() == 0 {
        None
    } else if s.last().key == key {
        Some(s.last().message)
    } else {
        last_with_key(s.drop_last(), key)
    }
}

/// The latest committed offset for key `k`: the message of the last log
/// entry whose key is the commit pseudo-key of `k`.
pub open spec fn last_commit(s: Seq<TxnView>, k: Seq<char>) -> Option<u64> {
    last_with_key(s, commit_key(k))
}

/// The committed-offset listing for `keys`, in request order, holding only
/// the keys that have a committed offset.
pub open spec fn committed_pairs(s: Seq<TxnView>, keys: Seq<Seq<char>>) -> Seq<(Seq<char>, usize)>
    decreases keys.len(),
{
    if keys.len() == 0 {
        Seq::empty()
    } else {
        committed_pairs(s, keys.drop_last()) + (match last_commit(s, keys.last()) {
            Some(m) => seq![(keys.last(), m as usize)],
            None => Seq::<(Seq<char>, usize)>::empty(),
        })
    }
}

/// `h` is the contiguous head of the log: every xid in `[1, h]` is present
/// and `h + 1` is not.
pub open spec fn is_contig_head(s: Seq<TxnView>, h: int) -> bool {
    &&& h >= 0
    &&& forall|x: int| 1 <= x <= h ==> has_id(s, x)
    &&& !has_id(s, h + 1)
}

/// Merging a gossip batch grows the log's xid set to exactly the union:
/// afterwards an xid is present iff it was present before or the batch
/// carried it — missed transactions are repaired and nothing is lost.
pub proof fn lemma_merge_txns_ids(s: Seq<TxnView>, xs: Seq<TxnView>)
    requires
        sorted_unique(s),
    ensures
        sorted_unique(merge_txns(s, xs)),
        forall|id: int|
            #[trigger] has_id(merge_txns(s, xs), id) <==> (has_id(s, id) || exists|j: int|
                0 <= j < xs.len() && (#[trigger] xs[j]).transaction_id == id),
    decreases xs.len(),
{
    if xs.len() > 0 {
        lemma_merge_txns_ids(s, xs.drop_last());
        let prev = merge_txns(s, xs.drop_last());
        lemma_insert_txn_props(prev, xs.last());
        assert forall|id: int| #[trigger] has_id(merge_txns(s, xs), id) implies (has_id(s, id)
            || exists|j: int| 0 <= j < xs.len() && (#[trigger] xs[j]).transaction_id == id) by {
            if has_id(prev, id) {
                if !has_id(s, id) {
                    let j = choose|j: int|
                        0 <= j < xs.drop_last().len() && (#[trigger] xs.drop_last()[j]).transaction_id
                            == id;
                    assert(xs[j].transaction_id == id);
                }
            } else {
                assert(xs[xs.len() - 1].transaction_id == id);
            }
        }
        assert forall|id: int|
            has_id(s, id) || exists|j: int|
                0 <= j < xs.len() && (#[trigger] xs[j]).transaction_id == id implies #[trigger] has_id(
            merge_txns(s, xs),
            id,
        ) by {
            if !has_id(s, id) {
                let j = choose|j: int| 0 <= j < xs.len() && (#[trigger] xs[j]).transaction_id == id;
                if j < xs.len() - 1 {
                    assert(xs.drop_last()[j].transaction_id == id);
                    assert(has_id(prev, id));
                }
            }
        }
    } else {
        assert forall|id: int| #[trigger] has_id(merge_txns(s, xs), id) implies (has_id(s, id)
            || exists|j: int| 0 <= j < xs.len() && (#[trigger] xs[j]).transaction_id == id) by {}
    }
}

/// Convergence of replicas: two strictly xid-sorted logs that hold the same
/// entries are the same sequence. Once gossip has delivered every
/// transaction to two nodes, their logs — and so their poll replies and
/// committed-offset listings — agree exactly.
pub proof fn lemma_sorted_logs_agree(s1: Seq<TxnView>, s2: Seq<TxnView>)
    requires
        sorted_unique(s1),
        sorted_unique(s2),
        forall|v: TxnView| s1.contains(v) <==> s2.contains(v),
    ensures
        s1 == s2,
    decreases s1.len(),
{
    if s1.len() == 0 {
        if s2.len() > 0 {
            assert(s2.contains(s2[0]));
        }
        assert(s1 =~= s2);
    } else if s2.len() == 0 {
        assert(s1.contains(s1[0]));
        assert(s2.contains(s1[0]));
        let j = choose|j: int| 0 <= j < s2.len() && s2[j] == s1[0];
    } else {
        let a = s1.last();
        let b = s2.last();
        assert(s1.contains(a)) by {
            assert(s1[s1.len() - 1] == a);
        }
        assert(s2.contains(b)) by {
            assert(s2[s2.len() - 1] == b);
        }
        // The two last entries coincide: each is a member of the other log,
        // and anything strictly below a last entry has a smaller xid.
        assert(a == b) by {
            let j = choose|j: int| 0 <= j < s2.len() && s2[j] == a;
            let i = choose|i: int| 0 <= i < s1.len() && s1[i] == b;
            if j < s2.len() - 1 {
                assert(s2[j].transaction_id < s2[s2.len() - 1].transaction_id);
                if i < s1.len() - 1 {
                    assert(s1[i].transaction_id < s1[s1.len() - 1].transaction_id);
                } else {
                    assert(a.transaction_id < a.transaction_id);
                }
            }
        }
        assert forall|v: TxnView| s1.drop_last().contains(v) implies s2.drop_last().contains(
            v,
        ) by {
            let k = choose|k: int| 0 <= k < s1.drop_last().len() && s1.drop_last()[k] == v;
            assert(s1[k] == v);
            assert(v.transaction_id < a.transaction_id);
            assert(s2.contains(v)) by {
                assert(s1.contains(v));
            }
            let j = choose|j: int| 0 <= j < s2.len() && s2[j] == v;
            assert(j < s2.len() - 1) by {
                if j == s2.len() - 1 {
                    assert(v == b);
                }
            }
            assert(s2.drop_last()[j] == v);
        }
        assert forall|v: TxnView| s2.drop_last().contains(v) implies s1.drop_last().contains(
            v,
        ) by {
            let k = choose|k: int| 0 <= k < s2.drop_last().len() && s2.drop_last()[k] == v;
            assert(s2[k] == v);
            assert(v.transaction_id < b.transaction_id);
            assert(s1.contains(v)) by {
                assert(s2.contains(v));
            }
            let i = choose|i: int| 0 <= i < s1.len() && s1[i] == v;
            assert(i < s1.len() - 1) by {
                if i == s1.len() - 1 {
                    assert(v == a);
                }
            }
            assert(s1.drop_last()[i] == v);
        }
        assert(sorted_unique(s1.drop_last())) by {
            assert forall|p: int, q: int|
                0 <= p < q < s1.drop_last().len() implies s1.drop_last()[p].transaction_id
                < s1.drop_last()[q].transaction_id by {
                assert(s1[p].transaction_id < s1[q].transaction_id);
            }
        }
        assert(sorted_unique(s2.drop_last())) by {
            assert forall|p: int, q: int|
                0 <= p < q < s2.drop_last().len() implies s2.drop_last()[p].transaction_id
                < s2.drop_last()[q].transaction_id by {
                assert(s2[p].transaction_id < s2[q].transaction_id);
            }
        }
        lemma_sorted_logs_agree(s1.drop_last(), s2.drop_last());
        assert(s1 =~= s2) by {
            assert(s1.len() == s2.len());
            assert forall|k: int| 0 <= k < s1.len() implies s1[k] == s2[k] by {
                if k < s1.len() - 1 {
                    assert(s1.drop_last()[k] == s2.drop_last()[k]);
                }
            }
        }
    }
}

/// Filtering a strictly xid-sorted log keeps it strictly sorted, and every
/// kept entry is an entry of the original log.
pub proof fn lemma_filter_log_sorted(s: Seq<TxnView>, pred: spec_fn(TxnView) -> bool)
    requires
        sorted_unique(s),
    ensures
        sorted_unique(s.filter(pred)),
        forall|i: int| 0 <= i < s.filter(pred).len() ==> s.contains(#[trigger] s.filter(pred)[i]),
    decreases s.len(),
{
    reveal(Seq::filter);
    let out = s.filter(pred);
    if s.len() > 0 {
        let head = s.drop_last();
        assert(sorted_unique(head)) by {
            assert forall|p: int, q: int| 0 <= p < q < head.len() implies head[p].transaction_id
                < head[q].transaction_id by {
                assert(s[p].transaction_id < s[q].transaction_id);
            }
        }
        lemma_filter_log_sorted(head, pred);
        let sub = head.filter(pred);
        assert forall|i: int| 0 <= i < out.len() implies s.contains(#[trigger] out[i]) by {
            if i < sub.len() {
                assert(sub[i] == out[i]);
                assert(head.contains(sub[i]));
                let j = choose|j: int| 0 <= j < head.len() && head[j] == sub[i];
                assert(s[j] == out[i]);
            } else {
                assert(out[i] == s.last());
                assert(s[s.len() - 1] == s.last());
            }
        }
        assert forall|p: int, q: int| 0 <= p < q < out.len() implies out[p].transaction_id
            < out[q].transaction_id by {
            if q == out.len() - 1 && pred(s.last()) {
                assert(out[q] == s.last());
                assert(head.contains(sub[p]));
                let j = choose|j: int| 0 <= j < head.len() && head[j] == sub[p];
                assert(s[j].transaction_id < s[s.len() - 1].transaction_id);
            } else {
                assert(sub[p] == out[p] && sub[q] == out[q]);
            }
        }
    }
}

/// A released poll's list for a key is strictly sorted by xid, so it holds
/// each offset at most once and leaves no doubt about its order.
pub proof fn lemma_poll_msgs_sorted(s: Seq<TxnView>, k: Seq<char>, off: int)
    requires
        sorted_unique(s),
    ensures
        forall|p: int, q: int|
            0 <= p < q < poll_msgs(s, k, off).len() ==> (#[trigger] poll_msgs(s, k, off)[p]).0 < (
            #[trigger] poll_msgs(s, k, off)[q]).0,
        forall|p: int, q: int|
            0 <= p < q < poll_msgs(s, k, off).len() ==> poll_msgs(s, k, off)[p] != poll_msgs(
                s,
                k,
                off,
            )[q],
{
    let pred = (|v: TxnView| v.key == k && v.transaction_id >= off);
    lemma_filter_log_sorted(s, pred);
}

/// A released poll is complete: every logged entry for the key at or past
/// the requested offset appears in it.
pub proof fn lemma_poll_msgs_complete(s: Seq<TxnView>, k: Seq<char>, off: int, v: TxnView)
    requires
        s.contains(v),
        v.key == k,
        v.transaction_id >= off,
    ensures
        poll_msgs(s, k, off).contains((v.transaction_id, v.message)),
{
    let pred = (|v: TxnView| v.key == k && v.transaction_id >= off);
    let j = choose|j: int| 0 <= j < s.len() && s[j] == v;
    s.lemma_filter_contains(pred, j);
    let f = s.filter(pred);
    let t = choose|t: int| 0 <= t < f.len() && f[t] == v;
    assert(poll_msgs(s, k, off)[t] == (v.transaction_id, v.message));
}

/// A field-by-field copy of a transaction.
pub fn clone_txn(t: &Transaction) -> (r: Transaction)
    ensures
        r@ == t@,
{
    Transaction {
        node: t.node.clone(),
        transaction_id: t.transaction_id,
        key: t.key.clone(),
        message: t.message,
    }
}

fn clone_txns(v: &Vec<Transaction>) -> (r: Vec<Transaction>)
    ensures
        log_view(r@) == log_view(v@),
{
    let mut r: Vec<Transaction> = Vec::new();
    let mut i: usize = 0;
    while i < v.len()
        invariant
            i <= v.len(),
            r@.len() == i,
            forall|k: int| 0 <= k < i ==> (#[trigger] r@[k])@ == v@[k]@,
        decreases v.len() - i,
    {
        r.push(clone_txn(&v[i]));
        i = i + 1;
    }
    proof {
        assert(log_view(r@) =~= log_view(v@));
    }
    r
}

/// A kafka-log node: its identity, the peers it gossips to, the replicated
/// log sorted by xid, and the poll requests held back by the contiguity
/// gate, each with the latest xid seen when it arrived.
pub struct KafkaNode {
    pub node_id: String,
    pub other_nodes: Vec<String>,
    pub log: Vec<Transaction>,
    pub poll_replies: Vec<(usize, Envelope<KafkaMessage>)>,
}

impl KafkaNode {
    /// The node's structural invariant: the log is strictly sorted by xid
    /// and every held envelope is a `poll` request.
    pub open spec fn wf(self) -> bool {
        &&& sorted_unique(log_view(self.log@))
        &&& forall|i: int|
            0 <= i < self.poll_replies@.len() ==> (#[trigger] self.poll_replies@[i]).1.body.message
                matches KafkaMessage::Poll { .. }
    }

    /// A node before `init`.
    pub fn new() -> (r: KafkaNode)
        ensures
            r.wf(),
            r.node_id@ == Seq::<char>::empty(),
            r.other_nodes@ == Seq::<String>::empty(),
            r.log@ == Seq::<Transaction>::empty(),
            r.poll_replies@ == Seq::<(usize, Envelope<KafkaMessage>)>::empty(),
    {
        KafkaNode {
            node_id: String::new(),
            other_nodes: Vec::new(),
            log: Vec::new(),
            poll_replies: Vec::new(),
        }
    }

    /// Handle `init`: adopt the identity, keep every other node as a gossip
    /// peer, acknowledge.
    #[verifier::loop_isolation(false)]
    pub fn handle_init(
        &mut self,
        env: &Envelope<KafkaMessage>,
        ids: &mut MsgIdGen,
    ) -> (out: Envelope<KafkaMessage>)
        requires
            old(self).wf(),
            env.body.message matches KafkaMessage::Init { .. },
            old(ids).next_id < usize::MAX,
        ensures
            final(self).wf(),
            is_reply_to(out, *env),
            out.body.message == KafkaMessage::InitOk,
            out.body.msg_id matches Some(id) && allocates(*old(ids), id, *final(ids)),
            final(self).log == old(self).log,
            final(self).poll_replies == old(self).poll_replies,
            match env.body.message {
                KafkaMessage::Init { node_id, node_ids } => {
                    &&& final(self).node_id@ == node_id@
                    &&& final(self).other_nodes@.map_values(|s: String| s@) == node_ids@.map_values(
                        |s: String| s@,
                    ).filter(|n: Seq<char>| n != node_id@)
                },
                _ => false,
            },
    {
        let (node_id, node_ids) = match env.message() {
            KafkaMessage::Init { node_id, node_ids } => (node_id, node_ids),
            _ => unreached(),
        };
        self.node_id = node_id.clone();
        proof {
            reveal(Seq::filter);
        }
        let ghost pred = (|n: Seq<char>| n != node_id@);
        let ghost idsv = node_ids@.map_values(|s: String| s@);
        let mut others: Vec<String> = Vec::new();
        let mut i: usize = 0;
        while i < node_ids.len()
            invariant
                i <= node_ids@.len(),
                others@.map_values(|s: String| s@) == idsv.take(i as int).filter(pred),
            decreases node_ids@.len() - i,
        {
            proof {
                reveal(Seq::filter);
                let t1 = idsv.take((i + 1) as int);
                assert(t1.drop_last() =~= idsv.take(i as int));
                assert(t1.last() == idsv[i as int]);
                assert(t1.filter(pred) == if pred(idsv[i as int]) {
                    idsv.take(i as int).filter(pred).push(idsv[i as int])
                } else {
                    idsv.take(i as int).filter(pred)
                });
            }
            let differs = !node_ids[i].eq(node_id);
            if differs {
                let ghost before = others@;
                others.push(node_ids[i].clone());
                proof {
                    assert(others@.map_values(|s: String| s@) =~= before.map_values(|s: String| s@)
                        + seq![idsv[i as int]]);
                }
            }
            i = i + 1;
        }
        proof {
            assert(idsv.take(idsv.len() as int) =~= idsv);
        }
        self.other_nodes = others;
        env.reply(KafkaMessage::InitOk, ids)
    }

    /// Handle `topology`: acknowledge, change nothing.
    pub fn handle_topology(
        &mut self,
        env: &Envelope<KafkaMessage>,
        ids: &mut MsgIdGen,
    ) -> (out: Envelope<KafkaMessage>)
        requires
            old(ids).next_id < usize::MAX,
        ensures
            is_reply_to(out, *env),
            out.body.message == KafkaMessage::TopologyOk,
            out.body.msg_id matches Some(id) && allocates(*old(ids), id, *final(ids)),
            *final(self) == *old(self),
    {
        env.reply(KafkaMessage::TopologyOk, ids)
    }

    /// Handle `send {key, msg}` once an xid has been obtained for it: log
    /// the transaction, gossip it to every peer, and reply
    /// `send_ok {offset: xid}` — offsets are xids.
    #[verifier::loop_isolation(false)]
    pub fn handle_send(
        &mut self,
        env: &Envelope<KafkaMessage>,
        xid: usize,
        ids: &mut MsgIdGen,
    ) -> (out: Vec<Envelope<KafkaMessage>>)
        requires
            old(self).wf(),
            env.body.message matches KafkaMessage::Send { .. },
            old(ids).next_id + old(self).other_nodes@.len() + 1 <= usize::MAX,
        ensures
            final(self).wf(),
            final(self).node_id == old(self).node_id,
            final(self).other_nodes == old(self).other_nodes,
            final(self).poll_replies == old(self).poll_replies,
            match env.body.message {
                KafkaMessage::Send { key, msg } => {
                    let t = TxnView {
                        node: old(self).node_id@,
                        transaction_id: xid as int,
                        key: key@,
                        message: msg,
                    };
                    let n = old(self).other_nodes@.len() as int;
                    &&& log_view(final(self).log@) == insert_txn_spec(log_view(old(self).log@), t)
                    &&& out@.len() == n + 1
                    &&& forall|k: int|
                        0 <= k < n ==> {
                            &&& (#[trigger] out@[k]).src@ == old(self).node_id@
                            &&& out@[k].dest@ == old(self).other_nodes@[k]@
                            &&& out@[k].body.in_reply_to is None
                            &&& out@[k].body.message matches KafkaMessage::Transactions {
                                transactions,
                            } && log_view(transactions@) == seq![t]
                        }
                    &&& is_reply_to(out@[n], *env)
                    &&& out@[n].body.message == (KafkaMessage::SendOk { offset: xid })
                },
                _ => false,
            },
    {
        let (key, msg) = match env.message() {
            KafkaMessage::Send { key, msg } => (key, *msg),
            _ => unreached(),
        };
        let txn = Transaction {
            node: self.node_id.clone(),
            transaction_id: xid,
            key: key.clone(),
            message: msg,
        };
        let ghost t = txn@;
        insert_txn(&mut self.log, clone_txn(&txn));
        let mut out: Vec<Envelope<KafkaMessage>> = Vec::new();
        let mut k: usize = 0;
        while k < self.other_nodes.len()
            invariant
                k <= self.other_nodes@.len(),
                out@.len() == k,
                txn@ == t,
                ids.next_id + self.other_nodes@.len() - k + 1 <= usize::MAX,
                forall|j: int|
                    0 <= j < k ==> {
                        &&& (#[trigger] out@[j]).src@ == old(self).node_id@
                        &&& out@[j].dest@ == old(self).other_nodes@[j]@
                        &&& out@[j].body.in_reply_to is None
                        &&& out@[j].body.message matches KafkaMessage::Transactions {
                            transactions,
                        } && log_view(transactions@) == seq![t]
                    },
            decreases self.other_nodes@.len() - k,
        {
            let mut batch: Vec<Transaction> = Vec::new();
            batch.push(clone_txn(&txn));
            proof {
                assert(log_view(batch@) =~= seq![t]);
            }
            let e = Envelope::new(
                self.node_id.clone(),
                self.other_nodes[k].clone(),
                None,
                KafkaMessage::Transactions { transactions: batch },
                ids,
            );
            out.push(e);
            k = k + 1;
        }
        let reply = env.reply(KafkaMessage::SendOk { offset: xid }, ids);
        out.push(reply);
        out
    }

    /// Handle `poll {offsets}`: the request is held, stamped with the
    /// latest xid currently in the log, until the contiguity gate releases
    /// it.
    pub fn handle_poll(&mut self, env: Envelope<KafkaMessage>)
        requires
            old(self).wf(),
            env.body.message matches KafkaMessage::Poll { .. },
        ensures
            final(self).wf(),
            final(self).node_id == old(self).node_id,
            final(self).other_nodes == old(self).other_nodes,
            final(self).log == old(self).log,
            ({
                let s = log_view(old(self).log@);
                let cur: int = if s.len() == 0 {
                    0
                } else {
                    s.last().transaction_id
                };
                final(self).poll_replies@ == old(self).poll_replies@.push(
                    ((cur as usize), env),
                ) && cur == final(self).poll_replies@.last().0 as int
            }),
    {
        let cur = if self.log.len() == 0 {
            0
        } else {
            self.log[self.log.len() - 1].transaction_id
        };
        self.poll_replies.push((cur, env));
    }

    /// Handle a gossip `transactions` batch: offer each to the log in
    /// order; entries whose xid is already present are dropped.
    #[verifier::loop_isolation(false)]
    pub fn handle_transactions(&mut self, env: &Envelope<KafkaMessage>)
        requires
            old(self).wf(),
            env.body.message matches KafkaMessage::Transactions { .. },
        ensures
            final(self).wf(),
            final(self).node_id == old(self).node_id,
            final(self).other_nodes == old(self).other_nodes,
            final(self).poll_replies == old(self).poll_replies,
            match env.body.message {
                KafkaMessage::Transactions { transactions } => log_view(final(self).log@)
                    == merge_txns(log_view(old(self).log@), log_view(transactions@)),
                _ => false,
            },
    {
        let incoming = match env.message() {
            KafkaMessage::Transactions { transactions } => transactions,
            _ => unreached(),
        };
        let ghost s0 = log_view(old(self).log@);
        let ghost xs = log_view(incoming@);
        let mut i: usize = 0;
        while i < incoming.len()
            invariant
                i <= incoming@.len(),
                log_view(self.log@) == merge_txns(s0, xs.take(i as int)),
                sorted_unique(log_view(self.log@)),
                self.node_id == old(self).node_id,
                self.other_nodes == old(self).other_nodes,
                self.poll_replies == old(self).poll_replies,
            decreases incoming@.len() - i,
        {
            proof {
                assert(xs.take((i + 1) as int).drop_last() =~= xs.take(i as int));
                assert(xs.take((i + 1) as int).last() == xs[i as int]);
            }
            insert_txn(&mut self.log, clone_txn(&incoming[i]));
            i = i + 1;
        }
        proof {
            assert(xs.take(xs.len() as int) =~= xs);
        }
    }

    /// Handle `poll_transactions {first_xid}` from a peer: reply with every
    /// transaction this node originated whose xid is at or past `first_xid`.
    #[verifier::loop_isolation(false)]
    pub fn handle_poll_transactions(
        &mut self,
        env: &Envelope<KafkaMessage>,
        ids: &mut MsgIdGen,
    ) -> (out: Envelope<KafkaMessage>)
        requires
            old(self).wf(),
            env.body.message matches KafkaMessage::PollTransactions { .. },
            old(ids).next_id < usize::MAX,
        ensures
            final(self).wf(),
            *final(self) == *old(self),
            is_reply_to(out, *env),
            out.body.msg_id matches Some(id) && allocates(*old(ids), id, *final(ids)),
            match env.body.message {
                KafkaMessage::PollTransactions { first_xid } => out.body.message
                    matches KafkaMessage::Transactions { transactions } && log_view(transactions@)
                    == log_view(old(self).log@).filter(
                    |v: TxnView| v.transaction_id >= first_xid as int && v.node == old(
                        self,
                    ).node_id@,
                ),
                _ => false,
            },
    {
        let first_xid = match env.message() {
            KafkaMessage::PollTransactions { first_xid } => *first_xid,
            _ => unreached(),
        };
        proof {
            reveal(Seq::filter);
        }
        let ghost s = log_view(self.log@);
        let ghost pred = (|v: TxnView| v.transaction_id >= first_xid as int && v.node
            == self.node_id@);
        let mut picked: Vec<Transaction> = Vec::new();
        let mut i: usize = 0;
        while i < self.log.len()
            invariant
                i <= self.log@.len(),
                log_view(picked@) == s.take(i as int).filter(pred),
            decreases self.log@.len() - i,
        {
            proof {
                reveal(Seq::filter);
                let t1 = s.take((i + 1) as int);
                assert(t1.drop_last() =~= s.take(i as int));
                assert(t1.last() == s[i as int]);
                assert(t1.filter(pred) == if pred(s[i as int]) {
                    s.take(i as int).filter(pred).push(s[i as int])
                } else {
                    s.take(i as int).filter(pred)
                });
            }
            let matches_node = self.log[i].node.eq(&self.node_id);
            if self.log[i].transaction_id >= first_xid && matches_node {
                let ghost before = log_view(picked@);
                picked.push(clone_txn(&self.log[i]));
                proof {
                    assert(log_view(picked@) =~= before.push(s[i as int]));
                }
            }
            i = i + 1;
        }
        proof {
            assert(s.take(s.len() as int) =~= s);
        }
        env.reply(KafkaMessage::Transactions { transactions: picked }, ids)
    }

    /// Handle `commit_offsets {offsets}` once an xid has been obtained for
    /// each entry: log one transaction per key under the commit pseudo-key,
    /// gossip the batch to every peer, and acknowledge.
    #[verifier::loop_isolation(false)]
    pub fn handle_commit_offsets(
        &mut self,
        env: &Envelope<KafkaMessage>,
        xids: &Vec<usize>,
        ids: &mut MsgIdGen,
    ) -> (out: Vec<Envelope<KafkaMessage>>)
        requires
            old(self).wf(),
            env.body.message matches KafkaMessage::CommitOffsets { offsets } && offsets@.len()
                == xids@.len(),
            old(ids).next_id + old(self).other_nodes@.len() + 1 <= usize::MAX,
        ensures
            final(self).wf(),
            final(self).node_id == old(self).node_id,
            final(self).other_nodes == old(self).other_nodes,
            final(self).poll_replies == old(self).poll_replies,
            match env.body.message {
                KafkaMessage::CommitOffsets { offsets } => {
                    let batch = commit_views(old(self).node_id@, offsets@, xids@);
                    let n = old(self).other_nodes@.len() as int;
                    &&& log_view(final(self).log@) == merge_txns(log_view(old(self).log@), batch)
                    &&& out@.len() == n + 1
                    &&& forall|k: int|
                        0 <= k < n ==> {
                            &&& (#[trigger] out@[k]).src@ == old(self).node_id@
                            &&& out@[k].dest@ == old(self).other_nodes@[k]@
                            &&& out@[k].body.in_reply_to is None
                            &&& out@[k].body.message matches KafkaMessage::Transactions {
                                transactions,
                            } && log_view(transactions@) == batch
                        }
                    &&& is_reply_to(out@[n], *env)
                    &&& out@[n].body.message == KafkaMessage::CommitOffsetsOk
                },
                _ => false,
            },
    {
        let offsets = match env.message() {
            KafkaMessage::CommitOffsets { offsets } => offsets,
            _ => unreached(),
        };
        let ghost batch = commit_views(self.node_id@, offsets@, xids@);
        let mut txns: Vec<Transaction> = Vec::new();
        let mut i: usize = 0;
        while i < offsets.len()
            invariant
                i <= offsets@.len(),
                txns@.len() == i,
                forall|j: int| 0 <= j < i ==> (#[trigger] txns@[j])@ == batch[j],
            decreases offsets@.len() - i,
        {
            let (key, offset) = (&offsets[i].0, offsets[i].1);
            let txn = Transaction {
                node: self.node_id.clone(),
                transaction_id: xids[i],
                key: String::from_str("offsets:").concat(key.as_str()),
                message: offset as u64,
            };
            txns.push(txn);
            i = i + 1;
        }
        proof {
            assert(log_view(txns@) =~= batch);
        }
        let ghost s0 = log_view(self.log@);
        let mut i: usize = 0;
        while i < txns.len()
            invariant
                i <= txns@.len(),
                log_view(txns@) == batch,
                log_view(self.log@) == merge_txns(s0, batch.take(i as int)),
                sorted_unique(log_view(self.log@)),
                self.node_id == old(self).node_id,
                self.other_nodes == old(self).other_nodes,
                self.poll_replies == old(self).poll_replies,
            decreases txns@.len() - i,
        {
            proof {
                assert(batch.take((i + 1) as int).drop_last() =~= batch.take(i as int));
                assert(batch.take((i + 1) as int).last() == batch[i as int]);
            }
            insert_txn(&mut self.log, clone_txn(&txns[i]));
            i = i + 1;
        }
        proof {
            assert(batch.take(batch.len() as int) =~= batch);
        }
        let mut out: Vec<Envelope<KafkaMessage>> = Vec::new();
        let mut k: usize = 0;
        while k < self.other_nodes.len()
            invariant
                k <= self.other_nodes@.len(),
                out@.len() == k,
                log_view(txns@) == batch,
                ids.next_id + self.other_nodes@.len() - k + 1 <= usize::MAX,
                forall|j: int|
                    0 <= j < k ==> {
                        &&& (#[trigger] out@[j]).src@ == old(self).node_id@
                        &&& out@[j].dest@ == old(self).other_nodes@[j]@
                        &&& out@[j].body.in_reply_to is None
                        &&& out@[j].body.message matches KafkaMessage::Transactions {
                            transactions,
                        } && log_view(transactions@) == batch
                    },
            decreases self.other_nodes@.len() - k,
        {
            let e = Envelope::new(
                self.node_id.clone(),
                self.other_nodes[k].clone(),
                None,
                KafkaMessage::Transactions { transactions: clone_txns(&txns) },
                ids,
            );
            out.push(e);
            k = k + 1;
        }
        let reply = env.reply(KafkaMessage::CommitOffsetsOk, ids);
        out.push(reply);
        out
    }

    /// Handle `list_committed_offsets {keys}`: for each requested key with a
    /// committed offset, report the latest one; keys never committed are
    /// omitted, in request order.
    #[verifier::loop_isolation(false)]
    pub fn handle_list_committed(
        &mut self,
        env: &Envelope<KafkaMessage>,
        ids: &mut MsgIdGen,
    ) -> (out: Envelope<KafkaMessage>)
        requires
            old(self).wf(),
            env.body.message matches KafkaMessage::ListCommittedOffsets { .. },
            old(ids).next_id < usize::MAX,
        ensures
            final(self).wf(),
            *final(self) == *old(self),
            is_reply_to(out, *env),
            out.body.msg_id matches Some(id) && allocates(*old(ids), id, *final(ids)),
            match env.body.message {
                KafkaMessage::ListCommittedOffsets { keys } => out.body.message
                    matches KafkaMessage::ListCommittedOffsetsOk { offsets } && committed_view(
                    offsets@,
                ) == committed_pairs(log_view(old(self).log@), keys@.map_values(|k: String| k@)),
                _ => false,
            },
    {
        let keys = match env.message() {
            KafkaMessage::ListCommittedOffsets { keys } => keys,
            _ => unreached(),
        };
        let ghost s = log_view(self.log@);
        let ghost kviews = keys@.map_values(|k: String| k@);
        let mut offsets: Vec<(String, usize)> = Vec::new();
        let mut i: usize = 0;
        while i < keys.len()
            invariant
                i <= keys@.len(),
                committed_view(offsets@) == committed_pairs(s, kviews.take(i as int)),
            decreases keys@.len() - i,
        {
            proof {
                assert(kviews.take((i + 1) as int).drop_last() =~= kviews.take(i as int));
                assert(kviews.take((i + 1) as int).last() == kviews[i as int]);
            }
            let ck = String::from_str("offsets:").concat(keys[i].as_str());
            let found = scan_last_with_key(&self.log, &ck);
            let ghost before = committed_view(offsets@);
            match found {
                Some(m) => {
                    offsets.push((keys[i].clone(), m as usize));
                    proof {
                        assert(committed_view(offsets@) =~= before + seq![
                            (kviews[i as int], m as usize),
                        ]);
                    }
                },
                None => {
                    proof {
                        assert(committed_view(offsets@) =~= before + Seq::<(
                            Seq<char>,
                            usize,
                        )>::empty());
                    }
                },
            }
            i = i + 1;
        }
        proof {
            assert(kviews.take(kviews.len() as int) =~= kviews);
        }
        env.reply(KafkaMessage::ListCommittedOffsetsOk { offsets }, ids)
    }

    /// Run the contiguity gate: compute the highest xid `h` such that every
    /// xid in `[1, h]` is in the log, then release — in arrival order — every
    /// held poll whose stamped xid is at most `h`, each answered with, for
    /// every requested key, all its `(xid, message)` pairs at or past the
    /// requested offset. Later-stamped polls stay held.
    #[verifier::loop_isolation(false)]
    pub fn release_polls(&mut self, ids: &mut MsgIdGen) -> (out: (usize, Vec<
        Envelope<KafkaMessage>,
    >))
        requires
            old(self).wf(),
            old(ids).next_id + old(self).poll_replies@.len() <= usize::MAX,
        ensures
            final(self).wf(),
            final(self).node_id == old(self).node_id,
            final(self).other_nodes == old(self).other_nodes,
            final(self).log == old(self).log,
            is_contig_head(log_view(old(self).log@), out.0 as int),
            ({
                let h = out.0;
                let rel = old(self).poll_replies@.filter(
                    (|p: (usize, Envelope<KafkaMessage>)| p.0 <= h),
                );
                &&& final(self).poll_replies@ == old(self).poll_replies@.filter(
                    (|p: (usize, Envelope<KafkaMessage>)| !(p.0 <= h)),
                )
                &&& out.1@.len() == rel.len()
                &&& forall|k: int|
                    0 <= k < rel.len() ==> {
                        &&& is_reply_to(#[trigger] out.1@[k], rel[k].1)
                        &&& poll_reply_matches(
                            out.1@[k].body.message,
                            rel[k].1.body.message,
                            log_view(old(self).log@),
                        )
                    }
            }),
    {
        let ghost s = log_view(self.log@);
        let mut h: usize = 0;
        let mut j: usize = 0;
        while j < self.log.len()
            invariant
                j <= self.log@.len(),
                forall|x: int| 1 <= x <= h ==> has_id(s, x),
                !has_id(s.take(j as int), h + 1),
            decreases self.log@.len() - j,
        {
            let tid = self.log[j].transaction_id;
            let ghost hprev = h as int;
            if h < usize::MAX && tid == h + 1 {
                h = tid;
                proof {
                    assert(has_id(s, h as int)) by {
                        assert(s[j as int].transaction_id == h as int);
                    }
                    assert(!has_id(s.take((j + 1) as int), h + 1)) by {
                        if has_id(s.take((j + 1) as int), h + 1) {
                            let t = choose|t: int|
                                0 <= t < j + 1 && (#[trigger] s.take((j + 1) as int)[t]).transaction_id == h + 1;
                            if t < j {
                                assert(s[t].transaction_id < s[j as int].transaction_id);
                            }
                        }
                    }
                }
            } else {
                proof {
                    assert(!has_id(s.take((j + 1) as int), h + 1)) by {
                        if has_id(s.take((j + 1) as int), h + 1) {
                            let t = choose|t: int|
                                0 <= t < j + 1 && (#[trigger] s.take((j + 1) as int)[t]).transaction_id == h + 1;
                            assert(s[t].transaction_id == h + 1);
                            assert(t < j ==> s.take(j as int)[t].transaction_id == h + 1);
                        }
                    }
                }
            }
            j = j + 1;
        }
        proof {
            assert(s.take(s.len() as int) =~= s);
            reveal(Seq::filter);
        }
        let ghost held0 = self.poll_replies@;
        let ghost hv = h;
        let ghost relpred = (|p: (usize, Envelope<KafkaMessage>)| p.0 <= hv);
        let ghost keeppred = (|p: (usize, Envelope<KafkaMessage>)| !(p.0 <= hv));
        let mut released: Vec<Envelope<KafkaMessage>> = Vec::new();
        let mut kept: Vec<(usize, Envelope<KafkaMessage>)> = Vec::new();
        let ghost total = held0.len();
        let mut done: usize = 0;
        while self.poll_replies.len() > 0
            invariant
                done <= total,
                self.poll_replies@ =~= held0.skip(done as int),
                kept@ == held0.take(done as int).filter(keeppred),
                released@.len() == held0.take(done as int).filter(relpred).len(),
                ids.next_id + held0.len() - done <= usize::MAX,
                self.log == old(self).log,
                self.node_id == old(self).node_id,
                self.other_nodes == old(self).other_nodes,
                forall|i: int|
                    0 <= i < kept@.len() ==> (#[trigger] kept@[i]).1.body.message
                        matches KafkaMessage::Poll { .. },
                forall|k: int|
                    0 <= k < released@.len() ==> {
                        let rel = held0.take(done as int).filter(relpred);
                        &&& is_reply_to(#[trigger] released@[k], rel[k].1)
                        &&& poll_reply_matches(released@[k].body.message, rel[k].1.body.message, s)
                    },
            decreases self.poll_replies@.len(),
        {
            proof {
                reveal(Seq::filter);
                assert(held0.take((done + 1) as int).drop_last() =~= held0.take(done as int));
                assert(held0.take((done + 1) as int).last() == held0[done as int]);
                assert(held0[done as int].1.body.message matches KafkaMessage::Poll { .. });
                assert(held0.take((done + 1) as int).filter(relpred) == if relpred(
                    held0[done as int],
                ) {
                    held0.take(done as int).filter(relpred).push(held0[done as int])
                } else {
                    held0.take(done as int).filter(relpred)
                });
                assert(held0.take((done + 1) as int).filter(keeppred) == if keeppred(
                    held0[done as int],
                ) {
                    held0.take(done as int).filter(keeppred).push(held0[done as int])
                } else {
                    held0.take(done as int).filter(keeppred)
                });
            }
            let (rec, penv) = self.poll_replies.remove(0);
            proof {
                assert((rec, penv) == held0[done as int]);
                assert(self.poll_replies@ =~= held0.skip((done + 1) as int));
            }
            if rec <= h {
                let reply = build_poll_reply(&self.log, &penv, ids);
                released.push(reply);
            } else {
                kept.push((rec, penv));
            }
            done = done + 1;
        }
        proof {
            assert(held0.take(total as int) =~= held0);
        }
        self.poll_replies = kept;
        (h, released)
    }

    /// The periodic anti-entropy pull: ask every peer for its transactions
    /// from one past the highest xid already known from it.
    #[verifier::loop_isolation(false)]
    pub fn tick(&self, ids: &mut MsgIdGen) -> (out: Vec<Envelope<KafkaMessage>>)
        requires
            forall|j: int|
                0 <= j < self.log@.len() ==> (#[trigger] log_view(self.log@)[j]).transaction_id
                    < usize::MAX,
            old(ids).next_id + self.other_nodes@.len() <= usize::MAX,
        ensures
            out@.len() == self.other_nodes@.len(),
            final(ids).next_id == old(ids).next_id + self.other_nodes@.len(),
            forall|k: int|
                0 <= k < self.other_nodes@.len() ==> {
                    &&& (#[trigger] out@[k]).src@ == self.node_id@
                    &&& out@[k].dest@ == self.other_nodes@[k]@
                    &&& out@[k].body.in_reply_to is None
                    &&& out@[k].body.message matches KafkaMessage::PollTransactions { first_xid }
                        && first_xid as int == peer_poll_from(
                        log_view(self.log@),
                        self.other_nodes@[k]@,
                    )
                },
    {
        let mut out: Vec<Envelope<KafkaMessage>> = Vec::new();
        let mut k: usize = 0;
        while k < self.other_nodes.len()
            invariant
                k <= self.other_nodes@.len(),
                out@.len() == k,
                ids.next_id == old(ids).next_id + k,
                forall|j: int|
                    0 <= j < k ==> {
                        &&& (#[trigger] out@[j]).src@ == self.node_id@
                        &&& out@[j].dest@ == self.other_nodes@[j]@
                        &&& out@[j].body.in_reply_to is None
                        &&& out@[j].body.message matches KafkaMessage::PollTransactions {
                            first_xid,
                        } && first_xid as int == peer_poll_from(
                            log_view(self.log@),
                            self.other_nodes@[j]@,
                        )
                    },
            decreases self.other_nodes@.len() - k,
        {
            let from = next_poll_from(&self.log, &self.other_nodes[k]);
            let e = Envelope::new(
                self.node_id.clone(),
                self.other_nodes[k].clone(),
                None,
                KafkaMessage::PollTransactions { first_xid: from },
                ids,
            );
            out.push(e);
            k = k + 1;
        }
        out
    }
}

/// The xid from which to poll a peer: one past the highest xid known from
/// that origin, or zero if none is known.
pub open spec fn peer_poll_from(s: Seq<TxnView>, origin: Seq<char>) -> int
    decreases s.len(),
{
    if s.len() == 0 {
        0
    } else {
        let r = peer_poll_from(s.drop_last(), origin);
        if s.last().node == origin && s.last().transaction_id + 1 > r {
            s.last().transaction_id + 1
        } else {
            r
        }
    }
}

#[verifier::loop_isolation(false)]
fn next_poll_from(log: &Vec<Transaction>, origin: &String) -> (r: usize)
    requires
        forall|j: int|
            0 <= j < log@.len() ==> (#[trigger] log_view(log@)[j]).transaction_id < usize::MAX,
    ensures
        r as int == peer_poll_from(log_view(log@), origin@),
{
    let ghost s = log_view(log@);
    let mut acc: usize = 0;
    let mut i: usize = 0;
    while i < log.len()
        invariant
            i <= log@.len(),
            acc as int == peer_poll_from(s.take(i as int), origin@),
        decreases log@.len() - i,
    {
        proof {
            assert(s.take((i + 1) as int).drop_last() =~= s.take(i as int));
            assert(s.take((i + 1) as int).last() == s[i as int]);
            assert(s[i as int].transaction_id < usize::MAX);
        }
        let from_origin = log[i].node.eq(origin);
        if from_origin && log[i].transaction_id + 1 > acc {
            acc = log[i].transaction_id + 1;
        }
        i = i + 1;
    }
    proof {
        assert(s.take(s.len() as int) =~= s);
    }
    acc
}

/// The images of the transactions a commit batch logs: one per requested
/// key, under the commit pseudo-key, carrying the offset, with the matching
/// xid.
pub open spec fn commit_views(me: Seq<char>, offsets: Seq<(String, usize)>, xids: Seq<usize>) -> Seq<
    TxnView,
> {
    Seq::new(
        offsets.len(),
        |j: int|
            TxnView {
                node: me,
                transaction_id: xids[j] as int,
                key: commit_key(offsets[j].0@),
                message: offsets[j].1 as u64,
            },
    )
}

/// Character-level image of a committed-offset listing.
pub open spec fn committed_view(v: Seq<(String, usize)>) -> Seq<(Seq<char>, usize)> {
    v.map_values(|p: (String, usize)| (p.0@, p.1))
}

/// `reply` answers the poll `req` against the log `s`: one entry per
/// requested key, in request order, each holding that key's messages from
/// the requested offset on.
pub open spec fn poll_reply_matches(reply: KafkaMessage, req: KafkaMessage, s: Seq<TxnView>) -> bool {
    match req {
        KafkaMessage::Poll { offsets } => match reply {
            KafkaMessage::PollOk { msgs } => {
                &&& msgs.len() == offsets.len()
                &&& forall|i: int|
                    0 <= i < offsets.len() ==> (#[trigger] msgs[i]).0@ == offsets[i].0@
                        && pairs_view(msgs[i].1@) == poll_msgs(s, offsets[i].0@, offsets[i].1 as int)
            },
            _ => false,
        },
        _ => false,
    }
}

/// Scan the log from the end for the last entry with exactly `key`.
#[verifier::loop_isolation(false)]
fn scan_last_with_key(log: &Vec<Transaction>, key: &String) -> (r: Option<u64>)
    ensures
        r == last_with_key(log_view(log@), key@),
{
    let ghost s = log_view(log@);
    proof {
        assert(s.take(log@.len() as int) =~= s);
    }
    let mut j = log.len();
    while j > 0
        invariant
            j <= log@.len(),
            last_with_key(s, key@) == last_with_key(s.take(j as int), key@),
        decreases j,
    {
        j = j - 1;
        proof {
            assert(s.take((j + 1) as int).drop_last() =~= s.take(j as int));
            assert(s.take((j + 1) as int).last() == s[j as int]);
        }
        if log[j].key.eq(key) {
            return Some(log[j].message);
        }
    }
    proof {
        assert(s.take(0) =~= Seq::<TxnView>::empty());
    }
    None
}

/// Collect, in log order, the `(xid, message)` pairs for key `k` at or past
/// offset `off`.
#[verifier::loop_isolation(false)]
fn collect_poll(log: &Vec<Transaction>, k: &String, off: usize) -> (r: Vec<(usize, u64)>)
    ensures
        pairs_view(r@) == poll_msgs(log_view(log@), k@, off as int),
{
    proof {
        reveal(Seq::filter);
    }
    let ghost s = log_view(log@);
    let ghost pred = (|v: TxnView| v.key == k@ && v.transaction_id >= off as int);
    let ghost pm = (|v: TxnView| (v.transaction_id, v.message));
    let mut r: Vec<(usize, u64)> = Vec::new();
    let mut i: usize = 0;
    while i < log.len()
        invariant
            i <= log@.len(),
            pairs_view(r@) == s.take(i as int).filter(pred).map_values(pm),
        decreases log@.len() - i,
    {
        proof {
            reveal(Seq::filter);
            let t1 = s.take((i + 1) as int);
            assert(t1.drop_last() =~= s.take(i as int));
            assert(t1.last() == s[i as int]);
            assert(t1.filter(pred) == if pred(s[i as int]) {
                s.take(i as int).filter(pred).push(s[i as int])
            } else {
                s.take(i as int).filter(pred)
            });
        }
        let keyed = log[i].key.eq(k);
        if keyed && log[i].transaction_id >= off {
            let ghost before = pairs_view(r@);
            r.push((log[i].transaction_id, log[i].message));
            proof {
                assert(pairs_view(r@) =~= before.push((s[i as int].transaction_id, s[i as int].message)));
                assert(s.take(i as int).filter(pred).map_values(pm).push(pm(s[i as int])) =~= s.take(
                    (i + 1) as int,
                ).filter(pred).map_values(pm));
            }
        }
        i = i + 1;
    }
    proof {
        assert(s.take(s.len() as int) =~= s);
    }
    r
}

/// Answer one poll request against the log.
#[verifier::loop_isolation(false)]
fn build_poll_reply(
    log: &Vec<Transaction>,
    env: &Envelope<KafkaMessage>,
    ids: &mut MsgIdGen,
) -> (out: Envelope<KafkaMessage>)
    requires
        env.body.message matches KafkaMessage::Poll { .. },
        old(ids).next_id < usize::MAX,
    ensures
        is_reply_to(out, *env),
        out.body.msg_id matches Some(id) && allocates(*old(ids), id, *final(ids)),
        poll_reply_matches(out.body.message, env.body.message, log_view(log@)),
{
    let offsets = match env.message() {
        KafkaMessage::Poll { offsets } => offsets,
        _ => unreached(),
    };
    let mut msgs: Vec<(String, Vec<(usize, u64)>)> = Vec::new();
    let mut i: usize = 0;
    while i < offsets.len()
        invariant
            i <= offsets@.len(),
            msgs@.len() == i,
            forall|t: int|
                0 <= t < i ==> (#[trigger] msgs@[t]).0@ == offsets@[t].0@ && pairs_view(msgs@[t].1@)
                    == poll_msgs(log_view(log@), offsets@[t].0@, offsets@[t].1 as int),
        decreases offsets@.len() - i,
    {
        let entry = collect_poll(log, &offsets[i].0, offsets[i].1);
        msgs.push((offsets[i].0.clone(), entry));
        i = i + 1;
    }
    env.reply(KafkaMessage::PollOk { msgs }, ids)
}

} // verus!
