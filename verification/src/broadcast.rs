//! The broadcast workload: a grow-only set of `u64` payloads, flooded to a
//! deterministic sparse overlay of neighbours, with per-peer lists of
//! unacknowledged payloads that a periodic sync retransmits until the peer
//! acknowledges them.

use vstd::prelude::*;
use vstd::seq_lib::*;

use crate::message::{allocates, is_reply_to, Envelope, MsgIdGen};

verus! {

/// Number of symmetric neighbours each node keeps in the overlay.
pub const FANOUT: usize = 4;

/// The messages of the broadcast workload.
#[derive(Debug, Clone, PartialEq, Eq)]
pub enum BroadcastMessage {
    Init { node_id: String, node_ids: Vec<String> },
    InitOk,
    Broadcast { message: u64 },
    BroadcastOk,
    Read,
    ReadOk { messages: Vec<u64> },
    Topology { topology: Vec<(String, Vec<String>)> },
    TopologyOk,
    Sync { messages: Vec<u64> },
    SyncOk { messages: Vec<u64> },
}

/// No value occurs twice.
pub open spec fn distinct_seq(s: Seq<u64>) -> bool {
    forall|p: int, q: int| 0 <= p < q < s.len() ==> s[p] != s[q]
}

/// Some string in `v` has exactly the characters `t`.
pub open spec fn contains_str_spec(v: Seq<String>, t: Seq<char>) -> bool {
    exists|j: int| 0 <= j < v.len() && v[j]@ == t
}

/// `idx` is the first position in `v` whose string has the characters `t`.
pub open spec fn is_first_index(v: Seq<String>, t: Seq<char>, idx: int) -> bool {
    &&& 0 <= idx < v.len()
    &&& v[idx]@ == t
    &&& forall|p: int| 0 <= p < idx ==> v[p]@ != t
}

/// The set `s` after inserting the elements of `xs` in order, each only if
/// not already present.
pub open spec fn insert_new(s: Seq<u64>, xs: Seq<u64>) -> Seq<u64>
    decreases xs.len(),
{
    if xs.len() == 0 {
        s
    } else {
        let prev = insert_new(s, xs.drop_last());
        if prev.contains(xs.last()) {
            prev
        } else {
            prev.push(xs.last())
        }
    }
}

/// The elements of `xs` that were new to `s`, in insertion order: what
/// inserting appended after the original prefix `s`.
pub open spec fn fresh_part(s: Seq<u64>, xs: Seq<u64>) -> Seq<u64> {
    insert_new(s, xs).skip(s.len() as int)
}

/// Inserting extends: the original set stays as a prefix, and the result
/// holds exactly the union of both inputs.
pub proof fn lemma_insert_new_shape(s: Seq<u64>, xs: Seq<u64>)
    ensures
        insert_new(s, xs).len() >= s.len(),
        insert_new(s, xs).take(s.len() as int) == s,
        insert_new(s, xs) == s + fresh_part(s, xs),
        forall|m: u64| insert_new(s, xs).contains(m) <==> s.contains(m) || xs.contains(m),
    decreases xs.len(),
{
    if xs.len() == 0 {
        assert(insert_new(s, xs).take(s.len() as int) =~= s);
        assert(insert_new(s, xs) =~= s + fresh_part(s, xs));
        assert(forall|m: u64| !xs.contains(m));
    } else {
        lemma_insert_new_shape(s, xs.drop_last());
        let prev = insert_new(s, xs.drop_last());
        let full = insert_new(s, xs);
        assert(full.take(s.len() as int) =~= prev.take(s.len() as int));
        assert(full =~= s + fresh_part(s, xs));
        assert forall|m: u64| full.contains(m) implies s.contains(m) || xs.contains(m) by {
            if m == xs.last() {
                assert(xs.contains(m)) by {
                    assert(xs[xs.len() - 1] == m);
                }
            } else {
                let k = choose|k: int| 0 <= k < full.len() && full[k] == m;
                if k < prev.len() {
                    assert(prev.contains(m)) by {
                        assert(prev[k] == m);
                    }
                    if xs.drop_last().contains(m) {
                        let t = choose|t: int| 0 <= t < xs.drop_last().len() && xs.drop_last()[t]
                            == m;
                        assert(xs[t] == m);
                    }
                }
            }
        }
        assert forall|m: u64| s.contains(m) || xs.contains(m) implies full.contains(m) by {
            if xs.contains(m) && !s.contains(m) {
                let t = choose|t: int| 0 <= t < xs.len() && xs[t] == m;
                if t < xs.len() - 1 {
                    assert(xs.drop_last()[t] == m);
                    assert(prev.contains(m));
                    let k = choose|k: int| 0 <= k < prev.len() && prev[k] == m;
                    assert(full[k] == m);
                } else {
                    if prev.contains(m) {
                        let k = choose|k: int| 0 <= k < prev.len() && prev[k] == m;
                        assert(full[k] == m);
                    } else {
                        assert(full.last() == m);
                    }
                }
            } else if s.contains(m) {
                let k = choose|k: int| 0 <= k < s.len() && s[k] == m;
                assert(full.take(s.len() as int)[k] == m);
                assert(full[k] == m);
            }
        }
    }
}

/// Inserting preserves distinctness.
pub proof fn lemma_insert_new_distinct(s: Seq<u64>, xs: Seq<u64>)
    requires
        distinct_seq(s),
    ensures
        distinct_seq(insert_new(s, xs)),
    decreases xs.len(),
{
    if xs.len() > 0 {
        lemma_insert_new_distinct(s, xs.drop_last());
        let prev = insert_new(s, xs.drop_last());
        if !prev.contains(xs.last()) {
            assert forall|p: int, q: int|
                0 <= p < q < prev.push(xs.last()).len() implies prev.push(xs.last())[p]
                != prev.push(xs.last())[q] by {
                if q == prev.len() {
                    assert(!prev.contains(xs.last()));
                    assert(prev[p] != xs.last()) by {
                        if prev[p] == xs.last() {
                            assert(prev.contains(xs.last()));
                        }
                    }
                }
            }
        }
    }
}

/// Per-peer delivery state: the payloads sent to one peer and not yet
/// acknowledged by it.
#[derive(Debug, Clone)]
pub struct NodeHandler {
    pub unacked_messages: Vec<u64>,
}

impl NodeHandler {
    pub fn new() -> (r: NodeHandler)
        ensures
            r.unacked_messages@ == Seq::<u64>::empty(),
    {
        NodeHandler { unacked_messages: Vec::new() }
    }

    /// Queue one payload for this peer; it stays queued until acknowledged.
    pub fn send_message(&mut self, message: u64)
        ensures
            final(self).unacked_messages@ == old(self).unacked_messages@.push(message),
    {
        self.unacked_messages.push(message);
    }

    /// Apply an acknowledgment: drop every queued payload the peer confirmed,
    /// keeping the rest in order. A duplicate ack is a no-op.
    #[verifier::loop_isolation(false)]
    pub fn sync_ok(&mut self, messages: &Vec<u64>)
        ensures
            final(self).unacked_messages@ == old(self).unacked_messages@.filter(
                (|m: u64| !messages@.contains(m)),
            ),
    {
        proof {
            reveal(Seq::filter);
        }
        let ghost pred = (|m: u64| !messages@.contains(m));
        let ghost s = self.unacked_messages@;
        let mut kept: Vec<u64> = Vec::new();
        let n = self.unacked_messages.len();
        let mut i: usize = 0;
        while i < n
            invariant
                i <= n,
                n == self.unacked_messages.len(),
                self.unacked_messages@ == s,
                kept@ == s.take(i as int).filter(pred),
            decreases n - i,
        {
            let x = self.unacked_messages[i];
            let acked = contains_u64(messages, x);
            proof {
                reveal(Seq::filter);
                let t1 = s.take((i + 1) as int);
                assert(t1.drop_last() =~= s.take(i as int));
                assert(t1.last() == s[i as int]);
                assert(t1.filter(pred) == if pred(s[i as int]) {
                    s.take(i as int).filter(pred).push(s[i as int])
                } else {
                    s.take(i as int).filter(pred)
                });
            }
            if !acked {
                kept.push(x);
            }
            i = i + 1;
        }
        proof {
            assert(s.take(n as int) =~= s);
        }
        self.unacked_messages = kept;
    }
}

/// After an acknowledgment is applied, no acknowledged payload remains
/// queued: the in-flight list holds nothing whose ack has been observed.
pub proof fn lemma_sync_ok_clears_acked(before: Seq<u64>, acked: Seq<u64>)
    ensures
        forall|m: u64|
            acked.contains(m) ==> !before.filter((|x: u64| !acked.contains(x))).contains(m),
{
    let pred = (|x: u64| !acked.contains(x));
    let f = before.filter(pred);
    assert forall|m: u64| acked.contains(m) implies !f.contains(m) by {
        if f.contains(m) {
            let k = choose|k: int| 0 <= k < f.len() && f[k] == m;
            before.lemma_filter_pred(pred, k);
        }
    }
}

/// Two duplicate-free sequences with the same members have the same
/// length: once a node's payload set agrees in membership with the set of
/// all distinct broadcast payloads, its `read` reply carries exactly that
/// many values.
pub proof fn lemma_distinct_same_members_same_len(s1: Seq<u64>, s2: Seq<u64>)
    requires
        distinct_seq(s1),
        distinct_seq(s2),
        forall|m: u64| s1.contains(m) <==> s2.contains(m),
    ensures
        s1.len() == s2.len(),
    decreases s1.len(),
{
    if s1.len() == 0 {
        if s2.len() > 0 {
            assert(s2.contains(s2[0]));
        }
    } else {
        let x = s1.last();
        assert(s1.contains(x)) by {
            assert(s1[s1.len() - 1] == x);
        }
        assert(s2.contains(x));
        let j = choose|j: int| 0 <= j < s2.len() && s2[j] == x;
        let s1p = s1.drop_last();
        let s2p = s2.remove(j);
        assert(s2p =~= s2.subrange(0, j) + s2.subrange(j + 1, s2.len() as int));
        assert(distinct_seq(s1p)) by {
            assert forall|p: int, q: int| 0 <= p < q < s1p.len() implies s1p[p] != s1p[q] by {
                assert(s1[p] != s1[q]);
            }
        }
        assert forall|k: int| 0 <= k < s2p.len() implies s2p[k] == (if k < j {
            s2[k]
        } else {
            s2[k + 1]
        }) by {}
        assert(distinct_seq(s2p)) by {
            assert forall|p: int, q: int| 0 <= p < q < s2p.len() implies s2p[p] != s2p[q] by {
                let p2: int = if p < j {
                    p
                } else {
                    p + 1
                };
                let q2: int = if q < j {
                    q
                } else {
                    q + 1
                };
                assert(s2[p2] != s2[q2]);
            }
        }
        assert forall|m: u64| s1p.contains(m) implies s2p.contains(m) by {
            let k = choose|k: int| 0 <= k < s1p.len() && s1p[k] == m;
            assert(s1[k] == m);
            // m is not the removed element: it sits before the last of s1,
            // which is distinct from it.
            assert(m != x);
            assert(s2.contains(m)) by {
                assert(s1.contains(m));
            }
            let t = choose|t: int| 0 <= t < s2.len() && s2[t] == m;
            if t < j {
                assert(s2p[t] == m);
            } else {
                assert(t != j);
                assert(s2p[t - 1] == m);
            }
        }
        assert forall|m: u64| s2p.contains(m) implies s1p.contains(m) by {
            let k = choose|k: int| 0 <= k < s2p.len() && s2p[k] == m;
            let k2: int = if k < j {
                k
            } else {
                k + 1
            };
            assert(s2[k2] == m);
            assert(m != x) by {
                if m == x {
                    assert(s2[j] == x);
                }
            }
            assert(s1.contains(m)) by {
                assert(s2.contains(m));
            }
            let t = choose|t: int| 0 <= t < s1.len() && s1[t] == m;
            assert(t < s1.len() - 1) by {
                if t == s1.len() - 1 {
                    assert(m == x);
                }
            }
            assert(s1p[t] == m);
        }
        lemma_distinct_same_members_same_len(s1p, s2p);
    }
}

/// An acknowledgment that covers everything outstanding empties the list:
/// after `sync_ok` for a superset of the queued payloads, nothing is left
/// to resend.
pub proof fn lemma_full_ack_empties(before: Seq<u64>, acked: Seq<u64>)
    requires
        forall|m: u64| before.contains(m) ==> acked.contains(m),
    ensures
        before.filter((|x: u64| !acked.contains(x))) == Seq::<u64>::empty(),
    decreases before.len(),
{
    reveal(Seq::filter);
    if before.len() > 0 {
        assert forall|m: u64| before.drop_last().contains(m) implies acked.contains(m) by {
            let j = choose|j: int| 0 <= j < before.drop_last().len() && before.drop_last()[j] == m;
            assert(before[j] == m);
        }
        lemma_full_ack_empties(before.drop_last(), acked);
        assert(before.contains(before.last())) by {
            assert(before[before.len() - 1] == before.last());
        }
    }
}

fn contains_u64(v: &Vec<u64>, x: u64) -> (r: bool)
    ensures
        r == v@.contains(x),
{
    let mut i: usize = 0;
    while i < v.len()
        invariant
            i <= v.len(),
            forall|k: int| 0 <= k < i ==> v@[k] != x,
        decreases v.len() - i,
    {
        if v[i] == x {
            return true;
        }
        i = i + 1;
    }
    false
}

fn contains_str(v: &Vec<String>, t: &String) -> (r: bool)
    ensures
        r == contains_str_spec(v@, t@),
{
    let mut i: usize = 0;
    while i < v.len()
        invariant
            i <= v.len(),
            forall|k: int| 0 <= k < i ==> v@[k]@ != t@,
        decreases v.len() - i,
    {
        if v[i].eq(t) {
            return true;
        }
        i = i + 1;
    }
    false
}

fn copy_u64_vec(v: &Vec<u64>) -> (r: Vec<u64>)
    ensures
        r@ == v@,
{
    let mut r: Vec<u64> = Vec::new();
    let mut i: usize = 0;
    while i < v.len()
        invariant
            i <= v.len(),
            r@ == v@.take(i as int),
        decreases v.len() - i,
    {
        r.push(v[i]);
        proof {
            assert(v@.take((i + 1) as int) =~= v@.take(i as int).push(v@[i as int]));
        }
        i = i + 1;
    }
    proof {
        assert(v@.take(v@.len() as int) =~= v@);
    }
    r
}

/// The overlay neighbour list drawn from `ids`: every `step`-th identifier
/// starting at index `from`.
pub open spec fn overlay_spec(ids: Seq<String>, from: int, step: int) -> Seq<String>
    recommends
        step >= 1,
    decreases ids.len() + step - from when 1 <= step && from <= ids.len() + step
{
    if from >= ids.len() || step < 1 {
        Seq::empty()
    } else {
        seq![ids[from]] + overlay_spec(ids, from + step, step)
    }
}

/// The overlay's members, position by position: entry `k` of the list
/// drawn from index `from` with stride `step` is the identifier at index
/// `from + k * step` — so a node's neighbours are exactly the indices
/// congruent to `from` modulo the fanout.
pub proof fn lemma_overlay_members(ids: Seq<String>, from: int, step: int, k: int)
    requires
        1 <= step,
        0 <= from <= ids.len() + step,
        0 <= k < overlay_spec(ids, from, step).len(),
    ensures
        from + k * step < ids.len(),
        overlay_spec(ids, from, step)[k] == ids[from + k * step],
    decreases k,
{
    assert(from < ids.len());
    if k == 0 {
        assert(overlay_spec(ids, from, step)[0] == ids[from]);
    } else {
        assert(overlay_spec(ids, from, step) == seq![ids[from]] + overlay_spec(
            ids,
            from + step,
            step,
        ));
        lemma_overlay_members(ids, from + step, step, k - 1);
        assert((from + step) + (k - 1) * step == from + k * step) by (nonlinear_arith);
    }
}

fn collect_overlay(ids: &Vec<String>, from: usize, step: usize) -> (r: Vec<String>)
    requires
        1 <= step,
        from <= ids@.len(),
    ensures
        r@.map_values(|s: String| s@) == overlay_spec(ids@, from as int, step as int).map_values(
            |s: String| s@,
        ),
{
    let mut r: Vec<String> = Vec::new();
    let mut i = from;
    while i < ids.len()
        invariant
            step >= 1,
            from <= i,
            i <= ids@.len() + step,
            r@.map_values(|s: String| s@) + overlay_spec(ids@, i as int, step as int).map_values(
                |s: String| s@,
            ) =~= overlay_spec(ids@, from as int, step as int).map_values(|s: String| s@),
        decreases ids.len() - i,
    {
        let ghost before = r@;
        r.push(ids[i].clone());
        proof {
            assert(overlay_spec(ids@, i as int, step as int) == seq![ids@[i as int]]
                + overlay_spec(ids@, i + step, step as int));
            assert(r@.map_values(|s: String| s@) =~= before.map_values(|s: String| s@) + seq![
                ids@[i as int]@,
            ]);
        }
        if ids.len() - i <= step {
            // The strides from here on fall past the end.
            proof {
                assert(overlay_spec(ids@, i + step, step as int) == Seq::<String>::empty());
            }
            return r;
        }
        i = i + step;
    }
    proof {
        assert(overlay_spec(ids@, i as int, step as int) == Seq::<String>::empty());
        assert(r@.map_values(|s: String| s@) =~= r@.map_values(|s: String| s@) + Seq::<
            Seq<char>,
        >::empty());
    }
    r
}

/// One peer entry of a broadcast node: the peer's identifier and its
/// delivery handler.
#[derive(Debug, Clone)]
pub struct Peer {
    pub id: String,
    pub handler: NodeHandler,
}

/// A broadcast node: its identity, one handler per known node, the overlay
/// neighbours it floods to, and the set of payloads seen so far.
pub struct BroadcastNode {
    pub node_id: String,
    pub peers: Vec<Peer>,
    pub neighbours: Vec<String>,
    pub messages: Vec<u64>,
}

impl BroadcastNode {
    /// A node before `init`.
    pub fn new() -> (r: BroadcastNode)
        ensures
            r.node_id@ == Seq::<char>::empty(),
            r.peers@ == Seq::<Peer>::empty(),
            r.neighbours@ == Seq::<String>::empty(),
            r.messages@ == Seq::<u64>::empty(),
    {
        BroadcastNode {
            node_id: String::new(),
            peers: Vec::new(),
            neighbours: Vec::new(),
            messages: Vec::new(),
        }
    }

    /// Handle `init`: adopt the given identity, create one empty handler per
    /// known node, and derive the overlay neighbours deterministically from
    /// this node's position in the node list.
    #[verifier::loop_isolation(false)]
    pub fn handle_init(
        &mut self,
        env: &Envelope<BroadcastMessage>,
        ids: &mut MsgIdGen,
    ) -> (out: Envelope<BroadcastMessage>)
        requires
            env.body.message matches BroadcastMessage::Init { node_id, node_ids }
                && contains_str_spec(node_ids@, node_id@),
            old(ids).next_id < usize::MAX,
        ensures
            is_reply_to(out, *env),
            out.body.message == BroadcastMessage::InitOk,
            out.body.msg_id matches Some(id) && allocates(*old(ids), id, *final(ids)),
            match env.body.message {
                BroadcastMessage::Init { node_id, node_ids } => {
                    &&& final(self).node_id@ == node_id@
                    &&& final(self).messages == old(self).messages
                    &&& final(self).peers@.len() == node_ids@.len()
                    &&& forall|k: int|
                        0 <= k < node_ids@.len() ==> (#[trigger] final(self).peers@[k]).id@
                            == node_ids@[k]@ && final(self).peers@[k].handler.unacked_messages@
                            == Seq::<u64>::empty()
                    &&& ({
                        let neigh = final(self).neighbours@.map_values(|s: String| s@);
                        exists|idx: int|
                            #[trigger] is_first_index(node_ids@, node_id@, idx) && neigh
                                == overlay_spec(
                                node_ids@,
                                (idx + 1) % (FANOUT as int),
                                FANOUT as int,
                            ).map_values(|s: String| s@)
                    })
                },
                _ => false,
            },
    {
        let (node_id, node_ids) = match env.message() {
            BroadcastMessage::Init { node_id, node_ids } => (node_id, node_ids),
            _ => unreached(),
        };
        let n = node_ids.len();
        let mut idx: usize = 0;
        loop
            invariant
                idx <= n,
                forall|p: int| 0 <= p < idx ==> node_ids@[p]@ != node_id@,
            decreases n - idx,
        {
            if idx >= n {
                // Unreachable: the precondition puts the node's own id in
                // the list, so the scan finds it first.
                proof {
                    assert(false);
                }
                break ;
            }
            if node_ids[idx].eq(node_id) {
                break ;
            }
            idx = idx + 1;
        }
        proof {
            assert(is_first_index(node_ids@, node_id@, idx as int));
        }
        self.node_id = node_id.clone();
        let mut peers: Vec<Peer> = Vec::new();
        let mut k: usize = 0;
        while k < n
            invariant
                k <= n,
                peers@.len() == k,
                forall|t: int|
                    0 <= t < k ==> (#[trigger] peers@[t]).id@ == node_ids@[t]@
                        && peers@[t].handler.unacked_messages@ == Seq::<u64>::empty(),
            decreases n - k,
        {
            peers.push(Peer { id: node_ids[k].clone(), handler: NodeHandler::new() });
            k = k + 1;
        }
        self.peers = peers;
        let from = (idx + 1) % FANOUT;
        self.neighbours = collect_overlay(node_ids, from, FANOUT);
        env.reply(BroadcastMessage::InitOk, ids)
    }

    /// Handle `topology`: the harness-supplied overlay is acknowledged but
    /// not adopted; the deterministic overlay from `init` stays in force.
    pub fn handle_topology(
        &mut self,
        env: &Envelope<BroadcastMessage>,
        ids: &mut MsgIdGen,
    ) -> (out: Envelope<BroadcastMessage>)
        requires
            old(ids).next_id < usize::MAX,
        ensures
            is_reply_to(out, *env),
            out.body.message == BroadcastMessage::TopologyOk,
            out.body.msg_id matches Some(id) && allocates(*old(ids), id, *final(ids)),
            *final(self) == *old(self),
    {
        env.reply(BroadcastMessage::TopologyOk, ids)
    }

    /// The periodic sync: for every peer with unacknowledged payloads, emit
    /// one `sync` envelope carrying that peer's whole in-flight list, in
    /// peer order. Peers with nothing outstanding are skipped.
    #[verifier::loop_isolation(false)]
    pub fn tick(&self, ids: &mut MsgIdGen) -> (out: Vec<Envelope<BroadcastMessage>>)
        requires
            old(ids).next_id + self.peers@.len() <= usize::MAX,
        ensures
            ({
                let neps = self.peers@.filter((|p: Peer| p.handler.unacked_messages@.len() > 0));
                &&& out@.len() == neps.len()
                &&& final(ids).next_id == old(ids).next_id + neps.len()
                &&& forall|k: int|
                    0 <= k < neps.len() ==> {
                        &&& (#[trigger] out@[k]).src@ == self.node_id@
                        &&& out@[k].dest@ == neps[k].id@
                        &&& out@[k].body.in_reply_to is None
                        &&& out@[k].body.msg_id == Some((old(ids).next_id + k) as usize)
                        &&& out@[k].body.message matches BroadcastMessage::Sync { messages }
                            && messages@ == neps[k].handler.unacked_messages@
                    }
            }),
    {
        proof {
            reveal(Seq::filter);
        }
        let ghost pred = (|p: Peer| p.handler.unacked_messages@.len() > 0);
        let mut out: Vec<Envelope<BroadcastMessage>> = Vec::new();
        let mut k: usize = 0;
        while k < self.peers.len()
            invariant
                k <= self.peers@.len(),
                out@.len() == self.peers@.take(k as int).filter(pred).len(),
                ids.next_id == old(ids).next_id + out@.len(),
                forall|j: int|
                    0 <= j < out@.len() ==> {
                        let neps = self.peers@.take(k as int).filter(pred);
                        &&& (#[trigger] out@[j]).src@ == self.node_id@
                        &&& out@[j].dest@ == neps[j].id@
                        &&& out@[j].body.in_reply_to is None
                        &&& out@[j].body.msg_id == Some((old(ids).next_id + j) as usize)
                        &&& out@[j].body.message matches BroadcastMessage::Sync { messages }
                            && messages@ == neps[j].handler.unacked_messages@
                    },
            decreases self.peers@.len() - k,
        {
            proof {
                reveal(Seq::filter);
                let t1 = self.peers@.take((k + 1) as int);
                assert(t1.drop_last() =~= self.peers@.take(k as int));
                assert(t1.last() == self.peers@[k as int]);
                assert(t1.filter(pred) == if pred(self.peers@[k as int]) {
                    self.peers@.take(k as int).filter(pred).push(self.peers@[k as int])
                } else {
                    self.peers@.take(k as int).filter(pred)
                });
            }
            if self.peers[k].handler.unacked_messages.len() > 0 {
                let payload = copy_u64_vec(&self.peers[k].handler.unacked_messages);
                let e = Envelope::new(
                    self.node_id.clone(),
                    self.peers[k].id.clone(),
                    None,
                    BroadcastMessage::Sync { messages: payload },
                    ids,
                );
                out.push(e);
            }
            k = k + 1;
        }
        proof {
            assert(self.peers@.take(self.peers@.len() as int) =~= self.peers@);
        }
        out
    }

    /// Record one payload: insert it into the set if new, and if new queue it
    /// to every overlay neighbour's handler.
    fn insert_message(&mut self, m: u64)
        ensures
            final(self).node_id == old(self).node_id,
            final(self).neighbours == old(self).neighbours,
            old(self).messages@.contains(m) ==> *final(self) == *old(self),
            !old(self).messages@.contains(m) ==> {
                &&& final(self).messages@ == old(self).messages@.push(m)
                &&& final(self).peers@.len() == old(self).peers@.len()
                &&& forall|k: int|
                    0 <= k < old(self).peers@.len() ==> {
                        &&& (#[trigger] final(self).peers@[k]).id == old(self).peers@[k].id
                        &&& (if contains_str_spec(
                            old(self).neighbours@,
                            old(self).peers@[k].id@,
                        ) {
                            final(self).peers@[k].handler.unacked_messages@ == old(
                                self,
                            ).peers@[k].handler.unacked_messages@.push(m)
                        } else {
                            final(self).peers@[k] == old(self).peers@[k]
                        })
                    }
            },
    {
        if contains_u64(&self.messages, m) {
            return ;
        }
        self.messages.push(m);
        let ghost snap = self.peers@;
        let mut k: usize = 0;
        while k < self.peers.len()
            invariant
                k <= self.peers@.len(),
                self.peers@.len() == snap.len(),
                self.node_id == old(self).node_id,
                self.neighbours == old(self).neighbours,
                self.messages@ == old(self).messages@.push(m),
                forall|t: int|
                    0 <= t < k ==> {
                        &&& (#[trigger] self.peers@[t]).id == snap[t].id
                        &&& (if contains_str_spec(self.neighbours@, snap[t].id@) {
                            self.peers@[t].handler.unacked_messages@
                                == snap[t].handler.unacked_messages@.push(m)
                        } else {
                            self.peers@[t] == snap[t]
                        })
                    },
                forall|t: int| k <= t < snap.len() ==> (#[trigger] self.peers@[t]) == snap[t],
            decreases self.peers@.len() - k,
        {
            let is_n = contains_str(&self.neighbours, &self.peers[k].id);
            if is_n {
                let p = &mut self.peers[k];
                p.handler.send_message(m);
            }
            k = k + 1;
        }
    }

    /// Handle `broadcast {message}`: store the payload, flood it to the
    /// neighbours if new, and acknowledge the client with `broadcast_ok`.
    pub fn handle_broadcast(
        &mut self,
        env: &Envelope<BroadcastMessage>,
        ids: &mut MsgIdGen,
    ) -> (out: Envelope<BroadcastMessage>)
        requires
            env.body.message matches BroadcastMessage::Broadcast { .. },
            old(ids).next_id < usize::MAX,
        ensures
            is_reply_to(out, *env),
            out.body.message == BroadcastMessage::BroadcastOk,
            out.body.msg_id matches Some(id) && allocates(*old(ids), id, *final(ids)),
            match env.body.message {
                BroadcastMessage::Broadcast { message } => {
                    &&& final(self).messages@ == insert_new(old(self).messages@, seq![message])
                    &&& final(self).node_id == old(self).node_id
                    &&& final(self).neighbours == old(self).neighbours
                    &&& old(self).messages@.contains(message) ==> *final(self) == *old(self)
                    &&& !old(self).messages@.contains(message) ==> final(self).messages@ == old(
                        self,
                    ).messages@.push(message)
                },
                _ => false,
            },
    {
        let m = match env.message() {
            BroadcastMessage::Broadcast { message } => *message,
            _ => 0,  // unreachable under the precondition
        };
        self.insert_message(m);
        proof {
            let s = old(self).messages@;
            assert(seq![m].drop_last() =~= Seq::<u64>::empty());
            assert(insert_new(s, Seq::<u64>::empty()) == s);
            assert(seq![m].last() == m);
            assert(insert_new(s, seq![m]) == if s.contains(m) {
                s
            } else {
                s.push(m)
            });
        }
        env.reply(BroadcastMessage::BroadcastOk, ids)
    }

    /// Handle `sync {messages}` from a peer: insert every payload (new ones
    /// also flood onward), and acknowledge all of them with `sync_ok`.
    pub fn handle_sync(
        &mut self,
        env: &Envelope<BroadcastMessage>,
        ids: &mut MsgIdGen,
    ) -> (out: Envelope<BroadcastMessage>)
        requires
            env.body.message matches BroadcastMessage::Sync { .. },
            old(ids).next_id < usize::MAX,
        ensures
            is_reply_to(out, *env),
            out.body.msg_id matches Some(id) && allocates(*old(ids), id, *final(ids)),
            match env.body.message {
                BroadcastMessage::Sync { messages } => {
                    &&& out.body.message matches BroadcastMessage::SyncOk { messages: acked }
                        && acked@ == messages@
                    &&& final(self).messages@ == insert_new(old(self).messages@, messages@)
                    &&& final(self).node_id == old(self).node_id
                    &&& final(self).neighbours == old(self).neighbours
                    &&& forall|m: u64|
                        #[trigger] final(self).messages@.contains(m) <==> (old(
                            self,
                        ).messages@.contains(m) || messages@.contains(m))
                    &&& distinct_seq(old(self).messages@) ==> distinct_seq(final(self).messages@)
                },
                _ => false,
            },
    {
        let incoming = match env.message() {
            BroadcastMessage::Sync { messages } => messages,
            _ => unreached(),
        };
        let ghost s0 = self.messages@;
        let ghost xs = incoming@;
        let mut i: usize = 0;
        while i < incoming.len()
            invariant
                i <= incoming@.len(),
                incoming@ == xs,
                self.messages@ == insert_new(s0, xs.take(i as int)),
                self.node_id == old(self).node_id,
                self.neighbours == old(self).neighbours,
            decreases incoming@.len() - i,
        {
            let m = incoming[i];
            proof {
                assert(xs.take((i + 1) as int).drop_last() =~= xs.take(i as int));
                assert(xs.take((i + 1) as int).last() == xs[i as int]);
            }
            self.insert_message(m);
            i = i + 1;
        }
        proof {
            assert(xs.take(xs.len() as int) =~= xs);
            lemma_insert_new_shape(s0, xs);
            if distinct_seq(s0) {
                lemma_insert_new_distinct(s0, xs);
            }
        }
        let acked = copy_u64_vec(incoming);
        env.reply(BroadcastMessage::SyncOk { messages: acked }, ids)
    }

    /// Handle `sync_ok` from the peer `src`: drop the acknowledged payloads
    /// from that peer's in-flight list. Peers other than `src` are untouched;
    /// an unknown `src` changes nothing.
    #[verifier::loop_isolation(false)]
    pub fn handle_sync_ok(&mut self, src: &String, acked: &Vec<u64>)
        ensures
            final(self).node_id == old(self).node_id,
            final(self).neighbours == old(self).neighbours,
            final(self).messages == old(self).messages,
            final(self).peers@.len() == old(self).peers@.len(),
            forall|k: int|
                0 <= k < old(self).peers@.len() ==> {
                    &&& (#[trigger] final(self).peers@[k]).id == old(self).peers@[k].id
                    &&& (if old(self).peers@[k].id@ == src@ && (forall|t: int|
                        0 <= t < k ==> (#[trigger] old(self).peers@[t].id@) != src@) {
                        final(self).peers@[k].handler.unacked_messages@ == old(
                            self,
                        ).peers@[k].handler.unacked_messages@.filter(
                            (|m: u64| !acked@.contains(m)),
                        )
                    } else {
                        final(self).peers@[k] == old(self).peers@[k]
                    })
                },
    {
        let ghost snap = self.peers@;
        let mut k: usize = 0;
        while k < self.peers.len()
            invariant
                k <= snap.len(),
                self.peers@.len() == snap.len(),
                self.node_id == old(self).node_id,
                self.neighbours == old(self).neighbours,
                self.messages == old(self).messages,
                forall|t: int| 0 <= t < snap.len() ==> (#[trigger] self.peers@[t]) == snap[t],
                forall|t: int| 0 <= t < k ==> (#[trigger] snap[t].id@) != src@,
            decreases snap.len() - k,
        {
            let hit = self.peers[k].id.eq(src);
            if hit {
                let p = &mut self.peers[k];
                p.handler.sync_ok(acked);
                proof {
                    assert(old(self).peers@[k as int].id@ == src@);
                    assert(self.peers@[k as int].id == snap[k as int].id);
                    assert(self.peers@[k as int].handler.unacked_messages@
                        == snap[k as int].handler.unacked_messages@.filter(
                        (|m: u64| !acked@.contains(m)),
                    ));
                    assert(forall|t: int|
                        0 <= t < snap.len() && t != k ==> (#[trigger] self.peers@[t]) == snap[t]);
                }
                return ;
            }
            k = k + 1;
        }
    }

    /// Handle `read`: reply `read_ok` with the full payload set.
    pub fn handle_read(
        &mut self,
        env: &Envelope<BroadcastMessage>,
        ids: &mut MsgIdGen,
    ) -> (out: Envelope<BroadcastMessage>)
        requires
            old(ids).next_id < usize::MAX,
        ensures
            is_reply_to(out, *env),
            out.body.msg_id matches Some(id) && allocates(*old(ids), id, *final(ids)),
            out.body.message matches BroadcastMessage::ReadOk { messages } && messages@ == old(
                self,
            ).messages@,
            *final(self) == *old(self),
    {
        let view = copy_u64_vec(&self.messages);
        env.reply(BroadcastMessage::ReadOk { messages: view }, ids)
    }
}

} // verus!
