//! The counter workload: client `add` deltas accumulate locally and are
//! pushed into the external sequentially-consistent key-value service with a
//! compare-and-set loop; peer reads pull remote values in so that every
//! node's `read` converges on the global sum.

use vstd::prelude::*;
use vstd::string::StringExecFns;

use crate::error::{Error, ErrorCode};
use crate::message::{allocates, is_reply_to, Envelope, MsgIdGen};

verus! {

/// The messages of the counter workload, including the key-value service's
/// own request/reply surface.
#[derive(Debug, Clone, PartialEq, Eq)]
pub enum CounterMessage {
    Init { node_id: String, node_ids: Vec<String> },
    InitOk,
    Topology { topology: Vec<(String, Vec<String>)> },
    TopologyOk,
    Add { delta: u64 },
    AddOk,
    Read { key: Option<String> },
    ReadOk { value: u64 },
    Write { key: String, value: u64 },
    WriteOk,
    Cas { key: String, from: u64, to: u64, create_if_not_exists: Option<bool> },
    CasOk,
    Error { code: u64, text: String },
}

/// A counter node: its identity, the cluster, the pending local delta, the
/// last authoritative value, and the single outstanding compare-and-set.
pub struct CounterNode {
    pub node_id: String,
    pub all_node_ids: Vec<String>,
    pub to_add: u64,
    pub value: u64,
    pub last_cas_to: u64,
    pub last_cas_id: usize,
    pub cas_outstanding: bool,
}

impl CounterNode {
    /// A node before `init`: zero everywhere, no outstanding request.
    pub fn new() -> (r: CounterNode)
        ensures
            r.node_id@ == Seq::<char>::empty(),
            r.all_node_ids@ == Seq::<String>::empty(),
            r.to_add == 0,
            r.value == 0,
            r.last_cas_to == 0,
            r.last_cas_id == 0,
            r.cas_outstanding == false,
    {
        CounterNode {
            node_id: String::new(),
            all_node_ids: Vec::new(),
            to_add: 0,
            value: 0,
            last_cas_to: 0,
            last_cas_id: 0,
            cas_outstanding: false,
        }
    }

    /// Handle `init`: adopt the identity, acknowledge with `init_ok`, and
    /// bootstrap the shared total with `cas {from: 0, to: 0, create}` so the
    /// key exists; that request becomes the outstanding compare-and-set.
    pub fn handle_init(
        &mut self,
        env: &Envelope<CounterMessage>,
        ids: &mut MsgIdGen,
    ) -> (out: (Envelope<CounterMessage>, Envelope<CounterMessage>))
        requires
            env.body.message matches CounterMessage::Init { .. },
            old(ids).next_id + 2 <= usize::MAX,
        ensures
            is_reply_to(out.0, *env),
            out.0.body.message == CounterMessage::InitOk,
            out.0.body.msg_id == Some(old(ids).next_id),
            final(ids).next_id == old(ids).next_id + 2,
            match env.body.message {
                CounterMessage::Init { node_id, node_ids } => {
                    &&& final(self).node_id@ == node_id@
                    &&& final(self).all_node_ids@.map_values(|s: String| s@)
                        == node_ids@.map_values(|s: String| s@)
                },
                _ => false,
            },
            out.1.src@ == final(self).node_id@,
            out.1.dest@ == "seq-kv"@,
            out.1.body.in_reply_to is None,
            out.1.body.msg_id == Some((old(ids).next_id + 1) as usize),
            out.1.body.message matches CounterMessage::Cas { key, from: 0, to: 0, create_if_not_exists: Some(true) }
                && key@ == "total"@,
            final(self).cas_outstanding == true,
            final(self).last_cas_id == old(ids).next_id + 1,
            final(self).to_add == old(self).to_add,
            final(self).value == old(self).value,
            final(self).last_cas_to == old(self).last_cas_to,
    {
        let (node_id, node_ids) = match env.message() {
            CounterMessage::Init { node_id, node_ids } => (node_id, node_ids),
            _ => unreached(),
        };
        self.node_id = node_id.clone();
        self.all_node_ids = clone_string_vec(node_ids);
        let ack = env.reply(CounterMessage::InitOk, ids);
        let cas = Envelope::new(
            self.node_id.clone(),
            String::from_str("seq-kv"),
            None,
            CounterMessage::Cas {
                key: String::from_str("total"),
                from: 0,
                to: 0,
                create_if_not_exists: Some(true),
            },
            ids,
        );
        self.cas_outstanding = true;
        self.last_cas_id = match cas.msg_id() {
            Some(id) => id,
            None => unreached(),
        };
        (ack, cas)
    }

    /// Handle `topology`: acknowledge, change nothing.
    pub fn handle_topology(
        &mut self,
        env: &Envelope<CounterMessage>,
        ids: &mut MsgIdGen,
    ) -> (out: Envelope<CounterMessage>)
        requires
            old(ids).next_id < usize::MAX,
        ensures
            is_reply_to(out, *env),
            out.body.message == CounterMessage::TopologyOk,
            out.body.msg_id matches Some(id) && allocates(*old(ids), id, *final(ids)),
            *final(self) == *old(self),
    {
        env.reply(CounterMessage::TopologyOk, ids)
    }

    /// Handle `add {delta}`: fold the delta into the pending local sum and
    /// acknowledge. The authoritative value is untouched.
    pub fn handle_add(
        &mut self,
        env: &Envelope<CounterMessage>,
        ids: &mut MsgIdGen,
    ) -> (out: Envelope<CounterMessage>)
        requires
            env.body.message matches CounterMessage::Add { delta } && old(self).to_add + delta
                <= u64::MAX,
            old(ids).next_id < usize::MAX,
        ensures
            is_reply_to(out, *env),
            out.body.message == CounterMessage::AddOk,
            out.body.msg_id matches Some(id) && allocates(*old(ids), id, *final(ids)),
            match env.body.message {
                CounterMessage::Add { delta } => final(self).to_add == old(self).to_add + delta,
                _ => false,
            },
            final(self).value == old(self).value,
            final(self).node_id == old(self).node_id,
            final(self).all_node_ids == old(self).all_node_ids,
            final(self).last_cas_to == old(self).last_cas_to,
            final(self).last_cas_id == old(self).last_cas_id,
            final(self).cas_outstanding == old(self).cas_outstanding,
    {
        let delta = match env.message() {
            CounterMessage::Add { delta } => *delta,
            _ => unreached(),
        };
        self.to_add = self.to_add + delta;
        env.reply(CounterMessage::AddOk, ids)
    }

    /// Handle `read`: reply with the current local value, both for clients
    /// and for probing peers.
    pub fn handle_read(
        &mut self,
        env: &Envelope<CounterMessage>,
        ids: &mut MsgIdGen,
    ) -> (out: Envelope<CounterMessage>)
        requires
            old(ids).next_id < usize::MAX,
        ensures
            is_reply_to(out, *env),
            out.body.message == (CounterMessage::ReadOk { value: old(self).value }),
            out.body.msg_id matches Some(id) && allocates(*old(ids), id, *final(ids)),
            *final(self) == *old(self),
    {
        let value = self.value;
        env.reply(CounterMessage::ReadOk { value }, ids)
    }

    /// Handle `read_ok {value}`: a peer's value folds in as a maximum, so
    /// the local value never decreases; the key-value service's own reply is
    /// authoritative and replaces the local value outright.
    pub fn handle_read_ok(&mut self, env: &Envelope<CounterMessage>)
        requires
            env.body.message matches CounterMessage::ReadOk { .. },
        ensures
            final(self).node_id == old(self).node_id,
            final(self).all_node_ids == old(self).all_node_ids,
            final(self).to_add == old(self).to_add,
            final(self).last_cas_to == old(self).last_cas_to,
            final(self).last_cas_id == old(self).last_cas_id,
            final(self).cas_outstanding == old(self).cas_outstanding,
            match env.body.message {
                CounterMessage::ReadOk { value: v } => {
                    &&& env.spec_is_from_node() ==> final(self).value == (if v > old(self).value {
                        v
                    } else {
                        old(self).value
                    })
                    &&& !env.spec_is_from_node() ==> final(self).value == v
                },
                _ => false,
            },
            env.spec_is_from_node() ==> final(self).value >= old(self).value,
    {
        let v = match env.message() {
            CounterMessage::ReadOk { value } => *value,
            _ => unreached(),
        };
        if env.is_from_node() {
            if v > self.value {
                self.value = v;
            }
        } else {
            self.value = v;
        }
    }

    /// Handle `cas_ok`: if it acknowledges the outstanding compare-and-set,
    /// the pushed total becomes the local value and the pending delta it
    /// carried is cleared; any other (duplicate or stale) `cas_ok` is
    /// dropped.
    pub fn handle_cas_ok(&mut self, env: &Envelope<CounterMessage>)
        requires
            env.body.message matches CounterMessage::CasOk,
            env.body.in_reply_to is Some,
        ensures
            final(self).node_id == old(self).node_id,
            final(self).all_node_ids == old(self).all_node_ids,
            final(self).last_cas_to == old(self).last_cas_to,
            if env.body.in_reply_to == Some(old(self).last_cas_id) {
                &&& final(self).to_add == 0
                &&& final(self).value == old(self).last_cas_to
                &&& final(self).last_cas_id == 0
                &&& final(self).cas_outstanding == false
            } else {
                *final(self) == *old(self)
            },
            old(self).last_cas_to >= old(self).value && env.body.in_reply_to == Some(
                old(self).last_cas_id,
            ) ==> final(self).value >= old(self).value,
    {
        let reply_to = match env.in_reply_to() {
            Some(id) => id,
            None => unreached(),
        };
        if reply_to == self.last_cas_id {
            self.to_add = 0;
            self.value = self.last_cas_to;
            self.last_cas_id = 0;
            self.cas_outstanding = false;
        }
    }

    /// Handle an `error` envelope from the key-value service. A failed
    /// precondition means the compare-and-set lost a race: the reply is a
    /// fresh `read` of the shared total and the node will retry. Every other
    /// code is fatal and is handed back for the process to abort with.
    pub fn handle_error(
        &mut self,
        env: &Envelope<CounterMessage>,
        ids: &mut MsgIdGen,
    ) -> (out: Result<Envelope<CounterMessage>, Error>)
        requires
            env.body.message matches CounterMessage::Error { .. },
            old(ids).next_id < usize::MAX,
        ensures
            final(self).node_id == old(self).node_id,
            final(self).all_node_ids == old(self).all_node_ids,
            final(self).to_add == old(self).to_add,
            final(self).value == old(self).value,
            final(self).last_cas_to == old(self).last_cas_to,
            final(self).last_cas_id == old(self).last_cas_id,
            match env.body.message {
                CounterMessage::Error { code, text } => {
                    if ErrorCode::spec_from_code(code) == Some(ErrorCode::PreconditionFailed) {
                        &&& out matches Ok(read)
                        &&& read.src@ == old(self).node_id@
                        &&& read.dest@ == "seq-kv"@
                        &&& read.body.in_reply_to is None
                        &&& read.body.msg_id matches Some(id) && allocates(
                            *old(ids),
                            id,
                            *final(ids),
                        )
                        &&& read.body.message matches CounterMessage::Read { key: Some(k) } && k@
                            == "total"@
                        &&& final(self).cas_outstanding == false
                    } else {
                        &&& out matches Err(e)
                        &&& e.text@ == text@
                        &&& match ErrorCode::spec_from_code(code) {
                            Some(c) => e.code == c,
                            None => e.code == ErrorCode::Crash,
                        }
                        &&& final(self).cas_outstanding == old(self).cas_outstanding
                        &&& *final(ids) == *old(ids)
                    }
                },
                _ => false,
            },
    {
        let (code, text) = match env.message() {
            CounterMessage::Error { code, text } => (*code, text),
            _ => unreached(),
        };
        match ErrorCode::from_code(code) {
            Some(ErrorCode::PreconditionFailed) => {
                self.cas_outstanding = false;
                let read = Envelope::new(
                    self.node_id.clone(),
                    String::from_str("seq-kv"),
                    None,
                    CounterMessage::Read { key: Some(String::from_str("total")) },
                    ids,
                );
                Ok(read)
            },
            Some(c) => Err(Error { code: c, text: text.clone() }),
            None => Err(Error { code: ErrorCode::Crash, text: text.clone() }),
        }
    }

    /// The idle probe: when nothing is pending locally, ask every other node
    /// for its value, in cluster order. With a pending delta the probe stays
    /// quiet and the compare-and-set path runs instead.
    #[verifier::loop_isolation(false)]
    pub fn tick(&self, ids: &mut MsgIdGen) -> (out: Vec<Envelope<CounterMessage>>)
        requires
            old(ids).next_id + self.all_node_ids@.len() <= usize::MAX,
        ensures
            self.to_add != 0 ==> out@.len() == 0 && *final(ids) == *old(ids),
            self.to_add == 0 ==> ({
                let others = self.all_node_ids@.filter((|s: String| s@ != self.node_id@));
                &&& out@.len() == others.len()
                &&& final(ids).next_id == old(ids).next_id + others.len()
                &&& forall|k: int|
                    0 <= k < others.len() ==> {
                        &&& (#[trigger] out@[k]).src@ == self.node_id@
                        &&& out@[k].dest@ == others[k]@
                        &&& out@[k].body.in_reply_to is None
                        &&& out@[k].body.message == (CounterMessage::Read { key: None })
                    }
            }),
    {
        let mut out: Vec<Envelope<CounterMessage>> = Vec::new();
        if self.to_add != 0 {
            return out;
        }
        proof {
            reveal(Seq::filter);
        }
        let ghost pred = (|s: String| s@ != self.node_id@);
        let mut k: usize = 0;
        while k < self.all_node_ids.len()
            invariant
                k <= self.all_node_ids@.len(),
                out@.len() == self.all_node_ids@.take(k as int).filter(pred).len(),
                ids.next_id == old(ids).next_id + out@.len(),
                forall|j: int|
                    0 <= j < out@.len() ==> {
                        let others = self.all_node_ids@.take(k as int).filter(pred);
                        &&& (#[trigger] out@[j]).src@ == self.node_id@
                        &&& out@[j].dest@ == others[j]@
                        &&& out@[j].body.in_reply_to is None
                        &&& out@[j].body.message == (CounterMessage::Read { key: None })
                    },
            decreases self.all_node_ids@.len() - k,
        {
            proof {
                reveal(Seq::filter);
                let t1 = self.all_node_ids@.take((k + 1) as int);
                assert(t1.drop_last() =~= self.all_node_ids@.take(k as int));
                assert(t1.last() == self.all_node_ids@[k as int]);
                assert(t1.filter(pred) == if pred(self.all_node_ids@[k as int]) {
                    self.all_node_ids@.take(k as int).filter(pred).push(
                        self.all_node_ids@[k as int],
                    )
                } else {
                    self.all_node_ids@.take(k as int).filter(pred)
                });
            }
            let differs = !self.all_node_ids[k].eq(&self.node_id);
            if differs {
                let e = Envelope::new(
                    self.node_id.clone(),
                    self.all_node_ids[k].clone(),
                    None,
                    CounterMessage::Read { key: None },
                    ids,
                );
                out.push(e);
            }
            k = k + 1;
        }
        proof {
            assert(self.all_node_ids@.take(self.all_node_ids@.len() as int)
                =~= self.all_node_ids@);
        }
        out
    }

    /// Start a compare-and-set when a delta is pending and none is in
    /// flight: push `value + to_add` against the current value, and remember
    /// the request as the outstanding one. Otherwise do nothing.
    pub fn maybe_cas(&mut self, ids: &mut MsgIdGen) -> (out: Option<Envelope<CounterMessage>>)
        requires
            old(ids).next_id < usize::MAX,
            old(self).value + old(self).to_add <= u64::MAX,
        ensures
            final(self).node_id == old(self).node_id,
            final(self).all_node_ids == old(self).all_node_ids,
            final(self).to_add == old(self).to_add,
            final(self).value == old(self).value,
            if old(self).to_add != 0 && !old(self).cas_outstanding {
                &&& out matches Some(cas)
                &&& cas.src@ == old(self).node_id@
                &&& cas.dest@ == "seq-kv"@
                &&& cas.body.in_reply_to is None
                &&& cas.body.msg_id matches Some(id) && allocates(*old(ids), id, *final(ids))
                &&& cas.body.message matches CounterMessage::Cas {
                    key,
                    from,
                    to,
                    create_if_not_exists: None,
                } && key@ == "total"@ && from == old(self).value && to == old(self).value + old(
                    self,
                ).to_add
                &&& final(self).last_cas_to == old(self).value + old(self).to_add
                &&& cas.body.msg_id == Some(final(self).last_cas_id)
                &&& final(self).cas_outstanding == true
            } else {
                out is None && *final(self) == *old(self) && *final(ids) == *old(ids)
            },
    {
        if self.to_add != 0 && !self.cas_outstanding {
            self.last_cas_to = self.value + self.to_add;
            let cas = Envelope::new(
                self.node_id.clone(),
                String::from_str("seq-kv"),
                None,
                CounterMessage::Cas {
                    key: String::from_str("total"),
                    from: self.value,
                    to: self.last_cas_to,
                    create_if_not_exists: None,
                },
                ids,
            );
            self.last_cas_id = match cas.msg_id() {
                Some(id) => id,
                None => unreached(),
            };
            self.cas_outstanding = true;
            Some(cas)
        } else {
            None
        }
    }
}

fn clone_string_vec(v: &Vec<String>) -> (r: Vec<String>)
    ensures
        r@.map_values(|s: String| s@) == v@.map_values(|s: String| s@),
        r@.len() == v@.len(),
{
    let mut r: Vec<String> = Vec::new();
    let mut i: usize = 0;
    while i < v.len()
        invariant
            i <= v.len(),
            r@.len() == i,
            forall|k: int| 0 <= k < i ==> (#[trigger] r@[k])@ == v@[k]@,
        decreases v.len() - i,
    {
        r.push(v[i].clone());
        i = i + 1;
    }
    proof {
        assert(r@.map_values(|s: String| s@) =~= v@.map_values(|s: String| s@));
    }
    r
}

} // verus!
