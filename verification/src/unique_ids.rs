//! The unique-ids workload: every `generate` request is answered with
//! `"<node_id>.<n>"` where `n` is a per-process monotonic counter.
//! Uniqueness across the cluster rests on the disjoint node-id prefix and,
//! within a process, on the counter; both halves are proved here.

use vstd::prelude::*;
use vstd::string::StringExecFns;

use crate::message::{allocates, is_reply_to, Envelope, MsgIdGen};

verus! {

/// The decimal digit character for `d`; meaningful for `d < 10`.
pub open spec fn digit_char(d: nat) -> char
    recommends
        d < 10,
{
    if d == 0 {
        '0'
    } else if d == 1 {
        '1'
    } else if d == 2 {
        '2'
    } else if d == 3 {
        '3'
    } else if d == 4 {
        '4'
    } else if d == 5 {
        '5'
    } else if d == 6 {
        '6'
    } else if d == 7 {
        '7'
    } else if d == 8 {
        '8'
    } else {
        '9'
    }
}

/// `c` is one of the ten decimal digit characters.
pub open spec fn is_dec_digit(c: char) -> bool {
    c == '0' || c == '1' || c == '2' || c == '3' || c == '4' || c == '5' || c == '6' || c == '7'
        || c == '8' || c == '9'
}

/// The usual decimal notation of `n`, most significant digit first, without
/// leading zeros (except for `n == 0` itself).
pub open spec fn dec_digits(n: nat) -> Seq<char>
    decreases n,
{
    if n < 10 {
        seq![digit_char(n)]
    } else {
        dec_digits(n / 10).push(digit_char(n % 10))
    }
}

/// Decimal notation is never empty and consists of digit characters only.
pub proof fn lemma_dec_digits_shape(n: nat)
    ensures
        dec_digits(n).len() >= 1,
        forall|k: int| 0 <= k < dec_digits(n).len() ==> is_dec_digit(#[trigger] dec_digits(n)[k]),
    decreases n,
{
    if n >= 10 {
        lemma_dec_digits_shape(n / 10);
    }
}

/// Decimal notation is injective: equal digit strings denote equal numbers.
pub proof fn lemma_dec_digits_injective(i: nat, j: nat)
    requires
        dec_digits(i) == dec_digits(j),
    ensures
        i == j,
    decreases i + j,
{
    lemma_dec_digits_shape(i / 10);
    lemma_dec_digits_shape(j / 10);
    if i < 10 && j < 10 {
        assert(dec_digits(i) == seq![digit_char(i)]);
        assert(dec_digits(j) == seq![digit_char(j)]);
        assert(dec_digits(i)[0] == digit_char(i));
        assert(dec_digits(j)[0] == digit_char(j));
        assert(digit_char(i) == digit_char(j));
    } else if i >= 10 && j >= 10 {
        assert(dec_digits(i) == dec_digits(i / 10).push(digit_char(i % 10)));
        assert(dec_digits(j) == dec_digits(j / 10).push(digit_char(j % 10)));
        assert(dec_digits(i).last() == digit_char(i % 10));
        assert(dec_digits(j).last() == digit_char(j % 10));
        assert(i % 10 < 10 && j % 10 < 10);
        assert(i % 10 == j % 10);
        assert(dec_digits(i).drop_last() =~= dec_digits(i / 10));
        assert(dec_digits(j).drop_last() =~= dec_digits(j / 10));
        lemma_dec_digits_injective(i / 10, j / 10);
    } else {
        // One notation has a single character, the other at least two.
        assert(dec_digits(i).len() == dec_digits(j).len());
        if i < 10 {
            assert(dec_digits(i).len() == 1);
            assert(dec_digits(j).len() == dec_digits(j / 10).len() + 1);
        } else {
            assert(dec_digits(j).len() == 1);
            assert(dec_digits(i).len() == dec_digits(i / 10).len() + 1);
        }
        assert(false);
    }
}

/// The id string for counter value `n` at node `node`.
pub open spec fn unique_id_seq(node: Seq<char>, n: nat) -> Seq<char> {
    node + seq!['.'] + dec_digits(n)
}

/// Injectivity of the id format: provided node identifiers contain no `'.'`,
/// equal id strings can only come from the same node and the same counter
/// value.
pub proof fn lemma_unique_id_injective(a: Seq<char>, i: nat, b: Seq<char>, j: nat)
    requires
        forall|k: int| 0 <= k < a.len() ==> a[k] != '.',
        forall|k: int| 0 <= k < b.len() ==> b[k] != '.',
        unique_id_seq(a, i) == unique_id_seq(b, j),
    ensures
        a == b,
        i == j,
{
    lemma_dec_digits_shape(i);
    lemma_dec_digits_shape(j);
    let sa = unique_id_seq(a, i);
    let sb = unique_id_seq(b, j);
    assert(sa.len() == a.len() + 1 + dec_digits(i).len());
    assert(sb.len() == b.len() + 1 + dec_digits(j).len());
    if a.len() < b.len() {
        // On the left the separator sits at index a.len(); on the right that
        // index still lies inside the node identifier, which is dot-free.
        assert(sa[a.len() as int] == '.');
        assert(sb[a.len() as int] == b[a.len() as int]);
        assert(false);
    } else if b.len() < a.len() {
        assert(sb[b.len() as int] == '.');
        assert(sa[b.len() as int] == a[b.len() as int]);
        assert(false);
    } else {
        assert forall|k: int| 0 <= k < a.len() implies a[k] == b[k] by {
            assert(sa[k] == a[k]);
            assert(sb[k] == b[k]);
        }
        assert(a =~= b);
        assert(dec_digits(i).len() == dec_digits(j).len());
        assert forall|k: int| 0 <= k < dec_digits(i).len() implies dec_digits(i)[k]
            == dec_digits(j)[k] by {
            assert(sa[a.len() + 1 + k] == dec_digits(i)[k]);
            assert(sb[b.len() + 1 + k] == dec_digits(j)[k]);
        }
        assert(dec_digits(i) =~= dec_digits(j));
        lemma_dec_digits_injective(i, j);
    }
}

/// Distinctness of generated ids: two ids that differ in the node or in the
/// counter value are different strings, so the union of all nodes' outputs
/// has one element per `generate` call.
pub proof fn lemma_unique_ids_distinct(a: Seq<char>, i: nat, b: Seq<char>, j: nat)
    requires
        forall|k: int| 0 <= k < a.len() ==> a[k] != '.',
        forall|k: int| 0 <= k < b.len() ==> b[k] != '.',
        a != b || i != j,
    ensures
        unique_id_seq(a, i) != unique_id_seq(b, j),
{
    if unique_id_seq(a, i) == unique_id_seq(b, j) {
        lemma_unique_id_injective(a, i, b, j);
    }
}

fn digit_str(d: u64) -> (s: &'static str)
    requires
        d < 10,
    ensures
        s@ == seq![digit_char(d as nat)],
{
    proof {
        reveal_strlit("0");
        reveal_strlit("1");
        reveal_strlit("2");
        reveal_strlit("3");
        reveal_strlit("4");
        reveal_strlit("5");
        reveal_strlit("6");
        reveal_strlit("7");
        reveal_strlit("8");
        reveal_strlit("9");
    }
    let s: &'static str = match d {
        0 => "0",
        1 => "1",
        2 => "2",
        3 => "3",
        4 => "4",
        5 => "5",
        6 => "6",
        7 => "7",
        8 => "8",
        _ => "9",
    };
    proof {
        assert(s@ =~= seq![digit_char(d as nat)]);
    }
    s
}

/// Format `n` in decimal.
pub fn u64_to_dec(n: u64) -> (s: String)
    ensures
        s@ == dec_digits(n as nat),
    decreases n,
{
    if n < 10 {
        String::from_str(digit_str(n))
    } else {
        let prefix = u64_to_dec(n / 10);
        let s = prefix.concat(digit_str(n % 10));
        proof {
            assert(dec_digits((n / 10) as nat).push(digit_char((n % 10) as nat)) =~= dec_digits(
                (n / 10) as nat,
            ) + seq![digit_char((n % 10) as nat)]);
        }
        s
    }
}

/// Build the id `"<node_id>.<n>"`.
pub fn unique_id(node_id: &str, n: u64) -> (id: String)
    ensures
        id@ == unique_id_seq(node_id@, n as nat),
{
    proof {
        reveal_strlit(".");
    }
    let s = String::from_str(node_id).concat(".");
    let id = s.concat(u64_to_dec(n).as_str());
    proof {
        assert("."@ =~= seq!['.']);
    }
    id
}

/// The messages of the unique-ids workload.
#[derive(Debug, Clone, PartialEq, Eq)]
pub enum UniqueIdsMessage {
    Init { node_id: String, node_ids: Vec<String> },
    InitOk,
    Generate,
    GenerateOk { id: String },
}

/// A unique-ids node: its identity once initialized, and the id counter.
pub struct UniqueIdsNode {
    pub node_id: String,
    pub next: u64,
}

impl UniqueIdsNode {
    /// A node before `init`: empty identity, counter at zero.
    pub fn new() -> (r: UniqueIdsNode)
        ensures
            r.node_id@ == Seq::<char>::empty(),
            r.next == 0,
    {
        UniqueIdsNode { node_id: String::new(), next: 0 }
    }

    /// Handle one request. `init` fixes the node's identity and is
    /// acknowledged with `init_ok`; `generate` is answered with
    /// `generate_ok` carrying `"<node_id>.<next>"` and advances the counter.
    pub fn handle(
        &mut self,
        env: &Envelope<UniqueIdsMessage>,
        ids: &mut MsgIdGen,
    ) -> (out: Envelope<UniqueIdsMessage>)
        requires
            env.body.message matches UniqueIdsMessage::Init { .. } || env.body.message
                matches UniqueIdsMessage::Generate,
            old(ids).next_id < usize::MAX,
            old(self).next < u64::MAX,
        ensures
            is_reply_to(out, *env),
            out.body.msg_id matches Some(id) && allocates(*old(ids), id, *final(ids)),
            match env.body.message {
                UniqueIdsMessage::Init { node_id, .. } => {
                    &&& final(self).node_id == node_id
                    &&& final(self).next == old(self).next
                    &&& out.body.message == UniqueIdsMessage::InitOk
                },
                UniqueIdsMessage::Generate => {
                    &&& final(self).node_id == old(self).node_id
                    &&& final(self).next == old(self).next + 1
                    &&& out.body.message matches UniqueIdsMessage::GenerateOk { id }
                        && id@ == unique_id_seq(old(self).node_id@, old(self).next as nat)
                },
                _ => false,
            },
    {
        match env.message() {
            UniqueIdsMessage::Init { node_id, .. } => {
                self.node_id = node_id.clone();
                env.reply(UniqueIdsMessage::InitOk, ids)
            },
            _ => {
                let id = unique_id(self.node_id.as_str(), self.next);
                self.next = self.next + 1;
                env.reply(UniqueIdsMessage::GenerateOk { id }, ids)
            },
        }
    }
}

} // verus!
