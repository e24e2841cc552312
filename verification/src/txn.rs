//! The key-value transaction workload: each `txn` request's operations are
//! executed against the state reconstructed from the replicated log, reads
//! filled in from the writes already applied, and the completed transaction
//! is logged under a locally allocated xid and gossiped to the peers.

use vstd::prelude::*;

use crate::message::{allocates, is_reply_to, Envelope, MsgIdGen};

verus! {

/// A transaction operation is a read or a write.
#[derive(Debug, Clone, Copy, PartialEq, Eq, Structural)]
pub enum OpType {
    Read,
    Write,
}

impl OpType {
    /// The wire character for this operation.
    pub open spec fn spec_char(self) -> char {
        match self {
            OpType::Read => 'r',
            OpType::Write => 'w',
        }
    }

    /// Decode the wire character; anything but `'r'` or `'w'` is rejected.
    pub fn from_char(c: char) -> (r: Option<OpType>)
        ensures
            r == (if c == 'r' {
                Some(OpType::Read)
            } else if c == 'w' {
                Some(OpType::Write)
            } else {
                None::<OpType>
            }),
    {
        if c == 'r' {
            Some(OpType::Read)
        } else if c == 'w' {
            Some(OpType::Write)
        } else {
            None
        }
    }

    pub fn to_char(self) -> (c: char)
        ensures
            c == self.spec_char(),
    {
        match self {
            OpType::Read => 'r',
            OpType::Write => 'w',
        }
    }
}

/// One `[op, key, value]` triple: a read carries the value read (or nothing
/// yet), a write the value written.
#[derive(Debug, Clone, Copy, PartialEq, Eq)]
pub struct Operation {
    pub optype: OpType,
    pub key: u64,
    pub value: Option<u64>,
}

/// One replicated log entry: originating node, its per-origin xid, and the
/// completed operation list.
#[derive(Debug, Clone, PartialEq, Eq)]
pub struct Transaction {
    pub node: String,
    pub transaction_id: usize,
    pub operations: Vec<Operation>,
}

/// The mathematical image of a [`Transaction`].
pub ghost struct TxnRecView {
    pub node: Seq<char>,
    pub transaction_id: int,
    pub operations: Seq<Operation>,
}

impl View for Transaction {
    type V = TxnRecView;

    open spec fn view(&self) -> TxnRecView {
        TxnRecView {
            node: self.node@,
            transaction_id: self.transaction_id as int,
            operations: self.operations@,
        }
    }
}

/// The log as a sequence of transaction images.
pub open spec fn rlog_view(s: Seq<Transaction>) -> Seq<TxnRecView> {
    s.map_values(|t: Transaction| t@)
}

/// Every write in the list carries a value.
pub open spec fn writes_valid(ops: Seq<Operation>) -> bool {
    forall|i: int|
        0 <= i < ops.len() && (#[trigger] ops[i]).optype == OpType::Write ==> ops[i].value is Some
}

/// Every transaction's operation list has its writes carrying values.
pub open spec fn log_writes_valid(s: Seq<TxnRecView>) -> bool {
    forall|i: int| 0 <= i < s.len() ==> writes_valid((#[trigger] s[i]).operations)
}

/// The state after folding the write operations of `ops`, in order, over
/// `m`. Reads change nothing.
pub open spec fn apply_write_ops(m: Map<u64, u64>, ops: Seq<Operation>) -> Map<u64, u64>
    decreases ops.len(),
{
    if ops.len() == 0 {
        m
    } else {
        let prev = apply_write_ops(m, ops.drop_last());
        let op = ops.last();
        if op.optype == OpType::Write && op.value is Some {
            prev.insert(op.key, op.value->0)
        } else {
            prev
        }
    }
}

/// The state visible to the operation at position `n`: the base state with
/// the writes among the first `n` operations applied.
pub open spec fn state_after(m: Map<u64, u64>, ops: Seq<Operation>, n: int) -> Map<u64, u64> {
    apply_write_ops(m, ops.take(n))
}

/// The key-value state that a log denotes: the fold of every write of every
/// transaction, in log order.
pub open spec fn roll_up_map(s: Seq<TxnRecView>) -> Map<u64, u64>
    decreases s.len(),
{
    if s.len() == 0 {
        Map::empty()
    } else {
        apply_write_ops(roll_up_map(s.drop_last()), s.last().operations)
    }
}

/// The map an association list denotes; a later entry for a key shadows an
/// earlier one.
pub open spec fn assoc_map(v: Seq<(u64, u64)>) -> Map<u64, u64>
    decreases v.len(),
{
    if v.len() == 0 {
        Map::empty()
    } else {
        assoc_map(v.drop_last()).insert(v.last().0, v.last().1)
    }
}

/// Lookup as an option.
pub open spec fn map_at(m: Map<u64, u64>, k: u64) -> Option<u64> {
    if m.dom().contains(k) {
        Some(m[k])
    } else {
        None
    }
}

/// Look a key up in an association list (the last entry for the key wins).
#[verifier::loop_isolation(false)]
pub fn assoc_get(v: &Vec<(u64, u64)>, k: u64) -> (r: Option<u64>)
    ensures
        r == map_at(assoc_map(v@), k),
{
    proof {
        assert(v@.take(v@.len() as int) =~= v@);
    }
    let mut j = v.len();
    while j > 0
        invariant
            j <= v@.len(),
            map_at(assoc_map(v@), k) == map_at(assoc_map(v@.take(j as int)), k),
        decreases j,
    {
        j = j - 1;
        proof {
            assert(v@.take((j + 1) as int).drop_last() =~= v@.take(j as int));
            assert(v@.take((j + 1) as int).last() == v@[j as int]);
        }
        if v[j].0 == k {
            return Some(v[j].1);
        }
    }
    proof {
        assert(v@.take(0) =~= Seq::<(u64, u64)>::empty());
    }
    None
}

/// Apply the writes of one operation list to an association-list state.
#[verifier::loop_isolation(false)]
fn apply_writes(state: &mut Vec<(u64, u64)>, ops: &Vec<Operation>)
    requires
        writes_valid(ops@),
    ensures
        assoc_map(final(state)@) == apply_write_ops(assoc_map(old(state)@), ops@),
{
    let mut j: usize = 0;
    while j < ops.len()
        invariant
            j <= ops@.len(),
            assoc_map(state@) == apply_write_ops(assoc_map(old(state)@), ops@.take(j as int)),
        decreases ops@.len() - j,
    {
        proof {
            assert(ops@.take((j + 1) as int).drop_last() =~= ops@.take(j as int));
            assert(ops@.take((j + 1) as int).last() == ops@[j as int]);
        }
        let op = ops[j];
        if op.optype == OpType::Write {
            let v = match op.value {
                Some(v) => v,
                None => unreached(),
            };
            let ghost before = state@;
            state.push((op.key, v));
            proof {
                assert(state@.drop_last() =~= before);
            }
        }
        j = j + 1;
    }
    proof {
        assert(ops@.take(ops@.len() as int) =~= ops@);
    }
}

/// Reconstruct the key-value state of a log: the fold of every write of
/// every transaction, in log order, as an association list. Later entries
/// shadow earlier ones.
#[verifier::loop_isolation(false)]
pub fn roll_up_transactions(transactions: &Vec<Transaction>) -> (r: Vec<(u64, u64)>)
    requires
        log_writes_valid(rlog_view(transactions@)),
    ensures
        assoc_map(r@) == roll_up_map(rlog_view(transactions@)),
{
    let ghost s = rlog_view(transactions@);
    let mut r: Vec<(u64, u64)> = Vec::new();
    let mut i: usize = 0;
    while i < transactions.len()
        invariant
            i <= transactions@.len(),
            assoc_map(r@) == roll_up_map(s.take(i as int)),
        decreases transactions@.len() - i,
    {
        proof {
            assert(s.take((i + 1) as int).drop_last() =~= s.take(i as int));
            assert(s.take((i + 1) as int).last() == s[i as int]);
            assert(writes_valid(s[i as int].operations));
        }
        apply_writes(&mut r, &transactions[i].operations);
        i = i + 1;
    }
    proof {
        assert(s.take(s.len() as int) =~= s);
        assert(assoc_map(Seq::<(u64, u64)>::empty()) =~= Map::<u64, u64>::empty());
    }
    r
}

/// `filled` is the completed form of `ops` against base state `m0`: same
/// shape, writes untouched, every read filled with the value the state held
/// at its position — base state plus the writes before it.
pub open spec fn filled_matches(m0: Map<u64, u64>, ops: Seq<Operation>, filled: Seq<Operation>) -> bool {
    &&& filled.len() == ops.len()
    &&& forall|i: int|
        0 <= i < ops.len() ==> (#[trigger] filled[i]).optype == ops[i].optype && filled[i].key
            == ops[i].key
    &&& forall|i: int| 0 <= i < ops.len() && (#[trigger] ops[i]).optype == OpType::Write ==> filled[i] == ops[i]
    &&& forall|i: int|
        0 <= i < ops.len() && (#[trigger] ops[i]).optype == OpType::Read ==> filled[i].value
            == map_at(state_after(m0, ops, i), ops[i].key)
}

/// Execute an operation list against a mutable state: writes update the
/// state, reads are answered from it — so a read sees every earlier write of
/// the same request.
#[verifier::loop_isolation(false)]
pub fn apply_ops(state: &mut Vec<(u64, u64)>, ops: &Vec<Operation>) -> (filled: Vec<Operation>)
    requires
        writes_valid(ops@),
    ensures
        assoc_map(final(state)@) == apply_write_ops(assoc_map(old(state)@), ops@),
        filled_matches(assoc_map(old(state)@), ops@, filled@),
        writes_valid(filled@),
{
    let ghost m0 = assoc_map(state@);
    let mut filled: Vec<Operation> = Vec::new();
    let mut i: usize = 0;
    while i < ops.len()
        invariant
            i <= ops@.len(),
            assoc_map(state@) == state_after(m0, ops@, i as int),
            filled@.len() == i,
            forall|t: int|
                0 <= t < i ==> (#[trigger] filled@[t]).optype == ops@[t].optype && filled@[t].key
                    == ops@[t].key,
            forall|t: int|
                0 <= t < i && (#[trigger] ops@[t]).optype == OpType::Write ==> filled@[t]
                    == ops@[t],
            forall|t: int|
                0 <= t < i && (#[trigger] ops@[t]).optype == OpType::Read ==> filled@[t].value
                    == map_at(state_after(m0, ops@, t), ops@[t].key),
        decreases ops@.len() - i,
    {
        proof {
            assert(ops@.take((i + 1) as int).drop_last() =~= ops@.take(i as int));
            assert(ops@.take((i + 1) as int).last() == ops@[i as int]);
        }
        let op = ops[i];
        match op.optype {
            OpType::Read => {
                let read = assoc_get(state, op.key);
                filled.push(Operation { optype: OpType::Read, key: op.key, value: read });
            },
            OpType::Write => {
                let v = match op.value {
                    Some(v) => v,
                    None => unreached(),
                };
                let ghost before = state@;
                state.push((op.key, v));
                proof {
                    assert(state@.drop_last() =~= before);
                }
                filled.push(op);
            },
        }
        i = i + 1;
    }
    proof {
        assert(ops@.take(ops@.len() as int) =~= ops@);
    }
    filled
}

/// Lexicographic order on character sequences, by code point.
pub open spec fn lex_lt(x: Seq<char>, y: Seq<char>) -> bool
    decreases x.len(),
{
    if y.len() == 0 {
        false
    } else if x.len() == 0 {
        true
    } else if (x[0] as int) < (y[0] as int) {
        true
    } else if (x[0] as int) > (y[0] as int) {
        false
    } else {
        lex_lt(x.drop_first(), y.drop_first())
    }
}

/// Lexicographic order is a strict total order: any two sequences are
/// ordered one way, the other way, or equal — and never two of those at
/// once.
pub proof fn lemma_lex_trichotomy(x: Seq<char>, y: Seq<char>)
    ensures
        lex_lt(x, y) || lex_lt(y, x) || x == y,
        lex_lt(x, y) ==> !lex_lt(y, x) && x != y,
    decreases x.len() + y.len(),
{
    if x.len() == 0 && y.len() == 0 {
        assert(x =~= y);
    } else if x.len() > 0 && y.len() > 0 {
        if (x[0] as int) == (y[0] as int) {
            assert(x[0] == y[0]);
            lemma_lex_trichotomy(x.drop_first(), y.drop_first());
            if x.drop_first() == y.drop_first() && x[0] == y[0] {
                assert(x.len() == y.len());
                assert forall|k: int| 0 <= k < x.len() implies x[k] == y[k] by {
                    if k > 0 {
                        assert(x.drop_first()[k - 1] == y.drop_first()[k - 1]);
                    }
                }
                assert(x =~= y);
            }
            if x == y {
                assert(x.drop_first() == y.drop_first());
            }
        }
    }
}

/// Lexicographic order is transitive.
pub proof fn lemma_lex_trans(x: Seq<char>, y: Seq<char>, z: Seq<char>)
    requires
        lex_lt(x, y),
        lex_lt(y, z),
    ensures
        lex_lt(x, z),
    decreases x.len() + y.len() + z.len(),
{
    if x.len() > 0 && y.len() > 0 && z.len() > 0 {
        if (x[0] as int) == (y[0] as int) && (y[0] as int) == (z[0] as int) {
            lemma_lex_trans(x.drop_first(), y.drop_first(), z.drop_first());
        }
    }
}

/// Replication order on log entries: by xid, ties broken by the origin's
/// name — a fixed total order, so every node folds the same way.
pub open spec fn rec_lt(a: TxnRecView, b: TxnRecView) -> bool {
    a.transaction_id < b.transaction_id || (a.transaction_id == b.transaction_id && lex_lt(
        a.node,
        b.node,
    ))
}

/// Two entries claim the same log slot: same xid from the same origin.
pub open spec fn same_slot(a: TxnRecView, b: TxnRecView) -> bool {
    a.transaction_id == b.transaction_id && a.node == b.node
}

/// Replication order is a strict total order up to slots.
pub proof fn lemma_rec_trichotomy(a: TxnRecView, b: TxnRecView)
    ensures
        rec_lt(a, b) || rec_lt(b, a) || same_slot(a, b),
        rec_lt(a, b) ==> !rec_lt(b, a) && !same_slot(a, b),
{
    lemma_lex_trichotomy(a.node, b.node);
}

/// Replication order is transitive.
pub proof fn lemma_rec_trans(a: TxnRecView, b: TxnRecView, c: TxnRecView)
    requires
        rec_lt(a, b),
        rec_lt(b, c),
    ensures
        rec_lt(a, c),
{
    if a.transaction_id == b.transaction_id && b.transaction_id == c.transaction_id {
        lemma_lex_trans(a.node, b.node, c.node);
    }
}

/// Strictly sorted in replication order; strictness makes the slots
/// pairwise distinct.
pub open spec fn rsorted(s: Seq<TxnRecView>) -> bool {
    forall|p: int, q: int| 0 <= p < q < s.len() ==> rec_lt(#[trigger] s[p], #[trigger] s[q])
}

/// Some entry claims the slot `(id, node)`.
pub open spec fn has_slot(s: Seq<TxnRecView>, id: int, node: Seq<char>) -> bool {
    exists|j: int|
        0 <= j < s.len() && (#[trigger] s[j]).transaction_id == id && s[j].node == node
}

/// `t` placed at its position in replication order.
pub open spec fn insert_rec_sorted(s: Seq<TxnRecView>, t: TxnRecView) -> Seq<TxnRecView>
    decreases s.len(),
{
    if s.len() == 0 {
        seq![t]
    } else if rec_lt(s.last(), t) {
        s.push(t)
    } else {
        insert_rec_sorted(s.drop_last(), t).push(s.last())
    }
}

/// The log after being offered `t`: unchanged if its slot is taken,
/// otherwise `t` at its position.
pub open spec fn offer_rec_spec(s: Seq<TxnRecView>, t: TxnRecView) -> Seq<TxnRecView> {
    if has_slot(s, t.transaction_id, t.node) {
        s
    } else {
        insert_rec_sorted(s, t)
    }
}

/// The log after being offered each element of `xs` in order.
pub open spec fn merge_recs(s: Seq<TxnRecView>, xs: Seq<TxnRecView>) -> Seq<TxnRecView>
    decreases xs.len(),
{
    if xs.len() == 0 {
        s
    } else {
        offer_rec_spec(merge_recs(s, xs.drop_last()), xs.last())
    }
}

/// Sorted insertion of a fresh slot: the result is sorted, one longer, and
/// holds exactly the old entries plus `t`.
pub proof fn lemma_insert_rec_sorted_props(s: Seq<TxnRecView>, t: TxnRecView)
    requires
        rsorted(s),
        !has_slot(s, t.transaction_id, t.node),
    ensures
        rsorted(insert_rec_sorted(s, t)),
        insert_rec_sorted(s, t).len() == s.len() + 1,
        forall|v: TxnRecView|
            #[trigger] insert_rec_sorted(s, t).contains(v) <==> (s.contains(v) || v == t),
    decreases s.len(),
{
    let out = insert_rec_sorted(s, t);
    if s.len() == 0 {
        assert forall|v: TxnRecView| #[trigger] out.contains(v) implies (s.contains(v) || v
            == t) by {
            let j = choose|j: int| 0 <= j < out.len() && out[j] == v;
            assert(out[0] == t);
        }
        assert(out.contains(t)) by {
            assert(out[0] == t);
        }
    } else if rec_lt(s.last(), t) {
        assert(out == s.push(t));
        assert forall|p: int, q: int| 0 <= p < q < out.len() implies rec_lt(out[p], out[q]) by {
            if q == s.len() {
                assert(out[q] == t);
                if p < s.len() - 1 {
                    assert(rec_lt(s[p], s[s.len() - 1]));
                    lemma_rec_trans(s[p], s[s.len() - 1], t);
                }
            }
        }
        assert forall|v: TxnRecView| #[trigger] out.contains(v) implies (s.contains(v) || v
            == t) by {
            let j = choose|j: int| 0 <= j < out.len() && out[j] == v;
            if j < s.len() {
                assert(s[j] == v);
            }
        }
        assert forall|v: TxnRecView| s.contains(v) || v == t implies #[trigger] out.contains(
            v,
        ) by {
            if s.contains(v) {
                let j = choose|j: int| 0 <= j < s.len() && s[j] == v;
                assert(out[j] == v);
            } else {
                assert(out[s.len() as int] == v);
            }
        }
    } else {
        let head = s.drop_last();
        assert(rsorted(head)) by {
            assert forall|p: int, q: int| 0 <= p < q < head.len() implies rec_lt(
                head[p],
                head[q],
            ) by {
                assert(rec_lt(s[p], s[q]));
            }
        }
        assert(!has_slot(head, t.transaction_id, t.node)) by {
            if has_slot(head, t.transaction_id, t.node) {
                let j = choose|j: int|
                    0 <= j < head.len() && (#[trigger] head[j]).transaction_id == t.transaction_id
                        && head[j].node == t.node;
                assert(s[j].transaction_id == t.transaction_id && s[j].node == t.node);
            }
        }
        lemma_insert_rec_sorted_props(head, t);
        let sub = insert_rec_sorted(head, t);
        assert(out == sub.push(s.last()));
        assert(s.contains(s.last())) by {
            assert(s[s.len() - 1] == s.last());
        }
        assert(!same_slot(t, s.last())) by {
            if same_slot(t, s.last()) {
                assert(s[s.len() - 1].transaction_id == t.transaction_id && s[s.len()
                    - 1].node == t.node);
            }
        }
        assert(rec_lt(t, s.last())) by {
            lemma_rec_trichotomy(s.last(), t);
            lemma_rec_trichotomy(t, s.last());
        }
        assert forall|p: int, q: int| 0 <= p < q < out.len() implies rec_lt(out[p], out[q]) by {
            if q == out.len() - 1 {
                assert(out[q] == s.last());
                assert(sub.contains(sub[p])) by {
                    assert(0 <= p < sub.len());
                }
                if head.contains(sub[p]) {
                    let j = choose|j: int| 0 <= j < head.len() && head[j] == sub[p];
                    assert(rec_lt(s[j], s[s.len() - 1]));
                } else {
                    assert(sub[p] == t);
                }
            }
        }
        assert forall|v: TxnRecView| #[trigger] out.contains(v) implies (s.contains(v) || v
            == t) by {
            let j = choose|j: int| 0 <= j < out.len() && out[j] == v;
            if j < sub.len() {
                assert(sub.contains(v)) by {
                    assert(sub[j] == v);
                }
                if head.contains(v) {
                    let p = choose|p: int| 0 <= p < head.len() && head[p] == v;
                    assert(s[p] == v);
                }
            } else {
                assert(v == s.last());
            }
        }
        assert forall|v: TxnRecView| s.contains(v) || v == t implies #[trigger] out.contains(
            v,
        ) by {
            if v == t {
                assert(sub.contains(t));
                let p = choose|p: int| 0 <= p < sub.len() && sub[p] == t;
                assert(out[p] == t);
            } else {
                let j = choose|j: int| 0 <= j < s.len() && s[j] == v;
                if j < s.len() - 1 {
                    assert(head[j] == v);
                    assert(sub.contains(v));
                    let p = choose|p: int| 0 <= p < sub.len() && sub[p] == v;
                    assert(out[p] == v);
                } else {
                    assert(out[out.len() - 1] == v);
                }
            }
        }
    }
}

/// Convergence of replicas: two logs strictly sorted in replication order
/// that hold the same entries are the same sequence — so once gossip has
/// delivered every transaction to two nodes, they fold the same state in
/// the same order.
pub proof fn lemma_sorted_logs_agree(s1: Seq<TxnRecView>, s2: Seq<TxnRecView>)
    requires
        rsorted(s1),
        rsorted(s2),
        forall|v: TxnRecView| s1.contains(v) <==> s2.contains(v),
    ensures
        s1 == s2,
    decreases s1.len(),
{
    if s1.len() == 0 {
        if s2.len() > 0 {
            assert(s2.contains(s2[0]));
        }
        assert(s1 =~= s2);
    } else if s2.len() == 0 {
        assert(s1.contains(s1[0]));
        assert(s2.contains(s1[0]));
        let j = choose|j: int| 0 <= j < s2.len() && s2[j] == s1[0];
    } else {
        let a = s1.last();
        let b = s2.last();
        assert(s1.contains(a)) by {
            assert(s1[s1.len() - 1] == a);
        }
        assert(s2.contains(b)) by {
            assert(s2[s2.len() - 1] == b);
        }
        // The two last entries coincide: each is a member of the other log,
        // and anything strictly below a last entry is below it in the order.
        assert(a == b) by {
            let j = choose|j: int| 0 <= j < s2.len() && s2[j] == a;
            let i = choose|i: int| 0 <= i < s1.len() && s1[i] == b;
            lemma_rec_trichotomy(a, b);
            if j < s2.len() - 1 {
                assert(rec_lt(s2[j], s2[s2.len() - 1]));
                if i < s1.len() - 1 {
                    assert(rec_lt(s1[i], s1[s1.len() - 1]));
                }
            }
        }
        assert forall|v: TxnRecView| s1.drop_last().contains(v) implies s2.drop_last().contains(
            v,
        ) by {
            let k = choose|k: int| 0 <= k < s1.drop_last().len() && s1.drop_last()[k] == v;
            assert(s1[k] == v);
            assert(rec_lt(v, a));
            assert(s2.contains(v)) by {
                assert(s1.contains(v));
            }
            let j = choose|j: int| 0 <= j < s2.len() && s2[j] == v;
            assert(j < s2.len() - 1) by {
                if j == s2.len() - 1 {
                    assert(v == b);
                    lemma_rec_trichotomy(v, a);
                }
            }
            assert(s2.drop_last()[j] == v);
        }
        assert forall|v: TxnRecView| s2.drop_last().contains(v) implies s1.drop_last().contains(
            v,
        ) by {
            let k = choose|k: int| 0 <= k < s2.drop_last().len() && s2.drop_last()[k] == v;
            assert(s2[k] == v);
            assert(rec_lt(v, b));
            assert(s1.contains(v)) by {
                assert(s2.contains(v));
            }
            let i = choose|i: int| 0 <= i < s1.len() && s1[i] == v;
            assert(i < s1.len() - 1) by {
                if i == s1.len() - 1 {
                    assert(v == a);
                    lemma_rec_trichotomy(v, b);
                }
            }
            assert(s1.drop_last()[i] == v);
        }
        assert(rsorted(s1.drop_last())) by {
            assert forall|p: int, q: int|
                0 <= p < q < s1.drop_last().len() implies rec_lt(
                s1.drop_last()[p],
                s1.drop_last()[q],
            ) by {
                assert(rec_lt(s1[p], s1[q]));
            }
        }
        assert(rsorted(s2.drop_last())) by {
            assert forall|p: int, q: int|
                0 <= p < q < s2.drop_last().len() implies rec_lt(
                s2.drop_last()[p],
                s2.drop_last()[q],
            ) by {
                assert(rec_lt(s2[p], s2[q]));
            }
        }
        lemma_sorted_logs_agree(s1.drop_last(), s2.drop_last());
        assert(s1 =~= s2) by {
            assert(s1.len() == s2.len());
            assert forall|k: int| 0 <= k < s1.len() implies s1[k] == s2[k] by {
                if k < s1.len() - 1 {
                    assert(s1.drop_last()[k] == s2.drop_last()[k]);
                }
            }
        }
    }
}

/// What offering one entry does to a sorted log.
pub proof fn lemma_offer_rec_props(s: Seq<TxnRecView>, t: TxnRecView)
    requires
        rsorted(s),
    ensures
        rsorted(offer_rec_spec(s, t)),
        has_slot(s, t.transaction_id, t.node) ==> offer_rec_spec(s, t) == s,
        !has_slot(s, t.transaction_id, t.node) ==> {
            &&& offer_rec_spec(s, t).len() == s.len() + 1
            &&& forall|v: TxnRecView|
                #[trigger] offer_rec_spec(s, t).contains(v) <==> (s.contains(v) || v == t)
        },
{
    if !has_slot(s, t.transaction_id, t.node) {
        lemma_insert_rec_sorted_props(s, t);
    }
}

proof fn lemma_insert_rec_sorted_at(s: Seq<TxnRecView>, t: TxnRecView, pos: int)
    requires
        rsorted(s),
        0 <= pos <= s.len(),
        forall|k: int| 0 <= k < pos ==> rec_lt(#[trigger] s[k], t),
        forall|k: int| pos <= k < s.len() ==> rec_lt(t, #[trigger] s[k]),
    ensures
        insert_rec_sorted(s, t) == s.subrange(0, pos) + seq![t] + s.subrange(pos, s.len() as int),
    decreases s.len(),
{
    if s.len() == 0 {
        assert(insert_rec_sorted(s, t) =~= s.subrange(0, pos) + seq![t] + s.subrange(
            pos,
            s.len() as int,
        ));
    } else if pos == s.len() {
        assert(rec_lt(s[s.len() - 1], t));
        assert(insert_rec_sorted(s, t) == s.push(t));
        assert(s.push(t) =~= s.subrange(0, pos) + seq![t] + s.subrange(pos, s.len() as int));
    } else {
        assert(rec_lt(t, s[s.len() - 1]));
        assert(!rec_lt(s.last(), t)) by {
            lemma_rec_trichotomy(t, s.last());
        }
        let head = s.drop_last();
        assert(rsorted(head)) by {
            assert forall|p: int, q: int| 0 <= p < q < head.len() implies rec_lt(
                head[p],
                head[q],
            ) by {
                assert(rec_lt(s[p], s[q]));
            }
        }
        assert forall|k: int| 0 <= k < pos implies rec_lt(#[trigger] head[k], t) by {
            assert(rec_lt(s[k], t));
        }
        assert forall|k: int| pos <= k < head.len() implies rec_lt(t, #[trigger] head[k]) by {
            assert(rec_lt(t, s[k]));
        }
        lemma_insert_rec_sorted_at(head, t, pos);
        assert(insert_rec_sorted(s, t) == insert_rec_sorted(head, t).push(s.last()));
        assert(insert_rec_sorted(head, t).push(s.last()) =~= s.subrange(0, pos) + seq![t]
            + s.subrange(pos, s.len() as int));
    }
}

/// Compare two node names lexicographically.
#[verifier::loop_isolation(false)]
fn lex_before(a: &String, b: &String) -> (r: bool)
    ensures
        r == lex_lt(a@, b@),
{
    let sa = a.as_str();
    let sb = b.as_str();
    let an = sa.unicode_len();
    let bn = sb.unicode_len();
    proof {
        assert(a@.skip(0) =~= a@);
        assert(b@.skip(0) =~= b@);
    }
    let mut i: usize = 0;
    while i < an && i < bn
        invariant
            i <= an,
            i <= bn,
            an == a@.len(),
            bn == b@.len(),
            lex_lt(a@, b@) == lex_lt(a@.skip(i as int), b@.skip(i as int)),
        decreases an - i,
    {
        let ca = sa.get_char(i);
        let cb = sb.get_char(i);
        proof {
            assert(a@.skip(i as int).len() == an - i);
            assert(b@.skip(i as int).len() == bn - i);
            assert(a@.skip(i as int)[0] == a@[i as int]);
            assert(b@.skip(i as int)[0] == b@[i as int]);
            assert(a@.skip(i as int).drop_first() =~= a@.skip((i + 1) as int));
            assert(b@.skip(i as int).drop_first() =~= b@.skip((i + 1) as int));
        }
        if (ca as u32) < (cb as u32) {
            return true;
        }
        if (ca as u32) > (cb as u32) {
            return false;
        }
        i = i + 1;
    }
    proof {
        assert(a@.skip(i as int).len() == an - i);
        assert(b@.skip(i as int).len() == bn - i);
    }
    an < bn
}

/// Compare two log entries in replication order.
fn rec_before(a: &Transaction, b: &Transaction) -> (r: bool)
    ensures
        r == rec_lt(a@, b@),
{
    if a.transaction_id < b.transaction_id {
        true
    } else if a.transaction_id > b.transaction_id {
        false
    } else {
        lex_before(&a.node, &b.node)
    }
}

/// A field-by-field copy of a transaction.
pub fn clone_rec(t: &Transaction) -> (r: Transaction)
    ensures
        r@ == t@,
{
    let mut ops: Vec<Operation> = Vec::new();
    let mut i: usize = 0;
    while i < t.operations.len()
        invariant
            i <= t.operations@.len(),
            ops@ == t.operations@.take(i as int),
        decreases t.operations@.len() - i,
    {
        ops.push(t.operations[i]);
        proof {
            assert(t.operations@.take((i + 1) as int) =~= t.operations@.take(i as int).push(
                t.operations@[i as int],
            ));
        }
        i = i + 1;
    }
    proof {
        assert(t.operations@.take(t.operations@.len() as int) =~= t.operations@);
    }
    Transaction { node: t.node.clone(), transaction_id: t.transaction_id, operations: ops }
}

/// Offer one entry to the sorted log: placed in replication order, or
/// dropped if its slot is already taken.
#[verifier::loop_isolation(false)]
pub fn offer_rec(log: &mut Vec<Transaction>, t: Transaction)
    requires
        rsorted(rlog_view(old(log)@)),
    ensures
        rlog_view(final(log)@) == offer_rec_spec(rlog_view(old(log)@), t@),
        rsorted(rlog_view(final(log)@)),
{
    let ghost s = rlog_view(log@);
    proof {
        lemma_offer_rec_props(s, t@);
    }
    let mut pos = log.len();
    while pos > 0 && rec_before(&t, &log[pos - 1])
        invariant
            pos <= log@.len(),
            forall|k: int| pos <= k < log@.len() ==> rec_lt(t@, #[trigger] s[k]),
        decreases pos,
    {
        pos = pos - 1;
    }
    if pos > 0 && log[pos - 1].transaction_id == t.transaction_id && log[pos - 1].node.eq(&t.node) {
        proof {
            assert(has_slot(s, t@.transaction_id, t@.node)) by {
                assert((#[trigger] s[pos - 1]).transaction_id == t@.transaction_id && s[pos
                    - 1].node == t@.node);
            }
        }
        return ;
    }
    proof {
        if pos > 0 {
            assert(!same_slot(s[pos - 1], t@));
            assert(rec_lt(s[pos - 1], t@)) by {
                lemma_rec_trichotomy(s[pos - 1], t@);
                lemma_rec_trichotomy(t@, s[pos - 1]);
            }
        }
        assert forall|k: int| 0 <= k < pos implies rec_lt(#[trigger] s[k], t@) by {
            if k < pos - 1 {
                assert(rec_lt(s[k], s[pos - 1]));
                lemma_rec_trans(s[k], s[pos - 1], t@);
            }
        }
        assert(!has_slot(s, t@.transaction_id, t@.node)) by {
            if has_slot(s, t@.transaction_id, t@.node) {
                let j = choose|j: int|
                    0 <= j < s.len() && (#[trigger] s[j]).transaction_id == t@.transaction_id
                        && s[j].node == t@.node;
                lemma_rec_trichotomy(s[j], t@);
                lemma_rec_trichotomy(t@, s[j]);
            }
        }
        lemma_insert_rec_sorted_at(s, t@, pos as int);
    }
    log.insert(pos, t);
    proof {
        assert(rlog_view(log@) =~= s.subrange(0, pos as int) + seq![t@] + s.subrange(
            pos as int,
            s.len() as int,
        ));
    }
}

/// The messages of the transaction workload.
#[derive(Debug, Clone, PartialEq, Eq)]
pub enum TxnMessage {
    Init { node_id: String, node_ids: Vec<String> },
    InitOk,
    Topology { topology: Vec<(String, Vec<String>)> },
    TopologyOk,
    Txn { operations: Vec<Operation> },
    TxnOk { operations: Vec<Operation> },
    Transactions { transactions: Vec<Transaction> },
    PollTransactions { first_xid: usize },
    Error { code: u64, text: String },
}

/// The xid from which to poll a peer: one past the highest xid known from
/// that origin, or zero if none is known.
pub open spec fn peer_poll_from(s: Seq<TxnRecView>, origin: Seq<char>) -> int
    decreases s.len(),
{
    if s.len() == 0 {
        0
    } else {
        let r = peer_poll_from(s.drop_last(), origin);
        if s.last().node == origin && s.last().transaction_id + 1 > r {
            s.last().transaction_id + 1
        } else {
            r
        }
    }
}

fn copy_ops(v: &Vec<Operation>) -> (r: Vec<Operation>)
    ensures
        r@ == v@,
{
    let mut r: Vec<Operation> = Vec::new();
    let mut i: usize = 0;
    while i < v.len()
        invariant
            i <= v.len(),
            r@ == v@.take(i as int),
        decreases v.len() - i,
    {
        r.push(v[i]);
        proof {
            assert(v@.take((i + 1) as int) =~= v@.take(i as int).push(v@[i as int]));
        }
        i = i + 1;
    }
    proof {
        assert(v@.take(v@.len() as int) =~= v@);
    }
    r
}

#[verifier::loop_isolation(false)]
fn next_poll_from(log: &Vec<Transaction>, origin: &String) -> (r: usize)
    requires
        forall|j: int|
            0 <= j < log@.len() ==> (#[trigger] rlog_view(log@)[j]).transaction_id < usize::MAX,
    ensures
        r as int == peer_poll_from(rlog_view(log@), origin@),
{
    let ghost s = rlog_view(log@);
    let mut acc: usize = 0;
    let mut i: usize = 0;
    while i < log.len()
        invariant
            i <= log@.len(),
            acc as int == peer_poll_from(s.take(i as int), origin@),
        decreases log@.len() - i,
    {
        proof {
            assert(s.take((i + 1) as int).drop_last() =~= s.take(i as int));
            assert(s.take((i + 1) as int).last() == s[i as int]);
            assert(s[i as int].transaction_id < usize::MAX);
        }
        let from_origin = log[i].node.eq(origin);
        if from_origin && log[i].transaction_id + 1 > acc {
            acc = log[i].transaction_id + 1;
        }
        i = i + 1;
    }
    proof {
        assert(s.take(s.len() as int) =~= s);
    }
    acc
}

/// A transaction node: its identity, the peers it gossips with, the
/// replicated log in replication order, and the next local xid.
pub struct TxnNode {
    pub node_id: String,
    pub other_nodes: Vec<String>,
    pub log: Vec<Transaction>,
    pub next_xid: usize,
}

impl TxnNode {
    /// The node's structural invariant: the log is strictly sorted in
    /// replication order and every logged write carries a value.
    pub open spec fn wf(self) -> bool {
        &&& rsorted(rlog_view(self.log@))
        &&& log_writes_valid(rlog_view(self.log@))
    }

    /// A node before `init`.
    pub fn new() -> (r: TxnNode)
        ensures
            r.wf(),
            r.node_id@ == Seq::<char>::empty(),
            r.other_nodes@ == Seq::<String>::empty(),
            r.log@ == Seq::<Transaction>::empty(),
            r.next_xid == 0,
    {
        TxnNode { node_id: String::new(), other_nodes: Vec::new(), log: Vec::new(), next_xid: 0 }
    }

    /// Handle `init`: adopt the identity, keep every other node as a gossip
    /// peer, acknowledge.
    #[verifier::loop_isolation(false)]
    pub fn handle_init(
        &mut self,
        env: &Envelope<TxnMessage>,
        ids: &mut MsgIdGen,
    ) -> (out: Envelope<TxnMessage>)
        requires
            old(self).wf(),
            env.body.message matches TxnMessage::Init { .. },
            old(ids).next_id < usize::MAX,
        ensures
            final(self).wf(),
            is_reply_to(out, *env),
            out.body.message == TxnMessage::InitOk,
            out.body.msg_id matches Some(id) && allocates(*old(ids), id, *final(ids)),
            final(self).log == old(self).log,
            final(self).next_xid == old(self).next_xid,
            match env.body.message {
                TxnMessage::Init { node_id, node_ids } => {
                    &&& final(self).node_id@ == node_id@
                    &&& final(self).other_nodes@.map_values(|s: String| s@) == node_ids@.map_values(
                        |s: String| s@,
                    ).filter(|n: Seq<char>| n != node_id@)
                },
                _ => false,
            },
    {
        let (node_id, node_ids) = match env.message() {
            TxnMessage::Init { node_id, node_ids } => (node_id, node_ids),
            _ => unreached(),
        };
        self.node_id = node_id.clone();
        proof {
            reveal(Seq::filter);
        }
        let ghost pred = (|n: Seq<char>| n != node_id@);
        let ghost idsv = node_ids@.map_values(|s: String| s@);
        let mut others: Vec<String> = Vec::new();
        let mut i: usize = 0;
        while i < node_ids.len()
            invariant
                i <= node_ids@.len(),
                others@.map_values(|s: String| s@) == idsv.take(i as int).filter(pred),
            decreases node_ids@.len() - i,
        {
            proof {
                reveal(Seq::filter);
                let t1 = idsv.take((i + 1) as int);
                assert(t1.drop_last() =~= idsv.take(i as int));
                assert(t1.last() == idsv[i as int]);
                assert(t1.filter(pred) == if pred(idsv[i as int]) {
                    idsv.take(i as int).filter(pred).push(idsv[i as int])
                } else {
                    idsv.take(i as int).filter(pred)
                });
            }
            let differs = !node_ids[i].eq(node_id);
            if differs {
                let ghost before = others@;
                others.push(node_ids[i].clone());
                proof {
                    assert(others@.map_values(|s: String| s@) =~= before.map_values(|s: String| s@)
                        + seq![idsv[i as int]]);
                }
            }
            i = i + 1;
        }
        proof {
            assert(idsv.take(idsv.len() as int) =~= idsv);
        }
        self.other_nodes = others;
        env.reply(TxnMessage::InitOk, ids)
    }

    /// Handle `topology`: acknowledge, change nothing.
    pub fn handle_topology(
        &mut self,
        env: &Envelope<TxnMessage>,
        ids: &mut MsgIdGen,
    ) -> (out: Envelope<TxnMessage>)
        requires
            old(ids).next_id < usize::MAX,
        ensures
            is_reply_to(out, *env),
            out.body.message == TxnMessage::TopologyOk,
            out.body.msg_id matches Some(id) && allocates(*old(ids), id, *final(ids)),
            *final(self) == *old(self),
    {
        env.reply(TxnMessage::TopologyOk, ids)
    }

    /// Handle `txn {ops}`: reconstruct the state from the whole log, run
    /// the operations against it (reads see the writes before them), log
    /// the completed list under a fresh local xid, gossip it to every peer,
    /// and echo the completed list back in `txn_ok`.
    #[verifier::loop_isolation(false)]
    pub fn handle_txn(
        &mut self,
        env: &Envelope<TxnMessage>,
        ids: &mut MsgIdGen,
    ) -> (out: Vec<Envelope<TxnMessage>>)
        requires
            old(self).wf(),
            env.body.message matches TxnMessage::Txn { operations } && writes_valid(operations@),
            old(self).next_xid < usize::MAX,
            old(ids).next_id + old(self).other_nodes@.len() + 1 <= usize::MAX,
        ensures
            final(self).wf(),
            final(self).node_id == old(self).node_id,
            final(self).other_nodes == old(self).other_nodes,
            final(self).next_xid == old(self).next_xid + 1,
            match env.body.message {
                TxnMessage::Txn { operations } => {
                    let m0 = roll_up_map(rlog_view(old(self).log@));
                    let n = old(self).other_nodes@.len() as int;
                    &&& out@.len() == n + 1
                    &&& is_reply_to(out@[n], *env)
                    &&& out@[n].body.message matches TxnMessage::TxnOk { operations: fops } && ({
                        let rec = TxnRecView {
                            node: old(self).node_id@,
                            transaction_id: old(self).next_xid as int,
                            operations: fops@,
                        };
                        &&& filled_matches(m0, operations@, fops@)
                        &&& rlog_view(final(self).log@) == offer_rec_spec(
                            rlog_view(old(self).log@),
                            rec,
                        )
                        &&& forall|k: int|
                            0 <= k < n ==> {
                                &&& (#[trigger] out@[k]).src@ == old(self).node_id@
                                &&& out@[k].dest@ == old(self).other_nodes@[k]@
                                &&& out@[k].body.in_reply_to is None
                                &&& out@[k].body.message matches TxnMessage::Transactions {
                                    transactions,
                                } && rlog_view(transactions@) == seq![rec]
                            }
                    })
                },
                _ => false,
            },
    {
        let operations = match env.message() {
            TxnMessage::Txn { operations } => operations,
            _ => unreached(),
        };
        let mut state = roll_up_transactions(&self.log);
        let filled = apply_ops(&mut state, operations);
        let ghost rec = TxnRecView {
            node: self.node_id@,
            transaction_id: self.next_xid as int,
            operations: filled@,
        };
        let mut out: Vec<Envelope<TxnMessage>> = Vec::new();
        let mut k: usize = 0;
        while k < self.other_nodes.len()
            invariant
                k <= self.other_nodes@.len(),
                out@.len() == k,
                ids.next_id + self.other_nodes@.len() - k + 1 <= usize::MAX,
                forall|j: int|
                    0 <= j < k ==> {
                        &&& (#[trigger] out@[j]).src@ == old(self).node_id@
                        &&& out@[j].dest@ == old(self).other_nodes@[j]@
                        &&& out@[j].body.in_reply_to is None
                        &&& out@[j].body.message matches TxnMessage::Transactions {
                            transactions,
                        } && rlog_view(transactions@) == seq![rec]
                    },
            decreases self.other_nodes@.len() - k,
        {
            let t = Transaction {
                node: self.node_id.clone(),
                transaction_id: self.next_xid,
                operations: copy_ops(&filled),
            };
            let mut batch: Vec<Transaction> = Vec::new();
            batch.push(t);
            proof {
                assert(rlog_view(batch@) =~= seq![rec]);
            }
            let e = Envelope::new(
                self.node_id.clone(),
                self.other_nodes[k].clone(),
                None,
                TxnMessage::Transactions { transactions: batch },
                ids,
            );
            out.push(e);
            k = k + 1;
        }
        let stored = Transaction {
            node: self.node_id.clone(),
            transaction_id: self.next_xid,
            operations: copy_ops(&filled),
        };
        let ghost s0 = rlog_view(self.log@);
        proof {
            lemma_offer_rec_props(s0, rec);
        }
        offer_rec(&mut self.log, stored);
        proof {
            assert(log_writes_valid(rlog_view(self.log@))) by {
                assert forall|i: int|
                    0 <= i < rlog_view(self.log@).len() implies writes_valid(
                    (#[trigger] rlog_view(self.log@)[i]).operations,
                ) by {
                    let cur = rlog_view(self.log@);
                    assert(cur.contains(cur[i]));
                    if !has_slot(s0, rec.transaction_id, rec.node) {
                        if s0.contains(cur[i]) {
                            let j = choose|j: int| 0 <= j < s0.len() && s0[j] == cur[i];
                        } else {
                            assert(cur[i] == rec);
                        }
                    } else {
                        let j = choose|j: int| 0 <= j < s0.len() && s0[j] == cur[i];
                    }
                }
            }
        }
        self.next_xid = self.next_xid + 1;
        let reply = env.reply(TxnMessage::TxnOk { operations: filled }, ids);
        out.push(reply);
        out
    }

    /// Handle a gossip `transactions` batch: offer each entry to the log in
    /// order; entries whose slot is already taken are dropped.
    #[verifier::loop_isolation(false)]
    pub fn handle_transactions(&mut self, env: &Envelope<TxnMessage>)
        requires
            old(self).wf(),
            env.body.message matches TxnMessage::Transactions { transactions }
                && log_writes_valid(rlog_view(transactions@)),
        ensures
            final(self).wf(),
            final(self).node_id == old(self).node_id,
            final(self).other_nodes == old(self).other_nodes,
            final(self).next_xid == old(self).next_xid,
            match env.body.message {
                TxnMessage::Transactions { transactions } => rlog_view(final(self).log@)
                    == merge_recs(rlog_view(old(self).log@), rlog_view(transactions@)),
                _ => false,
            },
    {
        let incoming = match env.message() {
            TxnMessage::Transactions { transactions } => transactions,
            _ => unreached(),
        };
        let ghost s0 = rlog_view(old(self).log@);
        let ghost xs = rlog_view(incoming@);
        let mut i: usize = 0;
        while i < incoming.len()
            invariant
                i <= incoming@.len(),
                rlog_view(self.log@) == merge_recs(s0, xs.take(i as int)),
                rsorted(rlog_view(self.log@)),
                log_writes_valid(rlog_view(self.log@)),
                self.node_id == old(self).node_id,
                self.other_nodes == old(self).other_nodes,
                self.next_xid == old(self).next_xid,
            decreases incoming@.len() - i,
        {
            proof {
                assert(xs.take((i + 1) as int).drop_last() =~= xs.take(i as int));
                assert(xs.take((i + 1) as int).last() == xs[i as int]);
            }
            let ghost cur = rlog_view(self.log@);
            proof {
                lemma_offer_rec_props(cur, xs[i as int]);
            }
            offer_rec(&mut self.log, clone_rec(&incoming[i]));
            proof {
                assert(log_writes_valid(rlog_view(self.log@))) by {
                    assert forall|t: int|
                        0 <= t < rlog_view(self.log@).len() implies writes_valid(
                        (#[trigger] rlog_view(self.log@)[t]).operations,
                    ) by {
                        let now = rlog_view(self.log@);
                        assert(now.contains(now[t]));
                        if !has_slot(cur, xs[i as int].transaction_id, xs[i as int].node) {
                            if cur.contains(now[t]) {
                                let j = choose|j: int| 0 <= j < cur.len() && cur[j] == now[t];
                            } else {
                                assert(now[t] == xs[i as int]);
                                assert(writes_valid(xs[i as int].operations));
                            }
                        } else {
                            let j = choose|j: int| 0 <= j < cur.len() && cur[j] == now[t];
                        }
                    }
                }
            }
            i = i + 1;
        }
        proof {
            assert(xs.take(xs.len() as int) =~= xs);
        }
    }

    /// Handle `poll_transactions {first_xid}` from a peer: reply with every
    /// transaction this node originated whose xid is at or past `first_xid`.
    #[verifier::loop_isolation(false)]
    pub fn handle_poll_transactions(
        &mut self,
        env: &Envelope<TxnMessage>,
        ids: &mut MsgIdGen,
    ) -> (out: Envelope<TxnMessage>)
        requires
            old(self).wf(),
            env.body.message matches TxnMessage::PollTransactions { .. },
            old(ids).next_id < usize::MAX,
        ensures
            final(self).wf(),
            *final(self) == *old(self),
            is_reply_to(out, *env),
            out.body.msg_id matches Some(id) && allocates(*old(ids), id, *final(ids)),
            match env.body.message {
                TxnMessage::PollTransactions { first_xid } => out.body.message
                    matches TxnMessage::Transactions { transactions } && rlog_view(transactions@)
                    == rlog_view(old(self).log@).filter(
                    |v: TxnRecView| v.transaction_id >= first_xid as int && v.node == old(
                        self,
                    ).node_id@,
                ),
                _ => false,
            },
    {
        let first_xid = match env.message() {
            TxnMessage::PollTransactions { first_xid } => *first_xid,
            _ => unreached(),
        };
        proof {
            reveal(Seq::filter);
        }
        let ghost s = rlog_view(self.log@);
        let ghost pred = (|v: TxnRecView| v.transaction_id >= first_xid as int && v.node
            == self.node_id@);
        let mut picked: Vec<Transaction> = Vec::new();
        let mut i: usize = 0;
        while i < self.log.len()
            invariant
                i <= self.log@.len(),
                rlog_view(picked@) == s.take(i as int).filter(pred),
            decreases self.log@.len() - i,
        {
            proof {
                reveal(Seq::filter);
                let t1 = s.take((i + 1) as int);
                assert(t1.drop_last() =~= s.take(i as int));
                assert(t1.last() == s[i as int]);
                assert(t1.filter(pred) == if pred(s[i as int]) {
                    s.take(i as int).filter(pred).push(s[i as int])
                } else {
                    s.take(i as int).filter(pred)
                });
            }
            let from_me = self.log[i].node.eq(&self.node_id);
            if self.log[i].transaction_id >= first_xid && from_me {
                let ghost before = rlog_view(picked@);
                picked.push(clone_rec(&self.log[i]));
                proof {
                    assert(rlog_view(picked@) =~= before.push(s[i as int]));
                }
            }
            i = i + 1;
        }
        proof {
            assert(s.take(s.len() as int) =~= s);
        }
        env.reply(TxnMessage::Transactions { transactions: picked }, ids)
    }

    /// The periodic anti-entropy pull: ask every peer for its transactions
    /// from one past the highest xid already known from it.
    #[verifier::loop_isolation(false)]
    pub fn tick(&self, ids: &mut MsgIdGen) -> (out: Vec<Envelope<TxnMessage>>)
        requires
            forall|j: int|
                0 <= j < self.log@.len() ==> (#[trigger] rlog_view(self.log@)[j]).transaction_id
                    < usize::MAX,
            old(ids).next_id + self.other_nodes@.len() <= usize::MAX,
        ensures
            out@.len() == self.other_nodes@.len(),
            final(ids).next_id == old(ids).next_id + self.other_nodes@.len(),
            forall|k: int|
                0 <= k < self.other_nodes@.len() ==> {
                    &&& (#[trigger] out@[k]).src@ == self.node_id@
                    &&& out@[k].dest@ == self.other_nodes@[k]@
                    &&& out@[k].body.in_reply_to is None
                    &&& out@[k].body.message matches TxnMessage::PollTransactions { first_xid }
                        && first_xid as int == peer_poll_from(
                        rlog_view(self.log@),
                        self.other_nodes@[k]@,
                    )
                },
    {
        let mut out: Vec<Envelope<TxnMessage>> = Vec::new();
        let mut k: usize = 0;
        while k < self.other_nodes.len()
            invariant
                k <= self.other_nodes@.len(),
                out@.len() == k,
                ids.next_id == old(ids).next_id + k,
                forall|j: int|
                    0 <= j < k ==> {
                        &&& (#[trigger] out@[j]).src@ == self.node_id@
                        &&& out@[j].dest@ == self.other_nodes@[j]@
                        &&& out@[j].body.in_reply_to is None
                        &&& out@[j].body.message matches TxnMessage::PollTransactions { first_xid }
                            && first_xid as int == peer_poll_from(
                            rlog_view(self.log@),
                            self.other_nodes@[j]@,
                        )
                    },
            decreases self.other_nodes@.len() - k,
        {
            let from = next_poll_from(&self.log, &self.other_nodes[k]);
            let e = Envelope::new(
                self.node_id.clone(),
                self.other_nodes[k].clone(),
                None,
                TxnMessage::PollTransactions { first_xid: from },
                ids,
            );
            out.push(e);
            k = k + 1;
        }
        out
    }
}

/// Read-your-writes within one transaction: if position `i` writes value
/// `v` to a key and no later position up to `j` writes that key again, then
/// the state seen at position `j` holds `v` for it — so a read there is
/// filled with `v`.
pub proof fn lemma_read_your_write(m0: Map<u64, u64>, ops: Seq<Operation>, i: int, j: int)
    requires
        0 <= i < j <= ops.len(),
        ops[i].optype == OpType::Write,
        ops[i].value is Some,
        forall|t: int|
            i < t < j ==> !((#[trigger] ops[t]).optype == OpType::Write && ops[t].key == ops[i].key),
    ensures
        map_at(state_after(m0, ops, j), ops[i].key) == ops[i].value,
    decreases j - i,
{
    if j == i + 1 {
        assert(ops.take(j).drop_last() =~= ops.take(i));
        assert(ops.take(j).last() == ops[i]);
    } else {
        lemma_read_your_write(m0, ops, i, j - 1);
        assert(ops.take(j).drop_last() =~= ops.take(j - 1));
        assert(ops.take(j).last() == ops[j - 1]);
    }
}

} // verus!
