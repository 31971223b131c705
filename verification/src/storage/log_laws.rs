//! What holds of the log of local changes.

use vstd::prelude::*;

use crate::storage::oplog::{after_seq, batch_len, not_before, op_name, LogState, OpView, Operation,
    SyncView};
use crate::storage::recency::lemma_filter_keeps;

verus! {

/// A change is handed out exactly where it is logged, is of the repository that is asked for, or
/// of any where all are, and has a greater number than the one from which is asked.
pub proof fn later_changes_are_handed_out(t: LogState, repo: u8, since: i64, o: OpView)
    ensures
        t.since(repo, since).contains(o) <==> t.ops.contains(o) && (repo == 255 || o.repo == repo)
            && o.seq > since,
{
    lemma_filtered(t.ops, after_seq(repo, since), o);
}

/// Trimming drops exactly what is older than the time, and no number is given again for it.
pub proof fn older_changes_are_dropped(t: LogState, ms: i64, o: OpView)
    ensures
        t.trimmed(ms).ops.contains(o) <==> t.ops.contains(o) && o.ts_ms >= ms,
        t.trimmed(ms).last_seq == t.last_seq,
{
    lemma_filtered(t.ops, not_before(ms), o);
}

proof fn lemma_filtered<A>(s: Seq<A>, p: spec_fn(A) -> bool, x: A)
    ensures
        s.filter(p).contains(x) <==> s.contains(x) && p(x),
{
    if s.filter(p).contains(x) {
        let i = choose|i: int| 0 <= i < s.filter(p).len() && s.filter(p)[i] == x;
        s.lemma_filter_pred(p, i);
        s.lemma_filter_contains_rev(p, x);
    }
    if s.contains(x) && p(x) {
        let i = choose|i: int| 0 <= i < s.len() && s[i] == x;
        lemma_filter_keeps(s, p, i);
    }
}

/// As many changes as are asked for are handed out, one where none is, or all that there are.
pub proof fn batches_have_a_size(limit: usize, available: nat)
    ensures
        limit > 0 && limit <= available ==> batch_len(limit, available) == limit,
        limit > available ==> batch_len(limit, available) == available,
        limit == 0 && available > 0 ==> batch_len(limit, available) == 1,
        available == 0 ==> batch_len(limit, available) == 0,
{
}

/// Changes are logged one behind the other, each with the next number and what it says; what was
/// logged before stays as it was.
pub proof fn changes_are_logged_in_order(
    t: LogState,
    repo: u8,
    entries: Seq<SyncView>,
    ts_ms: i64,
    origin: Seq<u8>,
    i: int,
)
    requires
        t.last_seq + entries.len() <= i64::MAX,
    ensures
        ({
            let u = t.appended_all(repo, entries, ts_ms, origin);
            &&& u.ops.len() == t.ops.len() + entries.len()
            &&& u.last_seq == t.last_seq + entries.len()
            &&& 0 <= i < t.ops.len() ==> u.ops[i] == t.ops[i]
            &&& 0 <= i < entries.len() ==> {
                let o = u.ops[t.ops.len() + i];
                &&& o.seq == t.last_seq + 1 + i
                &&& o.repo == repo
                &&& o.key == entries[i].key
                &&& o.value == entries[i].payload
                &&& o.ts_ms == ts_ms
                &&& o.origin == origin
                &&& entries[i].operation == Operation::Upsert ==> o.op == "upsert"@
                &&& entries[i].operation == Operation::Delete ==> o.op == "delete"@
            }
        }),
    decreases entries.len(),
{
    if entries.len() > 0 {
        changes_are_logged_in_order(t, repo, entries.drop_last(), ts_ms, origin, i);
    }
}

/// The two kinds of changes have different names.
pub proof fn kinds_are_told_apart(a: Operation, b: Operation)
    ensures
        op_name(a) == op_name(b) <==> a == b,
{
    reveal_strlit("upsert");
    reveal_strlit("delete");
    assert("upsert"@[0] == 'u' && "delete"@[0] == 'd');
}

} // verus!
