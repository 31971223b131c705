//! The log of local changes, from which other nodes fetch what is new to them.
//!
//! Only changes that arise here are logged; what came in from another node is not, or it
//! would go round in circles.

use vstd::prelude::*;

use crate::bytes::copy_bytes;
use crate::ranking::{lemma_filter_step, lemma_filter_twice};
use crate::storage::recency::{lemma_distinct_filter, lemma_filter_all};

verus! {

/// The name of a change that sets a value.
pub const OP_UPSERT: &'static str = "upsert";

/// The name of a change that takes a value away.
pub const OP_DELETE: &'static str = "delete";

/// The repository number that stands for all of them.
pub const ALL_REPOS: u8 = 255;

/// What a change does.
#[derive(Clone, Copy, Debug, PartialEq, Eq, Structural)]
pub enum Operation {
    Upsert,
    Delete,
}

/// A change as it travels between nodes.
pub struct SyncEntry {
    pub key: Vec<u8>,
    pub operation: Operation,
    pub version: u64,
    pub payload: Vec<u8>,
}

/// A change as it travels between nodes, by its contents.
#[verifier::ext_equal]
pub struct SyncView {
    pub key: Seq<u8>,
    pub operation: Operation,
    pub version: u64,
    pub payload: Seq<u8>,
}

impl View for SyncEntry {
    type V = SyncView;

    open spec fn view(&self) -> SyncView {
        SyncView {
            key: self.key@,
            operation: self.operation,
            version: self.version,
            payload: self.payload@,
        }
    }
}

/// A logged change. `value` is empty where a value was taken away.
pub struct OpRecord {
    pub seq: i64,
    pub op: String,
    pub repo: u8,
    pub key: Vec<u8>,
    pub value: Vec<u8>,
    pub ts_ms: i64,
    pub origin: Vec<u8>,
}

/// A logged change by its contents.
#[verifier::ext_equal]
pub struct OpView {
    pub seq: i64,
    pub op: Seq<char>,
    pub repo: u8,
    pub key: Seq<u8>,
    pub value: Seq<u8>,
    pub ts_ms: i64,
    pub origin: Seq<u8>,
}

impl View for OpRecord {
    type V = OpView;

    open spec fn view(&self) -> OpView {
        OpView {
            seq: self.seq,
            op: self.op@,
            repo: self.repo,
            key: self.key@,
            value: self.value@,
            ts_ms: self.ts_ms,
            origin: self.origin@,
        }
    }
}

impl OpRecord {
    /// Another copy of a logged change.
    pub fn duplicate(&self) -> (r: OpRecord)
        ensures
            r@ == self@,
    {
        OpRecord {
            seq: self.seq,
            op: self.op.clone(),
            repo: self.repo,
            key: copy_bytes(self.key.as_slice()),
            value: copy_bytes(self.value.as_slice()),
            ts_ms: self.ts_ms,
            origin: copy_bytes(self.origin.as_slice()),
        }
    }
}

/// The contents of logged changes.
pub open spec fn op_views(s: Seq<OpRecord>) -> Seq<OpView> {
    Seq::new(s.len(), |i: int| s[i]@)
}

/// The contents of entries.
pub open spec fn sync_views(s: Seq<SyncEntry>) -> Seq<SyncView> {
    Seq::new(s.len(), |i: int| s[i]@)
}

/// The name of what a change does.
pub open spec fn op_name(op: Operation) -> Seq<char> {
    match op {
        Operation::Delete => OP_DELETE@,
        Operation::Upsert => OP_UPSERT@,
    }
}

/// The name of what a change does.
pub fn op_text(op: Operation) -> (r: &'static str)
    ensures
        r@ == op_name(op),
{
    match op {
        Operation::Delete => OP_DELETE,
        Operation::Upsert => OP_UPSERT,
    }
}

/// Says who this node is. Only the first time counts.
pub fn set_local_origin(cell: &mut Option<Vec<u8>>, origin: Vec<u8>)
    ensures
        *old(cell) matches Some(was) ==> *final(cell) == Some(was),
        *old(cell) is None ==> *final(cell) == Some(origin),
{
    if cell.is_none() {
        *cell = Some(origin);
    }
}

/// Who this node is, nothing where it was not said yet.
pub open spec fn origin_of(cell: Option<Vec<u8>>) -> Seq<u8> {
    match cell {
        Some(v) => v@,
        None => Seq::empty(),
    }
}

/// Who this node is, nothing where it was not said yet.
pub fn local_origin(cell: &Option<Vec<u8>>) -> (r: Vec<u8>)
    ensures
        r@ == origin_of(*cell),
{
    match cell {
        Some(v) => copy_bytes(v.as_slice()),
        None => Vec::new(),
    }
}

/// Entries that tell other nodes of values that were set here, made of keys, payloads and
/// their digests.
pub fn upsert_entries(built: &Vec<(Vec<u8>, Vec<u8>, Vec<u8>)>, now: u64) -> (r: Vec<SyncEntry>)
    ensures
        sync_views(r@) == Seq::new(
            built@.len(),
            |i: int|
                SyncView {
                    key: built@[i].0@,
                    operation: Operation::Upsert,
                    version: now,
                    payload: built@[i].1@,
                },
        ),
{
    let mut out: Vec<SyncEntry> = Vec::new();
    let mut i: usize = 0;
    while i < built.len()
        invariant
            0 <= i <= built@.len(),
            out@.len() == i,
            forall|k: int|
                0 <= k < i ==> (#[trigger] out@[k])@ == (SyncView {
                    key: built@[k].0@,
                    operation: Operation::Upsert,
                    version: now,
                    payload: built@[k].1@,
                }),
        decreases built@.len() - i,
    {
        out.push(
            SyncEntry {
                key: copy_bytes(built[i].0.as_slice()),
                operation: Operation::Upsert,
                version: now,
                payload: copy_bytes(built[i].1.as_slice()),
            },
        );
        i = i + 1;
    }
    assert(sync_views(out@) =~= Seq::new(
        built@.len(),
        |i: int|
            SyncView {
                key: built@[i].0@,
                operation: Operation::Upsert,
                version: now,
                payload: built@[i].1@,
            },
    ));
    out
}

/// An entry that tells other nodes that a value was taken away here.
pub fn delete_entry(key: Vec<u8>, now: u64) -> (r: SyncEntry)
    ensures
        r@ == (SyncView {
            key: key@,
            operation: Operation::Delete,
            version: now,
            payload: Seq::empty(),
        }),
{
    SyncEntry { key, operation: Operation::Delete, version: now, payload: Vec::new() }
}

/// What a log holds: the changes in the order in which they were made, and the highest
/// number that was ever given to one.
#[verifier::ext_equal]
pub struct LogState {
    pub ops: Seq<OpView>,
    pub last_seq: i64,
}

/// The test for changes of a repository after a number.
pub open spec fn after_seq(repo: u8, since: i64) -> spec_fn(OpView) -> bool {
    |o: OpView| (repo == ALL_REPOS || o.repo == repo) && o.seq > since
}

/// The test for changes that are not older than a time.
pub open spec fn not_before(ms: i64) -> spec_fn(OpView) -> bool {
    |o: OpView| o.ts_ms >= ms
}

/// The test for changes that are older than a time.
pub open spec fn before_time(ms: i64) -> spec_fn(OpView) -> bool {
    |o: OpView| o.ts_ms < ms
}

impl LogState {
    /// The numbers ascend, and none is above the highest that was given.
    pub open spec fn wf(self) -> bool {
        &&& 0 <= self.last_seq
        &&& forall|i: int, j: int|
            0 <= i < j < self.ops.len() ==> (#[trigger] self.ops[i]).seq < (
            #[trigger] self.ops[j]).seq
        &&& forall|i: int|
            0 <= i < self.ops.len() ==> 0 < (#[trigger] self.ops[i]).seq <= self.last_seq
    }

    /// The log with one more change.
    pub open spec fn appended(
        self,
        repo: u8,
        op: Seq<char>,
        key: Seq<u8>,
        value: Seq<u8>,
        ts_ms: i64,
        origin: Seq<u8>,
    ) -> LogState {
        LogState {
            ops: self.ops.push(
                OpView {
                    seq: (self.last_seq + 1) as i64,
                    op,
                    repo,
                    key,
                    value,
                    ts_ms,
                    origin,
                },
            ),
            last_seq: (self.last_seq + 1) as i64,
        }
    }

    /// The log with several more changes.
    pub open spec fn appended_all(
        self,
        repo: u8,
        entries: Seq<SyncView>,
        ts_ms: i64,
        origin: Seq<u8>,
    ) -> LogState
        decreases entries.len(),
    {
        if entries.len() == 0 {
            self
        } else {
            let e = entries.last();
            self.appended_all(repo, entries.drop_last(), ts_ms, origin).appended(
                repo,
                op_name(e.operation),
                e.key,
                e.payload,
                ts_ms,
                origin,
            )
        }
    }

    /// The changes of a repository after a number.
    pub open spec fn since(self, repo: u8, since: i64) -> Seq<OpView> {
        self.ops.filter(after_seq(repo, since))
    }

    /// The log without changes that are older than a time.
    pub open spec fn trimmed(self, ms: i64) -> LogState {
        LogState { ops: self.ops.filter(not_before(ms)), ..self }
    }
}

/// How many changes are handed out: at least one is always asked for.
pub open spec fn batch_len(limit: usize, available: nat) -> nat {
    let n = if limit == 0 {
        1
    } else {
        limit as nat
    };
    if n <= available {
        n
    } else {
        available
    }
}

/// No number is left to give to a change.
#[derive(Clone, Copy, Debug, PartialEq, Eq, Structural)]
pub struct LogFull;

/// The log of local changes.
pub struct OpLog {
    ops: Vec<OpRecord>,
    last_seq: i64,
}

impl View for OpLog {
    type V = LogState;

    closed spec fn view(&self) -> LogState {
        LogState { ops: op_views(self.ops@), last_seq: self.last_seq }
    }
}

impl OpLog {
    pub open spec fn wf(self) -> bool {
        self@.wf()
    }

    /// An empty log.
    pub fn new() -> (r: Self)
        ensures
            r.wf(),
            r@ == (LogState { ops: Seq::empty(), last_seq: 0 }),
    {
        let r = OpLog { ops: Vec::new(), last_seq: 0 };
        assert(op_views(r.ops@) =~= Seq::empty());
        r
    }

    /// The log that was saved: its changes in order, and the highest number that was given.
    /// There is none where the numbers do not ascend or go beyond that.
    pub fn restore(records: Vec<OpRecord>, last_seq: i64) -> (r: Option<OpLog>)
        ensures
            r is Some <==> (LogState { ops: op_views(records@), last_seq }).wf(),
            r matches Some(log) ==> log@ == (LogState { ops: op_views(records@), last_seq }),
    {
        if last_seq < 0 {
            return None;
        }
        let ghost t = LogState { ops: op_views(records@), last_seq };
        let ghost ops = t.ops;
        let mut i: usize = 0;
        while i < records.len()
            invariant
                0 <= i <= records@.len(),
                t == (LogState { ops: op_views(records@), last_seq }),
                ops == t.ops,
                forall|a: int, b: int|
                    0 <= a < b < i ==> (#[trigger] ops[a]).seq < (#[trigger] ops[b]).seq,
                forall|a: int| 0 <= a < i ==> 0 < (#[trigger] ops[a]).seq <= last_seq,
            decreases records@.len() - i,
        {
            let seq: i64 = records[i].seq;
            proof {
                assert(ops[i as int].seq == seq);
            }
            if seq <= 0 || seq > last_seq {
                proof {
                    assert(!(0 < t.ops[i as int].seq <= t.last_seq));
                }
                return None;
            }
            if i > 0 && records[i - 1].seq >= seq {
                proof {
                    assert(t.ops[i - 1].seq >= t.ops[i as int].seq);
                }
                return None;
            }
            proof {
                assert forall|a: int, b: int| 0 <= a < b < i + 1 implies (#[trigger] ops[a]).seq < (
                #[trigger] ops[b]).seq by {
                    if b == i && a < i - 1 {
                        assert(ops[a].seq < ops[i - 1].seq);
                    }
                }
            }
            i = i + 1;
        }
        Some(OpLog { ops: records, last_seq })
    }

    /// Logs a change and returns its number. Fails where no number is left.
    pub fn append_op(
        &mut self,
        repo: u8,
        op: &str,
        key: &[u8],
        value: &[u8],
        ts_ms: i64,
        origin: &[u8],
    ) -> (r: Result<i64, LogFull>)
        requires
            old(self).wf(),
        ensures
            final(self).wf(),
            r is Ok <==> old(self)@.last_seq < i64::MAX,
            r matches Ok(seq) ==> seq == old(self)@.last_seq + 1 && final(self)@
                == old(self)@.appended(repo, op@, key@, value@, ts_ms, origin@),
            r is Err ==> final(self)@ == old(self)@,
    {
        if self.last_seq == i64::MAX {
            return Err(LogFull);
        }
        let ghost before = self@;
        let seq: i64 = self.last_seq + 1;
        self.last_seq = seq;
        self.ops.push(
            OpRecord {
                seq,
                op: op.to_owned(),
                repo,
                key: copy_bytes(key),
                value: copy_bytes(value),
                ts_ms,
                origin: copy_bytes(origin),
            },
        );
        proof {
            assert(self@.ops =~= before.appended(repo, op@, key@, value@, ts_ms, origin@).ops);
        }
        Ok(seq)
    }

    /// Logs several local changes, all or none, and returns how many. Where the numbers that
    /// are left do not suffice, none is logged: that does not hold up the changes themselves.
    pub fn append_ops_from_entries(
        &mut self,
        repo: u8,
        entries: &[SyncEntry],
        ts_ms: i64,
        origin: &[u8],
    ) -> (r: Result<usize, LogFull>)
        requires
            old(self).wf(),
        ensures
            final(self).wf(),
            old(self)@.last_seq + entries@.len() <= i64::MAX ==> r == Ok::<usize, LogFull>(
                entries@.len() as usize,
            ) && final(self)@ == old(self)@.appended_all(
                repo,
                sync_views(entries@),
                ts_ms,
                origin@,
            ),
            old(self)@.last_seq + entries@.len() > i64::MAX ==> r == Ok::<usize, LogFull>(0)
                && final(self)@ == old(self)@,
    {
        let ghost t = self@;
        let n: usize = entries.len();
        let room: u64 = (i64::MAX - self.last_seq) as u64;
        if (n as u64) > room {
            return Ok(0);
        }
        let ghost all = sync_views(entries@);
        let mut i: usize = 0;
        proof {
            assert(all.take(0) =~= Seq::empty());
        }
        while i < n
            invariant
                self.wf(),
                n == entries@.len(),
                all == sync_views(entries@),
                0 <= i <= n,
                t.last_seq + n <= i64::MAX,
                self@.last_seq == t.last_seq + i,
                self@ == t.appended_all(repo, all.take(i as int), ts_ms, origin@),
            decreases n - i,
        {
            proof {
                assert(all.take(i + 1).drop_last() =~= all.take(i as int));
                assert(all.take(i + 1).last() == entries@[i as int]@);
            }
            let _ = self.append_op(
                repo,
                op_text(entries[i].operation),
                entries[i].key.as_slice(),
                entries[i].payload.as_slice(),
                ts_ms,
                origin,
            );
            i = i + 1;
        }
        proof {
            assert(all.take(i as int) =~= all);
        }
        Ok(n)
    }

    /// The changes of a repository, or of all, after a number, ascending, at most `limit`.
    pub fn load_ops_since(&self, repo: u8, since_seq: i64, limit: usize) -> (r: Vec<&OpRecord>)
        requires
            self.wf(),
        ensures
            r@.len() == batch_len(limit, self@.since(repo, since_seq).len()),
            forall|i: int|
                0 <= i < r@.len() ==> (#[trigger] r@[i])@ == self@.since(repo, since_seq)[i],
    {
        let want: usize = if limit == 0 {
            1
        } else {
            limit
        };
        let ghost p = after_seq(repo, since_seq);
        let ghost all = op_views(self.ops@);
        let mut out: Vec<&OpRecord> = Vec::new();
        let mut i: usize = 0;
        proof {
            reveal(Seq::filter);
        }
        while i < self.ops.len() && out.len() < want
            invariant
                0 <= i <= self.ops@.len(),
                0 < want,
                p == after_seq(repo, since_seq),
                all == op_views(self.ops@),
                out@.len() == all.take(i as int).filter(p).len(),
                out@.len() <= want,
                forall|k: int|
                    0 <= k < out@.len() ==> (#[trigger] out@[k])@ == all.take(i as int).filter(
                        p,
                    )[k],
            decreases self.ops@.len() - i,
        {
            proof {
                lemma_filter_step(all, p, i as int);
            }
            let o = &self.ops[i];
            if (repo == ALL_REPOS || o.repo == repo) && o.seq > since_seq {
                out.push(o);
            }
            i = i + 1;
        }
        proof {
            assert(all =~= all.take(i as int) + all.skip(i as int));
            Seq::filter_distributes_over_add(all.take(i as int), all.skip(i as int), p);
            if i == self.ops@.len() {
                assert(all.take(i as int) =~= all);
            }
        }
        out
    }

    /// The highest number of a logged change, zero where none is logged.
    pub fn oplog_max_seq(&self) -> (r: i64)
        requires
            self.wf(),
        ensures
            r == if self@.ops.len() == 0 {
                0
            } else {
                self@.ops.last().seq
            },
            forall|i: int| 0 <= i < self@.ops.len() ==> (#[trigger] self@.ops[i]).seq <= r,
    {
        let n: usize = self.ops.len();
        if n == 0 {
            return 0;
        }
        assert(self@.ops[n - 1] == self.ops@[n - 1]@);
        self.ops[n - 1].seq
    }

    /// The lowest number of a logged change, zero where none is logged.
    pub fn oplog_min_seq(&self) -> (r: i64)
        requires
            self.wf(),
        ensures
            r == if self@.ops.len() == 0 {
                0
            } else {
                self@.ops[0].seq
            },
            forall|i: int| 0 <= i < self@.ops.len() ==> r <= (#[trigger] self@.ops[i]).seq,
    {
        if self.ops.len() == 0 {
            return 0;
        }
        assert(self@.ops[0] == self.ops@[0]@);
        self.ops[0].seq
    }

    /// How many changes are logged.
    pub fn oplog_len(&self) -> (r: u64)
        requires
            self.wf(),
        ensures
            r == self@.ops.len(),
    {
        self.ops.len() as u64
    }

    /// Drops the changes that are older than a time and returns how many.
    pub fn trim_oplog(&mut self, older_than_ms: i64) -> (r: usize)
        requires
            old(self).wf(),
        ensures
            final(self).wf(),
            final(self)@ == old(self)@.trimmed(older_than_ms),
            r == old(self)@.ops.filter(before_time(older_than_ms)).len(),
            r == old(self)@.ops.len() - final(self)@.ops.len(),
    {
        let ghost t = self@;
        let ghost p = not_before(older_than_ms);
        let ghost q = before_time(older_than_ms);
        let ghost all = op_views(self.ops@);
        let n: usize = self.ops.len();
        let mut kept: Vec<OpRecord> = Vec::new();
        let mut removed: usize = 0;
        let mut i: usize = 0;
        proof {
            reveal(Seq::filter);
            assert(op_views(kept@) =~= all.take(0).filter(p));
        }
        while i < n
            invariant
                0 <= i <= n,
                n == self.ops@.len(),
                all == op_views(self.ops@),
                p == not_before(older_than_ms),
                q == before_time(older_than_ms),
                op_views(kept@) == all.take(i as int).filter(p),
                removed == all.take(i as int).filter(q).len(),
                removed + kept@.len() == i,
            decreases n - i,
        {
            proof {
                lemma_filter_step(all, p, i as int);
                lemma_filter_step(all, q, i as int);
            }
            let ghost k = kept@;
            if self.ops[i].ts_ms < older_than_ms {
                removed = removed + 1;
            } else {
                kept.push(self.ops[i].duplicate());
                proof {
                    assert(op_views(kept@) =~= op_views(k).push(all[i as int]));
                }
            }
            i = i + 1;
        }
        self.ops = kept;
        proof {
            assert(all.take(i as int) =~= all);
            assert(self@ =~= t.trimmed(older_than_ms));
            lemma_trimmed_wf(t, older_than_ms);
        }
        removed
    }

    /// Drops the changes that are older than so many seconds and returns how many. Zero
    /// seconds stand for no limit.
    pub fn trim_oplog_by_retention(&mut self, retention_secs: u64, now_ms: i64) -> (r: usize)
        requires
            old(self).wf(),
            retention_secs * 1000 <= i64::MAX,
            now_ms - retention_secs * 1000 >= i64::MIN,
        ensures
            final(self).wf(),
            retention_secs == 0 ==> r == 0 && final(self)@ == old(self)@,
            retention_secs > 0 ==> final(self)@ == old(self)@.trimmed(
                (now_ms - retention_secs * 1000) as i64,
            ) && r == old(self)@.ops.len() - final(self)@.ops.len(),
    {
        if retention_secs == 0 {
            return 0;
        }
        let cutoff: i64 = now_ms - (retention_secs as i64) * 1000;
        self.trim_oplog(cutoff)
    }
}

/// Logs local changes where there are any. That there is no number left for them does not
/// hold up the change itself.
pub fn record_local_ops(
    log: &mut OpLog,
    repo: u8,
    entries: &[SyncEntry],
    ts_ms: i64,
    origin: &[u8],
)
    requires
        old(log).wf(),
    ensures
        final(log).wf(),
        final(log)@ == if old(log)@.last_seq + entries@.len() <= i64::MAX {
            old(log)@.appended_all(repo, sync_views(entries@), ts_ms, origin@)
        } else {
            old(log)@
        },
{
    if entries.len() > 0 {
        let _ = log.append_ops_from_entries(repo, entries, ts_ms, origin);
    } else {
        assert(sync_views(entries@) =~= Seq::empty());
    }
}

proof fn lemma_trimmed_wf(t: LogState, ms: i64)
    requires
        t.wf(),
    ensures
        t.trimmed(ms).wf(),
{
    lemma_filtered_ascends(t, not_before(ms));
}

proof fn lemma_filtered_ascends(t: LogState, p: spec_fn(OpView) -> bool)
    requires
        t.wf(),
    ensures
        forall|i: int, j: int|
            0 <= i < j < t.ops.filter(p).len() ==> (#[trigger] t.ops.filter(p)[i]).seq < (
            #[trigger] t.ops.filter(p)[j]).seq,
        forall|i: int|
            0 <= i < t.ops.filter(p).len() ==> 0 < (#[trigger] t.ops.filter(p)[i]).seq
                <= t.last_seq && p(t.ops.filter(p)[i]),
    decreases t.ops.len(),
{
    reveal(Seq::filter);
    if t.ops.len() > 0 {
        let u = LogState { ops: t.ops.drop_last(), ..t };
        assert forall|i: int, j: int| 0 <= i < j < u.ops.len() implies (
        #[trigger] u.ops[i]).seq < (#[trigger] u.ops[j]).seq by {
            assert(u.ops[i] == t.ops[i] && u.ops[j] == t.ops[j]);
        }
        assert forall|i: int| 0 <= i < u.ops.len() implies 0 < (#[trigger] u.ops[i]).seq
            <= u.last_seq by {
            assert(u.ops[i] == t.ops[i]);
        }
        lemma_filtered_ascends(u, p);
        lemma_distinct_filter(u.ops, |o: OpView| o, p);
        let f = u.ops.filter(p);
        assert forall|i: int| 0 <= i < f.len() implies (#[trigger] f[i]).seq < t.ops.last().seq by {
            assert(u.ops.contains(f[i]));
            let k = choose|k: int| 0 <= k < u.ops.len() && u.ops[k] == f[i];
            assert(t.ops[k].seq < t.ops[t.ops.len() - 1].seq);
        }
        assert(t.ops[t.ops.len() - 1] == t.ops.last());
    }
}

/// Changes are handed out in ascending order of their numbers, each above the one that was
/// asked from.
pub proof fn handed_out_ascending(t: LogState, repo: u8, since: i64, i: int, j: int)
    requires
        t.wf(),
        0 <= i < j < t.since(repo, since).len(),
    ensures
        since < t.since(repo, since)[i].seq < t.since(repo, since)[j].seq,
{
    lemma_filtered_ascends(t, after_seq(repo, since));
}

/// Who goes on from the last number of a batch gets exactly what the batch left out: no
/// change is missed and none comes twice.
pub proof fn batches_follow_on(t: LogState, repo: u8, since: i64, n: int)
    requires
        t.wf(),
        0 < n <= t.since(repo, since).len(),
    ensures
        t.since(repo, t.since(repo, since)[n - 1].seq) == t.since(repo, since).skip(n),
{
    let p = after_seq(repo, since);
    let all = t.since(repo, since);
    let x = all[n - 1].seq;
    let later = |o: OpView| o.seq > x;
    lemma_filtered_ascends(t, p);
    assert(x > since);
    assert forall|o: OpView| #[trigger] (after_seq(repo, x))(o) == (p(o) && later(o)) by {}
    lemma_filter_twice(t.ops, p, later, after_seq(repo, x));
    let (a, b) = (all.take(n), all.skip(n));
    assert(all =~= a + b);
    Seq::filter_distributes_over_add(a, b, later);
    assert forall|i: int| 0 <= i < a.len() implies !later(#[trigger] a[i]) by {
        assert(a[i] == all[i]);
        if i < n - 1 {
            assert(all[i].seq < all[n - 1].seq);
        }
    }
    lemma_filter_none(a, later);
    assert forall|i: int| 0 <= i < b.len() implies later(#[trigger] b[i]) by {
        assert(b[i] == all[n + i]);
        assert(all[n - 1].seq < all[n + i].seq);
    }
    lemma_filter_all(b, later);
    assert(a.filter(later) + b.filter(later) =~= b);
}

proof fn lemma_filter_none<A>(s: Seq<A>, p: spec_fn(A) -> bool)
    requires
        forall|i: int| 0 <= i < s.len() ==> !p(#[trigger] s[i]),
    ensures
        s.filter(p).len() == 0,
    decreases s.len(),
{
    reveal(Seq::filter);
    if s.len() > 0 {
        let t = s.drop_last();
        assert forall|i: int| 0 <= i < t.len() implies !p(#[trigger] t[i]) by {
            assert(t[i] == s[i]);
        }
        lemma_filter_none(t, p);
        assert(s[s.len() - 1] == s.last());
    }
}

/// A change that is logged is handed out to whoever asks from before it, after trimming
/// too unless it is too old, and its number was never given before.
pub proof fn logged_is_handed_out(
    t: LogState,
    repo: u8,
    op: Seq<char>,
    key: Seq<u8>,
    value: Seq<u8>,
    ts_ms: i64,
    origin: Seq<u8>,
    since: i64,
    cutoff: i64,
)
    requires
        t.wf(),
        t.last_seq < i64::MAX,
        since <= t.last_seq,
    ensures
        ({
            let u = t.appended(repo, op, key, value, ts_ms, origin);
            &&& u.wf()
            &&& u.since(repo, since) == t.since(repo, since).push(u.ops.last())
            &&& ts_ms >= cutoff ==> u.trimmed(cutoff).since(repo, since).contains(u.ops.last())
            &&& forall|i: int| 0 <= i < t.ops.len() ==> (#[trigger] t.ops[i]).seq < u.ops.last().seq
        }),
{
    let u = t.appended(repo, op, key, value, ts_ms, origin);
    let p = after_seq(repo, since);
    assert(u.ops.drop_last() =~= t.ops);
    reveal(Seq::filter);
    assert(p(u.ops.last()));
    if ts_ms >= cutoff {
        let q = not_before(cutoff);
        let k = u.ops.filter(q);
        assert(k == t.ops.filter(q).push(u.ops.last()));
        assert(k.drop_last() =~= t.ops.filter(q));
        let f = k.filter(p);
        assert(f == t.ops.filter(q).filter(p).push(u.ops.last()));
        assert(f[f.len() - 1] == u.ops.last());
    }
}

} // verus!
