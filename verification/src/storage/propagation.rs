//! What other nodes are told of what was set here.

use vstd::prelude::*;

use crate::storage::oplog::{
    record_local_ops, sync_views, upsert_entries, LogState, OpLog, Operation, SyncEntry, SyncView,
};
use crate::storage::repo_query::Built;

verus! {

/// What was built, without the gaps.
pub open spec fn somes(s: Seq<Option<Built>>) -> Seq<Built>
    decreases s.len(),
{
    if s.len() == 0 {
        Seq::empty()
    } else {
        match s.last() {
            Some(b) => somes(s.drop_last()).push(b),
            None => somes(s.drop_last()),
        }
    }
}

/// Whether each of these was built from the item in its place.
pub open spec fn built_each<T, F: Fn(&T) -> Option<Built>>(
    items: Seq<T>,
    build: F,
    built: Seq<Option<Built>>,
) -> bool {
    &&& built.len() == items.len()
    &&& forall|i: int|
        0 <= i < items.len() ==> call_ensures(build, (&items[i],), #[trigger] built[i])
}

/// What can be told of items, in order: each has a key, what is stored under it, and a
/// digest, or nothing where it makes no sense.
pub fn build_each<T, F: Fn(&T) -> Option<Built>>(items: &Vec<T>, build: F) -> (r: Vec<Built>)
    requires
        forall|x: &T| call_requires(build, (x,)),
    ensures
        exists|built: Seq<Option<Built>>| #[trigger]
            built_each(items@, build, built) && r@ == somes(built),
{
    let mut out: Vec<Built> = Vec::new();
    let ghost mut built: Seq<Option<Built>> = Seq::empty();
    let mut i: usize = 0;
    while i < items.len()
        invariant
            0 <= i <= items@.len(),
            forall|x: &T| call_requires(build, (x,)),
            built.len() == i,
            forall|k: int|
                0 <= k < i ==> call_ensures(build, (&items@[k],), #[trigger] built[k]),
            out@ == somes(built),
        decreases items@.len() - i,
    {
        let ghost so_far = built;
        let one = build(&items[i]);
        proof {
            built = so_far.push(one);
            assert(built.drop_last() =~= so_far);
        }
        match one {
            Some(b) => {
                out.push(b);
            },
            None => {},
        }
        i = i + 1;
    }
    proof {
        assert(built_each(items@, build, built));
    }
    out
}

/// Whether changes of a table go into the log: those of nodes and of trackers.
pub open spec fn is_logged(repo: u8) -> bool {
    repo == 1 || repo == 4
}

/// The entries that say that values were set.
pub open spec fn upserts(built: Seq<Built>, version: u64) -> Seq<SyncView> {
    Seq::new(
        built.len(),
        |i: int|
            SyncView {
                key: built[i].0@,
                operation: Operation::Upsert,
                version,
                payload: built[i].1@,
            },
    )
}

/// The log after entries went into it, where there were numbers left.
pub open spec fn logged(
    log: LogState,
    repo: u8,
    entries: Seq<SyncView>,
    ts_ms: i64,
    origin: Seq<u8>,
) -> LogState {
    if log.last_seq + entries.len() <= i64::MAX {
        log.appended_all(repo, entries, ts_ms, origin)
    } else {
        log
    }
}

/// Makes known what was set here: returns the entries for the other nodes, and logs them
/// where the table is one of those. Without a federation nobody is told, and nothing is
/// logged. `now` is the time in seconds, and the version of the entries.
pub fn propagate(
    log: &mut OpLog,
    federated: bool,
    repo: u8,
    built: &Vec<Built>,
    now: u64,
    ts_ms: i64,
    origin: &[u8],
) -> (r: Vec<SyncEntry>)
    requires
        old(log).wf(),
    ensures
        final(log).wf(),
        sync_views(r@) == if federated {
            upserts(built@, now)
        } else {
            Seq::empty()
        },
        final(log)@ == if federated && is_logged(repo) && built@.len() > 0 {
            logged(old(log)@, repo, upserts(built@, now), ts_ms, origin@)
        } else {
            old(log)@
        },
{
    if !federated || built.len() == 0 {
        let none: Vec<SyncEntry> = Vec::new();
        proof {
            assert(sync_views(none@) =~= Seq::empty());
            assert(built@.len() == 0 ==> upserts(built@, now) =~= Seq::empty());
        }
        return none;
    }
    let entries = upsert_entries(built, now);
    proof {
        assert(sync_views(entries@) =~= upserts(built@, now));
        assert(entries@.len() == sync_views(entries@).len());
    }
    if repo == 1 || repo == 4 {
        record_local_ops(log, repo, entries.as_slice(), ts_ms, origin);
    }
    entries
}

} // verus!
