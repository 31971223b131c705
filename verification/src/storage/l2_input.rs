//! Which shards of the digests are to be computed anew, and from what.

use vstd::prelude::*;

use crate::bytes::copy_bytes;
use crate::storage::fx_map::{FxMap, FxSet};

verus! {

/// A key with its digest.
pub type KeyHash = (Vec<u8>, Vec<u8>);

/// A row with the shard of the upper level that it belongs to.
pub struct ShardRow {
    pub l1: u16,
    pub key: Vec<u8>,
    pub hash: Vec<u8>,
}

/// The keys and digests of a shard's rows, in order.
pub open spec fn rows_of(rows: Seq<ShardRow>, l1: u16) -> Seq<(Seq<u8>, Seq<u8>)>
    decreases rows.len(),
{
    if rows.len() == 0 {
        Seq::empty()
    } else {
        let before = rows_of(rows.drop_last(), l1);
        if rows.last().l1 == l1 {
            before.push((rows.last().key@, rows.last().hash@))
        } else {
            before
        }
    }
}

/// The contents of keys with their digests.
pub open spec fn key_hash_views(s: Seq<KeyHash>) -> Seq<(Seq<u8>, Seq<u8>)> {
    s.map_values(|p: KeyHash| (p.0@, p.1@))
}

/// The shards of the lower level below one of the upper level.
pub open spec fn shards_below(l2s: Seq<(u16, u32)>, l1: u16) -> Set<u32> {
    Set::new(|l2: u32| l2s.contains((l1, l2)))
}

/// Whether rows are sorted by their shard: each shard with rows has them all, in order, and
/// no other shard is there.
pub open spec fn sorts_rows(m: Map<u16, Vec<KeyHash>>, rows: Seq<ShardRow>) -> bool {
    &&& forall|l1: u16| #[trigger] m.contains_key(l1) <==> rows_of(rows, l1).len() > 0
    &&& forall|l1: u16|
        m.contains_key(l1) ==> key_hash_views(#[trigger] m[l1]@) == rows_of(rows, l1)
}

/// Whether shards are sorted by the one above them.
pub open spec fn sorts_shards(m: Map<u16, FxSet<u32>>, l2s: Seq<(u16, u32)>) -> bool {
    &&& forall|l1: u16| #[trigger] m.contains_key(l1) <==> exists|l2: u32| l2s.contains((l1, l2))
    &&& forall|l1: u16| m.contains_key(l1) ==> (#[trigger] m[l1]).wf()
    &&& forall|l1: u16| m.contains_key(l1) ==> (#[trigger] m[l1])@ == shards_below(l2s, l1)
}

fn file_row(m: &mut FxMap<u16, Vec<KeyHash>>, row: &ShardRow, Ghost(rows): Ghost<Seq<ShardRow>>)
    requires
        old(m).wf(),
        rows.len() > 0,
        rows.last() == *row,
        sorts_rows(old(m)@, rows.drop_last()),
    ensures
        final(m).wf(),
        sorts_rows(final(m)@, rows),
{
    let ghost before = m@;
    let mut list: Vec<KeyHash> = match m.remove(&row.l1) {
        Some(v) => v,
        None => Vec::new(),
    };
    let ghost was = key_hash_views(list@);
    proof {
        let done = rows_of(rows.drop_last(), row.l1);
        if before.contains_key(row.l1) {
            assert(key_hash_views(before[row.l1]@) == done);
        }
        assert(was =~= done);
    }
    list.push((copy_bytes(row.key.as_slice()), copy_bytes(row.hash.as_slice())));
    proof {
        assert(key_hash_views(list@) =~= was.push((row.key@, row.hash@)));
    }
    let _ = m.insert(row.l1, list);
    proof {
        assert forall|l1: u16| #[trigger] m@.contains_key(l1) <==> rows_of(rows, l1).len() > 0 by {
            assert(before.contains_key(l1) <==> rows_of(rows.drop_last(), l1).len() > 0);
        }
        assert forall|l1: u16| m@.contains_key(l1) implies key_hash_views(#[trigger] m@[l1]@)
            == rows_of(rows, l1) by {
            if l1 != row.l1 {
                assert(before.contains_key(l1));
                assert(key_hash_views(before[l1]@) == rows_of(rows.drop_last(), l1));
            }
        }
    }
}

fn file_shard(
    m: &mut FxMap<u16, FxSet<u32>>,
    l1: u16,
    l2: u32,
    Ghost(l2s): Ghost<Seq<(u16, u32)>>,
)
    requires
        old(m).wf(),
        sorts_shards(old(m)@, l2s),
    ensures
        final(m).wf(),
        sorts_shards(final(m)@, l2s.push((l1, l2))),
{
    let ghost before = m@;
    let ghost more = l2s.push((l1, l2));
    proof {
        crate::ranking::lemma_pushed(l2s, (l1, l2));
    }
    let mut set: FxSet<u32> = match m.remove(&l1) {
        Some(s) => s,
        None => FxSet::new(),
    };
    proof {
        if before.contains_key(l1) {
            assert(before[l1]@ == shards_below(l2s, l1));
            assert(before[l1].wf());
        } else {
            assert forall|x: u32| !shards_below(l2s, l1).contains(x) by {
                if l2s.contains((l1, x)) {
                    assert(before.contains_key(l1));
                }
            }
            assert(set@ =~= shards_below(l2s, l1));
        }
    }
    let _ = set.insert(l2);
    proof {
        assert(set@ =~= shards_below(more, l1));
    }
    let _ = m.insert(l1, set);
    proof {
        assert forall|x: u16| #[trigger] m@.contains_key(x) <==> exists|y: u32| more.contains(
            (x, y),
        ) by {
            if x == l1 {
                assert(more.contains((l1, l2)));
            } else {
                assert(before.contains_key(x) <==> exists|y: u32| l2s.contains((x, y)));
                if before.contains_key(x) {
                    let y = choose|y: u32| l2s.contains((x, y));
                    assert(more.contains((x, y)));
                }
                if exists|y: u32| more.contains((x, y)) {
                    let y = choose|y: u32| more.contains((x, y));
                    assert(l2s.contains((x, y)));
                }
            }
        }
        assert forall|x: u16| m@.contains_key(x) implies (#[trigger] m@[x]).wf() by {
            if x != l1 {
                assert(before.contains_key(x));
                assert(before[x].wf());
            }
        }
        assert forall|x: u16| m@.contains_key(x) implies (#[trigger] m@[x])@ == shards_below(
            more,
            x,
        ) by {
            if x != l1 {
                assert(before.contains_key(x));
                assert(before[x]@ == shards_below(l2s, x));
                assert(shards_below(l2s, x) =~= shards_below(more, x));
            }
        }
    }
}

/// Sorts the shards that changed and the rows that they hold by the shard of the upper
/// level. A changed shard without rows still appears among the shards: it has become empty.
pub fn build_l2_recompute_input(l2s: &Vec<(u16, u32)>, rows: &Vec<ShardRow>) -> (r: (
    FxMap<u16, Vec<KeyHash>>,
    FxMap<u16, FxSet<u32>>,
))
    ensures
        r.0.wf(),
        r.1.wf(),
        sorts_rows(r.0@, rows@),
        sorts_shards(r.1@, l2s@),
{
    let mut dirty: FxMap<u16, FxSet<u32>> = FxMap::new();
    let mut i: usize = 0;
    proof {
        assert(sorts_shards(dirty@, l2s@.take(0)));
    }
    while i < l2s.len()
        invariant
            dirty.wf(),
            0 <= i <= l2s@.len(),
            sorts_shards(dirty@, l2s@.take(i as int)),
        decreases l2s@.len() - i,
    {
        let (l1, l2) = l2s[i];
        proof {
            assert(l2s@.take(i + 1) =~= l2s@.take(i as int).push((l1, l2)));
        }
        file_shard(&mut dirty, l1, l2, Ghost(l2s@.take(i as int)));
        i = i + 1;
    }
    let mut by_l1: FxMap<u16, Vec<KeyHash>> = FxMap::new();
    let mut j: usize = 0;
    proof {
        assert(l2s@.take(i as int) =~= l2s@);
        assert(rows@.take(0) =~= Seq::empty());
        assert(sorts_rows(by_l1@, rows@.take(0)));
    }
    while j < rows.len()
        invariant
            by_l1.wf(),
            0 <= j <= rows@.len(),
            sorts_rows(by_l1@, rows@.take(j as int)),
        decreases rows@.len() - j,
    {
        proof {
            assert(rows@.take(j + 1).drop_last() =~= rows@.take(j as int));
        }
        file_row(&mut by_l1, &rows[j], Ghost(rows@.take(j + 1)));
        j = j + 1;
    }
    proof {
        assert(rows@.take(j as int) =~= rows@);
    }
    (by_l1, dirty)
}

/// The shards whose rows are to be read, where any shard is to be computed anew. A shard is
/// filed under the lower sixteen bits of its number.
pub fn shards_to_load(dirty: &Vec<u32>) -> (r: Option<Vec<u16>>)
    ensures
        r is None <==> dirty@.len() == 0,
        r matches Some(shards) ==> shards@ == dirty@.map_values(|l2: u32| l2 as u16),
{
    if dirty.len() == 0 {
        return None;
    }
    let mut shards: Vec<u16> = Vec::new();
    let mut i: usize = 0;
    while i < dirty.len()
        invariant
            0 <= i <= dirty@.len(),
            shards@ == dirty@.take(i as int).map_values(|l2: u32| l2 as u16),
        decreases dirty@.len() - i,
    {
        shards.push(#[verifier::truncate] (dirty[i] as u16));
        i = i + 1;
        proof {
            assert(shards@ =~= dirty@.take(i as int).map_values(|l2: u32| l2 as u16));
        }
    }
    proof {
        assert(dirty@.take(i as int) =~= dirty@);
    }
    Some(shards)
}

/// How a round ends in which shards are computed anew.
pub enum DigestStep {
    /// Their digests are computed from the rows that were read.
    Recompute(FxMap<u16, Vec<KeyHash>>, FxMap<u16, FxSet<u32>>),
    /// The rows could not be read, so that the shards are marked for another round.
    MarkAgain(Vec<u32>),
}

/// Ends a round for shards, given below the ones above them, with the rows that were read if
/// they could be.
pub fn finish_digest_round(l2s: &Vec<(u16, u32)>, loaded: &Option<Vec<ShardRow>>) -> (r: DigestStep)
    ensures
        match *loaded {
            Some(rows) => r matches DigestStep::Recompute(by_l1, dirty) && by_l1.wf() && dirty.wf()
                && sorts_rows(by_l1@, rows@) && sorts_shards(dirty@, l2s@),
            None => r matches DigestStep::MarkAgain(again) && again@ == l2s@.map_values(
                |p: (u16, u32)| p.1,
            ),
        },
{
    match loaded {
        Some(rows) => {
            let (by_l1, dirty) = build_l2_recompute_input(l2s, rows);
            DigestStep::Recompute(by_l1, dirty)
        },
        None => {
            let mut again: Vec<u32> = Vec::new();
            let mut i: usize = 0;
            while i < l2s.len()
                invariant
                    0 <= i <= l2s@.len(),
                    again@ == l2s@.take(i as int).map_values(|p: (u16, u32)| p.1),
                decreases l2s@.len() - i,
            {
                again.push(l2s[i].1);
                i = i + 1;
                proof {
                    assert(again@ =~= l2s@.take(i as int).map_values(|p: (u16, u32)| p.1));
                }
            }
            proof {
                assert(l2s@.take(i as int) =~= l2s@);
            }
            DigestStep::MarkAgain(again)
        },
    }
}

} // verus!
