//! What the caches give up when the node takes too much memory.

use vstd::prelude::*;

verus! {

/// A cache with fewer entries gives up none.
pub const MIN_EVICT: usize = 100_000;

/// How often in a row the caches give up entries.
pub const MAX_ROUNDS: usize = 5;

/// How many entries the four caches hold, or are to give up: nodes, peers, torrents and
/// trackers.
#[derive(Debug, Clone, Copy, PartialEq, Eq, Structural)]
pub struct CacheSizes {
    pub nodes: usize,
    pub peers: usize,
    pub infohashes: usize,
    pub trackers: usize,
}

/// How many of so many entries a cache gives up: a tenth, unless it is small.
pub open spec fn share(n: usize) -> usize {
    if n >= MIN_EVICT {
        n / 10
    } else {
        0
    }
}

/// How many entries the caches give up in one round.
pub open spec fn shares(s: CacheSizes) -> CacheSizes {
    CacheSizes {
        nodes: share(s.nodes),
        peers: share(s.peers),
        infohashes: share(s.infohashes),
        trackers: share(s.trackers),
    }
}

/// Whether no cache gives up an entry.
pub open spec fn nothing(s: CacheSizes) -> bool {
    s.nodes == 0 && s.peers == 0 && s.infohashes == 0 && s.trackers == 0
}

fn tenth(n: usize) -> (r: usize)
    ensures
        r == share(n),
{
    if n >= MIN_EVICT {
        n / 10
    } else {
        0
    }
}

/// What to do next.
#[derive(Debug, Clone, Copy, PartialEq, Eq, Structural)]
pub enum MemoryAction {
    /// Let each cache give up so many entries, then look at the memory again.
    Evict(CacheSizes),
    /// Leave it at that.
    Done,
}

/// The rounds of one look at the memory.
#[derive(Debug, Clone, Copy, PartialEq, Eq, Structural)]
pub struct MemoryMonitor {
    pub threshold_mb: u64,
    /// How often entries were given up already.
    pub rounds: usize,
}

impl MemoryMonitor {
    /// Starts a look at the memory.
    pub fn new(threshold_mb: u64) -> (r: Self)
        ensures
            r.threshold_mb == threshold_mb,
            r.rounds == 0,
    {
        MemoryMonitor { threshold_mb, rounds: 0 }
    }

    /// What is done next: as long as the memory is over the threshold, and not too often,
    /// the caches that are not small give up a tenth each.
    pub open spec fn next_of(self, memory_mb: u64, sizes: CacheSizes) -> MemoryAction {
        if memory_mb > self.threshold_mb && self.rounds < MAX_ROUNDS && !nothing(shares(sizes)) {
            MemoryAction::Evict(shares(sizes))
        } else {
            MemoryAction::Done
        }
    }

    /// What is done next, given how much memory is taken and how many entries there are.
    pub fn next(&mut self, memory_mb: u64, sizes: &CacheSizes) -> (r: MemoryAction)
        ensures
            r == old(self).next_of(memory_mb, *sizes),
            final(self).threshold_mb == old(self).threshold_mb,
            final(self).rounds == if r is Evict {
                (old(self).rounds + 1) as usize
            } else {
                old(self).rounds
            },
    {
        if memory_mb <= self.threshold_mb || self.rounds >= MAX_ROUNDS {
            return MemoryAction::Done;
        }
        let evict = CacheSizes {
            nodes: tenth(sizes.nodes),
            peers: tenth(sizes.peers),
            infohashes: tenth(sizes.infohashes),
            trackers: tenth(sizes.trackers),
        };
        if evict.nodes == 0 && evict.peers == 0 && evict.infohashes == 0 && evict.trackers == 0 {
            return MemoryAction::Done;
        }
        self.rounds = self.rounds + 1;
        MemoryAction::Evict(evict)
    }
}

/// No cache gives up more than a tenth of what it holds in one round.
pub proof fn rounds_are_gentle(m: MemoryMonitor, memory_mb: u64, sizes: CacheSizes)
    ensures
        m.next_of(memory_mb, sizes) matches MemoryAction::Evict(e) ==> {
            &&& 10 * e.nodes <= sizes.nodes
            &&& 10 * e.peers <= sizes.peers
            &&& 10 * e.infohashes <= sizes.infohashes
            &&& 10 * e.trackers <= sizes.trackers
        },
{
}

/// Small caches are left alone.
pub proof fn small_caches_are_spared(m: MemoryMonitor, memory_mb: u64, sizes: CacheSizes)
    ensures
        m.next_of(memory_mb, sizes) matches MemoryAction::Evict(e) ==> {
            &&& sizes.nodes < MIN_EVICT ==> e.nodes == 0
            &&& sizes.peers < MIN_EVICT ==> e.peers == 0
            &&& sizes.infohashes < MIN_EVICT ==> e.infohashes == 0
            &&& sizes.trackers < MIN_EVICT ==> e.trackers == 0
        },
{
}

/// What is left of a cache after some rounds, when nothing new comes in.
pub open spec fn left_after(n: usize, rounds: nat) -> int
    decreases rounds,
{
    if rounds == 0 {
        n as int
    } else {
        let before = left_after(n, (rounds - 1) as nat);
        before - share(before as usize)
    }
}

proof fn lemma_left(n: usize, rounds: nat)
    requires
        rounds <= MAX_ROUNDS,
    ensures
        0 <= left_after(n, rounds) <= n,
        10 * left_after(n, rounds) >= (10 - rounds) * n,
    decreases rounds,
{
    if rounds > 0 {
        lemma_left(n, (rounds - 1) as nat);
        let before = left_after(n, (rounds - 1) as nat);
        assert(share(before as usize) <= before / 10);
        assert(10 * left_after(n, rounds) >= (10 - rounds) * n) by (nonlinear_arith)
            requires
                10 * before >= (10 - (rounds - 1)) * n,
                left_after(n, rounds) >= before - before / 10,
                0 <= before <= n,
        ;
    }
}

/// All rounds of one look together leave at least half of every cache.
pub proof fn half_is_kept(n: usize, rounds: nat)
    requires
        rounds <= MAX_ROUNDS,
    ensures
        2 * left_after(n, rounds) >= n,
{
    lemma_left(n, rounds);
    assert(2 * left_after(n, rounds) >= n) by (nonlinear_arith)
        requires
            10 * left_after(n, rounds) >= (10 - rounds) * n,
            rounds <= 5,
            n >= 0,
    ;
}

} // verus!
