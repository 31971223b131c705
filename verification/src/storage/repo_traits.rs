//! What the services ask of a repository of torrents.

use vstd::prelude::*;

use crate::storage::fx_map::lists;
use crate::storage::infohash_repo::InfohashTable;
use crate::types::Infohash;

verus! {

/// A repository of torrents.
pub trait InfohashRepository {
    /// What the repository holds.
    spec fn table(&self) -> InfohashTable;

    /// Whether the repository is in order.
    spec fn ok(&self) -> bool;

    /// Takes note of a torrent.
    fn register(&mut self, infohash: Infohash, source: &str, now: u64)
        requires
            old(self).ok(),
        ensures
            final(self).ok(),
            final(self).table() == old(self).table().registered((infohash, source@, now)),
    ;

    /// Takes a reference to a torrent back.
    fn unregister(&mut self, infohash: &Infohash)
        requires
            old(self).ok(),
        ensures
            final(self).ok(),
            final(self).table() == old(self).table().unregistered(*infohash),
    ;

    /// How many refer to a torrent.
    fn ref_count(&self, infohash: &Infohash) -> (r: u32)
        requires
            self.ok(),
        ensures
            r == self.table().refs(*infohash),
    ;

    /// Every torrent, in an order that is left open.
    fn all_infohashes(&self) -> (r: Vec<Infohash>)
        requires
            self.ok(),
        ensures
            lists(r@, self.table().entries.dom()),
    ;

    /// How many torrents are known.
    fn count(&self) -> (r: usize)
        requires
            self.ok(),
        ensures
            r == self.table().entries.len(),
    ;

    /// Torrents that nobody refers to are kept: none is taken out.
    fn cleanup_zero_ref(&mut self) -> (r: usize)
        requires
            old(self).ok(),
        ensures
            final(self).ok(),
            final(self).table() == old(self).table(),
            r == 0,
    ;
}

} // verus!
