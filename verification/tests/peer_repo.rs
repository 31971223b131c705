use pdc::storage::peer_repo::{query_history, PeerRepoImpl, HISTORY_BATCH};
use pdc::storage::tiered_cache::TieredCacheConfig;
use pdc::types::{PeerAddr, PeerInfo, PeerSource};

fn peer(n: u32) -> PeerInfo {
    PeerInfo::new(PeerAddr::V4 { ip: 0x0a00_0000 + n, port: 5000 }, PeerSource::Tracker, 0)
}

#[test]
fn noted_peers_are_listed() {
    let mut repo = PeerRepoImpl::new();
    let (news, full) = repo.add_peers_sync(&[1; 20], &[peer(1), peer(2)], 100);
    assert_eq!(news.len(), 2);
    assert!(full.is_none());
    assert_eq!(repo.get_peers_sync(&[1; 20], 10).len(), 2);
    assert_eq!(repo.get_peers_sync(&[1; 20], 1).len(), 1);
    assert!(repo.has_peer_assoc(&[1; 20], &peer(1).addr));
    assert!(!repo.has_peer_assoc(&[2; 20], &peer(1).addr));
    let (news, _) = repo.add_peers_sync(&[1; 20], &[peer(1)], 101);
    assert!(news.is_empty());
    assert_eq!(repo.stats(), (1, 2));
}

#[test]
fn parted_peers_are_forgotten_with_their_last_torrent() {
    let mut repo = PeerRepoImpl::new();
    repo.add_peers_sync(&[1; 20], &[peer(1)], 0);
    repo.add_peers_sync(&[2; 20], &[peer(1)], 0);
    assert_eq!(repo.get_peer_infohash_count(&peer(1).addr), 2);
    repo.remove_peer(&[1; 20], &peer(1).addr);
    assert_eq!(repo.get_peer_infohash_count(&peer(1).addr), 1);
    assert!(repo.get_peer_global(&peer(1).addr).is_some());
    repo.remove_peer(&[2; 20], &peer(1).addr);
    assert!(repo.get_peer_global(&peer(1).addr).is_none());
    assert!(repo.is_empty());
}

#[test]
fn history_is_handed_out_in_batches() {
    let mut repo = PeerRepoImpl::new();
    for i in 0..HISTORY_BATCH - 1 {
        assert!(repo.save_history([1; 20], &peer(i as u32), 7).is_none());
    }
    let full = repo.save_history([1; 20], &peer(999), 7).unwrap();
    assert_eq!(full.len(), HISTORY_BATCH);
    assert!(repo.flush_history().is_empty());
    assert!(repo.save_history([1; 20], &peer(5), 8).is_none());
    let rest = repo.flush_history();
    assert_eq!(rest.len(), 1);
    assert_eq!(query_history(&rest, 0)[0].addr, peer(5).addr);
}

#[test]
fn saved_peers_come_back() {
    let mut repo = PeerRepoImpl::new();
    repo.add_peers_sync(&[1; 20], &[peer(1), peer(2)], 0);
    let rows = repo.all_rows();
    assert_eq!(rows.len(), 2);
    let mut again = PeerRepoImpl::new();
    assert_eq!(again.load_all(&rows, 0), 2);
    assert_eq!(again.len_for_infohash(&[1; 20]), 2);
    again.ensure_loaded(&rows, 0);
    assert_eq!(again.len(), 2);
}

#[test]
fn connections_are_counted() {
    let mut repo = PeerRepoImpl::new();
    repo.add_peers_sync(&[1; 20], &[peer(1)], 0);
    repo.mark_connection_success_sync(&peer(1).addr, 9);
    repo.mark_connection_failure_sync(&peer(1).addr);
    let p = repo.get_peer_global(&peer(1).addr).unwrap();
    assert_eq!((p.connection_attempts, p.connection_successes), (2, 1));
    assert_eq!(p.last_active, 9);
}

#[test]
fn batches_of_peers() {
    let mut repo = PeerRepoImpl::new();
    let items = vec![([1; 20], peer(1)), ([2; 20], peer(1)), ([1; 20], peer(2))];
    let (n, news, full) = repo.add_peers_sync_batch(&items, 5);
    assert_eq!((n, news.len()), (3, 3));
    assert!(full.is_none());
    let all = repo.all_peers_with_infohashes_sync();
    assert_eq!(all.len(), 2);
    let first = all.iter().find(|(p, _)| p.addr == peer(1).addr).unwrap();
    assert_eq!(first.1.len(), 2);
    assert_eq!(repo.peer_count_for_infohash(&[1; 20]), 2);
    repo.add_peers_only_internal(&[peer(3)]);
    assert_eq!(repo.len(), 3);
    assert_eq!(repo.get_peer_infohash_count(&peer(3).addr), 0);
    repo.cleanup_expired_sync();
    assert_eq!(repo.len(), 3);
}

#[test]
fn marks_of_peers() {
    let mut repo = PeerRepoImpl::new();
    repo.add_peers_sync(&[1; 20], &[peer(1)], 0);
    repo.clear_all_dirty_sync();
    assert!(repo.dirty_peers_sync().is_empty());
    repo.update_scores_batch(&[(peer(1).addr, 8)]);
    assert_eq!(repo.dirty_peers_sync(), vec![peer(1).addr]);
    assert_eq!(repo.get_peer_global(&peer(1).addr).unwrap().priority_score, 8);
    repo.clear();
    assert!(repo.is_empty());
}

#[test]
fn peers_stay_in_memory() {
    let mut repo = PeerRepoImpl::with_tier_config(TieredCacheConfig::default(), true);
    repo.add_peers_sync(&[1; 20], &[peer(1)], 0);
    repo.tier_evict();
    repo.emergency_evict(10);
    repo.cleanup_expired_sync();
    assert_eq!(repo.cache_stats(), (1, 0, 0));
}
