use pdc::storage::infohash_repo::{register_each, InfohashRepoImpl};
use pdc::storage::repo_traits::InfohashRepository;
use pdc::storage::tiered_cache::TieredCacheConfig;

#[test]
fn test_register_and_count() {
    let mut repo = InfohashRepoImpl::new();
    let ih = [1u8; 20];
    repo.register(ih, "test", 0);
    assert_eq!(repo.count(), 1);
    assert_eq!(repo.ref_count(&ih), 1);
}

#[test]
fn infohash_repo_test_persistence() {
    let mut repo = InfohashRepoImpl::new();
    let ih = [2u8; 20];
    repo.register(ih, "dht", 0);
    let saved = repo.all_rows();

    let mut repo2 = InfohashRepoImpl::new();
    let loaded = repo2.load_all(&saved);
    assert_eq!(loaded, 1);
    assert_eq!(repo2.ref_count(&ih), 1);
}

#[test]
fn test_pending_batch() {
    let mut repo = InfohashRepoImpl::new();
    repo.register([1u8; 20], "dht", 0);
    repo.register([2u8; 20], "tracker", 0);
    assert_eq!(repo.pending_count(), 2);
    let flushed = repo.flush_pending().len();
    assert_eq!(flushed, 2);
    assert_eq!(repo.pending_count(), 0);
}

#[test]
fn references_are_counted() {
    let mut repo = InfohashRepoImpl::new();
    let ih = [7u8; 20];
    repo.register(ih, "dht", 0);
    repo.register(ih, "tracker", 1);
    assert_eq!(repo.ref_count(&ih), 2);
    repo.unregister(&ih);
    assert_eq!(repo.ref_count(&ih), 1);
    repo.unregister(&ih);
    repo.unregister(&ih);
    assert_eq!(repo.ref_count(&ih), 0);
    assert_eq!(repo.count(), 1);
    assert_eq!(repo.cleanup_zero_ref(), 0);
    assert_eq!(repo.count(), 1);
}

#[test]
fn scores_order_the_list() {
    let mut repo = InfohashRepoImpl::new();
    register_each(&mut repo, &vec![[1; 20], [2; 20], [3; 20]], "seed", 0);
    repo.update_scores_batch(&[([1; 20], 5), ([2; 20], 9), ([3; 20], 7)]);
    repo.update_score(&[3; 20], 11);
    assert_eq!(repo.get_score(&[3; 20]), 11);
    let top = repo.top_infohashes(2);
    assert_eq!(top, vec![([3; 20], 11), ([2; 20], 9)]);
    assert_eq!(repo.count_sync(), 3);
    assert_eq!(repo.all_sync().len(), 3);
}

#[test]
fn batches_tell_what_is_new() {
    let mut repo = InfohashRepoImpl::new();
    assert!(repo.register_sync([1; 20], "a", 0));
    let items = vec![([1; 20], "b".to_string()), ([2; 20], "b".to_string())];
    let news = repo.register_batch_sync(&items, 1);
    assert_eq!(news, vec![([2; 20], "b".to_string())]);
    repo.clear_all_dirty_sync();
    repo.mark_dirty_sync(&[2; 20]);
    assert_eq!(repo.dirty_infohashes_sync(), vec![[2; 20]]);
}

#[test]
fn later_reports_win() {
    let mut repo = InfohashRepoImpl::new();
    let news = repo.register_batch_internal(&[
        ([1; 20], "a".to_string(), 50),
        ([1; 20], "b".to_string(), 30),
    ]);
    assert_eq!(news, vec![([1; 20], "a".to_string())]);
    assert_eq!(repo.all_sync(), vec![([1; 20], 50)]);
    assert_eq!(repo.all_infohashes(), vec![[1; 20]]);
}

#[test]
fn torrents_stay_in_memory() {
    let mut repo = InfohashRepoImpl::with_tier_config(TieredCacheConfig::default(), true);
    repo.register([1u8; 20], "test", 0);
    repo.tier_evict();
    repo.emergency_evict(10);
    assert_eq!(repo.count(), 1);
}
