use pdc::storage::tracker_repo::{TrackerRepoImpl, MAX_FAILURES};

fn test_repo() -> TrackerRepoImpl {
    TrackerRepoImpl::new()
}

fn mean(_total: u64, latest: u64) -> u64 {
    latest
}

#[test]
fn test_add_and_get() {
    let mut repo = test_repo();
    let url = "http://example.com/announce".to_string();
    repo.add_tracker_sync(&url, 0, &None, 0);
    assert_eq!(repo.count_sync(), 1);
    let tracker = repo.get_tracker_sync(&url, &None, 0);
    assert!(tracker.is_some());
    assert_eq!(tracker.unwrap().url, url);
}

#[test]
fn tracker_repo_test_persistence() {
    let mut repo = test_repo();
    let url = "http://test.com/announce".to_string();
    repo.add_tracker_sync(&url, 0, &None, 0);
    let batch = repo.begin_save(false).unwrap();
    repo.finish_save(&batch, true);

    let mut repo2 = test_repo();
    let loaded = repo2.load_all(&batch.rows, 0);
    assert!(loaded >= 1);
    assert!(repo2.get_tracker_sync(&url, &None, 0).is_some());
}

#[test]
fn test_record_request() {
    let mut repo = test_repo();
    let url = "http://req.com/announce".to_string();
    repo.add_tracker_sync(&url, 0, &None, 0);
    repo.record_request_sync(&url, true, 10, 50, mean, &None, 0, 0);

    let tracker = repo.get_tracker_sync(&url, &None, 0).unwrap();
    assert_eq!(tracker.total_requests, 1);
    assert_eq!(tracker.success_requests, 1);
    assert_eq!(tracker.total_peers_discovered, 10);
}

#[test]
fn test_cache_miss_load_from_db() {
    let mut repo = test_repo();
    let url = "http://cold.com/announce".to_string();
    repo.add_tracker_sync(&url, 0, &None, 0);
    let batch = repo.begin_save(false).unwrap();
    repo.finish_save(&batch, true);

    repo.emergency_evict(1);
    assert!(!repo.in_memory(&url));

    let saved = batch.rows.into_iter().find(|r| r.url == url);
    let tracker = repo.get_tracker_sync(&url, &saved, 0);
    assert!(tracker.is_some());
    assert!(repo.in_memory(&url));
}

#[test]
fn failing_trackers_are_disabled() {
    let mut repo = test_repo();
    let url = "udp://bad.example:80".to_string();
    repo.add_tracker_sync(&url, 0, &None, 0);
    for i in 0..MAX_FAILURES {
        assert!(!repo.get_tracker_sync(&url, &None, 0).unwrap().disabled, "after {i} failures");
        repo.record_request_sync(&url, false, 0, 0, mean, &None, 0, 0);
    }
    assert!(repo.get_tracker_sync(&url, &None, 0).unwrap().disabled);
    assert!(repo.active_trackers_sync().is_empty());
    assert_eq!(repo.all_trackers_sync().len(), 1);
    repo.set_disabled_sync(&url, false, &None, 0);
    assert_eq!(repo.active_trackers_sync().len(), 1);
}

#[test]
fn failed_saves_are_tried_again() {
    let mut repo = test_repo();
    let url = "http://a.example/announce".to_string();
    repo.add_tracker_sync(&url, 0, &None, 0);
    let batch = repo.begin_save(false).unwrap();
    assert_eq!(batch.urls, vec![url.clone()]);
    repo.finish_save(&batch, false);
    assert_eq!(repo.dirty_count_sync(), 1);
    let batch = repo.begin_save(false).unwrap();
    repo.finish_save(&batch, true);
    assert_eq!(repo.dirty_count_sync(), 0);
    assert!(repo.begin_save(false).is_none());
}

#[test]
fn removed_trackers_are_gone() {
    let mut repo = test_repo();
    let url = "http://a.example/announce".to_string();
    assert!(repo.add_tracker_sync(&url, 0, &None, 0));
    assert!(!repo.add_tracker_sync(&url, 0, &None, 0));
    repo.remove_tracker(&url);
    assert!(repo.get_tracker_sync(&url, &None, 0).is_none());
    assert_eq!(repo.count_sync(), 0);
}

#[test]
fn best_scores_come_first() {
    let mut repo = test_repo();
    for name in ["a", "b", "c"] {
        repo.add_tracker_sync(&name.to_string(), 0, &None, 0);
    }
    repo.update_scores_batch(&[("a".to_string(), 1), ("b".to_string(), 3), ("c".to_string(), 2)]);
    let top: Vec<String> = repo.top_trackers_sync(2).into_iter().map(|t| t.url).collect();
    assert_eq!(top, vec!["b".to_string(), "c".to_string()]);
}

#[test]
fn batches_of_trackers() {
    let mut repo = test_repo();
    let urls = vec!["a".to_string(), "b".to_string(), "a".to_string()];
    let (n, news) = repo.add_trackers_sync_batch(&urls, 1, &[None, None, None], 0);
    assert_eq!((n, news), (2, vec!["a".to_string(), "b".to_string()]));
    assert_eq!(repo.count_sync(), 2);
}

#[test]
fn marks_of_scores() {
    let mut repo = test_repo();
    repo.add_tracker_sync(&"a".to_string(), 1, &None, 0);
    repo.clear_score_dirty_sync();
    assert_eq!(repo.score_dirty_count_sync(), 0);
    repo.update_scores_batch(&[("a".to_string(), 3), ("unknown".to_string(), 4)]);
    assert_eq!(repo.take_score_dirty_sync(), vec!["a".to_string()]);
    assert_eq!(repo.score_dirty_count_sync(), 0);
    repo.update_score_sync("a", 9, &None, 0);
    assert_eq!(repo.get_tracker_sync("a", &None, 0).unwrap().score, 9);
}
