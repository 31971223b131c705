use pdc::storage::node_repo::{cutoff_before, subnet_key, NodeRepoImpl, NodeState, SECOND};
use pdc::storage::tiered_cache::TieredCacheConfig;
use pdc::types::PeerAddr;

fn test_repo() -> NodeRepoImpl {
    NodeRepoImpl::new(NodeState::Questionable)
}

fn addr(oct: u8, port: u16) -> PeerAddr {
    PeerAddr::V4 { ip: 0x7f00_0000 + oct as u32, port }
}

const NOW: u64 = 100_000 * SECOND;

#[test]
fn test_remove_cold_nodes_removes_only_cold() {
    let mut repo = test_repo();
    let hot = addr(1, 1001);
    let warm = addr(2, 1002);
    let cold = addr(3, 1003);

    repo.add_node_sync([1u8; 20], hot, NOW);
    repo.add_node_sync([2u8; 20], warm, cutoff_before(NOW, 3600));
    repo.add_node_sync([3u8; 20], cold, cutoff_before(NOW, 10_000));
    assert_eq!(repo.len_sync(), 3);

    let removed = repo.remove_cold_nodes(7200, NOW);
    assert_eq!(removed, 1, "should remove exactly 1 cold node");
    assert!(repo.contains_sync(hot), "hot node must be kept");
    assert!(repo.contains_sync(warm), "warm node must be kept");
    assert!(!repo.contains_sync(cold), "cold node should be removed");
    assert_eq!(repo.len_sync(), 2);
}

#[test]
fn test_remove_cold_nodes_empty_when_nothing_cold() {
    let mut repo = test_repo();
    let a = addr(9, 1009);
    repo.add_node_sync([9u8; 20], a, NOW);
    let removed = repo.remove_cold_nodes(7200, NOW);
    assert_eq!(removed, 0);
    assert!(repo.contains_sync(a));
}

#[test]
fn three_failures_in_a_row_make_a_node_bad() {
    let mut repo = test_repo();
    let a = addr(1, 1);
    repo.add_node_sync([1; 20], a, NOW);
    for _ in 0..2 {
        repo.record_query_sync(a, false, 0, NOW);
    }
    assert!(repo.get_node(&a).unwrap().state != NodeState::Bad);
    repo.record_query_sync(a, false, 0, NOW);
    assert!(repo.get_node(&a).unwrap().state == NodeState::Bad);
    repo.record_query_sync(a, true, 20, NOW);
    assert!(repo.get_node(&a).unwrap().state == NodeState::Good);
    assert_eq!(repo.stats_sync().good, 1);
}

#[test]
fn saved_nodes_are_read_back() {
    let mut repo = test_repo();
    let a = addr(1, 1);
    repo.add_node_sync([1; 20], a, NOW);
    repo.record_query_with_nodes_sync(a, 30, 8, NOW);
    let batch = repo.begin_save(false, NOW).unwrap();
    repo.finish_save(&batch, true);
    assert_eq!(repo.dirty_count_sync(), 0);

    let mut again = test_repo();
    assert_eq!(again.load_all(&batch.rows, NOW), 1);
    let e = again.get_node(&a).unwrap();
    assert_eq!((e.id, e.query_count, e.nodes_returned), ([1; 20], 1, 8));
}

#[test]
fn forgetting_leaves_nothing_behind() {
    let mut repo = test_repo();
    let a = addr(1, 1);
    assert!(repo.add_node_sync([1; 20], a, NOW));
    assert!(!repo.add_node_sync([1; 20], a, NOW));
    assert_eq!(repo.nodes_by_subnet_sync([127, 0, 0]), vec![[1; 20]]);
    assert!(repo.remove_node(&a));
    assert!(!repo.remove_node(&a));
    assert!(repo.is_empty());
    assert_eq!(repo.subnet_count_sync(), 0);
    assert!(repo.dirty_nodes_sync().is_empty());
}

#[test]
fn closest_nodes_by_distance() {
    let mut repo = test_repo();
    for i in 1..=4u8 {
        let mut id = [0u8; 20];
        id[0] = i;
        repo.add_node_sync(id, addr(i, i as u16), NOW);
    }
    let mut target = [0u8; 20];
    target[0] = 3;
    let near = repo.closest_nodes(&target, 2);
    assert_eq!(near.len(), 2);
    assert_eq!(near[0].id[0], 3);
    assert_eq!(near[1].id[0], 2);
}

#[test]
fn accessed_nodes_are_hot_for_a_while() {
    let mut repo = test_repo();
    let a = addr(1, 1);
    repo.add_node_sync([1; 20], a, NOW);
    repo.mark_accessed_sync(a, NOW);
    assert_eq!(repo.hot_count_sync(), 1);
    assert_eq!(repo.migrate_hot_to_cold_sync(60, NOW + 61 * SECOND), 1);
    assert_eq!((repo.hot_count_sync(), repo.cold_count_sync()), (0, 1));
}

#[test]
fn lowest_scores_are_evicted() {
    let mut repo = test_repo();
    for i in 1..=3u8 {
        repo.add_node_sync([i; 20], addr(i, i as u16), NOW);
        repo.update_score(&addr(i, i as u16), i as i64);
    }
    assert_eq!(repo.evict_by_count(2), 1);
    assert!(!repo.contains_sync(addr(1, 1)));
    assert_eq!(repo.top_nodes_sync(1)[0].id, [3; 20]);
}

#[test]
fn names_of_states() {
    for s in [NodeState::Good, NodeState::Questionable, NodeState::Bad] {
        assert!(NodeState::from_name(s.name()) == s);
    }
    assert_eq!(subnet_key(addr(5, 1)), Some([127, 0, 0]));
    assert_eq!(subnet_key(PeerAddr::V6 { ip: 1, port: 1 }), None);
    assert_eq!(cutoff_before(5 * SECOND, 10), 0);
}

#[test]
fn batches_of_nodes() {
    let mut repo = test_repo();
    let items = vec![([1; 20], addr(1, 1)), ([2; 20], addr(2, 2)), ([1; 20], addr(1, 1))];
    let news = repo.add_nodes_sync_batch(&items, NOW);
    assert_eq!(news, vec![([1; 20], addr(1, 1)), ([2; 20], addr(2, 2))]);
    assert_eq!(repo.all_subnets_sync(), vec![[127, 0, 0]]);
    assert_eq!(repo.all_nodes_sync().len(), 2);
    assert_eq!(repo.remove_nodes_batch_internal(&[addr(1, 1), addr(9, 9)]), 1);
    assert_eq!(repo.len_sync(), 1);
}

#[test]
fn marks_of_nodes() {
    let mut repo = test_repo();
    let a = addr(1, 1);
    repo.add_node_sync([1; 20], a, NOW);
    repo.clear_all_dirty_sync();
    assert_eq!(repo.dirty_count_sync(), 0);
    repo.set_node_state(&a, NodeState::Good);
    assert_eq!(repo.take_dirty_sync(), vec![a]);
    assert_eq!(repo.dirty_count_sync(), 0);
    repo.mark_dirty_sync(a);
    repo.clear_dirty_sync(&a);
    assert!(repo.dirty_nodes_sync().is_empty());
    repo.update_scores_batch_sync(&[(a, 7)]);
    assert_eq!(repo.get_node(&a).unwrap().score, 7);
    repo.mark_accessed_sync(a, NOW);
    assert_eq!(repo.hot_nodes_sync().len(), 1);
    repo.refresh_all_states_sync(|e: &pdc::storage::node_repo::KBucketEntry| {
        if e.score == 7 {
            NodeState::Bad
        } else {
            NodeState::Good
        }
    });
    assert_eq!(repo.stats_sync().bad, 1);
}

#[test]
fn nodes_stay_in_memory() {
    let mut repo =
        NodeRepoImpl::with_tier_config(NodeState::Questionable, TieredCacheConfig::default(), true);
    repo.add_node_sync([1u8; 20], addr(1, 1001), NOW);
    repo.tier_evict();
    repo.emergency_evict(10);
    assert_eq!(repo.cache_stats(), (1, 0, 0));
}
