use diskann_layout::data_model::{GraphHeader, GraphMetadata};
use diskann_layout::search::bfs::{record_neighbors, walk_bfs, BfsWalk, BEAM_WIDTH_FOR_BFS};
use diskann_layout::search::cache_nodes::{
    check_hybrid_request, compose_hybrid_cache_nodes, select_exact_nodes, CacheError,
    HybridCacheComposition,
};
use diskann_layout::search::vertex_provider_factory::{
    get_header, header_buffer_len, CachingStrategy, DiskVertexProviderFactory,
};
use std::collections::{HashMap, HashSet, VecDeque};

type Cache = HashMap<u32, Vec<u32>>;
type Factory = DiskVertexProviderFactory<&'static str, Cache>;

const TEST_INDEX_PATH: &str = "/index.index";

/// A graph of 256 nodes with four neighbours each.
fn graph() -> Vec<Vec<u32>> {
    (0..256u32)
        .map(|node| {
            [1, 7, 31, 101]
                .iter()
                .map(|step| (node * 3 + step) % 256)
                .collect()
        })
        .collect()
}

fn metadata() -> GraphMetadata {
    GraphMetadata::new(256, 8, 5, 64, 4, 0, 0, 4096 * 65, 0)
}

/// Fills a cache as a walk over the graph goes.
fn fill(lists: &[Vec<u32>], mut walk: BfsWalk) -> Cache {
    let mut cache = Cache::new();
    while let Some(batch) = walk.next_batch() {
        assert!(batch.len() <= BEAM_WIDTH_FOR_BFS);
        let mut more = true;
        while more {
            let node = walk.next_node();
            let list = &lists[node as usize];
            cache.insert(node, list.clone());
            more = walk.visit(list);
        }
    }
    cache
}

fn factory(strategy: CachingStrategy) -> Factory {
    let mut factory = Factory::new(TEST_INDEX_PATH, strategy);
    if let Some(walk) = factory.setup_cache(&metadata()) {
        let cache = fill(&graph(), walk.walk);
        factory.set_cache(cache);
    }
    factory
}

#[test]
fn test_disk_vertex_provider_factory_new_with_no_cache() {
    let factory = factory(CachingStrategy::NoCache);

    assert!(factory.cache.is_none());
}

#[test]
fn test_disk_vertex_provider_factory_with_static_cache() {
    let num_nodes_to_cache = 10;
    let factory = factory(CachingStrategy::StaticCacheWithBfsNodes(num_nodes_to_cache));

    // Verify cache was created
    assert!(factory.cache.is_some());
    let cache = factory.cache.as_ref().unwrap();
    assert!(!cache.is_empty());
    assert!(cache.len() <= num_nodes_to_cache);
}

#[test]
fn test_seed_cache_from_exact_nodes_preserves_order_and_deduplicates() {
    let mut factory = factory(CachingStrategy::NoCache);

    let selected = factory
        .seed_cache_from_exact_nodes(&[7, 3, 7, 20, 9], 3, &metadata())
        .unwrap()
        .unwrap();
    let lists = graph();
    let cache: Cache = selected
        .iter()
        .map(|&node| (node, lists[node as usize].clone()))
        .collect();
    let cached = cache.len();
    factory.install_cache(cache, cached);

    assert_eq!(selected, [7, 3, 20]);
    assert_eq!(cached, 3);
    let cache = factory.cache.as_ref().unwrap();
    assert!(cache.contains_key(&7));
    assert!(cache.contains_key(&3));
    assert!(cache.contains_key(&20));
    assert!(!cache.contains_key(&9));
    assert_eq!(
        factory.caching_strategy,
        CachingStrategy::StaticCacheWithBfsNodes(3)
    );
}

#[test]
fn test_hybrid_composition_deduplicates_and_uses_fallback() {
    let (nodes, composition) =
        compose_hybrid_cache_nodes(&[10, 20, 30, 40, 50], &[20, 60], 5, 2, 1, 100).unwrap();

    assert_eq!(nodes, [10, 20, 60, 30, 40]);
    assert_eq!(
        composition,
        HybridCacheComposition {
            requested_bfs_nodes: 2,
            routing_root_nodes: 1,
            bfs_nodes: 2,
            frequency_nodes: 1,
            fallback_bfs_nodes: 2,
            total_nodes: 5,
            estimated_payload_bytes: 500,
        }
    );
}

#[test]
fn test_hybrid_composition_preserves_roots_at_zero_bfs_fraction() {
    let (nodes, composition) =
        compose_hybrid_cache_nodes(&[10, 20, 30, 40], &[30, 50, 60], 4, 0, 2, 1).unwrap();

    assert_eq!(nodes, [10, 20, 30, 50]);
    assert_eq!(composition.bfs_nodes, 2);
    assert_eq!(composition.frequency_nodes, 2);
    assert_eq!(composition.fallback_bfs_nodes, 0);
}

#[test]
fn test_hybrid_composition_honors_full_bfs_endpoint() {
    let (nodes, composition) =
        compose_hybrid_cache_nodes(&[10, 20, 30], &[40, 50], 3, 3, 1, 1).unwrap();

    assert_eq!(nodes, [10, 20, 30]);
    assert_eq!(composition.bfs_nodes, 3);
    assert_eq!(composition.frequency_nodes, 0);
    assert_eq!(composition.fallback_bfs_nodes, 0);
}

#[test]
fn test_hybrid_composition_rejects_budget_smaller_than_roots() {
    let error = compose_hybrid_cache_nodes(&[10, 20], &[30], 1, 0, 2, 1).unwrap_err();

    assert!(error
        .message()
        .contains("cannot preserve 2 routing roots"));
}

#[test]
fn test_hybrid_cache_rejects_budget_larger_than_graph() {
    let factory = factory(CachingStrategy::NoCache);

    let error = factory
        .start_hybrid_walk(&[0], &[], 257, &metadata())
        .unwrap_err();
    assert!(error
        .message()
        .contains("cache budget 257 exceeds graph point count 256"));

    let error = factory
        .seed_cache_from_hybrid_nodes(&[0], &[], 257, 128, &[], &metadata())
        .unwrap_err();
    assert!(error
        .message()
        .contains("cache budget 257 exceeds graph point count 256"));
}

#[test]
fn test_collect_nodes_via_bfs_matches_cached_adjacency_order() {
    let start_node = metadata().medoid as u32;
    let actual = walk_bfs(&graph(), &[start_node], 10);

    let fully_cached = factory(CachingStrategy::StaticCacheWithBfsNodes(256));
    let cache = fully_cached.cache.as_ref().unwrap();
    let mut visited = HashSet::new();
    let mut queue = VecDeque::from([start_node]);
    let mut expected = Vec::new();
    visited.insert(start_node);
    while let Some(node) = queue.pop_front() {
        expected.push(node);
        if expected.len() == 10 {
            break;
        }
        for &neighbor in cache.get(&node).unwrap().iter() {
            if visited.insert(neighbor) {
                queue.push_back(neighbor);
            }
        }
    }

    assert_eq!(actual, expected);
}

#[test]
fn test_disk_vertex_provider_factory_cache_limit_exceeds_total_nodes() {
    // Request to cache more nodes than exist in the index
    let num_nodes_to_cache = 100000;
    let factory = factory(CachingStrategy::StaticCacheWithBfsNodes(num_nodes_to_cache));

    // Verify cache was created but limited to actual number of nodes
    assert!(factory.cache.is_some());
    let cache = factory.cache.as_ref().unwrap();
    // The test index has 256 nodes
    assert!(cache.len() <= 256);
}

#[test]
fn test_create_vertex_provider_with_no_cache() {
    let factory = factory(CachingStrategy::NoCache);

    assert!(factory.provider_cache().unwrap().is_none());
}

#[test]
fn test_create_vertex_provider_with_cache() {
    let factory = factory(CachingStrategy::StaticCacheWithBfsNodes(10));

    assert_eq!(factory.provider_cache().unwrap().unwrap().len(), 10);
}

#[test]
fn test_create_vertex_provider_with_cache_but_none_initialized_should_error() {
    // Create a factory with a caching strategy but manually set cache to None
    let factory = Factory {
        aligned_reader_factory: TEST_INDEX_PATH,
        caching_strategy: CachingStrategy::StaticCacheWithBfsNodes(10),
        cache: None, // Intentionally None despite caching strategy requiring it
    };

    // Should error because cache is required but not initialized
    assert_eq!(factory.provider_cache().err(), Some(CacheError::CacheMissing));
}

#[test]
fn test_get_header() {
    let header = GraphHeader::new(metadata(), 4096, GraphHeader::current_layout_version());
    let mut block = vec![0u8; header_buffer_len()];
    block[8..104].copy_from_slice(&header.to_bytes().unwrap());

    let header = get_header(&block).unwrap();
    assert_eq!(header.metadata().num_pts, 256);
    assert_eq!(header_buffer_len(), 4096);
    assert!(get_header(&block[..103]).is_err());
}

#[test]
fn factories_remember_the_index_path() {
    let factory = DiskVertexProviderFactory::<_, Cache>::from_disk_index_path(
        "dir/a.index".to_string(),
        CachingStrategy::NoCache,
    );
    assert_eq!(factory.aligned_reader_factory.disk_index_path, "dir/a.index");
}

#[test]
fn hybrid_caches_hold_their_roots() {
    let mut factory = factory(CachingStrategy::NoCache);
    let seeds = [9, 4, 9];
    let frequent = [200, 4, 201];
    let walk = factory
        .start_hybrid_walk(&seeds, &frequent, 6, &metadata())
        .unwrap();
    let lists = graph();
    let mut walk = walk;
    while walk.next_batch().is_some() {
        let mut more = true;
        while more {
            let node = walk.next_node();
            more = walk.visit(&lists[node as usize]);
        }
    }
    let bfs_nodes = walk.into_nodes();
    assert_eq!(bfs_nodes.len(), 6);
    assert_eq!(bfs_nodes[..2], [9, 4]);

    let (nodes, composition) = factory
        .seed_cache_from_hybrid_nodes(&seeds, &frequent, 6, 3, &bfs_nodes, &metadata())
        .unwrap();
    assert_eq!(nodes[..3], bfs_nodes[..3]);
    assert_eq!(nodes[3..5], [200, 201]);
    assert_eq!(nodes[5], bfs_nodes[3]);
    assert_eq!(composition.routing_root_nodes, 2);
    assert_eq!(composition.estimated_payload_bytes, 6 * 64);

    let short = factory.install_hybrid_cache(Cache::new(), 5, 6);
    assert_eq!(
        short,
        Err(CacheError::LoadedNodes {
            loaded: 5,
            budget: 6
        })
    );
    assert!(factory.cache.is_none());
    factory.install_hybrid_cache(Cache::new(), 6, 6).unwrap();
    assert!(factory.cache.is_some());
}

#[test]
fn hybrid_requests_are_checked() {
    assert_eq!(check_hybrid_request(&[1, 2, 1], &[], 2, 10), Ok(2));
    assert_eq!(
        check_hybrid_request(&[], &[], 2, 10),
        Err(CacheError::NoRoots)
    );
    assert_eq!(
        check_hybrid_request(&[1], &[], 0, 10),
        Err(CacheError::ZeroBudget)
    );
    assert_eq!(
        check_hybrid_request(&[10], &[], 1, 10),
        Err(CacheError::RootOutOfRange {
            root: 10,
            points: 10
        })
    );
    assert_eq!(
        check_hybrid_request(&[1, 2], &[], 1, 10),
        Err(CacheError::BudgetBelowUniqueRoots {
            budget: 1,
            roots: 2
        })
    );
    assert_eq!(
        check_hybrid_request(&[1], &[12], 1, 10),
        Err(CacheError::FrequencyNodeOutOfRange {
            node: 12,
            points: 10
        })
    );
    assert_eq!(
        select_exact_nodes(&[3, 11], 2, 10),
        Err(CacheError::CacheNodeOutOfRange {
            node: 11,
            points: 10
        })
    );
}

#[test]
fn compositions_report_what_is_missing() {
    let error = compose_hybrid_cache_nodes(&[1], &[], 2, 0, 2, 1).unwrap_err();
    assert_eq!(
        error.message(),
        "BFS produced 1 nodes, fewer than 2 routing roots"
    );
    let error = compose_hybrid_cache_nodes(&[1, 1], &[], 2, 2, 1, 1).unwrap_err();
    assert_eq!(
        error.message(),
        "hybrid cache composition produced 1 unique nodes, expected 2"
    );
    let error = compose_hybrid_cache_nodes(&[1, 2], &[], 2, 2, 1, u64::MAX).unwrap_err();
    assert_eq!(error.message(), "hybrid cache payload size overflow");
}

#[test]
fn nothing_is_cached_without_seeds() {
    let factory = factory(CachingStrategy::NoCache);
    assert!(factory.seed_cache_from_nodes(&[], 4, &metadata()).is_none());
    assert!(factory.seed_cache_from_nodes(&[1], 0, &metadata()).is_none());
    let walk = factory.seed_cache_from_nodes(&[1, 2], 4, &metadata()).unwrap();
    assert_eq!(walk.num_nodes_to_cache, 4);
    assert_eq!(fill(&graph(), walk.walk).len(), 4);
    assert!(factory
        .seed_cache_from_exact_nodes(&[], 4, &metadata())
        .unwrap()
        .is_none());
}

#[test]
fn records_list_their_neighbors_behind_the_vector() {
    let mut record = vec![9; 3];
    for word in [2u32, 7, 0x01020304] {
        record.extend_from_slice(&word.to_le_bytes());
    }
    assert_eq!(record_neighbors(&record, 3), Some(vec![7, 0x01020304]));
    record.extend_from_slice(&[1, 1, 1, 1]);
    assert_eq!(record_neighbors(&record, 3), Some(vec![7, 0x01020304]));
    assert_eq!(record_neighbors(&record[..14], 3), None);
    assert_eq!(record_neighbors(&record[..6], 3), None);
    assert_eq!(record_neighbors(&record, usize::MAX), None);
    assert_eq!(record_neighbors(&[0; 4], 0), Some(vec![]));
}
