//! Setting up the static node cache of a disk index.
use crate::data_model::GraphHeader;
use crate::data_model::GraphMetadata;
use crate::data_model::ParseSliceError;
use crate::search::bfs;
use crate::search::bfs::BfsWalk;
use crate::search::cache_nodes;
use crate::search::cache_nodes::CacheError;
use crate::search::cache_nodes::HybridCacheComposition;
use std::sync::Arc;
use vstd::prelude::*;

verus! {

/// Bytes of a disk sector.
pub const DEFAULT_DISK_SECTOR_LEN: usize = 4096;

/// Which nodes are kept in memory.
#[derive(Clone, Copy, Debug, PartialEq, Eq, Structural)]
pub enum CachingStrategy {
    /// No node is.
    NoCache,
    /// As many nodes as given are, chosen by a walk from the start node.
    StaticCacheWithBfsNodes(usize),
}

/// Makes vertex providers for a disk index: what opens the index, which nodes are
/// cached and the cache.
#[derive(Debug)]
pub struct DiskVertexProviderFactory<ReaderFactory, Cache> {
    pub aligned_reader_factory: ReaderFactory,
    pub caching_strategy: CachingStrategy,
    pub cache: Option<Arc<Cache>>,
}

/// A walk that collects the nodes of a cache.
#[derive(Debug)]
pub struct CacheWalk {
    pub walk: BfsWalk,
    pub num_nodes_to_cache: usize,
}

/// Bytes to read for the header of an index: whole sectors.
pub fn header_buffer_len() -> (length: usize)
    ensures
        length % DEFAULT_DISK_SECTOR_LEN == 0,
        96 <= length < 96 + DEFAULT_DISK_SECTOR_LEN,
{
    let size: usize = GraphHeader::get_size();
    let rest: usize = size % DEFAULT_DISK_SECTOR_LEN;
    if rest == 0 {
        size
    } else {
        size + (DEFAULT_DISK_SECTOR_LEN - rest)
    }
}

/// The header that the first bytes of an index hold, behind eight others.
pub fn get_header(read_buf: &[u8]) -> (result: Result<GraphHeader, ParseSliceError>)
    requires
        read_buf@.len() >= 8,
    ensures
        match result {
            Ok(header) => read_buf@.len() >= 104 && header == GraphHeader::read(read_buf@.skip(8)),
            Err(error) => read_buf@.len() < 104 && error == (ParseSliceError {
                actual: (read_buf@.len() - 8) as usize,
                required: 96,
            }),
        },
{
    let bytes = vstd::slice::slice_subrange(read_buf, 8, read_buf.len());
    assert(bytes@ =~= read_buf@.skip(8));
    GraphHeader::try_from(bytes)
}

impl<ReaderFactory, Cache> DiskVertexProviderFactory<ReaderFactory, Cache> {
    /// Creates a factory without a cache.
    pub fn new(
        aligned_reader_factory: ReaderFactory,
        caching_strategy: CachingStrategy,
    ) -> (factory: Self)
        ensures
            factory.aligned_reader_factory == aligned_reader_factory,
            factory.caching_strategy == caching_strategy,
            factory.cache is None,
    {
        DiskVertexProviderFactory { aligned_reader_factory, caching_strategy, cache: None }
    }

    /// The walk that the caching strategy asks for, if it asks for one: from the
    /// medoid, for as many nodes as are to be cached and at most all of them.
    pub fn setup_cache(&self, metadata: &GraphMetadata) -> (walk: Option<CacheWalk>)
        ensures
            match self.caching_strategy {
                CachingStrategy::NoCache => walk is None,
                CachingStrategy::StaticCacheWithBfsNodes(count) => {
                    &&& walk is Some
                    &&& walk->0.num_nodes_to_cache == cache_nodes::smaller(
                        count,
                        metadata.num_pts as usize,
                    )
                    &&& walk->0.walk.wf()
                    &&& walk->0.walk.pending().len() == 0
                    &&& walk->0.walk.spec_limit() == walk->0.num_nodes_to_cache
                    &&& walk->0.walk@ == bfs::start_state(seq![metadata.medoid as u32])
                },
            },
    {
        match self.caching_strategy {
            CachingStrategy::NoCache => None,
            CachingStrategy::StaticCacheWithBfsNodes(count) => {
                let points: usize = metadata.num_pts as usize;
                let num_nodes_to_cache: usize = if count > points {
                    points
                } else {
                    count
                };
                let start_nodes: [u32; 1] = [metadata.medoid as u32];
                assert(start_nodes@ =~= seq![metadata.medoid as u32]);
                Some(
                    CacheWalk {
                        walk: BfsWalk::start(&start_nodes, num_nodes_to_cache),
                        num_nodes_to_cache,
                    },
                )
            },
        }
    }

    /// Keeps a cache that was filled as the caching strategy asks.
    pub fn set_cache(&mut self, cache: Cache)
        ensures
            final(self).cache == Some(Arc::new(cache)),
            final(self).caching_strategy == old(self).caching_strategy,
            final(self).aligned_reader_factory == old(self).aligned_reader_factory,
    {
        self.cache = Some(Arc::new(cache));
    }

    /// Keeps a cache of `num_nodes` nodes and makes it the caching strategy.
    pub fn install_cache(&mut self, cache: Cache, num_nodes: usize)
        ensures
            final(self).cache == Some(Arc::new(cache)),
            final(self).caching_strategy == CachingStrategy::StaticCacheWithBfsNodes(num_nodes),
            final(self).aligned_reader_factory == old(self).aligned_reader_factory,
    {
        self.cache = Some(Arc::new(cache));
        self.caching_strategy = CachingStrategy::StaticCacheWithBfsNodes(num_nodes);
    }

    /// The cache that a vertex provider reads from: none without a caching
    /// strategy, and an error if there should be one and is not.
    pub fn provider_cache(&self) -> (result: Result<Option<&Arc<Cache>>, CacheError>)
        ensures
            result == match (self.caching_strategy, &self.cache) {
                (CachingStrategy::NoCache, _) => Ok::<Option<&Arc<Cache>>, CacheError>(None),
                (_, Some(cache)) => Ok(Some(cache)),
                (_, None) => Err(CacheError::CacheMissing),
            },
    {
        match self.caching_strategy {
            CachingStrategy::StaticCacheWithBfsNodes(_) => match &self.cache {
                Some(cache) => Ok(Some(cache)),
                None => Err(CacheError::CacheMissing),
            },
            CachingStrategy::NoCache => Ok(None),
        }
    }

    /// Finishes a hybrid cache, of which `loaded` nodes were loaded.
    pub fn install_hybrid_cache(
        &mut self,
        cache: Cache,
        loaded: usize,
        num_nodes_to_cache: usize,
    ) -> (result: Result<(), CacheError>)
        ensures
            if loaded != num_nodes_to_cache {
                &&& *final(self) == *old(self)
                &&& result == Err::<(), CacheError>(
                    CacheError::LoadedNodes { loaded, budget: num_nodes_to_cache },
                )
            } else {
                &&& result is Ok
                &&& final(self).cache == Some(Arc::new(cache))
                &&& final(self).caching_strategy == CachingStrategy::StaticCacheWithBfsNodes(
                    num_nodes_to_cache,
                )
                &&& final(self).aligned_reader_factory == old(self).aligned_reader_factory
            },
    {
        if loaded != num_nodes_to_cache {
            return Err(CacheError::LoadedNodes { loaded, budget: num_nodes_to_cache });
        }
        self.install_cache(cache, num_nodes_to_cache);
        Ok(())
    }

    /// The walk that caches the surroundings of the given nodes, if there are any and
    /// any node is to be cached.
    pub fn seed_cache_from_nodes(
        &self,
        seeds: &[u32],
        num_nodes_to_cache: usize,
        metadata: &GraphMetadata,
    ) -> (walk: Option<CacheWalk>)
        ensures
            walk is None <==> seeds@.len() == 0 || num_nodes_to_cache == 0,
            walk is Some ==> {
                &&& walk->0.num_nodes_to_cache == cache_nodes::smaller(
                    num_nodes_to_cache,
                    metadata.num_pts as usize,
                )
                &&& walk->0.walk.wf()
                &&& walk->0.walk.pending().len() == 0
                &&& walk->0.walk.spec_limit() == walk->0.num_nodes_to_cache
                &&& walk->0.walk@ == bfs::start_state(seeds@)
            },
    {
        if seeds.len() == 0 || num_nodes_to_cache == 0 {
            return None;
        }
        let points: usize = metadata.num_pts as usize;
        let limit: usize = if num_nodes_to_cache < points {
            num_nodes_to_cache
        } else {
            points
        };
        Some(CacheWalk { walk: BfsWalk::start(seeds, limit), num_nodes_to_cache: limit })
    }

    /// The nodes of a cache that is to hold exactly the first different nodes given,
    /// if there are any and any node is to be cached.
    pub fn seed_cache_from_exact_nodes(
        &self,
        nodes: &[u32],
        num_nodes_to_cache: usize,
        metadata: &GraphMetadata,
    ) -> (result: Result<Option<Vec<u32>>, CacheError>)
        ensures
            if nodes@.len() == 0 || num_nodes_to_cache == 0 {
                result is Ok && result->Ok_0 is None
            } else {
                match cache_nodes::exact_selection(
                    nodes@,
                    metadata.num_pts as usize as int,
                    cache_nodes::smaller(num_nodes_to_cache, metadata.num_pts as usize) as int,
                ) {
                    Ok(selected) => result is Ok && result->Ok_0 is Some && result->Ok_0->0@
                        == selected,
                    Err(node) => result is Err && result->Err_0 == (CacheError::CacheNodeOutOfRange {
                        node,
                        points: metadata.num_pts,
                    }),
                }
            },
    {
        if nodes.len() == 0 || num_nodes_to_cache == 0 {
            return Ok(None);
        }
        match cache_nodes::select_exact_nodes(nodes, num_nodes_to_cache, metadata.num_pts) {
            Ok(selected) => Ok(Some(selected)),
            Err(error) => Err(error),
        }
    }

    /// The walk from the routing roots that a hybrid cache starts from.
    pub fn start_hybrid_walk(
        &self,
        seeds: &[u32],
        frequency_nodes: &[u32],
        num_nodes_to_cache: usize,
        metadata: &GraphMetadata,
    ) -> (result: Result<BfsWalk, CacheError>)
        ensures
            match result {
                Ok(walk) => {
                    &&& cache_nodes::hybrid_fault(
                        seeds@,
                        frequency_nodes@,
                        num_nodes_to_cache,
                        metadata.num_pts,
                    ) is None
                    &&& walk.wf()
                    &&& walk.pending().len() == 0
                    &&& walk.spec_limit() == num_nodes_to_cache
                    &&& walk@ == bfs::start_state(seeds@)
                },
                Err(error) => cache_nodes::hybrid_fault(
                    seeds@,
                    frequency_nodes@,
                    num_nodes_to_cache,
                    metadata.num_pts,
                ) == Some(error),
            },
    {
        match cache_nodes::check_hybrid_request(
            seeds,
            frequency_nodes,
            num_nodes_to_cache,
            metadata.num_pts,
        ) {
            Ok(_) => Ok(BfsWalk::start(seeds, num_nodes_to_cache)),
            Err(error) => Err(error),
        }
    }

    /// Selects the nodes of a hybrid cache, given the nodes that the walk from the
    /// routing roots visited.
    pub fn seed_cache_from_hybrid_nodes(
        &self,
        seeds: &[u32],
        frequency_nodes: &[u32],
        num_nodes_to_cache: usize,
        requested_bfs_nodes: usize,
        bfs_nodes: &[u32],
        metadata: &GraphMetadata,
    ) -> (result: Result<(Vec<u32>, HybridCacheComposition), CacheError>)
        ensures
            ({
                let fault = hybrid_nodes_fault(
                    seeds@,
                    frequency_nodes@,
                    num_nodes_to_cache,
                    requested_bfs_nodes,
                    bfs_nodes@,
                    *metadata,
                );
                let roots = seeds@.to_set().len();
                let (first, second, third) = cache_nodes::hybrid_stages(
                    bfs_nodes@,
                    frequency_nodes@,
                    num_nodes_to_cache as int,
                    requested_bfs_nodes as int,
                    roots as int,
                );
                match result {
                    Ok((selected, composition)) => {
                        &&& fault is None
                        &&& selected@ == third
                        &&& selected@.len() == num_nodes_to_cache
                        &&& composition == (HybridCacheComposition {
                            requested_bfs_nodes,
                            routing_root_nodes: roots as usize,
                            bfs_nodes: first.len() as usize,
                            frequency_nodes: (second.len() - first.len()) as usize,
                            fallback_bfs_nodes: (third.len() - second.len()) as usize,
                            total_nodes: num_nodes_to_cache,
                            estimated_payload_bytes: (metadata.node_len * num_nodes_to_cache) as u64,
                        })
                    },
                    Err(error) => fault == Some(error),
                }
            }),
    {
        let roots: usize = match cache_nodes::check_hybrid_request(
            seeds,
            frequency_nodes,
            num_nodes_to_cache,
            metadata.num_pts,
        ) {
            Ok(roots) => roots,
            Err(error) => {
                return Err(error);
            },
        };
        cache_nodes::compose_hybrid_cache_nodes(
            bfs_nodes,
            frequency_nodes,
            num_nodes_to_cache,
            requested_bfs_nodes,
            roots,
            metadata.node_len,
        )
    }
}

/// Opens the index at a path.
#[derive(Debug)]
pub struct AlignedFileReaderFactory {
    pub disk_index_path: String,
}

impl<Cache> DiskVertexProviderFactory<AlignedFileReaderFactory, Cache> {
    /// Creates a factory for the index at a path.
    pub fn from_disk_index_path(
        disk_index_path: String,
        caching_strategy: CachingStrategy,
    ) -> (factory: Self)
        ensures
            factory.aligned_reader_factory.disk_index_path == disk_index_path,
            factory.caching_strategy == caching_strategy,
            factory.cache is None,
    {
        Self::new(AlignedFileReaderFactory { disk_index_path }, caching_strategy)
    }
}

/// Why the nodes of a hybrid cache cannot be selected.
pub open spec fn hybrid_nodes_fault(
    seeds: Seq<u32>,
    frequency_nodes: Seq<u32>,
    budget: usize,
    requested: usize,
    bfs_nodes: Seq<u32>,
    metadata: GraphMetadata,
) -> Option<CacheError> {
    let early = cache_nodes::hybrid_fault(seeds, frequency_nodes, budget, metadata.num_pts);
    if early is Some {
        early
    } else {
        cache_nodes::compose_fault(
            bfs_nodes,
            frequency_nodes,
            budget,
            requested,
            seeds.to_set().len() as usize,
            metadata.node_len,
        )
    }
}

/// A hybrid cache keeps every routing root: the different roots are its first
/// nodes, whatever share of it the walk was to have.
pub proof fn lemma_hybrid_cache_holds_roots(
    seeds: Seq<u32>,
    frequency_nodes: Seq<u32>,
    budget: usize,
    requested: usize,
    lists: spec_fn(u32) -> Seq<u32>,
    metadata: GraphMetadata,
)
    requires
        hybrid_nodes_fault(
            seeds,
            frequency_nodes,
            budget,
            requested,
            bfs::start_state(seeds).run(lists, budget as int).visited,
            metadata,
        ) is None,
    ensures
        ({
            let roots = bfs::start_state(seeds).waiting;
            let nodes = cache_nodes::hybrid_stages(
                bfs::start_state(seeds).run(lists, budget as int).visited,
                frequency_nodes,
                budget as int,
                requested as int,
                seeds.to_set().len() as int,
            ).2;
            &&& nodes.no_duplicates()
            &&& nodes.len() == budget
            &&& roots.len() == seeds.to_set().len()
            &&& nodes.take(roots.len() as int) == roots
        }),
{
    let bfs_nodes = bfs::start_state(seeds).run(lists, budget as int).visited;
    let roots = bfs::start_state(seeds).waiting;
    bfs::lemma_walk_visits_roots_first(seeds, lists, budget as int);
    roots.unique_seq_to_set();
    cache_nodes::lemma_hybrid_cache_keeps_roots(
        bfs_nodes,
        frequency_nodes,
        budget,
        requested,
        seeds.to_set().len() as usize,
        metadata.node_len,
    );
}

} // verus!
