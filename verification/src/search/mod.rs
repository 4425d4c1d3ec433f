//! Reading and caching graph nodes.
pub mod bfs;
pub mod cache_nodes;
pub mod disk_sector_graph;
pub mod vertex_provider_factory;

pub use cache_nodes::HybridCacheComposition;
pub use disk_sector_graph::DiskSectorGraph;
pub use vertex_provider_factory::CachingStrategy;
pub use vertex_provider_factory::DiskVertexProviderFactory;
