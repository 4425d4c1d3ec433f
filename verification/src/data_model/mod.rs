//! What the first block of a graph index holds.
pub mod graph_header;
pub mod graph_metadata;

pub use graph_header::GraphHeader;
pub use graph_header::GraphLayoutVersion;
pub use graph_metadata::GraphMetadata;
pub use graph_metadata::LayoutFingerprint;
pub use graph_metadata::ParseSliceError;
