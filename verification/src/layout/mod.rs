//! Graph-aware physical layout of an index.
pub mod error;
pub mod estimate;
pub mod fields;
pub mod image;
pub mod index;
pub mod mapping;
pub mod ordering;
pub mod packing;
pub mod quality;
pub mod rewrite;
pub mod sidecar;

pub use error::InvalidLayout;
pub use error::LayoutError;
pub use estimate::estimate_graph_aware_layout;
pub use estimate::LayoutEstimate;
pub use fields::StructuralFields;
pub use quality::LayoutQuality;
pub use rewrite::rewrite_graph_aware_layout;
pub use rewrite::rewrite_graph_aware_layout_to;
pub use rewrite::LayoutReport;
pub use rewrite::PhaseTimings;
pub use sidecar::default_sidecar_path;
pub use sidecar::load_physical_layout;
pub use sidecar::PhysicalLayout;
