//! Query-aware entry points for disk graph search.
pub mod generate;
pub mod nearest;
pub mod representatives;
pub mod table;

pub use generate::generate_routing_table;
pub use generate::generate_routing_table_pq;
pub use table::RoutingError;
pub use table::RoutingTable;
