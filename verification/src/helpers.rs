pub mod get_nodes_from_sorted_raw_nodes;
pub mod get_sorted_raw_nodes_from_payloads;

pub use get_nodes_from_sorted_raw_nodes::get_nodes_from_sorted_raw_nodes;
pub use get_sorted_raw_nodes_from_payloads::get_sorted_raw_nodes_from_payloads;
pub use get_sorted_raw_nodes_from_payloads::PayloadWithLevel;
