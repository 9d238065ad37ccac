//! Core of the KubeSavings agent: configuration rules, quantity parsing, the
//! assembly of a cluster snapshot from what the API server returned, and the
//! decisions of the snapshot sender.

pub mod autoscaler;
pub mod autoscaler_laws;
pub mod binary;
pub mod collector;
pub mod config;
pub mod config_laws;
pub mod decimal;
pub mod degradations;
pub mod json;
pub mod json_laws;
pub mod namespace_laws;
pub mod node_laws;
pub mod nodes;
pub mod pod_laws;
pub mod pods;
pub mod quantity;
pub mod quantity_laws;
pub mod row_laws;
pub mod sender;
pub mod sender_laws;
pub mod snapshot;
pub mod snapshot_laws;
pub mod table;
pub mod text;
pub mod text_laws;
pub mod time;
pub mod usage;
pub mod usage_laws;
pub mod workload;
pub mod workload_laws;
