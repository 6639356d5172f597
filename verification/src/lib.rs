//! Peer manager and routing engine of a mesh overlay network.
//!
//! The crate keeps the table of direct neighbour connections, the link
//! states learned from the mesh, the route table computed from both, and the
//! read-only queries over them. Every function carries a contract that Verus
//! proves.

pub mod link_state;
pub mod model;
pub mod paths;
pub mod peer_manager;
pub mod peer_table;
pub mod routes;
pub mod routing;
pub mod rpc;
pub mod search;
pub mod stats;
pub mod text;
