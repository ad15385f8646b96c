//! Upstream fleet controller for an RPC resolver endpoint.
//!
//! The crate keeps the registry of upstream node connections of each service,
//! tracks their health, shares one health probe between connections that reach
//! the same physical node, keeps each selection bucket ordered by load and
//! elects one node per bucket by a weighted draw.

pub mod args;
pub mod config;
pub mod connection;
pub mod delegate;
pub mod election;
pub mod error;
pub mod fleet;
pub mod graph;
pub mod group;
pub mod hash;
pub mod laws;
pub mod monitor;
pub mod network;
pub mod node;
pub mod order;
pub mod params;
pub mod probe;
pub mod reconcile;
pub mod registry;
pub mod resolver;
pub mod rpc;
pub mod services;
pub mod session;
pub mod settings;
pub mod status;
pub mod text;
pub mod tpl;
pub mod transport;
