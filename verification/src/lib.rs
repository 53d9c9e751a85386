//! A load-balancing core for a JSON-RPC reverse proxy: a registry of backend
//! endpoints with round-robin selection over the currently alive ones, health
//! probes that judge liveness per node role, and the request-routing decisions
//! of the proxy handler.

pub mod probe;
pub mod proxy;
pub mod registry;
