//! A deterministic, offline BGP routing-policy simulator.
//!
//! The crate models how BGP announcements propagate across a graph of
//! autonomous systems under the Gao-Rexford commercial-relationship model,
//! and how defensive routing policies (ROV, BGPSec, ASPA, OTC and others)
//! alter the outcome of prefix-hijack attacks.

pub mod amap;
pub mod announcement;
pub mod as_graph;
pub mod caida;
pub mod engine;
pub mod policy;
pub mod policy_extensions;
pub mod prefix;
pub mod route_validator;
pub mod scenarios;
pub mod shared;
pub mod topologies;
pub mod vecs;
