//! Resolves a requested set of endpoints (named software modules) against a
//! declarative configuration document, computing the transitive closure of
//! their `require` dependencies, and merges the resolved endpoints'
//! environment contributions into a shell-sourceable profile.

pub mod config;
pub mod emit;
pub mod resolve;
