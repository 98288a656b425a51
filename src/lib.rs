//! Compatibility checking of the interface descriptions ("metadata") that a set of
//! nodes expose: validate and normalise each node's document, hash it whole or
//! scoped to one subsystem, and group the nodes by digest.

pub mod model;
pub mod envelope;
pub mod encoding;
pub mod hashing;
pub mod aggregate;
