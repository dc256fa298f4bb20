//! Fact packs: their manifests, the layouts they are distributed in, the cache
//! they are kept in and the lock that pins them.

pub mod accepting;
pub mod cache;
pub mod copies;
pub mod importing;
pub mod keeping;
pub mod laws;
pub mod layout;
pub mod lock;
pub mod manifest;
pub mod names;
pub mod picking;
pub mod requirement;
pub mod resolve;
pub mod rule_laws;
pub mod rules;
pub mod store;
pub mod tree;
pub mod validate;
