//! AudioZones control-plane library: stable identities, the zone store, the
//! reconcile controller core, the in-memory backend's graph mutations, the PipeWire
//! backend's model of the graph and the params it reads and writes, and the pure
//! decisions behind the REST handlers.

pub mod text;
pub mod decimal;
pub mod wire;
pub mod search;
pub mod table;
pub mod sorted;
pub mod identity;
pub mod zones;
pub mod model;
pub mod backend;
pub mod spa_params;
pub mod pw_model;
pub mod api;
pub mod auth;
pub mod config;
pub mod laws;
pub mod pw_laws;
