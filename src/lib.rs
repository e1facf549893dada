//! On-chain coordination for a threshold secret store: key-server set
//! membership with migrations, and threshold aggregation of key-server
//! responses to client requests.

pub mod bytes;
pub mod balances;
pub mod build_cache;
pub mod entity;
pub mod error;
pub mod id;
pub mod key_servers;
pub mod mask;
pub mod migration_tx;
pub mod queue;
pub mod secret_store;
pub mod service;
