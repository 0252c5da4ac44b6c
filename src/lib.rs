//! Storage and authorization core of a self-hosted log-ingestion service:
//! the binary keychain codec, the in-memory key store and its gate, the
//! text wire protocol of log batches, day buckets and the retention policy.

pub mod error;
pub mod keychain;
pub mod text;
pub mod clock;
pub mod wire;
pub mod keystore;
pub mod retention;
pub mod reads;
