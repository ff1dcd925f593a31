//! An embedded object store: records are serialized to a self-describing
//! binary format (a schema hash followed by the record's fields), addressed
//! by a hex-encoded identifier inside a per-type namespace, and guarded by a
//! per-key readers/writer lock table.
//!
//! - [`bytes`] is the byte codec, [`hashing`] the schema hash it prefixes
//!   to every record, and [`hex`] the bounded identifier codec.
//! - [`store`] is the interface a record type offers the engine; [`count`]
//!   extends identifiers with auto-increment allocation; [`records`] holds
//!   ready-made record types, one with a migration predecessor.
//! - [`locks`] is the per-key readers/writer lock table and [`database`]
//!   the storage engine that ties everything together.

pub mod bytes;
pub mod count;
pub mod database;
pub mod error;
pub mod hashing;
pub mod hex;
pub mod locks;
pub mod records;
pub mod store;

pub use bytes::Bytes;
pub use count::Count;
pub use database::Database;
pub use error::Error;
pub use error::ErrorKind;
pub use store::Store;
