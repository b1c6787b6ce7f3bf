//! A verified model of a hierarchical, typed key-value registry.
//!
//! The crate covers the three parts of such a system that carry real design
//! weight: resolving human-readable address strings like
//! `HKEY_LOCAL_MACHINE\Software\Foo` into a root hive plus subpath, the
//! bijective codec between value kinds and their native integer tags, and the
//! semantics of read/write/delete operations and of batches over many
//! addresses, including the partial-failure policy of a batch.

pub mod batch;
pub mod codec;
pub mod error;
pub mod path;
pub mod store;

pub use codec::RegistryType;
pub use error::RegError;
pub use path::{RegistryAddress, RootHiveId};
pub use store::{PutRequest, RegStore, RegistryItem, RegistryItemValue, ValueRecord};
