//! Durable storage of bus events as Parquet partitions.

pub mod columnar;
pub mod compact;
pub mod deltas;
pub mod error;
pub mod event_table;
pub mod file_schema;
pub mod flush;
pub mod format_laws;
pub mod history;
pub mod laws;
pub mod merge;
pub mod page_laws;
pub mod pages;
pub mod partition;
pub mod persisted_event_types;
pub mod registry;
pub mod row;
pub mod schema_laws;
pub mod select;
pub mod sources;
pub mod store;
pub mod table_file;
pub mod vessels;

pub use error::PersistError;
pub use flush::{FlushEnd, Flushed, StoredFile};
pub use row::PersistedEvent;
pub use select::{select_latest_within_tolerance, DEFAULT_TOLERANCE_NS};
pub use store::{EventStore, Partition};
