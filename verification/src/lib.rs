//! Async replication and point-in-time backup for the fjall key-value store, to object storage.
//!
//! The unit of replication is the version: the immutable file set of a database at one point in
//! time, with its journals and its pointer files. A bucket holds each immutable file once, and a
//! record per version that names what belongs to it. Restore picks a record and pulls what it
//! names; a follower keeps pulling the newest record and swaps to it.
//!
//! The library decides and computes; it does no I/O. Where work alternates with reads and writes
//! outside (a capture, a replication, a search, a restore, a listing), it is a conversation: each
//! step says what to do, and the answer gives the next step.
//!
//! - [`capture`]: a consistent file set from a live database directory.
//! - [`replicator`], [`upload`]: the writer, and the replication of one version.
//! - [`retention`]: what leaves the bucket.
//! - [`restore`]: which version to restore, and how.
//! - [`follower`]: the hot reader.
//! - [`object_store`], [`local_store`], [`listing`], [`layout`]: where things live.
//! - [`checksum`], [`compress`]: what is done to bytes on the way.
//!
//! The modules that end in `_laws` state what holds of several of these together.

pub mod capture;
pub mod capture_laws;
pub mod checksum;
pub mod compress;
pub mod decimal;
pub mod error;
pub mod follower;
pub mod history;
pub mod history_laws;
pub mod host;
pub mod integrity_laws;
pub mod keyset;
pub mod layout;
pub mod layout_laws;
pub mod listing;
pub mod listing_laws;
pub mod lists;
pub mod local_store;
pub mod object_store;
pub mod order;
pub mod prune_laws;
pub mod record_laws;
pub mod replication_laws;
pub mod replicator;
pub mod restore;
pub mod restore_laws;
pub mod retention;
pub mod retention_laws;
pub mod round_trip_laws;
pub mod search_laws;
pub mod text;
pub mod text_laws;
pub mod types;
pub mod upload;
pub mod upload_laws;
pub mod walk_laws;

pub use capture::{capture, Captured};
pub use error::Error;
pub use follower::{FollowConfig, Follower};
pub use local_store::LocalObjectStore;
pub use object_store::MemObjectStore;
pub use replicator::{LocalVersion, ReplicateConfig, Replicator};
pub use types::{Cursor, FileId, Generation, PointerFile, RestoreTarget, VersionRecord};
