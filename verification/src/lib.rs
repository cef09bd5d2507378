//! The snapshot subsystem of a replicated key-value store: how a full copy of
//! a region is laid out on disk, built, streamed, received, checked and
//! applied, and how the snapshots of a store are kept within their quota.
pub mod cf_file;
pub mod checksum;
pub mod error;
pub mod key;
pub mod manager;
pub mod meta;
pub mod meta_codec;
pub mod paths;
pub mod profile;
pub mod quota;
pub mod registry;
pub mod snap_io;
pub mod snapshot;
pub mod stream;
pub mod tablet;
pub mod text;

pub use crate::cf_file::{CfFile, CfFileView};
pub use crate::error::{Cause, Error, Result};
pub use crate::key::{RaftSnapshot, SnapKey, SnapshotMetadata, TabletSnapKey};
pub use crate::manager::{FileInfo, OpenMode, SnapManager, SnapManagerBuilder, SnapManagerCore};
pub use crate::meta::{gen_snapshot_meta, plain_file_used, SnapshotCfFile, SnapshotMeta};
pub use crate::registry::{Registry, SnapEntry};
pub use crate::snap_io::{check_abort, BuildStatistics, StaleDetector};
pub use crate::snapshot::{CheckPolicy, Snapshot, SnapshotStatistics};
pub use crate::tablet::{ReceivingGuard, SnapStats, SnapshotStat, TabletSnapManager};
