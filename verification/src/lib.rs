//! Tiered retention for timestamped backup archives.
//!
//! The library decides which archives of a directory may be removed. It reads
//! entry names ([`parser`]), groups the archives by target ([`grouper`]),
//! arranges each group in chronological order ([`chronology`]) and selects
//! the archives that no retention rule protects ([`selector`]); [`plan`] does
//! all of this for a whole directory. [`laws`] states what selection
//! guarantees. The library performs no I/O: listing the directory and removing
//! files is the caller's part.

pub mod chronology;
pub mod grouper;
pub mod laws;
pub mod parser;
pub mod plan;
pub mod policy;
pub mod record;
pub mod selector;
pub mod text;

pub use grouper::{group_by_target, TargetGroup};
pub use parser::{parse, parse_entries};
pub use plan::plan_deletions;
pub use policy::{RetentionPolicy, MONTH_WINDOW, RECENT_FLOOR, YEAR_WINDOW};
pub use record::{BackupRecord, Timestamp};
pub use selector::{backups_to_delete, select_deletions, EmptyGroupError};
