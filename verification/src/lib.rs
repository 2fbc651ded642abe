//! A small file-database library: a managed directory tree whose items are
//! addressed by a stable identity (a shared name plus a position) instead of
//! raw paths. The library holds the index from identities to relative paths
//! and decides every operation; the filesystem work itself is handed to the
//! caller as explicit plans.
#![verifier::loop_isolation(false)]

pub mod errors;
pub mod filesize;
pub mod ids;
pub mod laws;
pub mod manager;
pub mod paths;
pub mod report;

pub use errors::DatabaseError;
pub use filesize::FileInformation;
pub use filesize::FileSize;
pub use filesize::FileSizeUnit;
pub use ids::ItemId;
pub use manager::AtomicWritePlan;
pub use manager::CreatePlan;
pub use manager::DatabaseManager;
pub use manager::DeletePlan;
pub use manager::ItemKind;
pub use manager::RenamePlan;
pub use manager::TransferPlan;
pub use report::ExportMode;
pub use report::ExternalChange;
pub use report::ForceDeletion;
pub use report::ScanPolicy;
pub use report::ScanReport;
pub use report::Serialize;
pub use report::ShouldSort;
