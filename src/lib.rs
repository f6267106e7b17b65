//! Reports which installed packages are outdated against an upstream
//! package-tracking service: parsing of the local inventory, the paged
//! collection of the remote one, their reconciliation and the report.
pub mod error;
pub mod installed;
pub mod reconcile;
pub mod remote;
pub mod report;
pub mod text;
pub mod version;
