//! Visual regression testing: screenshot identities, the on-disk layout,
//! comparison decisions, baseline updates and the HTML report.
pub mod text;
pub mod identity;
pub mod identity_laws;
pub mod order;
pub mod layout;
pub mod result;
pub mod config;
pub mod sidecar;
pub mod diff;
pub mod compare;
pub mod files;
pub mod report;
pub mod approve;
pub mod update;
pub mod cli;
pub mod bench;
pub mod json;
