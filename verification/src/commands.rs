//! The commands of the version control: status, commit, checkout, branch and log.
pub mod status;
pub mod commit;
pub mod checkout;
pub mod branch;
pub mod log;
