//! Decides which mail to quarantine by the age of the domain that signed it.
pub mod config;
pub mod dkim;
pub mod domain;
pub mod jmap;
pub mod number;
pub mod policy;
pub mod push;
pub mod retry;
pub mod state;
pub mod text;
pub mod time;
pub mod worker;
