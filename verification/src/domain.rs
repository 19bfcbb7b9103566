//! What is known about domains: where registrations happen, and when one did.
pub mod cache;
pub mod psl;
pub mod rdap;
