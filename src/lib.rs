//! Blacklist management for a DNS resolver: a zone-declaration store and a
//! reason log kept side by side, with add, remove and list operations.

pub mod listing;
pub mod reason_log;
pub mod registry;
pub mod zone;
