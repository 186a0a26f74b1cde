//! Connecting to hosts: resolving names and ranking the addresses found.
pub mod dns;
pub mod ranking;
