//! The client side: name resolution and connection support.
pub mod connect;
pub mod dns;
