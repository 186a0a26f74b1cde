//! Address handling for an HTTP client's name resolution: parsing of IP
//! literals, the per-domain table of ranked addresses, custom address
//! overrides, and per-request connection information.
pub mod net;
pub mod text;
pub mod table;
pub mod seqs;
pub mod client;
pub mod info;
