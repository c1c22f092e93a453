//! Discovery of a shared file announced over multicast DNS.
//!
//! The crate builds the PTR query, decodes the answers that come back and
//! reduces them to the host, port, user and file of the share. Sockets and
//! timers are left to the caller: the resolver is driven by events.

pub mod dnsparser;
pub mod dnsresolv;
pub mod error;
pub mod fetch;
pub mod httpclient;
pub mod name;
pub mod wire;

pub use error::DnsError;
pub use error::Malformation;
