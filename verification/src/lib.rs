//! Dynamic DNS reconciliation for a provider's REST API: a lazily populated
//! zone and record cache, an update protocol that verifies each write took
//! effect, IPv4/IPv6 address-suffix rewriting, and the plain `key=value`
//! configuration format, all with proved contracts. The transport, the
//! files and the command line stand outside the library and hand it plain
//! values.

pub mod api;
pub mod cache;
pub mod config;
pub mod error;
pub mod kv;
pub mod reconcile;
pub mod rewrite;
pub mod strutil;
