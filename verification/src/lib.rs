//! A verified directory and principal-management engine for a mail server.
//!
//! The crate models the identity subsystem: principal records (accounts,
//! groups, resources, mailing lists), the secondary indexes that keep names
//! and e-mail addresses unique, bidirectional group membership, address
//! mapping (subaddressing and catch-all rewriting), and the query facade
//! that protocol front ends call for every lookup.
//!
//! Names, addresses and domains are case-insensitive in the ASCII range, by
//! design: lookups fold `A`-`Z` to `a`-`z` and records are stored in folded
//! form. The folding is the library's own and verified; spellings that
//! differ only outside ASCII are distinct identifiers.

pub mod assoc;
pub mod auth;
pub mod capabilities;
pub mod dispatch;
pub mod ipc;
pub mod laws;
pub mod lookup;
pub mod manage;
pub mod mapping;
pub mod session;
pub mod store;
pub mod strutil;
pub mod throttle;
pub mod types;
pub mod update;
