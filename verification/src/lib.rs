//! A server-side file store whose entries are reached through unguessable,
//! per-recipient capability links: deterministic secret-keyed link tokens,
//! symlink capability publication, and the privilege transition that moves
//! entry trees between the operating identity and the service identity
//! without an observable half-protected state. The row store and the
//! filesystem are modelled here; the callers mirror each returned action
//! onto the real database and disk.

pub mod errors;
pub mod filename;
pub mod ledger;
pub mod links;
pub mod perms;
pub mod resolve;
pub mod store;
pub mod text;
pub mod token;
