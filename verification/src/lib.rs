//! A verified core for a directory-bookmarking tool: a store of
//! name-to-path associations with collision policy, filtering,
//! sorting, and persistence codecs.

pub mod codec;
pub mod errors;
pub mod query;
pub mod store;
pub mod strutil;
