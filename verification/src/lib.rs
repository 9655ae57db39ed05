//! Core of a soft-delete utility: instead of removing a filesystem entry,
//! it is relocated into a flat holding directory under a name that encodes
//! its original absolute path and the moment it was dropped, so that it can
//! later be listed, recovered to its original place, or purged for good.
//!
//! This crate holds the verified logic: the name codec, the path resolver,
//! the holding-store queries, the relocation protocol, and the per-verb
//! decision functions. The unverified shell around it performs the actual
//! filesystem calls and feeds their outcomes back in as plain values.

pub mod codec;
pub mod dispatch;
pub mod engine;
pub mod resolve;
pub mod store;
