//! Folder-based synchronization of per-device, append-only event logs.
//!
//! `model` holds buckets and events with their abstract values, `access` the
//! capability set every store offers, `ident` the rules that name destination
//! buckets, `merge` the resumable merge stated over sequences, `engine` the
//! pass itself, `laws` what holds across passes, and `memstore` a store kept
//! in memory.

pub mod model;
pub mod ident;
pub mod access;
pub mod merge;
pub mod engine;
pub mod laws;
pub mod memstore;
