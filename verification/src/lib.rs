//! A cross-distribution package-version report (the "madison" table): a
//! snapshot of repository listings is scanned into a per-package version
//! map, duplicate observations are pooled by an order-independent union,
//! and queries render deterministically sorted rows, served from an
//! atomically replaced snapshot with a generation-watched response cache.

pub mod cache;
pub mod mapping;
pub mod query;
pub mod render;
pub mod service;
pub mod store;
pub mod table;
pub mod types;
pub mod typeset;
pub mod vercmp;
