//! Verified core of a plain-text task-list synchronizer.
//!
//! A task list is kept as one record per line.  This crate defines the record
//! grammar (completion flag, priority, dates, free-text description with
//! embedded metadata tags), its serializer and parser, the escaping rules that
//! neutralize tag-like text imported from a remote feed, and the reconciler
//! that merges a freshly fetched set of remote records into the local list.
//! All of it is specified and proved with Verus; the I/O shell around it
//! (configuration, HTTP fetch, file handling) is ordinary Rust elsewhere.

pub mod codec;
pub mod config;
pub mod date;
pub mod error;
pub mod feed;
pub mod reconcile;
pub mod tags;
pub mod text;
pub mod todo;
