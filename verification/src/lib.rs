//! feedbinctl: reconcile a templated configuration of saved searches and
//! variables against the state held by a remote feed service.
//!
//! The library is purely computational: it derives variable names from
//! category labels, renders `{{ name }}` placeholders in query templates,
//! resolves whole configurations, diffs two resolved states into an ordered
//! list of create/update/delete operations, merges variable tables, and
//! reads and writes the configuration document. All I/O (network, keyring,
//! files, terminal) lives in the surrounding application.

pub mod cli;
pub mod codec;
pub mod config;
pub mod diff;
pub mod merge;
pub mod paths;
pub mod pull;
pub mod resolve;
pub mod strmap;
pub mod strutil;
pub mod template;
