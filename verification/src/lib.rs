//! Incremental reconciliation of a CI/CD backend's state (projects, pipelines,
//! jobs) into a long-lived visual tree.
//!
//! The engine (`dom`) merges what was fetched into the tree (`document`), one
//! upsert at a time, and hands out the patches that carry each change to the
//! screen. The refresh cycle (`refresh`) decides what each tick and each
//! outcome of a fetch leads to; `gitlab` says what to ask the server and reads
//! its records. What the upserts do is defined over the tree as a
//! mathematical value (`tree`, `upsert`), and what holds of them is proved in
//! `idempotence`, `counting`, `children`, `reading`, `patching` and
//! `ordering`.

pub mod children;
pub mod counting;
pub mod document;
pub mod dom;
pub mod failure;
pub mod gitlab;
pub mod idempotence;
pub mod keys;
pub mod ordering;
pub mod patching;
pub mod reading;
pub mod refresh;
pub mod status;
pub mod text;
pub mod tree;
pub mod upsert;
