//! Repository discovery and webhook reconciliation for a Git hosting service.
//!
//! The library holds the decisions of a reconciliation pass: how repository
//! names are parsed, how a pagination header gives the pages still to fetch,
//! which webhook belongs to this system and what to do with it, and how the
//! results of the remote calls of each stage are combined. The remote calls
//! themselves are made by the caller, which hands their results back.

pub mod text;
pub mod repository;
pub mod pagination;
pub mod webhook;
pub mod client;
pub mod reconcile;
pub mod api;
