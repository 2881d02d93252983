//! A client-side, eventually-consistent mirror of a remote chat platform's
//! object graph (servers, channels, threads, members).
//!
//! The crate's core is the event-ingestion and cache-reconciliation engine:
//! it classifies incoming change events, applies them to an in-memory object
//! graph under explicit invariants, and decides which repair fetches to
//! request from the outbound collaborator when the event stream alone cannot
//! keep the mirror consistent.

pub mod keyed;
pub mod store;
pub mod events;
pub mod reconcile;
pub mod session;
pub mod laws;
