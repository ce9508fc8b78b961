//! Self/peer personality-awareness assessment core.
//!
//! A fixed vocabulary of trait names defines bit positions; a subject's
//! self-selected trait set is compared against accumulated peer-selected
//! trait sets to derive the four awareness quadrants (arena, blind, facade,
//! unknown) together with per-trait corroboration counts. The store keeps
//! one record per subject under replace-own / accumulate-peers semantics,
//! and the codec gives the store a lossless durable byte representation.

pub mod classify;
pub mod codec;
pub mod store;
pub mod traitset;
pub mod vocab;
