//! An archetype-based entity-component data store and its stage scheduler.
//!
//! Entities are generation-tagged handles leased from block pools that may be
//! shared by several allocators. Entities of identical shape (the same set of
//! component types and the same set of shared "tag" types) are grouped into
//! archetypes, stored columnwise in fixed-capacity chunks. Queries select
//! chunks by archetype- and chunk-level filters, and a stage executor derives
//! a dependency graph from the declared accesses of a batch of systems.
//!
//! Component types and tag types are identified by small integers chosen by
//! the caller; component values are an opaque payload type, tag values are
//! integers. Every operation on the store is specified against a mathematical
//! model of blocks, chunks and location maps, and verified.

pub mod entity;
pub mod storage;
pub mod world;
pub mod query;
pub mod resource;
pub mod schedule;
pub mod command;
