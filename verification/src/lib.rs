//! Core of an entity-component-system runtime: component columns with
//! swap-remove compaction, a reference-counted event bus, deferred structural
//! mutation, and conflict-free scheduling of systems.
pub mod bitcount;
pub mod bitvec_api;
pub mod component;
pub mod dashmap_api;
pub mod entity;
pub mod error;
pub mod event;
pub mod filter;
pub mod query;
pub mod resource;
pub mod scheduler;
pub mod smallvec_api;
pub mod sparse;
pub mod state;
pub mod system;
pub mod util;
pub mod world;
