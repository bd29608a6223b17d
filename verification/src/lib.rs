//! A deterministic entity-component-system data engine with rollback.
//!
//! Components live in sparse storages shaped as three-level bitmask trees.
//! Every write and removal is journaled per tick, so that a storage can be
//! taken back to the end of any tick whose journal it still retains.
//! Queries walk the trees by mask arithmetic, and a scheduler orders the
//! systems into wavefronts by what they read and write.
//!
//! The modules, leaves first:
//!
//! - [`bits`] and [`scan`]: mask arithmetic and mask-guided search;
//! - [`tick`], [`frame`], [`entity`], [`component`], [`ecs`], [`error`]:
//!   the small values;
//! - [`pool`] and [`arena`]: recycling of nodes and bump placement;
//! - [`rollback`]: the journal of one tick;
//! - [`history`]: the model of a storage and its journals;
//! - [`storage`]: the storage tree and its operations;
//! - [`view`]: handles to one slot;
//! - [`graph`], [`system`], [`scheduler`]: declarations, the dependency
//!   graph and the wavefronts;
//! - [`world`] and [`query`]: the registry of the storages and the queries
//!   over them;
//! - [`laws`]: what holds of every run of operations.

pub mod arena;
pub mod bits;
pub mod component;
pub mod ecs;
pub mod entity;
pub mod error;
pub mod frame;
pub mod graph;
pub mod history;
pub mod laws;
pub mod pool;
pub mod query;
pub mod rollback;
pub mod scan;
pub mod scheduler;
pub mod storage;
pub mod system;
pub mod tick;
pub mod view;
pub mod world;
