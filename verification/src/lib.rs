//! Conflict-free replicated data types with a versioned persistence layer.
//!
//! Replicas change their state without coordination. When states are
//! exchanged, `merge` joins them into a state that holds what both held.
//! For every type the join is stated as a function on mathematical states,
//! and proved commutative, associative and idempotent where it is.
//!
//! - Counters: [`gcounter`], [`pncounter`].
//! - Sets: [`gset`], [`twop_set`], [`or_set`].
//! - Registers: [`lww_register`], [`mv_register`].
//! - Sequences: [`rga`] with [`rga_order`], and [`text`].
//! - Timestamps: [`clock`].
//! - Persistence: [`envelope`] frames serialized values, [`engine`] migrates
//!   them from older schema versions, [`store`] is the interface of a
//!   backend with [`memory`] as the reference backend, and [`db`] puts them
//!   together.
//!
//! The collections are built on [`sorted_map`], a map kept in increasing
//! order of key, over the keys of [`element`] and the order of [`order`].

pub mod clock;
pub mod crdt;
pub mod db;
pub mod element;
pub mod engine;
pub mod envelope;
pub mod gcounter;
pub mod gset;
pub mod lww_register;
pub mod memory;
pub mod mv_register;
pub mod or_set;
pub mod order;
pub mod pncounter;
pub mod prelude;
pub mod render;
pub mod rga;
pub mod rga_order;
pub mod sorted_map;
pub mod store;
pub mod tag;
pub mod text;
pub mod time;
pub mod twop_set;
pub mod version;
