use vstd::prelude::*;

pub mod app;
pub mod archetypes;
pub mod collections;
pub mod entity;
pub mod events;
pub mod filter;
pub mod query;
pub mod reactivity;
pub mod registry;
pub mod resources;
pub mod schedule;
pub mod schedule_order;
pub mod system;
pub mod world;

verus! {
} // verus!
