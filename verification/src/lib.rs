use vstd::prelude::*;

pub mod apply;
pub mod archetype;
pub mod bench;
pub mod columns;
pub mod commands;
pub mod component;
pub mod components;
pub mod despawn;
pub mod entities;
pub mod entity;
pub mod fair;
pub mod hierarchy;
pub mod keyed;
pub mod laws;
pub mod load;
pub mod machine;
pub mod markers;
pub mod query;
pub mod registry;
pub mod resources;
pub mod schema;
pub mod serialize;
pub mod signature;
pub mod spawn;
pub mod structure;
pub mod system;
pub mod world;

verus! {

} // verus!
