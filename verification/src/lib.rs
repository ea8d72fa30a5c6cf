//! A pixel-world engine core: deterministic random numbers, event queues,
//! the material table, the falling-sand pixel simulation, light propagation
//! and the integer parts of world and vegetation generation.
use vstd::prelude::*;

pub mod rng;
pub mod events;
pub mod clock;
pub mod materials;
pub mod world;
pub mod conserve;
pub mod floaters;
pub mod light;
pub mod gen;
pub mod veg;
pub mod keys;
pub mod input;
pub mod game;
pub mod inventory;
pub mod scene;
pub mod atlas;
pub mod sheet;
pub mod tools;
pub mod save;

verus! {

} // verus!
