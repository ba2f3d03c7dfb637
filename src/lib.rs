//! An agent-based modelling kernel: mobile turtles on a lattice of patches,
//! joined by links, driven through collective operations on agent sets.
//!
//! The `World` owns every agent. Turtles are identified by their `who`
//! number, which is also their index in the world and their node index in
//! both link graphs; patches by their row-major lattice index. Agent sets
//! hold identities, so a set taken from the world stays valid as agents
//! change, and operations that change agents go through the world.
//!
//! Positions, headings and sizes are fixed point: `SCALE` units make one
//! patch width or one degree. Operations that need real trigonometry (moving
//! forward along a heading, the heading towards a point) take or give the
//! integer offsets and leave the float work to the caller.
//!
//! When a turtle dies, identities stay dense: the turtle with the highest
//! identity takes over the freed one, in the world, in the residency index
//! and in both graphs (whose last node likewise takes the freed node index).
//! So an identity always names the same slot everywhere, at the price of
//! a turtle's identity changing when another dies.
pub mod agentset;
pub mod common;
pub mod graph;
pub mod idset;
pub mod lattice;
pub mod links;
pub mod model;
pub mod random;
pub mod space;
pub mod variables;
pub mod world;

pub use agentset::{AgentSet, PatchKind, PatchSet, SampleError, TurtleKind, TurtleSet};
pub use common::n_values;
pub use lattice::{Geometry, OriginLocation, MAX_EXTENT};
pub use model::Model;
pub use space::{toroidal_distance, toroidal_transform, COORD_LIMIT, HALF, SCALE};
pub use variables::VarStore;
pub use links::LinkId;
pub use world::{Color, Patch, Turtle, World, FULL_TURN};
