//! A falling-sand world: cells of sand, fluid, stone and taps on an unbounded grid that is
//! stored in chunks, and the tick that moves them. Every function states what it returns
//! or changes, and the statements are proved.

pub mod assets;
pub mod enums;
pub mod events;
pub mod math;
pub mod resources;
pub mod systems;
