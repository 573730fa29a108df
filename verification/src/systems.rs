pub mod cell_management;
pub mod physics;
pub mod render;
pub mod soundness;
pub mod unresolved;
