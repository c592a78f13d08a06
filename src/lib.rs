//! Places points on the unit sphere so that they repel one another.
//!
//! The library holds the parts of the system whose behaviour is stated and
//! proved exactly:
//! - `pairs`: packing of angle pairs into the flat vector a solver works on;
//! - `coordinator`: which optimization request is current, and which
//!   finished result may reach the animation;
//! - `energy`: the pairwise repulsion energy, computed exactly on integer
//!   coordinates;
//! - `fixed`: fixed-point vectors and their normalization;
//! - `animation`: the per-frame update of the displayed points.
pub mod animation;
pub mod coordinator;
pub mod energy;
pub mod fixed;
pub mod pairs;
